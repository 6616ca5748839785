//! Translation tables: one association list of key/value pairs per locale,
//! with a current locale that `translate` reads from.
use vstd::prelude::*;
use vstd::pervasive::VecAdditionalExecFns;

use crate::kv::{lookup_assoc, lemma_lookup_skip, lemma_lookup_update, lemma_lookup_push,
    pairs_view, insert_entry};

verus! {

/// The translation tables of all locales, and the locale `translate` uses.
pub struct Localisation {
    data: Vec<(String, Vec<(String, String)>)>,
    current_locale: String,
}

/// A batch of key/value updates applied in order: the value of the last
/// pair holding the key, if any.
pub open spec fn updates_view(pairs: Seq<(&str, &str)>, key: Seq<char>) -> Option<Seq<char>>
    decreases pairs.len(),
{
    if pairs.len() == 0 {
        None
    } else if pairs.last().0@ == key {
        Some(pairs.last().1@)
    } else {
        updates_view(pairs.drop_last(), key)
    }
}

impl Localisation {
    /// The per-locale tables, by their character contents.
    pub closed spec fn locales(self) -> Seq<(Seq<char>, Seq<(Seq<char>, Seq<char>)>)> {
        self.data@.map_values(|p: (String, Vec<(String, String)>)| (p.0@, pairs_view(p.1@)))
    }

    /// The locale `translate` reads from.
    pub closed spec fn locale(self) -> Seq<char> {
        self.current_locale@
    }

    /// What `translate` returns for `key`: the value stored under the key
    /// in the current locale's table, or the key itself.
    pub open spec fn spec_translate(self, key: Seq<char>) -> Seq<char> {
        match lookup_assoc(self.locales(), self.locale()) {
            Some(entries) => match lookup_assoc(entries, key) {
                Some(v) => v,
                None => key,
            },
            None => key,
        }
    }

    /// An empty table set, reading from the `en-AU` locale.
    pub fn new() -> (r: Localisation)
        ensures
            r.locales().len() == 0,
            r.locale() == "en-AU"@,
    {
        Localisation { data: Vec::new(), current_locale: "en-AU".to_owned() }
    }

    /// Translates `key` in the current locale, returning the key itself
    /// where no translation is stored.
    pub fn translate(&self, key: String) -> (r: String)
        ensures
            r@ == self.spec_translate(key@),
    {
        let n = self.data.len();
        let mut i: usize = 0;
        while i < n
            invariant
                i <= n,
                n == self.data@.len(),
                forall|l: int| 0 <= l < i ==> (#[trigger] self.locales()[l]).0 != self.locale(),
            decreases n - i,
        {
            let hit = self.data[i].0 == self.current_locale;
            if hit {
                proof {
                    lemma_lookup_skip(self.locales(), self.locale(), i as int);
                    assert(self.locales().skip(i as int)[0] == self.locales()[i as int]);
                }
                let found = crate::kv::get_entry(&self.data[i].1, &key);
                match found {
                    Some(v) => {
                        return v;
                    },
                    None => {
                        return key;
                    },
                }
            }
            i += 1;
        }
        proof {
            lemma_lookup_skip(self.locales(), self.locale(), n as int);
            assert(self.locales().skip(n as int) =~= Seq::<
                (Seq<char>, Seq<(Seq<char>, Seq<char>)>),
            >::empty());
        }
        key
    }

    /// Merges a batch of key/value pairs into the table of `locale`,
    /// creating the table if the locale is new. Later pairs of the batch
    /// win over earlier ones; other locales are untouched.
    pub fn insert_data(&mut self, locale: &'static str, data: Vec<(&'static str, &'static str)>)
        ensures
            final(self).locale() == old(self).locale(),
            forall|k2: Seq<char>|
                k2 != locale@ ==> #[trigger] lookup_assoc(final(self).locales(), k2)
                    == lookup_assoc(old(self).locales(), k2),
            lookup_assoc(final(self).locales(), locale@) is Some,
            forall|k: Seq<char>|
                #[trigger] lookup_assoc(
                    lookup_assoc(final(self).locales(), locale@).unwrap(),
                    k,
                ) == (match updates_view(data@, k) {
                    Some(v) => Some(v),
                    None => match lookup_assoc(old(self).locales(), locale@) {
                        Some(e) => lookup_assoc(e, k),
                        None => None,
                    },
                }),
    {
        let name = locale.to_owned();
        let n = self.data.len();
        let mut i: usize = 0;
        while i < n
            invariant
                i <= n,
                n == self.data@.len(),
                self == old(self),
                name@ == locale@,
                forall|l: int| 0 <= l < i ==> (#[trigger] self.locales()[l]).0 != locale@,
            decreases n - i,
        {
            let hit = self.data[i].0 == name;
            if hit {
                proof {
                    lemma_lookup_skip(self.locales(), locale@, i as int);
                    assert(self.locales().skip(i as int)[0] == self.locales()[i as int]);
                }
                let mut entry = self.data.remove(i);
                let merged = merge_pairs(entry.1, data);
                entry.1 = merged;
                self.data.insert(i, entry);
                proof {
                    lemma_lookup_update(
                        old(self).locales(),
                        locale@,
                        i as int,
                        pairs_view(self.data@[i as int].1@),
                    );
                    assert(self.locales() =~= old(self).locales().update(
                        i as int,
                        (locale@, pairs_view(self.data@[i as int].1@)),
                    ));
                }
                return ;
            }
            i += 1;
        }
        proof {
            lemma_lookup_skip(self.locales(), locale@, n as int);
            assert(self.locales().skip(n as int) =~= Seq::<
                (Seq<char>, Seq<(Seq<char>, Seq<char>)>),
            >::empty());
        }
        let fresh: Vec<(String, String)> = Vec::new();
        proof {
            assert(pairs_view(fresh@) =~= Seq::<(Seq<char>, Seq<char>)>::empty());
        }
        let merged = merge_pairs(fresh, data);
        proof {
            lemma_lookup_push(self.locales(), locale@, pairs_view(merged@));
        }
        self.data.push((name, merged));
        proof {
            assert(self.locales() =~= old(self).locales().push(
                (locale@, pairs_view(self.data@[n as int].1@)),
            ));
            assert forall|k: Seq<char>| #[trigger] lookup_assoc(
                Seq::<(Seq<char>, Seq<char>)>::empty(),
                k,
            ) is None by {
            }
        }
    }
}

/// Applies a batch of key/value updates to a table, in order.
fn merge_pairs(entries: Vec<(String, String)>, data: Vec<(&str, &str)>) -> (r: Vec<
    (String, String),
>)
    ensures
        forall|k: Seq<char>|
            #[trigger] lookup_assoc(pairs_view(r@), k) == (match updates_view(data@, k) {
                Some(v) => Some(v),
                None => lookup_assoc(pairs_view(entries@), k),
            }),
{
    let mut r = entries;
    let ghost orig = pairs_view(r@);
    let n = data.len();
    let mut i: usize = 0;
    while i < n
        invariant
            i <= n,
            n == data@.len(),
            forall|k: Seq<char>|
                #[trigger] lookup_assoc(pairs_view(r@), k) == (match updates_view(
                    data@.take(i as int),
                    k,
                ) {
                    Some(v) => Some(v),
                    None => lookup_assoc(orig, k),
                }),
        decreases n - i,
    {
        let pair = data[i];
        insert_entry(&mut r, pair.0.to_owned(), pair.1.to_owned());
        proof {
            assert forall|k: Seq<char>| #[trigger] lookup_assoc(pairs_view(r@), k) == (
            match updates_view(data@.take(i as int + 1), k) {
                Some(v) => Some(v),
                None => lookup_assoc(orig, k),
            }) by {
                assert(data@.take(i as int + 1).drop_last() =~= data@.take(i as int));
                assert(data@.take(i as int + 1).last() == data@[i as int]);
            }
        }
        i += 1;
    }
    proof {
        assert(data@.take(n as int) =~= data@);
    }
    r
}

} // verus!
