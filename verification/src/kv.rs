//! Association lists of string pairs: the in-memory form behind the
//! localisation tables and the key-value store. A lookup returns the first
//! value stored under a key; an insert overwrites the first entry holding
//! the key, or appends a new one.
use vstd::prelude::*;
use vstd::pervasive::VecAdditionalExecFns;

verus! {

/// The pairs of an association list, by their character contents.
pub open spec fn pairs_view(s: Seq<(String, String)>) -> Seq<(Seq<char>, Seq<char>)> {
    s.map_values(|p: (String, String)| (p.0@, p.1@))
}

/// The first value stored under `key`, scanning from the front.
pub open spec fn lookup_assoc<V>(s: Seq<(Seq<char>, V)>, key: Seq<char>) -> Option<V>
    decreases s.len(),
{
    if s.len() == 0 {
        None
    } else if s[0].0 == key {
        Some(s[0].1)
    } else {
        lookup_assoc(s.drop_first(), key)
    }
}

/// A lookup skips over a prefix without the key.
pub proof fn lemma_lookup_skip<V>(s: Seq<(Seq<char>, V)>, key: Seq<char>, i: int)
    requires
        0 <= i <= s.len(),
        forall|j: int| 0 <= j < i ==> (#[trigger] s[j]).0 != key,
    ensures
        lookup_assoc(s, key) == lookup_assoc(s.skip(i), key),
    decreases i,
{
    if i > 0 {
        lemma_lookup_skip(s, key, i - 1);
        assert(s.skip(i - 1)[0] == s[i - 1]);
        assert(s.skip(i - 1).drop_first() =~= s.skip(i));
    } else {
        assert(s.skip(0) =~= s);
    }
}

/// Overwriting the first entry that holds `key` changes the lookup of `key`
/// and of no other key.
pub proof fn lemma_lookup_update<V>(s: Seq<(Seq<char>, V)>, key: Seq<char>, j: int, v: V)
    requires
        0 <= j < s.len(),
        s[j].0 == key,
        forall|l: int| 0 <= l < j ==> (#[trigger] s[l]).0 != key,
    ensures
        forall|k2: Seq<char>|
            #[trigger] lookup_assoc(s.update(j, (key, v)), k2) == (if k2 == key {
                Some(v)
            } else {
                lookup_assoc(s, k2)
            }),
    decreases j,
{
    let t = s.update(j, (key, v));
    if j == 0 {
        assert forall|k2: Seq<char>| #[trigger] lookup_assoc(t, k2) == (if k2 == key {
            Some(v)
        } else {
            lookup_assoc(s, k2)
        }) by {
            assert(t[0] == (key, v));
            if k2 != key {
                assert(t.drop_first() =~= s.drop_first());
            }
        }
    } else {
        lemma_lookup_update(s.drop_first(), key, j - 1, v);
        assert forall|k2: Seq<char>| #[trigger] lookup_assoc(t, k2) == (if k2 == key {
            Some(v)
        } else {
            lookup_assoc(s, k2)
        }) by {
            assert(t[0] == s[0]);
            assert(s[0].0 != key);
            assert(t.drop_first() =~= s.drop_first().update(j - 1, (key, v)));
            assert(lookup_assoc(s.drop_first().update(j - 1, (key, v)), k2) == (if k2 == key {
                Some(v)
            } else {
                lookup_assoc(s.drop_first(), k2)
            }));
        }
    }
}

/// Appending an entry under a fresh key changes the lookup of that key and
/// of no other.
pub proof fn lemma_lookup_push<V>(s: Seq<(Seq<char>, V)>, key: Seq<char>, v: V)
    requires
        forall|l: int| 0 <= l < s.len() ==> (#[trigger] s[l]).0 != key,
    ensures
        forall|k2: Seq<char>|
            #[trigger] lookup_assoc(s.push((key, v)), k2) == (if k2 == key {
                Some(v)
            } else {
                lookup_assoc(s, k2)
            }),
    decreases s.len(),
{
    let t = s.push((key, v));
    if s.len() == 0 {
        assert forall|k2: Seq<char>| #[trigger] lookup_assoc(t, k2) == (if k2 == key {
            Some(v)
        } else {
            lookup_assoc(s, k2)
        }) by {
            assert(t[0] == (key, v));
            if k2 != key {
                assert(t.drop_first() =~= Seq::<(Seq<char>, V)>::empty());
                assert(lookup_assoc(Seq::<(Seq<char>, V)>::empty(), k2) is None);
            }
        }
    } else {
        lemma_lookup_push(s.drop_first(), key, v);
        assert forall|k2: Seq<char>| #[trigger] lookup_assoc(t, k2) == (if k2 == key {
            Some(v)
        } else {
            lookup_assoc(s, k2)
        }) by {
            assert(t[0] == s[0]);
            assert(t.drop_first() =~= s.drop_first().push((key, v)));
            assert(lookup_assoc(s.drop_first().push((key, v)), k2) == (if k2 == key {
                Some(v)
            } else {
                lookup_assoc(s.drop_first(), k2)
            }));
        }
    }
}


/// The list after `value` is stored under `key`: the first entry holding
/// `key` overwritten, or a new entry appended.
pub open spec fn spec_insert(s: Seq<(Seq<char>, Seq<char>)>, key: Seq<char>, v: Seq<char>) -> Seq<
    (Seq<char>, Seq<char>),
>
    decreases s.len(),
{
    if s.len() == 0 {
        seq![(key, v)]
    } else if s[0].0 == key {
        seq![(key, v)] + s.drop_first()
    } else {
        seq![s[0]] + spec_insert(s.drop_first(), key, v)
    }
}

/// With the first entry holding `key` at `j`, `spec_insert` is the update
/// of slot `j`.
pub proof fn lemma_spec_insert_at(s: Seq<(Seq<char>, Seq<char>)>, key: Seq<char>, j: int, v: Seq<char>)
    requires
        0 <= j < s.len(),
        s[j].0 == key,
        forall|l: int| 0 <= l < j ==> (#[trigger] s[l]).0 != key,
    ensures
        spec_insert(s, key, v) == s.update(j, (key, v)),
    decreases j,
{
    if j == 0 {
        assert(spec_insert(s, key, v) =~= s.update(0, (key, v)));
    } else {
        lemma_spec_insert_at(s.drop_first(), key, j - 1, v);
        assert(spec_insert(s, key, v) =~= s.update(j, (key, v)));
    }
}

/// With no entry holding `key`, `spec_insert` appends.
pub proof fn lemma_spec_insert_missing(s: Seq<(Seq<char>, Seq<char>)>, key: Seq<char>, v: Seq<char>)
    requires
        forall|l: int| 0 <= l < s.len() ==> (#[trigger] s[l]).0 != key,
    ensures
        spec_insert(s, key, v) == s.push((key, v)),
    decreases s.len(),
{
    if s.len() == 0 {
        assert(spec_insert(s, key, v) =~= s.push((key, v)));
    } else {
        lemma_spec_insert_missing(s.drop_first(), key, v);
        assert(spec_insert(s, key, v) =~= s.push((key, v)));
    }
}

/// What `spec_insert` does to every lookup: the stored key reads the new
/// value, every other key is untouched.
pub proof fn lemma_spec_insert_lookup(s: Seq<(Seq<char>, Seq<char>)>, key: Seq<char>, v: Seq<char>)
    ensures
        forall|k2: Seq<char>|
            #[trigger] lookup_assoc(spec_insert(s, key, v), k2) == (if k2 == key {
                Some(v)
            } else {
                lookup_assoc(s, k2)
            }),
    decreases s.len(),
{
    let t = spec_insert(s, key, v);
    if s.len() == 0 {
        assert forall|k2: Seq<char>| #[trigger] lookup_assoc(t, k2) == (if k2 == key {
            Some(v)
        } else {
            lookup_assoc(s, k2)
        }) by {
            assert(t[0] == (key, v));
            if k2 != key {
                assert(t.drop_first() =~= Seq::<(Seq<char>, Seq<char>)>::empty());
                assert(lookup_assoc(Seq::<(Seq<char>, Seq<char>)>::empty(), k2) is None);
            }
        }
    } else if s[0].0 == key {
        assert forall|k2: Seq<char>| #[trigger] lookup_assoc(t, k2) == (if k2 == key {
            Some(v)
        } else {
            lookup_assoc(s, k2)
        }) by {
            assert(t[0] == (key, v));
            assert(t.drop_first() =~= s.drop_first());
        }
    } else {
        lemma_spec_insert_lookup(s.drop_first(), key, v);
        assert forall|k2: Seq<char>| #[trigger] lookup_assoc(t, k2) == (if k2 == key {
            Some(v)
        } else {
            lookup_assoc(s, k2)
        }) by {
            assert(t[0] == s[0]);
            assert(t.drop_first() =~= spec_insert(s.drop_first(), key, v));
            assert(lookup_assoc(spec_insert(s.drop_first(), key, v), k2) == (if k2 == key {
                Some(v)
            } else {
                lookup_assoc(s.drop_first(), k2)
            }));
        }
    }
}

/// Stores `value` under `key`: overwrites the first entry holding `key`, or
/// appends one.
pub fn insert_entry(entries: &mut Vec<(String, String)>, key: String, value: String)
    ensures
        pairs_view(final(entries)@) == spec_insert(pairs_view(old(entries)@), key@, value@),
        forall|k2: Seq<char>|
            #[trigger] lookup_assoc(pairs_view(final(entries)@), k2) == (if k2 == key@ {
                Some(value@)
            } else {
                lookup_assoc(pairs_view(old(entries)@), k2)
            }),
{
    let n = entries.len();
    let mut i: usize = 0;
    while i < n
        invariant
            i <= n,
            n == entries@.len(),
            entries@ == old(entries)@,
            forall|l: int| 0 <= l < i ==> (#[trigger] pairs_view(entries@)[l]).0 != key@,
        decreases n - i,
    {
        let hit = entries[i].0 == key;
        if hit {
            proof {
                lemma_lookup_update(pairs_view(entries@), key@, i as int, value@);
                lemma_spec_insert_at(pairs_view(entries@), key@, i as int, value@);
            }
            entries.set(i, (key, value));
            proof {
                assert(pairs_view(entries@) =~= pairs_view(old(entries)@).update(
                    i as int,
                    (key@, value@),
                ));
            }
            return ;
        }
        i += 1;
    }
    proof {
        lemma_lookup_push(pairs_view(entries@), key@, value@);
        lemma_spec_insert_missing(pairs_view(entries@), key@, value@);
    }
    entries.push((key, value));
    proof {
        assert(pairs_view(entries@) =~= pairs_view(old(entries)@).push((key@, value@)));
    }
}

/// Returns a copy of the first value stored under `key`, if any.
pub fn get_entry(entries: &Vec<(String, String)>, key: &String) -> (r: Option<String>)
    ensures
        match r {
            Some(v) => lookup_assoc(pairs_view(entries@), key@) == Some(v@),
            None => lookup_assoc(pairs_view(entries@), key@) is None,
        },
{
    let n = entries.len();
    let mut i: usize = 0;
    while i < n
        invariant
            i <= n,
            n == entries@.len(),
            forall|l: int| 0 <= l < i ==> (#[trigger] pairs_view(entries@)[l]).0 != key@,
        decreases n - i,
    {
        let hit = entries[i].0 == *key;
        if hit {
            proof {
                lemma_lookup_skip(pairs_view(entries@), key@, i as int);
                assert(pairs_view(entries@).skip(i as int)[0] == pairs_view(entries@)[i as int]);
            }
            return Some(entries[i].1.clone());
        }
        i += 1;
    }
    proof {
        lemma_lookup_skip(pairs_view(entries@), key@, n as int);
        assert(pairs_view(entries@).skip(n as int) =~= Seq::<(Seq<char>, Seq<char>)>::empty());
    }
    None
}

/// A run of pairs folded into a table in order: later pairs win over
/// earlier ones holding the same key, as inserting them one by one gives.
pub open spec fn dedup_pairs(ps: Seq<(Seq<char>, Seq<char>)>) -> Seq<(Seq<char>, Seq<char>)>
    decreases ps.len(),
{
    if ps.len() == 0 {
        Seq::empty()
    } else {
        spec_insert(dedup_pairs(ps.drop_last()), ps.last().0, ps.last().1)
    }
}

/// The value of the last pair holding `key` in a run of pairs, if any.
pub open spec fn last_match(ps: Seq<(Seq<char>, Seq<char>)>, key: Seq<char>) -> Option<Seq<char>>
    decreases ps.len(),
{
    if ps.len() == 0 {
        None
    } else if ps.last().0 == key {
        Some(ps.last().1)
    } else {
        last_match(ps.drop_last(), key)
    }
}

/// **Later pairs win.** Looking a key up in the folded table returns the
/// value of the last pair that held it.
pub proof fn lemma_dedup_later_wins(ps: Seq<(Seq<char>, Seq<char>)>, key: Seq<char>)
    ensures
        lookup_assoc(dedup_pairs(ps), key) == last_match(ps, key),
    decreases ps.len(),
{
    if ps.len() == 0 {
        assert(lookup_assoc(Seq::<(Seq<char>, Seq<char>)>::empty(), key) is None);
    } else {
        lemma_dedup_later_wins(ps.drop_last(), key);
        lemma_spec_insert_lookup(dedup_pairs(ps.drop_last()), ps.last().0, ps.last().1);
    }
}

/// Folding a run whose keys are pairwise distinct changes nothing.
pub proof fn lemma_dedup_distinct(ps: Seq<(Seq<char>, Seq<char>)>)
    requires
        forall|i: int, j: int|
            0 <= i < j < ps.len() ==> (#[trigger] ps[i]).0 != (#[trigger] ps[j]).0,
    ensures
        dedup_pairs(ps) == ps,
    decreases ps.len(),
{
    if ps.len() > 0 {
        lemma_dedup_distinct(ps.drop_last());
        assert forall|l: int|
            0 <= l < ps.drop_last().len() implies (#[trigger] ps.drop_last()[l]).0
            != ps.last().0 by {
            assert(ps.drop_last()[l] == ps[l]);
        }
        lemma_spec_insert_missing(ps.drop_last(), ps.last().0, ps.last().1);
        assert(ps.drop_last().push(ps.last()) =~= ps);
    }
}

/// Folds the pairs into a table, in order: later pairs overwrite earlier
/// ones holding the same key.
pub fn dedup_entries(pairs: &Vec<(String, String)>) -> (r: Vec<(String, String)>)
    ensures
        pairs_view(r@) == dedup_pairs(pairs_view(pairs@)),
{
    let ghost ps = pairs_view(pairs@);
    let mut r: Vec<(String, String)> = Vec::new();
    let n = pairs.len();
    let mut i: usize = 0;
    proof {
        assert(pairs_view(r@) =~= dedup_pairs(ps.take(0)));
    }
    while i < n
        invariant
            i <= n,
            n == pairs@.len(),
            ps == pairs_view(pairs@),
            pairs_view(r@) == dedup_pairs(ps.take(i as int)),
        decreases n - i,
    {
        let p = &pairs[i];
        insert_entry(&mut r, p.0.clone(), p.1.clone());
        proof {
            assert(ps.take(i as int + 1).drop_last() =~= ps.take(i as int));
            assert(ps.take(i as int + 1).last() == ps[i as int]);
        }
        i += 1;
    }
    proof {
        assert(ps.take(n as int) =~= ps);
    }
    r
}

} // verus!
