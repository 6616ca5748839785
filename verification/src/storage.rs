//! The file-backed key-value store behind an instance's per-game metadata:
//! string keys and values, held in memory as an association list with one
//! entry per key, written out as alternating key and value lines. A file is
//! read the way `str::lines` reads it — a final line break ends the last
//! line rather than opening an empty one, and a `\r` before a line break is
//! stripped — and when a key appears on several key lines, the later pair
//! wins. Reading the backing file and writing it back are the caller's
//! work; this module owns the table and its line format.
use vstd::prelude::*;
use vstd::string::{StringExecFns, StrSliceExecFns};

use crate::kv::{
    lookup_assoc,
    pairs_view,
    insert_entry,
    get_entry,
    dedup_pairs,
    dedup_entries,
    lemma_dedup_distinct,
};

verus! {

/// One entry as it stands in the file: the key, a line break, the value.
pub open spec fn entry_text(p: (Seq<char>, Seq<char>)) -> Seq<char> {
    p.0 + seq!['\n'] + p.1
}

/// The file form of a table: the entries' texts joined by line breaks, so
/// keys and values alternate line by line.
pub open spec fn table_text(s: Seq<(Seq<char>, Seq<char>)>) -> Seq<char>
    decreases s.len(),
{
    if s.len() == 0 {
        Seq::empty()
    } else if s.len() == 1 {
        entry_text(s[0])
    } else {
        table_text(s.drop_last()) + seq!['\n'] + entry_text(s.last())
    }
}

/// The position of the first line break, or the length if there is none.
pub open spec fn first_nl(s: Seq<char>) -> nat
    decreases s.len(),
{
    if s.len() == 0 {
        0
    } else if s[0] == '\n' {
        0
    } else {
        1 + first_nl(s.drop_first())
    }
}

/// A line with a carriage return before its line break loses it.
pub open spec fn strip_cr(s: Seq<char>) -> Seq<char> {
    if s.len() > 0 && s.last() == '\r' {
        s.drop_last()
    } else {
        s
    }
}

/// The lines of a text, as `str::lines` reads them: split at every line
/// break, a carriage return before a break stripped, and a final break
/// closing the last line instead of opening an empty one.
pub open spec fn spec_lines(s: Seq<char>) -> Seq<Seq<char>>
    decreases s.len(),
{
    if s.len() == 0 {
        Seq::empty()
    } else {
        let i = first_nl(s);
        if i >= s.len() {
            seq![s]
        } else {
            seq![strip_cr(s.take(i as int))] + spec_lines(s.skip(i as int + 1))
        }
    }
}

/// Consecutive lines paired up: a key line, then its value line. A
/// trailing line without a partner is dropped.
pub open spec fn pair_up(lines: Seq<Seq<char>>) -> Seq<(Seq<char>, Seq<char>)>
    decreases lines.len(),
{
    if lines.len() < 2 {
        Seq::empty()
    } else {
        seq![(lines[0], lines[1])] + pair_up(lines.skip(2))
    }
}

/// The pairs as they stand in the file, duplicates included.
pub open spec fn raw_table(s: Seq<char>) -> Seq<(Seq<char>, Seq<char>)> {
    pair_up(spec_lines(s))
}

/// The table read from a file text: its lines paired up, and when a key
/// appears more than once, the later pair winning.
pub open spec fn parsed_table(s: Seq<char>) -> Seq<(Seq<char>, Seq<char>)> {
    dedup_pairs(raw_table(s))
}

/// Text without a line break: what a key or value must be for the file
/// form to read back.
pub open spec fn no_nl(s: Seq<char>) -> bool {
    forall|i: int| 0 <= i < s.len() ==> s[i] != '\n'
}

/// Text that does not end in a carriage return, so the file form does not
/// swallow one.
pub open spec fn no_trailing_cr(s: Seq<char>) -> bool {
    s.len() == 0 || s.last() != '\r'
}

/// `table_text` unrolled from the front: the first entry, a line break,
/// the rest.
proof fn lemma_table_text_front(s: Seq<(Seq<char>, Seq<char>)>)
    requires
        s.len() >= 2,
    ensures
        table_text(s) == entry_text(s[0]) + seq!['\n'] + table_text(s.drop_first()),
    decreases s.len(),
{
    if s.len() == 2 {
        assert(s.drop_last()[0] == s[0]);
        assert(s.drop_first()[0] == s[1]);
        assert(s.drop_first().len() == 1);
        assert(s.drop_last().len() == 1);
        assert(table_text(s.drop_last()) == entry_text(s[0]));
        assert(table_text(s.drop_first()) == entry_text(s[1]));
        assert(s.last() == s[1]);
    } else {
        lemma_table_text_front(s.drop_last());
        assert(s.drop_last()[0] == s[0]);
        assert(s.drop_last().drop_first() =~= s.drop_first().drop_last());
        assert(s.drop_first().last() == s.last());
        assert(s.drop_first().len() >= 2);
        assert(table_text(s.drop_first()) == table_text(s.drop_first().drop_last()) + seq!['\n']
            + entry_text(s.drop_first().last()));
        assert((entry_text(s[0]) + seq!['\n'] + table_text(s.drop_first().drop_last())) + seq![
            '\n',
        ] + entry_text(s.last()) =~= entry_text(s[0]) + seq!['\n'] + (table_text(
            s.drop_first().drop_last(),
        ) + seq!['\n'] + entry_text(s.drop_first().last())));
    }
}

/// Splitting peels one clean line off the front.
proof fn lemma_split_peel(a: Seq<char>, b: Seq<char>)
    requires
        no_nl(a),
        no_trailing_cr(a),
    ensures
        spec_lines(a + seq!['\n'] + b) == seq![a] + spec_lines(b),
{
    let t = a + seq!['\n'] + b;
    assert forall|l: int| 0 <= l < a.len() implies t[l] != '\n' by {
        assert(t[l] == a[l]);
    }
    assert(t[a.len() as int] == '\n');
    lemma_first_nl_at(t, a.len() as int);
    assert(t.take(a.len() as int) =~= a);
    assert(strip_cr(a) == a);
    assert(t.skip(a.len() as int + 1) =~= b);
}

/// A nonempty text without line breaks splits into itself alone,
/// untouched: only a line ended by a break can lose a carriage return.
proof fn lemma_split_whole(a: Seq<char>)
    requires
        no_nl(a),
        a.len() > 0,
    ensures
        spec_lines(a) == seq![a],
{
    lemma_first_nl_at(a, a.len() as int);
}

/// **Round trip.** A table reads back from its file form exactly when the
/// line format can carry it: keys pairwise distinct (the table is a map),
/// no line breaks or trailing carriage returns inside keys or values (the
/// format could not hold them), and the last value nonempty (a final empty
/// line is read as a line ending, as `str::lines` reads it).
pub proof fn lemma_table_round_trip(s: Seq<(Seq<char>, Seq<char>)>)
    requires
        forall|i: int|
            0 <= i < s.len() ==> no_nl((#[trigger] s[i]).0) && no_nl(s[i].1) && no_trailing_cr(
                s[i].0,
            ) && no_trailing_cr(s[i].1),
        forall|i: int, j: int|
            0 <= i < j < s.len() ==> (#[trigger] s[i]).0 != (#[trigger] s[j]).0,
        s.len() == 0 || s.last().1.len() > 0,
    ensures
        parsed_table(table_text(s)) == s,
{
    lemma_raw_round_trip(s);
    lemma_dedup_distinct(s);
}

/// The undeduplicated pairs of the file form are the table's entries.
proof fn lemma_raw_round_trip(s: Seq<(Seq<char>, Seq<char>)>)
    requires
        forall|i: int|
            0 <= i < s.len() ==> no_nl((#[trigger] s[i]).0) && no_nl(s[i].1) && no_trailing_cr(
                s[i].0,
            ) && no_trailing_cr(s[i].1),
        s.len() == 0 || s.last().1.len() > 0,
    ensures
        raw_table(table_text(s)) == s,
    decreases s.len(),
{
    if s.len() == 0 {
        assert(table_text(s) =~= Seq::<char>::empty());
        assert(spec_lines(table_text(s)) == Seq::<Seq<char>>::empty());
        assert(raw_table(table_text(s)) =~= s);
    } else if s.len() == 1 {
        let k = s[0].0;
        let v = s[0].1;
        assert(s.last() == s[0]);
        assert(table_text(s) == k + seq!['\n'] + v);
        lemma_split_peel(k, v);
        lemma_split_whole(v);
        let lines = seq![k] + seq![v];
        assert(spec_lines(table_text(s)) == lines);
        assert(lines.len() == 2);
        assert(lines[0] == k);
        assert(lines[1] == v);
        assert(lines.skip(2) =~= Seq::<Seq<char>>::empty());
        assert(pair_up(Seq::<Seq<char>>::empty()) == Seq::<(Seq<char>, Seq<char>)>::empty());
        assert(pair_up(lines) =~= s);
    } else {
        let k = s[0].0;
        let v = s[0].1;
        let rest = s.drop_first();
        assert(rest.last() == s.last());
        lemma_table_text_front(s);
        lemma_raw_round_trip(rest);
        assert(table_text(s) =~= k + seq!['\n'] + (v + seq!['\n'] + table_text(rest)));
        lemma_split_peel(k, v + seq!['\n'] + table_text(rest));
        lemma_split_peel(v, table_text(rest));
        let lines = seq![k] + (seq![v] + spec_lines(table_text(rest)));
        assert(spec_lines(table_text(s)) == lines);
        assert(lines.len() >= 2);
        assert(lines[0] == k);
        assert(lines[1] == v);
        assert(lines.skip(2) =~= spec_lines(table_text(rest)));
        assert(pair_up(lines) == seq![(k, v)] + pair_up(spec_lines(table_text(rest))));
        assert(seq![(k, v)] + rest =~= s);
    }
}

/// `first_nl` is pinned by a scan that found the break (or the end) at `k`.
proof fn lemma_first_nl_at(s: Seq<char>, k: int)
    requires
        0 <= k <= s.len(),
        forall|l: int| 0 <= l < k ==> s[l] != '\n',
        k == s.len() || s[k] == '\n',
    ensures
        first_nl(s) == k,
    decreases k,
{
    if k > 0 {
        assert(s[0] != '\n');
        lemma_first_nl_at(s.drop_first(), k - 1);
    }
}

/// The lines of `text` from character `from` on.
fn split_lines_from(text: &str, from: usize, len: usize) -> (r: Vec<String>)
    requires
        from <= len,
        len == text@.len(),
    ensures
        r@.map_values(|x: String| x@) == spec_lines(text@.skip(from as int)),
    decreases len - from,
{
    let ghost suffix = text@.skip(from as int);
    if from == len {
        let r: Vec<String> = Vec::new();
        proof {
            assert(suffix =~= Seq::<char>::empty());
            assert(r@.map_values(|x: String| x@) =~= spec_lines(suffix));
        }
        return r;
    }
    let mut i = from;
    while i < len && text.get_char(i) != '\n'
        invariant
            from <= i <= len,
            len == text@.len(),
            suffix == text@.skip(from as int),
            forall|l: int| from <= l < i ==> text@[l] != '\n',
        decreases len - i,
    {
        i += 1;
    }
    proof {
        assert forall|l: int| 0 <= l < i - from implies suffix[l] != '\n' by {
            assert(suffix[l] == text@[from + l]);
        }
        lemma_first_nl_at(suffix, i as int - from as int);
    }
    if i == len {
        let line = String::from_str(text.substring_char(from, i));
        let mut r: Vec<String> = Vec::new();
        r.push(line);
        proof {
            assert(line@ =~= suffix);
            assert(r@.map_values(|x: String| x@) =~= spec_lines(suffix));
        }
        r
    } else {
        let end = if i > from && text.get_char(i - 1) == '\r' {
            i - 1
        } else {
            i
        };
        let line = String::from_str(text.substring_char(from, end));
        let mut r = split_lines_from(text, i + 1, len);
        r.insert(0, line);
        proof {
            let piece = suffix.take(i as int - from as int);
            if i > from && text@[i as int - 1] == '\r' {
                assert(piece.last() == text@[i as int - 1]);
                assert(line@ =~= piece.drop_last());
                assert(strip_cr(piece) == piece.drop_last());
            } else {
                assert(line@ =~= piece);
                if piece.len() > 0 {
                    assert(piece.last() == text@[i as int - 1]);
                }
                assert(strip_cr(piece) == piece);
            }
            assert(text@.skip(i as int + 1) =~= suffix.skip(i as int - from as int + 1));
            assert(r@.map_values(|x: String| x@) =~= spec_lines(suffix));
        }
        r
    }
}

/// The lines from `from` on, paired up.
fn pair_lines_from(lines: &Vec<String>, from: usize) -> (r: Vec<(String, String)>)
    requires
        from <= lines@.len(),
    ensures
        pairs_view(r@) == pair_up(lines@.map_values(|x: String| x@).skip(from as int)),
    decreases lines@.len() - from,
{
    let ghost rest = lines@.map_values(|x: String| x@).skip(from as int);
    let n = lines.len();
    if n - from >= 2 {
        let mut r = pair_lines_from(lines, from + 2);
        r.insert(0, (lines[from].clone(), lines[from + 1].clone()));
        proof {
            assert(lines@.map_values(|x: String| x@).skip(from as int + 2) =~= rest.skip(2));
            assert(rest[0] == lines@[from as int]@);
            assert(rest[1] == lines@[from as int + 1]@);
            assert(pairs_view(r@) =~= pair_up(rest));
        }
        r
    } else {
        let r: Vec<(String, String)> = Vec::new();
        proof {
            assert(pairs_view(r@) =~= pair_up(rest));
        }
        r
    }
}

/// Reads a table from the file text: alternating key and value lines, the
/// later pair winning where a key repeats.
pub fn parse_table(text: &str) -> (r: Vec<(String, String)>)
    ensures
        pairs_view(r@) == parsed_table(text@),
{
    let len = text.unicode_len();
    let lines = split_lines_from(text, 0, len);
    proof {
        assert(text@.skip(0) =~= text@);
        assert(lines@.map_values(|x: String| x@).skip(0) =~= lines@.map_values(|x: String| x@));
    }
    let raw = pair_lines_from(&lines, 0);
    dedup_entries(&raw)
}

/// A key-value table together with the path of the file it mirrors.
pub struct PLUTO {
    path: String,
    items: Vec<(String, String)>,
}

impl PLUTO {
    /// The stored pairs, by their character contents.
    pub closed spec fn entries(self) -> Seq<(Seq<char>, Seq<char>)> {
        pairs_view(self.items@)
    }

    /// The path of the backing file.
    pub closed spec fn spec_path(self) -> Seq<char> {
        self.path@
    }

    /// Wraps a table read from `path`. The items are folded in order, so
    /// on a repeated key the later pair wins, and the table keeps one
    /// entry per key.
    pub fn new(path: String, items: Vec<(String, String)>) -> (r: PLUTO)
        ensures
            r.spec_path() == path@,
            r.entries() == dedup_pairs(pairs_view(items@)),
    {
        let folded = dedup_entries(&items);
        PLUTO { path, items: folded }
    }

    /// Returns a copy of the value stored under `key`, if any.
    pub fn get(&self, key: &String) -> (r: Option<String>)
        ensures
            match r {
                Some(v) => lookup_assoc(self.entries(), key@) == Some(v@),
                None => lookup_assoc(self.entries(), key@) is None,
            },
    {
        get_entry(&self.items, key)
    }

    /// Stores `value` under `key`, overwriting an existing entry. The
    /// caller is in charge of persisting the table afterwards.
    pub fn set(&mut self, key: String, value: String)
        ensures
            final(self).spec_path() == old(self).spec_path(),
            forall|k2: Seq<char>|
                #[trigger] lookup_assoc(final(self).entries(), k2) == (if k2 == key@ {
                    Some(value@)
                } else {
                    lookup_assoc(old(self).entries(), k2)
                }),
    {
        insert_entry(&mut self.items, key, value);
    }

    /// The file form of the table, ready to be written to `spec_path`:
    /// each entry a key line followed by a value line.
    pub fn serialize(&self) -> (r: String)
        ensures
            r@ == table_text(self.entries()),
    {
        let ghost all = pairs_view(self.items@);
        let mut out = String::new();
        let n = self.items.len();
        let mut i: usize = 0;
        while i < n
            invariant
                i <= n,
                n == self.items@.len(),
                all == pairs_view(self.items@),
                out@ == table_text(all.take(i as int)),
            decreases n - i,
        {
            if i > 0 {
                out.append("\n");
            }
            out.append(self.items[i].0.as_str());
            out.append("\n");
            out.append(self.items[i].1.as_str());
            proof {
                reveal_strlit("\n");
                assert("\n"@ =~= seq!['\n']);
                assert(all.take(i as int + 1).drop_last() =~= all.take(i as int));
                assert(all.take(i as int + 1).last() == all[i as int]);
                assert(entry_text(all[i as int]) == self.items@[i as int].0@ + seq!['\n']
                    + self.items@[i as int].1@);
                assert(out@ =~= table_text(all.take(i as int + 1)));
            }
            i += 1;
        }
        proof {
            assert(all.take(n as int) =~= all);
        }
        out
    }
}

} // verus!
