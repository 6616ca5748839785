//! The decisions of the GIF image loader: whether a URI or a MIME type can
//! name a GIF at all, and which frame of a decoded animation to show at a
//! given time. The loader itself — fetching bytes, decoding frames, caching
//! them, reading the clock — lives with the frontend and hands plain values
//! in.
use vstd::prelude::*;
use vstd::string::StrSliceExecFns;

verus! {

/// `t` occurs in `s` starting at position `i`.
pub open spec fn occurs_at(s: Seq<char>, t: Seq<char>, i: int) -> bool {
    0 <= i && i + t.len() <= s.len() && s.subrange(i, i + t.len()) == t
}

/// `t` occurs somewhere in `s`.
pub open spec fn contains_seq(s: Seq<char>, t: Seq<char>) -> bool {
    exists|i: int| occurs_at(s, t, i)
}

/// Whether `t` occurs in `s`.
fn contains_str(s: &str, t: &str) -> (r: bool)
    ensures
        r == contains_seq(s@, t@),
{
    let n = s.unicode_len();
    let m = t.unicode_len();
    if m > n {
        proof {
            assert forall|i: int| !occurs_at(s@, t@, i) by {}
        }
        return false;
    }
    let mut i: usize = 0;
    while i <= n - m
        invariant
            m <= n,
            n == s@.len(),
            m == t@.len(),
            i <= n - m + 1,
            forall|l: int| 0 <= l < i ==> !occurs_at(s@, t@, l),
        decreases n - i,
    {
        let mut j: usize = 0;
        while j < m && s.get_char(i + j) == t.get_char(j)
            invariant
                m <= n,
                n == s@.len(),
                m == t@.len(),
                i <= n - m,
                j <= m,
                forall|l: int| 0 <= l < j ==> s@[i + l] == t@[l],
            decreases m - j,
        {
            j += 1;
        }
        if j == m {
            proof {
                assert(s@.subrange(i as int, i as int + m as int) =~= t@);
                assert(occurs_at(s@, t@, i as int));
            }
            return true;
        }
        proof {
            assert(!occurs_at(s@, t@, i as int)) by {
                if occurs_at(s@, t@, i as int) {
                    assert(s@.subrange(i as int, i as int + m as int)[j as int] == t@[j as int]);
                }
            }
        }
        i += 1;
    }
    proof {
        assert forall|l: int| !occurs_at(s@, t@, l) by {
            if occurs_at(s@, t@, l) {
                assert(0 <= l <= n - m);
            }
        }
    }
    false
}

/// A MIME type that cannot name a GIF: one that does not mention `gif`.
pub fn is_unsupported_mime(mime: &str) -> (r: bool)
    ensures
        r == !contains_seq(mime@, "gif"@),
{
    !contains_str(mime, "gif")
}

/// The URI with trailing separators and trailing lone-dot segments
/// removed: what remains is the path that names the file, the way a path
/// library reads `a/b/`, `a/b/.` or `a/b/.//.` as naming `b`.
pub open spec fn trim_path(s: Seq<char>) -> Seq<char>
    decreases s.len(),
{
    if s.len() == 0 {
        s
    } else if s.last() == '/' {
        trim_path(s.drop_last())
    } else if s.last() == '.' && (s.len() == 1 || s[s.len() - 2] == '/') {
        trim_path(s.drop_last())
    } else {
        s
    }
}

/// The position after the last `/` of the path: where its final segment
/// starts.
pub open spec fn segment_start(uri: Seq<char>) -> int
    decreases uri.len(),
{
    if uri.len() == 0 {
        0
    } else if uri.last() == '/' {
        uri.len() as int
    } else {
        segment_start(uri.drop_last())
    }
}

/// The position of the path's last dot, or `-1` if it has none.
pub open spec fn last_dot(uri: Seq<char>) -> int
    decreases uri.len(),
{
    if uri.len() == 0 {
        -1
    } else if uri.last() == '.' {
        uri.len() - 1
    } else {
        last_dot(uri.drop_last())
    }
}

/// The extension of the file the URI names: what follows the last dot of
/// the final segment of the trimmed path — none when nothing remains after
/// trimming, when the final segment is the parent-directory marker `..`,
/// when the segment has no dot, or when its only dot starts it (a hidden
/// file).
pub open spec fn uri_extension(uri: Seq<char>) -> Option<Seq<char>> {
    let t = trim_path(uri);
    let start = segment_start(t);
    if t.len() == 0 {
        None
    } else if t.len() - start == 2 && t[start] == '.' && t[start + 1] == '.' {
        None
    } else {
        let dot = last_dot(t);
        if dot > start {
            Some(t.skip(dot + 1))
        } else {
            None
        }
    }
}

/// Whether the loader may be asked for this URI: it is, unless the URI
/// names a file whose extension is other than `gif`. Without an extension
/// the loader assumes support and decides later, from the bytes themselves.
pub fn is_supported_uri(uri: &str) -> (r: bool)
    ensures
        r == (match uri_extension(uri@) {
            Some(ext) => ext == "gif"@,
            None => true,
        }),
{
    let n = uri.unicode_len();
    proof {
        assert(uri@.take(n as int) =~= uri@);
    }
    // Trim trailing separators and lone-dot segments.
    let mut e: usize = n;
    while e > 0 && (uri.get_char(e - 1) == '/' || (uri.get_char(e - 1) == '.' && (e == 1
        || uri.get_char(e - 2) == '/')))
        invariant
            e <= n,
            n == uri@.len(),
            trim_path(uri@) == trim_path(uri@.take(e as int)),
        decreases e,
    {
        proof {
            assert(uri@.take(e as int).drop_last() =~= uri@.take(e as int - 1));
            assert(uri@.take(e as int).last() == uri@[e as int - 1]);
            if e >= 2 {
                assert(uri@.take(e as int)[e as int - 2] == uri@[e as int - 2]);
            }
        }
        e -= 1;
    }
    let ghost t = trim_path(uri@);
    proof {
        if e > 0 {
            assert(uri@.take(e as int).last() == uri@[e as int - 1]);
            if e >= 2 {
                assert(uri@.take(e as int)[e as int - 2] == uri@[e as int - 2]);
            }
            assert(trim_path(uri@.take(e as int)) == uri@.take(e as int));
        } else {
            assert(uri@.take(0) =~= Seq::<char>::empty());
        }
        assert(t == uri@.take(e as int));
    }
    if e == 0 {
        return true;
    }
    proof {
        assert(t.take(e as int) =~= t);
    }
    // Find where the final segment starts.
    let mut start: usize = e;
    while start > 0 && uri.get_char(start - 1) != '/'
        invariant
            start <= e,
            e <= n,
            n == uri@.len(),
            t == uri@.take(e as int),
            segment_start(t) == segment_start(t.take(start as int)),
        decreases start,
    {
        proof {
            assert(t.take(start as int).drop_last() =~= t.take(start as int - 1));
            assert(t.take(start as int).last() == uri@[start as int - 1]);
        }
        start -= 1;
    }
    proof {
        if start > 0 {
            assert(t.take(start as int).last() == uri@[start as int - 1]);
        }
        assert(t.take(e as int) =~= t);
        assert(segment_start(t) == start as int);
    }
    // The parent-directory marker names no file.
    if e - start == 2 && uri.get_char(start) == '.' && uri.get_char(start + 1) == '.' {
        proof {
            assert(t[start as int] == uri@[start as int]);
            assert(t[start as int + 1] == uri@[start as int + 1]);
        }
        return true;
    }
    proof {
        if e - start == 2 {
            assert(t[start as int] == uri@[start as int]);
            assert(t[start as int + 1] == uri@[start as int + 1]);
        }
    }
    // Find the last dot of the trimmed path.
    let mut i: usize = e;
    while i > 0 && uri.get_char(i - 1) != '.'
        invariant
            i <= e,
            e <= n,
            n == uri@.len(),
            t == uri@.take(e as int),
            last_dot(t) == last_dot(t.take(i as int)),
        decreases i,
    {
        proof {
            assert(t.take(i as int).drop_last() =~= t.take(i as int - 1));
            assert(t.take(i as int).last() == uri@[i as int - 1]);
        }
        i -= 1;
    }
    proof {
        if i > 0 {
            assert(t.take(i as int).last() == uri@[i as int - 1]);
        }
        assert(t.take(e as int) =~= t);
        assert(last_dot(t) == (if i > 0 {
            i - 1
        } else {
            -1
        }));
    }
    if i == 0 || i - 1 <= start {
        return true;
    }
    let ext = uri.substring_char(i, e);
    proof {
        assert(ext@ =~= t.skip(i as int));
    }
    string_eq(ext, "gif")
}

/// The added lengths of the first `i` frame delays, in milliseconds.
pub open spec fn delay_sum(delays: Seq<u32>, i: int) -> int
    decreases i,
{
    if i <= 0 {
        0
    } else {
        delay_sum(delays, i - 1) + delays[i - 1]
    }
}

/// Picks the frame to show at `time` milliseconds into the animation: the
/// first frame whose cumulative delay reaches `time`.
pub fn frame_at(delays: &Vec<u32>, time: u128) -> (r: usize)
    requires
        delays@.len() > 0,
        time <= delay_sum(delays@, delays@.len() as int),
    ensures
        r < delays@.len(),
        time <= delay_sum(delays@, r as int + 1),
        forall|k: int| 1 <= k <= r ==> #[trigger] delay_sum(delays@, k) < time,
{
    let n = delays.len();
    let mut t: u128 = 0;
    let mut i: usize = 0;
    while i < n - 1
        invariant
            i < n,
            n == delays@.len(),
            t == delay_sum(delays@, i as int),
            t <= time,
            time <= delay_sum(delays@, n as int),
            forall|k: int| 1 <= k <= i ==> #[trigger] delay_sum(delays@, k) < time,
        decreases n - i,
    {
        proof {
            lemma_delay_sum_bound(delays@, i as int + 1, n as int);
        }
        let next = t + (delays[i] as u128);
        if time <= next {
            return i;
        }
        t = next;
        i += 1;
    }
    proof {
        lemma_delay_sum_bound(delays@, n as int - 1, n as int);
    }
    n - 1
}

/// Delay sums grow with the number of frames taken.
proof fn lemma_delay_sum_bound(delays: Seq<u32>, i: int, j: int)
    requires
        0 <= i <= j <= delays.len(),
    ensures
        delay_sum(delays, i) <= delay_sum(delays, j),
        0 <= delay_sum(delays, i),
        delay_sum(delays, j) <= j * 0xffff_ffff,
    decreases j,
{
    if i > 0 {
        lemma_delay_sum_bound(delays, i - 1, i - 1);
    }
    if i < j {
        lemma_delay_sum_bound(delays, i, j - 1);
    }
}

/// Whether two string slices hold the same characters.
fn string_eq(a: &str, b: &str) -> (r: bool)
    ensures
        r == (a@ == b@),
{
    let na = a.unicode_len();
    let nb = b.unicode_len();
    if na != nb {
        proof {
            assert(a@ != b@);
        }
        return false;
    }
    let mut i: usize = 0;
    while i < na
        invariant
            i <= na,
            na == a@.len(),
            nb == b@.len(),
            na == nb,
            forall|l: int| 0 <= l < i ==> a@[l] == b@[l],
        decreases na - i,
    {
        if a.get_char(i) != b.get_char(i) {
            return false;
        }
        i += 1;
    }
    proof {
        assert(a@ =~= b@);
    }
    true
}

} // verus!
