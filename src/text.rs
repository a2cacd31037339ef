//! Character-level helpers over request paths and route patterns.
use vstd::prelude::*;

verus! {

broadcast use vstd::string::group_string_axioms;

/// State after reading the first `n` characters of `s` and cutting at each
/// `/`: the pieces already closed, and the piece still open. Empty pieces are
/// closed too when `keep_empty` holds, and dropped otherwise.
pub open spec fn split_scan(s: Seq<char>, n: int, keep_empty: bool) -> (Seq<Seq<char>>, Seq<char>)
    decreases n,
{
    if n <= 0 {
        (Seq::empty(), Seq::empty())
    } else {
        let prev = split_scan(s, n - 1, keep_empty);
        if s[n - 1] == '/' {
            if keep_empty || prev.1.len() > 0 {
                (prev.0.push(prev.1), Seq::empty())
            } else {
                (prev.0, Seq::empty())
            }
        } else {
            (prev.0, prev.1.push(s[n - 1]))
        }
    }
}

/// `s` cut at every `/`, empty pieces kept: one more piece than separators.
pub open spec fn pieces(s: Seq<char>) -> Seq<Seq<char>> {
    let r = split_scan(s, s.len() as int, true);
    r.0.push(r.1)
}

/// The non-empty pieces of `s` cut at every `/`.
pub open spec fn segments(s: Seq<char>) -> Seq<Seq<char>> {
    let r = split_scan(s, s.len() as int, false);
    if r.1.len() > 0 {
        r.0.push(r.1)
    } else {
        r.0
    }
}

/// The text that each character range picks out of `s`.
pub open spec fn range_views(s: Seq<char>, rs: Seq<(usize, usize)>) -> Seq<Seq<char>> {
    rs.map_values(|r: (usize, usize)| s.subrange(r.0 as int, r.1 as int))
}

/// `s` with one leading `c` removed, if it starts with one.
pub open spec fn strip_first(s: Seq<char>, c: char) -> Seq<char> {
    if s.len() > 0 && s[0] == c {
        s.drop_first()
    } else {
        s
    }
}

/// `s` with one trailing `c` removed, if it ends with one.
pub open spec fn strip_last(s: Seq<char>, c: char) -> Seq<char> {
    if s.len() > 0 && s.last() == c {
        s.drop_last()
    } else {
        s
    }
}

/// The characters of `s`, in order.
pub(crate) fn chars_of(s: &str) -> (r: Vec<char>)
    ensures
        r@ == s@,
{
    let mut out: Vec<char> = Vec::new();
    for c in it: s.chars()
        invariant
            out@ == it.seq().take(it.index() as int),
            it.seq() == s@,
    {
        out.push(c);
    }
    out
}

/// How many times `c` occurs in `s`.
pub open spec fn count_char(s: Seq<char>, c: char) -> nat
    decreases s.len(),
{
    if s.len() == 0 {
        0
    } else {
        count_char(s.drop_last(), c) + if s.last() == c {
            1nat
        } else {
            0nat
        }
    }
}

proof fn lemma_scan_count(s: Seq<char>, n: int)
    requires
        0 <= n <= s.len(),
    ensures
        split_scan(s, n, true).0.len() == count_char(s.take(n), '/'),
    decreases n,
{
    if n > 0 {
        lemma_scan_count(s, n - 1);
        assert(s.take(n).drop_last() =~= s.take(n - 1));
    }
}

/// A text has one more piece than it has separators.
pub proof fn lemma_pieces_len(s: Seq<char>)
    ensures
        pieces(s).len() == count_char(s, '/') + 1,
{
    lemma_scan_count(s, s.len() as int);
    assert(s.take(s.len() as int) =~= s);
}

/// A text that starts with `/` has a separator.
pub proof fn lemma_count_leading(s: Seq<char>)
    requires
        s.len() > 0,
        s[0] == '/',
    ensures
        count_char(s, '/') >= 1,
    decreases s.len(),
{
    if s.len() > 1 {
        lemma_count_leading(s.drop_last());
    }
}

/// The character ranges of the pieces of `chars[from..to]` cut at every `/`;
/// with `keep_empty` these are `pieces`, without it `segments`.
pub(crate) fn split_ranges(chars: &Vec<char>, from: usize, to: usize, keep_empty: bool) -> (r: Vec<(usize, usize)>)
    requires
        from <= to <= chars.len(),
    ensures
        range_views(chars@, r@) == (if keep_empty {
            pieces(chars@.subrange(from as int, to as int))
        } else {
            segments(chars@.subrange(from as int, to as int))
        }),
        forall|k: int| 0 <= k < r.len() ==> from <= #[trigger] r[k].0 <= r[k].1 <= to,
{
    let ghost t = chars@.subrange(from as int, to as int);
    let mut out: Vec<(usize, usize)> = Vec::new();
    let mut start: usize = from;
    let mut i: usize = from;
    while i < to
        invariant
            from <= start <= i <= to <= chars.len(),
            t == chars@.subrange(from as int, to as int),
            chars@.subrange(start as int, i as int) == split_scan(t, i - from, keep_empty).1,
            range_views(chars@, out@) == split_scan(t, i - from, keep_empty).0,
            forall|k: int| 0 <= k < out.len() ==> from <= #[trigger] out[k].0 <= out[k].1 <= start,
        decreases to - i,
    {
        let ghost prev = split_scan(t, i - from, keep_empty);
        assert(t[i - from] == chars@[i as int]);
        if chars[i] == '/' {
            if keep_empty || start < i {
                out.push((start, i));
                assert(range_views(chars@, out@) =~= prev.0.push(prev.1));
            }
            start = i + 1;
            assert(chars@.subrange(start as int, (i + 1) as int) =~= Seq::<char>::empty());
        } else {
            assert(chars@.subrange(start as int, (i + 1) as int) =~= prev.1.push(chars@[i as int]));
        }
        i += 1;
    }
    if keep_empty || start < to {
        out.push((start, to));
        assert(range_views(chars@, out@) =~= split_scan(t, t.len() as int, keep_empty).0.push(
            split_scan(t, t.len() as int, keep_empty).1));
    }
    out
}

/// `s[from..to]`, sliced by characters; `ascii` tells that `s` is ASCII.
pub(crate) fn slice_chars(s: &str, ascii: bool, from: usize, to: usize) -> (r: &str)
    requires
        from <= to <= s@.len(),
        ascii == s.is_ascii(),
    ensures
        r@ == s@.subrange(from as int, to as int),
{
    if ascii {
        s.substring_ascii(from, to)
    } else {
        s.substring_char(from, to)
    }
}

} // verus!
