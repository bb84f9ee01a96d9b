//! Searching, trimming and splitting sequences of characters.

use std::collections::VecDeque;
use vstd::prelude::*;

verus! {

/// Whether `c` is whitespace: one of the code points with the Unicode
/// property White_Space.
pub open spec fn whitespace(c: char) -> bool {
    ||| '\u{9}' <= c <= '\u{d}'
    ||| c == ' '
    ||| c == '\u{85}'
    ||| c == '\u{a0}'
    ||| c == '\u{1680}'
    ||| '\u{2000}' <= c <= '\u{200a}'
    ||| c == '\u{2028}'
    ||| c == '\u{2029}'
    ||| c == '\u{202f}'
    ||| c == '\u{205f}'
    ||| c == '\u{3000}'
}

/// The least index at which `x` occurs in `s`, or `s.len()` where it does
/// not occur.
pub open spec fn first_index<T>(s: Seq<T>, x: T) -> int
    decreases s.len(),
{
    if s.len() == 0 {
        0
    } else if s.first() == x {
        0
    } else {
        1 + first_index(s.drop_first(), x)
    }
}

/// The greatest index at which `x` occurs in `s`, or -1 where it does not
/// occur.
pub open spec fn last_index<T>(s: Seq<T>, x: T) -> int
    decreases s.len(),
{
    if s.len() == 0 {
        -1
    } else if s.last() == x {
        s.len() - 1
    } else {
        last_index(s.drop_last(), x)
    }
}

/// `s` without the whitespace it begins with.
pub open spec fn trim_start(s: Seq<char>) -> Seq<char>
    decreases s.len(),
{
    if s.len() > 0 && whitespace(s.first()) {
        trim_start(s.drop_first())
    } else {
        s
    }
}

/// `s` without the whitespace it ends with.
pub open spec fn trim_end(s: Seq<char>) -> Seq<char>
    decreases s.len(),
{
    if s.len() > 0 && whitespace(s.last()) {
        trim_end(s.drop_last())
    } else {
        s
    }
}

/// `s` without the whitespace around it.
pub open spec fn trim(s: Seq<char>) -> Seq<char> {
    trim_end(trim_start(s))
}

/// The pieces of `s` between the occurrences of `sep`, in order. There is
/// one piece more than there are separators, so the result is never empty.
pub open spec fn split(s: Seq<char>, sep: char) -> Seq<Seq<char>>
    decreases s.len(),
{
    let i = first_index(s, sep);
    if 0 <= i < s.len() {
        seq![s.take(i)] + split(s.skip(i + 1), sep)
    } else {
        seq![s]
    }
}

/// The runs of `s` that the index pairs in `ranges` delimit, in order.
pub open spec fn cut(s: Seq<char>, ranges: Seq<(usize, usize)>) -> Seq<Seq<char>> {
    ranges.map_values(|r: (usize, usize)| s.subrange(r.0 as int, r.1 as int))
}

/// What `first_index` returns: the index of the first occurrence, before
/// which there is none.
pub proof fn lemma_first_index<T>(s: Seq<T>, x: T)
    ensures
        0 <= first_index(s, x) <= s.len(),
        first_index(s, x) < s.len() ==> s[first_index(s, x)] == x,
        first_index(s, x) < s.len() <==> s.contains(x),
        forall|k: int| 0 <= k < first_index(s, x) ==> s[k] != x,
    decreases s.len(),
{
    if s.len() > 0 && s.first() != x {
        let rest = s.drop_first();
        lemma_first_index(rest, x);
        let i = first_index(rest, x);
        assert forall|k: int| 0 <= k < i + 1 implies s[k] != x by {
            if k > 0 {
                assert(rest[k - 1] == s[k]);
            }
        }
    }
}

/// What `last_index` returns: the index of the last occurrence, after
/// which there is none.
pub proof fn lemma_last_index<T>(s: Seq<T>, x: T)
    ensures
        -1 <= last_index(s, x) < s.len(),
        0 <= last_index(s, x) ==> s[last_index(s, x)] == x,
        0 <= last_index(s, x) <==> s.contains(x),
        forall|k: int| last_index(s, x) < k < s.len() ==> s[k] != x,
    decreases s.len(),
{
    if s.len() > 0 && s.last() != x {
        let rest = s.drop_last();
        lemma_last_index(rest, x);
        let i = last_index(rest, x);
        assert forall|k: int| i < k < s.len() implies s[k] != x by {
            if k < rest.len() {
                assert(rest[k] == s[k]);
            }
        }
    }
}

/// An index that holds `x` and has no `x` before it is the first index.
pub proof fn lemma_first_index_is<T>(s: Seq<T>, x: T, i: int)
    requires
        0 <= i <= s.len(),
        i < s.len() ==> s[i] == x,
        forall|k: int| 0 <= k < i ==> s[k] != x,
    ensures
        first_index(s, x) == i,
{
    lemma_first_index(s, x);
}

/// An index that holds `x` and has no `x` after it is the last index.
pub proof fn lemma_last_index_is<T>(s: Seq<T>, x: T, i: int)
    requires
        -1 <= i < s.len(),
        0 <= i ==> s[i] == x,
        forall|k: int| i < k < s.len() ==> s[k] != x,
    ensures
        last_index(s, x) == i,
{
    lemma_last_index(s, x);
}

/// Tells whether `c` is whitespace.
pub fn is_whitespace(c: char) -> (b: bool)
    ensures
        b == whitespace(c),
{
    (c >= '\u{9}' && c <= '\u{d}') || c == ' ' || c == '\u{85}' || c == '\u{a0}' || c == '\u{1680}'
        || (c >= '\u{2000}' && c <= '\u{200a}') || c == '\u{2028}' || c == '\u{2029}' || c
        == '\u{202f}' || c == '\u{205f}' || c == '\u{3000}'
}

/// Whether two runs of characters are the same.
pub fn same_chars(a: &[char], b: &[char]) -> (same: bool)
    ensures
        same == (a@ == b@),
{
    if a.len() != b.len() {
        return false;
    }
    let mut i: usize = 0;
    while i < a.len()
        invariant
            a.len() == b.len(),
            i <= a.len(),
            a@.take(i as int) == b@.take(i as int),
        decreases a.len() - i,
    {
        if a[i] != b[i] {
            return false;
        }
        i += 1;
    }
    assert(a@.take(a.len() as int) =~= a@);
    assert(b@.take(b.len() as int) =~= b@);
    true
}

/// Whether the string `s` holds exactly the characters of `t`.
pub fn same_text(s: &str, t: &[char]) -> (same: bool)
    ensures
        same == (s@ == t@),
{
    let mut same = true;
    let mut i: usize = 0;
    for c in it: s.chars()
        invariant
            it.seq() == s@,
            same ==> i == it.index() && i <= t.len() && s@.take(i as int) == t@.take(i as int),
            !same ==> s@ != t@,
    {
        if same {
            if i < t.len() && t[i] == c {
                i += 1;
            } else {
                same = false;
            }
        }
    }
    if same && i == t.len() {
        assert(s@.take(i as int) =~= s@);
        assert(t@.take(i as int) =~= t@);
        true
    } else {
        false
    }
}

/// The characters of `s`, in order.
pub fn to_chars(s: &str) -> (chars: Vec<char>)
    ensures
        chars@ == s@,
{
    let mut chars: Vec<char> = Vec::new();
    for c in it: s.chars()
        invariant
            it.seq() == s@,
            chars@ == s@.take(it.index()),
    {
        chars.push(c);
    }
    chars
}

/// A copy of the characters in `chars`, in order.
pub fn collect(chars: &VecDeque<char>) -> (copy: Vec<char>)
    ensures
        copy@ == chars@,
{
    let mut copy: Vec<char> = Vec::new();
    let mut i: usize = 0;
    while i < chars.len()
        invariant
            i <= chars.len(),
            copy@ == chars@.take(i as int),
        decreases chars.len() - i,
    {
        copy.push(chars[i]);
        i += 1;
    }
    copy
}

/// The index of the first `c` in `s[from..to]`, or `to` if there is none.
pub fn find_first(s: &[char], from: usize, to: usize, c: char) -> (at: usize)
    requires
        from <= to <= s.len(),
    ensures
        at == from + first_index(s@.subrange(from as int, to as int), c),
        from <= at <= to,
{
    let mut i: usize = from;
    while i < to
        invariant
            from <= i <= to <= s.len(),
            forall|k: int| from <= k < i ==> s@[k] != c,
        decreases to - i,
    {
        if s[i] == c {
            proof {
                lemma_first_index_is(s@.subrange(from as int, to as int), c, i - from);
            }
            return i;
        }
        i += 1;
    }
    proof {
        lemma_first_index_is(s@.subrange(from as int, to as int), c, to - from);
    }
    to
}

/// The index of the last `c` in `s[from..to]`, or `None` if there is none.
pub fn find_last(s: &[char], from: usize, to: usize, c: char) -> (at: Option<usize>)
    requires
        from <= to <= s.len(),
    ensures
        match at {
            Some(i) => from <= i < to && i == from + last_index(
                s@.subrange(from as int, to as int),
                c,
            ),
            None => last_index(s@.subrange(from as int, to as int), c) == -1,
        },
{
    let mut i: usize = to;
    while i > from
        invariant
            from <= i <= to <= s.len(),
            forall|k: int| i <= k < to ==> s@[k] != c,
        decreases i,
    {
        i -= 1;
        if s[i] == c {
            proof {
                lemma_last_index_is(s@.subrange(from as int, to as int), c, i - from);
            }
            return Some(i);
        }
    }
    proof {
        lemma_last_index_is(s@.subrange(from as int, to as int), c, -1);
    }
    None
}

/// The bounds of `s[from..to]` without the whitespace around it.
pub fn trim_bounds(s: &[char], from: usize, to: usize) -> (bounds: (usize, usize))
    requires
        from <= to <= s.len(),
    ensures
        from <= bounds.0 <= bounds.1 <= to,
        s@.subrange(bounds.0 as int, bounds.1 as int) == trim(s@.subrange(from as int, to as int)),
{
    let mut a: usize = from;
    while a < to && is_whitespace(s[a])
        invariant
            from <= a <= to <= s.len(),
            trim_start(s@.subrange(from as int, to as int)) == trim_start(
                s@.subrange(a as int, to as int),
            ),
        decreases to - a,
    {
        assert(s@.subrange(a as int, to as int).drop_first() =~= s@.subrange(a + 1, to as int));
        a += 1;
    }
    let mut b: usize = to;
    while b > a && is_whitespace(s[b - 1])
        invariant
            a <= b <= to <= s.len(),
            trim_end(s@.subrange(a as int, to as int)) == trim_end(s@.subrange(a as int, b as int)),
        decreases b,
    {
        assert(s@.subrange(a as int, b as int).drop_last() =~= s@.subrange(a as int, b - 1));
        b -= 1;
    }
    (a, b)
}

/// A copy of `s[from..to]`.
pub fn copy_range(s: &[char], from: usize, to: usize) -> (copy: Vec<char>)
    requires
        from <= to <= s.len(),
    ensures
        copy@ == s@.subrange(from as int, to as int),
{
    let mut copy: Vec<char> = Vec::new();
    let mut i: usize = from;
    while i < to
        invariant
            from <= i <= to <= s.len(),
            copy@ == s@.subrange(from as int, i as int),
        decreases to - i,
    {
        copy.push(s[i]);
        i += 1;
    }
    copy
}

/// Splits `s[from..to]` at each `sep` and returns the bounds of the pieces.
pub fn split_ranges(s: &[char], from: usize, to: usize, sep: char) -> (ranges: Vec<(usize, usize)>)
    requires
        from <= to <= s.len(),
    ensures
        cut(s@, ranges@) == split(s@.subrange(from as int, to as int), sep),
        forall|k: int|
            0 <= k < ranges.len() ==> from <= (#[trigger] ranges[k]).0 <= ranges[k].1 <= to,
{
    let ghost whole = s@.subrange(from as int, to as int);
    let mut ranges: Vec<(usize, usize)> = Vec::new();
    let mut start: usize = from;
    loop
        invariant_except_break
            split(whole, sep) == cut(s@, ranges@) + split(s@.subrange(start as int, to as int), sep),
        invariant
            from <= start <= to <= s.len(),
            whole == s@.subrange(from as int, to as int),
            forall|k: int|
                0 <= k < ranges.len() ==> from <= (#[trigger] ranges[k]).0 <= ranges[k].1 <= to,
        ensures
            cut(s@, ranges@) == split(whole, sep),
        decreases to - start,
    {
        let ghost rest = s@.subrange(start as int, to as int);
        let at = find_first(s, start, to, sep);
        ranges.push((start, at));
        if at == to {
            break;
        }
        assert(rest.take(at - start) =~= s@.subrange(start as int, at as int));
        assert(rest.skip(at - start + 1) =~= s@.subrange(at + 1, to as int));
        start = at + 1;
    }
    ranges
}

} // verus!
