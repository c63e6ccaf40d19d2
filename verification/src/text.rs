//! Text as sequences of characters: conversion from and to strings, white
//! space, searching, and splitting into lines.

use vstd::prelude::*;

verus! {

/// `String::push` appends one character to the end of the string and leaves
/// what was there in place.
pub assume_specification[ String::push ](s: &mut String, c: char)
    ensures
        final(s)@ == old(s)@.push(c),
;

/// The characters of `s`, in order.
pub fn chars_of(s: &str) -> (chars: Vec<char>)
    ensures
        chars@ == s@,
{
    let mut chars: Vec<char> = Vec::new();
    for c in it: s.chars()
        invariant
            it.seq() == s@,
            chars@ == s@.take(it.index() as int),
    {
        chars.push(c);
    }
    chars
}

/// The string made of `chars[from..to]`.
pub fn string_of(chars: &[char], from: usize, to: usize) -> (s: String)
    requires
        from <= to <= chars.len(),
    ensures
        s@ == chars@.subrange(from as int, to as int),
{
    let mut s = String::new();
    let mut i: usize = from;
    while i < to
        invariant
            from <= i <= to <= chars.len(),
            s@ == chars@.subrange(from as int, i as int),
        decreases to - i,
    {
        s.push(chars[i]);
        i += 1;
    }
    s
}

/// A copy of `chars[from..to]`.
pub fn copy_range(chars: &[char], from: usize, to: usize) -> (copy: Vec<char>)
    requires
        from <= to <= chars.len(),
    ensures
        copy@ == chars@.subrange(from as int, to as int),
{
    let mut copy: Vec<char> = Vec::new();
    let mut i: usize = from;
    while i < to
        invariant
            from <= i <= to <= chars.len(),
            copy@ == chars@.subrange(from as int, i as int),
        decreases to - i,
    {
        copy.push(chars[i]);
        i += 1;
    }
    copy
}

/// The characters with the Unicode property White_Space.
pub open spec fn white_space(c: char) -> bool {
    let n = c as u32;
    ||| 0x09 <= n <= 0x0D
    ||| n == 0x20
    ||| n == 0x85
    ||| n == 0xA0
    ||| n == 0x1680
    ||| 0x2000 <= n <= 0x200A
    ||| n == 0x2028
    ||| n == 0x2029
    ||| n == 0x202F
    ||| n == 0x205F
    ||| n == 0x3000
}

/// Whether `c` is white space.
pub fn is_white_space(c: char) -> (b: bool)
    ensures
        b == white_space(c),
{
    let n: u32 = c as u32;
    (0x09 <= n && n <= 0x0D) || n == 0x20 || n == 0x85 || n == 0xA0 || n == 0x1680 || (0x2000 <= n
        && n <= 0x200A) || n == 0x2028 || n == 0x2029 || n == 0x202F || n == 0x205F || n == 0x3000
}

/// `s` without the white space it starts with.
pub open spec fn trim_start(s: Seq<char>) -> Seq<char>
    decreases s.len(),
{
    if s.len() > 0 && white_space(s[0]) {
        trim_start(s.skip(1))
    } else {
        s
    }
}

/// `s` without the white space it ends with.
pub open spec fn trim_end(s: Seq<char>) -> Seq<char>
    decreases s.len(),
{
    if s.len() > 0 && white_space(s.last()) {
        trim_end(s.drop_last())
    } else {
        s
    }
}

/// `s` without the white space on either side.
pub open spec fn trim(s: Seq<char>) -> Seq<char> {
    trim_end(trim_start(s))
}

/// Trimming `s[from..to]` at the start leaves `s[mid..to]`, where `mid` is
/// the first place from `from` on that holds no white space.
pub proof fn lemma_trim_start_range(s: Seq<char>, from: int, mid: int, to: int)
    requires
        0 <= from <= mid <= to <= s.len(),
        forall|k: int| from <= k < mid ==> white_space(#[trigger] s[k]),
        mid == to || !white_space(s[mid]),
    ensures
        trim_start(s.subrange(from, to)) == s.subrange(mid, to),
    decreases mid - from,
{
    let part = s.subrange(from, to);
    if from < mid {
        assert(part[0] == s[from]);
        assert(part.skip(1) =~= s.subrange(from + 1, to));
        lemma_trim_start_range(s, from + 1, mid, to);
    } else if mid < to {
        assert(part[0] == s[mid]);
    }
}

/// Trimming `s[from..to]` at the end leaves `s[from..mid]`, where `mid` is
/// the end of the last place before `to` that holds no white space.
pub proof fn lemma_trim_end_range(s: Seq<char>, from: int, mid: int, to: int)
    requires
        0 <= from <= mid <= to <= s.len(),
        forall|k: int| mid <= k < to ==> white_space(#[trigger] s[k]),
        mid == from || !white_space(s[mid - 1]),
    ensures
        trim_end(s.subrange(from, to)) == s.subrange(from, mid),
    decreases to - mid,
{
    let part = s.subrange(from, to);
    if mid < to {
        assert(part.last() == s[to - 1]);
        assert(part.drop_last() =~= s.subrange(from, to - 1));
        lemma_trim_end_range(s, from, mid, to - 1);
    } else if from < mid {
        assert(part.last() == s[mid - 1]);
    }
}

/// What trimming leaves of `s`: the piece between the returned bounds,
/// which neither starts nor ends with white space.
pub proof fn lemma_trim_bounds(s: Seq<char>) -> (bounds: (int, int))
    ensures
        0 <= bounds.0 <= bounds.1 <= s.len(),
        trim(s) == s.subrange(bounds.0, bounds.1),
        bounds.0 < bounds.1 ==> !white_space(s[bounds.0]) && !white_space(s[bounds.1 - 1]),
{
    let from = lemma_trim_start_bound(s);
    let rest = s.skip(from);
    let len = lemma_trim_end_bound(rest);
    assert(rest.take(len) =~= s.subrange(from, from + len));
    if len > 0 {
        assert(rest[len - 1] == s[from + len - 1]);
        assert(rest[0] == s[from]);
    }
    (from, from + len)
}

/// How much white space `s` starts with.
pub proof fn lemma_trim_start_bound(s: Seq<char>) -> (from: int)
    ensures
        0 <= from <= s.len(),
        trim_start(s) == s.skip(from),
        from < s.len() ==> !white_space(s[from]),
    decreases s.len(),
{
    if s.len() > 0 && white_space(s[0]) {
        let rest = s.skip(1);
        let from = lemma_trim_start_bound(rest);
        assert(rest.skip(from) =~= s.skip(from + 1));
        if from < rest.len() {
            assert(rest[from] == s[from + 1]);
        }
        from + 1
    } else {
        assert(s.skip(0) =~= s);
        0
    }
}

/// Where the white space begins that `s` ends with.
pub proof fn lemma_trim_end_bound(s: Seq<char>) -> (to: int)
    ensures
        0 <= to <= s.len(),
        trim_end(s) == s.take(to),
        to > 0 ==> !white_space(s[to - 1]),
    decreases s.len(),
{
    if s.len() > 0 && white_space(s.last()) {
        let front = s.drop_last();
        let to = lemma_trim_end_bound(front);
        assert(front.take(to) =~= s.take(to));
        to
    } else {
        assert(s.take(s.len() as int) =~= s);
        s.len() as int
    }
}

/// The bounds of `chars[from..to]` without the white space on either side.
pub fn trim_range(chars: &[char], from: usize, to: usize) -> (bounds: (usize, usize))
    requires
        from <= to <= chars.len(),
    ensures
        from <= bounds.0 <= bounds.1 <= to,
        chars@.subrange(bounds.0 as int, bounds.1 as int) == trim(
            chars@.subrange(from as int, to as int),
        ),
{
    let mut lo: usize = from;
    while lo < to && is_white_space(chars[lo])
        invariant
            from <= lo <= to <= chars.len(),
            forall|k: int| from <= k < lo ==> white_space(#[trigger] chars@[k]),
        decreases to - lo,
    {
        lo += 1;
    }
    let mut hi: usize = to;
    while hi > lo && is_white_space(chars[hi - 1])
        invariant
            lo <= hi <= to <= chars.len(),
            forall|k: int| hi <= k < to ==> white_space(#[trigger] chars@[k]),
        decreases hi - lo,
    {
        hi -= 1;
    }
    proof {
        lemma_trim_start_range(chars@, from as int, lo as int, to as int);
        lemma_trim_end_range(chars@, lo as int, hi as int, to as int);
    }
    (lo, hi)
}

/// The index of the first `c` in `s`, or the length of `s` where it holds
/// none.
pub open spec fn position(s: Seq<char>, c: char) -> nat
    decreases s.len(),
{
    if s.len() == 0 || s[0] == c {
        0
    } else {
        1 + position(s.skip(1), c)
    }
}

/// `position` is the one index before which no `c` stands and at which `s`
/// holds `c` or ends.
pub proof fn lemma_position(s: Seq<char>, c: char, i: int)
    requires
        0 <= i <= s.len(),
        forall|k: int| 0 <= k < i ==> #[trigger] s[k] != c,
        i == s.len() || s[i] == c,
    ensures
        position(s, c) == i,
    decreases i,
{
    if i > 0 {
        let rest = s.skip(1);
        assert forall|k: int| 0 <= k < i - 1 implies #[trigger] rest[k] != c by {
            assert(rest[k] == s[k + 1]);
        }
        lemma_position(rest, c, i - 1);
    }
}

/// What `position` finds: it lies within `s`, no `c` stands before it, and
/// `s` holds `c` there unless it is the end.
pub proof fn lemma_position_found(s: Seq<char>, c: char)
    ensures
        position(s, c) <= s.len(),
        forall|k: int| 0 <= k < position(s, c) ==> #[trigger] s[k] != c,
        position(s, c) < s.len() ==> s[position(s, c) as int] == c,
    decreases s.len(),
{
    if !(s.len() == 0 || s[0] == c) {
        let rest = s.skip(1);
        lemma_position_found(rest, c);
        assert forall|k: int| 0 <= k < position(s, c) implies #[trigger] s[k] != c by {
            if k > 0 {
                assert(rest[k - 1] == s[k]);
            }
        }
        if position(rest, c) < rest.len() {
            assert(rest[position(rest, c) as int] == s[position(rest, c) as int + 1]);
        }
    }
}

/// The index of the first `c` in `chars[from..to]`, or `to` where there is
/// none.
pub fn find(chars: &[char], from: usize, to: usize, c: char) -> (at: usize)
    requires
        from <= to <= chars.len(),
    ensures
        from <= at <= to,
        at - from == position(chars@.subrange(from as int, to as int), c),
{
    let mut at: usize = from;
    while at < to && chars[at] != c
        invariant
            from <= at <= to <= chars.len(),
            forall|k: int| from <= k < at ==> #[trigger] chars@[k] != c,
        decreases to - at,
    {
        at += 1;
    }
    proof {
        let part = chars@.subrange(from as int, to as int);
        assert forall|k: int| 0 <= k < at - from implies #[trigger] part[k] != c by {
            assert(part[k] == chars@[from + k]);
        }
        lemma_position(part, c, at - from);
    }
    at
}

/// `line` without the carriage return that it ends with, if it does.
pub open spec fn without_carriage_return(line: Seq<char>) -> Seq<char> {
    if line.len() > 0 && line.last() == '\r' {
        line.drop_last()
    } else {
        line
    }
}

/// The lines of `text`. A line ends at a line feed, or at a carriage return
/// followed by a line feed; neither belongs to the line. What follows the
/// last line feed is a line too, unless it is empty.
pub open spec fn lines(text: Seq<char>) -> Seq<Seq<char>>
    decreases text.len(),
{
    let end = position(text, '\n');
    if text.len() == 0 {
        Seq::empty()
    } else if end >= text.len() {
        seq![text]
    } else {
        seq![without_carriage_return(text.take(end as int))] + lines(text.skip(end as int + 1))
    }
}

/// The character sequences that `rows` holds, in order.
pub open spec fn row_views(rows: Seq<Vec<char>>) -> Seq<Seq<char>> {
    Seq::new(rows.len(), |i: int| rows[i]@)
}

/// Splits `text` into its lines.
pub fn split_lines(text: &[char]) -> (rows: Vec<Vec<char>>)
    ensures
        row_views(rows@) == lines(text@),
{
    let mut rows: Vec<Vec<char>> = Vec::new();
    let mut start: usize = 0;
    assert(row_views(rows@) + lines(text@.skip(0)) =~= lines(text@)) by {
        assert(text@.skip(0) =~= text@);
    }
    while start < text.len()
        invariant
            start <= text.len(),
            row_views(rows@) + lines(text@.skip(start as int)) == lines(text@),
        decreases text.len() - start,
    {
        let ghost rest = text@.skip(start as int);
        let ghost before = row_views(rows@);
        let feed = find(text, start, text.len(), '\n');
        assert(rest =~= text@.subrange(start as int, text.len() as int));
        if feed == text.len() {
            let row = copy_range(text, start, feed);
            rows.push(row);
            assert(row_views(rows@) =~= before + seq![rest]);
            start = feed;
            assert(text@.skip(start as int).len() == 0);
        } else {
            let end = if feed > start && text[feed - 1] == '\r' {
                feed - 1
            } else {
                feed
            };
            let row = copy_range(text, start, end);
            rows.push(row);
            proof {
                let line = rest.take(feed - start);
                assert(line =~= text@.subrange(start as int, feed as int));
                assert(row@ =~= without_carriage_return(line));
                assert(row_views(rows@) =~= before + seq![row@]);
                assert(rest.skip(feed - start + 1) =~= text@.skip(feed + 1));
                assert(before + (seq![row@] + lines(text@.skip(feed + 1))) =~= (before
                    + seq![row@]) + lines(text@.skip(feed + 1)));
            }
            start = feed + 1;
        }
    }
    assert(row_views(rows@) =~= row_views(rows@) + lines(text@.skip(start as int)));
    rows
}

} // verus!
