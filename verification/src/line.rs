//! One line of a diagram: how deep its entry lies, what the entry is called,
//! and whether it is a directory.

use crate::text::{
    chars_of, copy_range, find, lemma_position_found, lemma_trim_bounds, position, string_of, trim,
    trim_range, white_space,
};
use vstd::prelude::*;

verus! {

/// Drawn beside the entries of a directory that has more entries to come.
pub const PIPE: char = '│';

/// Drawn before an entry that has siblings after it.
pub const TEE: char = '├';

/// Drawn before the last entry of a directory.
pub const CORNER: char = '└';

/// Drawn between the branch and the name.
pub const CONNECTOR: char = '─';

/// The characters that indent a line.
pub open spec fn is_indent(c: char) -> bool {
    c == ' ' || c == '\t'
}

/// How many indenting characters `s` starts with.
pub open spec fn indent_len(s: Seq<char>) -> nat
    decreases s.len(),
{
    if s.len() > 0 && is_indent(s[0]) {
        1 + indent_len(s.skip(1))
    } else {
        0
    }
}

/// The width of the indentation that `s` starts with: one for a space, four
/// for a tab.
pub open spec fn indent_width(s: Seq<char>) -> nat
    decreases s.len(),
{
    if s.len() > 0 && s[0] == ' ' {
        1 + indent_width(s.skip(1))
    } else if s.len() > 0 && s[0] == '\t' {
        4 + indent_width(s.skip(1))
    } else {
        0
    }
}

/// The depth at which the entry of `line` lies.
///
/// After the indentation, a pipe counts one level; a run of at least three
/// indenting characters behind it counts a second, and every four more
/// another. A branch with no pipe before it lies one level below a quarter
/// of the indentation's width. A line with neither lies at depth 0.
pub open spec fn depth_of(line: Seq<char>) -> nat {
    let lead = indent_len(line) as int;
    if lead < line.len() && line[lead] == PIPE {
        let run = indent_len(line.skip(lead + 1));
        if run >= 3 {
            (2 + (run - 3) / 4) as nat
        } else {
            1
        }
    } else if lead < line.len() && (line[lead] == TEE || line[lead] == CORNER) {
        indent_width(line) / 4 + 1
    } else {
        0
    }
}

/// Past a run of indenting characters, the count goes on from where it is.
pub proof fn lemma_indent_len_step(s: Seq<char>, i: int)
    requires
        0 <= i < s.len(),
        is_indent(s[i]),
    ensures
        indent_len(s.skip(i)) == 1 + indent_len(s.skip(i + 1)),
{
    assert(s.skip(i)[0] == s[i]);
    assert(s.skip(i).skip(1) =~= s.skip(i + 1));
}

/// Past an indenting character, the width goes on from where it is.
pub proof fn lemma_indent_width_step(s: Seq<char>, i: int)
    requires
        0 <= i < s.len(),
        is_indent(s[i]),
    ensures
        indent_width(s.skip(i)) == (if s[i] == ' ' {
            1nat
        } else {
            4nat
        }) + indent_width(s.skip(i + 1)),
{
    assert(s.skip(i)[0] == s[i]);
    assert(s.skip(i).skip(1) =~= s.skip(i + 1));
}

/// The depth of `line`, on its characters.
pub fn depth_of_chars(line: &[char]) -> (depth: usize)
    ensures
        depth == depth_of(line@),
{
    let len = line.len();
    let mut i: usize = 0;
    // A quarter of the indentation's width so far, and what is left over.
    let mut quarters: usize = 0;
    let mut over: usize = 0;
    assert(line@.skip(0) =~= line@);
    while i < len && (line[i] == ' ' || line[i] == '\t')
        invariant
            len == line.len(),
            i <= len,
            over < 4,
            quarters <= i,
            indent_len(line@) == i + indent_len(line@.skip(i as int)),
            indent_width(line@) == 4 * quarters + over + indent_width(line@.skip(i as int)),
        decreases len - i,
    {
        proof {
            lemma_indent_len_step(line@, i as int);
            lemma_indent_width_step(line@, i as int);
        }
        if line[i] == '\t' {
            quarters += 1;
        } else if over == 3 {
            quarters += 1;
            over = 0;
        } else {
            over += 1;
        }
        i += 1;
    }
    assert(indent_len(line@.skip(i as int)) == 0 && indent_width(line@.skip(i as int)) == 0) by {
        if i < len {
            assert(line@.skip(i as int)[0] == line@[i as int]);
        }
    }
    if i < len && line[i] == PIPE {
        let after = i + 1;
        let mut j: usize = after;
        assert(line@.skip(after as int).skip(0) =~= line@.skip(after as int));
        while j < len && (line[j] == ' ' || line[j] == '\t')
            invariant
                len == line.len(),
                after <= j <= len,
                indent_len(line@.skip(after as int)) == (j - after) + indent_len(
                    line@.skip(j as int),
                ),
            decreases len - j,
        {
            proof {
                lemma_indent_len_step(line@, j as int);
            }
            j += 1;
        }
        assert(indent_len(line@.skip(j as int)) == 0) by {
            if j < len {
                assert(line@.skip(j as int)[0] == line@[j as int]);
            }
        }
        let run = j - after;
        if run >= 3 {
            2 + (run - 3) / 4
        } else {
            1
        }
    } else if i < len && (line[i] == TEE || line[i] == CORNER) {
        quarters + 1
    } else {
        0
    }
}

/// The depth at which the entry of `line` lies.
pub fn get_indent_level(line: &str) -> (depth: usize)
    ensures
        depth == depth_of(line@),
{
    let chars = chars_of(line);
    depth_of_chars(chars.as_slice())
}

/// The characters with which a diagram is drawn.
pub open spec fn is_glyph(c: char) -> bool {
    c == PIPE || c == TEE || c == CORNER || c == CONNECTOR
}

/// `s` with every drawing character taken out.
pub open spec fn without_glyphs(s: Seq<char>) -> Seq<char> {
    s.filter(|c: char| !is_glyph(c))
}

/// `s` up to its first `#`: what follows is a comment.
pub open spec fn without_comment(s: Seq<char>) -> Seq<char> {
    s.take(position(s, '#') as int)
}

/// The name that `line` gives its entry: the line without drawing
/// characters, trimmed, cut before a comment, and trimmed again.
pub open spec fn name_of(line: Seq<char>) -> Seq<char> {
    trim(without_comment(trim(without_glyphs(line))))
}

/// What is left when the drawing characters are taken out holds none.
pub proof fn lemma_without_glyphs(s: Seq<char>)
    ensures
        forall|i: int|
            0 <= i < without_glyphs(s).len() ==> !is_glyph(#[trigger] without_glyphs(s)[i]),
    decreases s.len(),
{
    reveal(Seq::filter);
    if s.len() > 0 {
        lemma_without_glyphs(s.drop_last());
    }
}

/// A name holds no drawing character and no `#`, and neither starts nor
/// ends with white space.
pub proof fn lemma_name_is_clean(line: Seq<char>)
    ensures
        forall|i: int|
            0 <= i < name_of(line).len() ==> !is_glyph(#[trigger] name_of(line)[i]) && name_of(
                line,
            )[i] != '#',
        name_of(line).len() > 0 ==> !white_space(name_of(line).first()) && !white_space(
            name_of(line).last(),
        ),
{
    let bare = without_glyphs(line);
    lemma_without_glyphs(line);
    let outer = lemma_trim_bounds(bare);
    let trimmed = trim(bare);
    lemma_position_found(trimmed, '#');
    let cut = without_comment(trimmed);
    let inner = lemma_trim_bounds(cut);
    let name = name_of(line);
    assert forall|i: int| 0 <= i < name.len() implies !is_glyph(#[trigger] name[i]) && name[i]
        != '#' by {
        let in_cut = inner.0 + i;
        let in_bare = outer.0 + in_cut;
        assert(name[i] == cut[in_cut]);
        assert(cut[in_cut] == trimmed[in_cut]);
        assert(trimmed[in_cut] == bare[in_bare]);
    }
}

/// `line` with every drawing character taken out.
pub fn strip_glyphs(line: &[char]) -> (rest: Vec<char>)
    ensures
        rest@ == without_glyphs(line@),
{
    let mut rest: Vec<char> = Vec::new();
    let mut i: usize = 0;
    proof {
        reveal(Seq::filter);
        assert(line@.take(0) =~= Seq::<char>::empty());
    }
    while i < line.len()
        invariant
            i <= line.len(),
            rest@ == without_glyphs(line@.take(i as int)),
        decreases line.len() - i,
    {
        let c = line[i];
        proof {
            reveal(Seq::filter);
            assert(line@.take(i + 1).drop_last() =~= line@.take(i as int));
            assert(line@.take(i + 1).last() == c);
        }
        if !(c == PIPE || c == TEE || c == CORNER || c == CONNECTOR) {
            rest.push(c);
        }
        i += 1;
    }
    assert(line@.take(i as int) =~= line@);
    rest
}

/// The name that `line` gives its entry, on its characters.
pub fn name_of_chars(line: &[char]) -> (name: Vec<char>)
    ensures
        name@ == name_of(line@),
{
    let rest = strip_glyphs(line);
    let rest = rest.as_slice();
    let (from, to) = trim_range(rest, 0, rest.len());
    let cut = find(rest, from, to, '#');
    let (start, end) = trim_range(rest, from, cut);
    proof {
        let whole = rest@.subrange(0, rest.len() as int);
        assert(whole =~= rest@);
        let trimmed = rest@.subrange(from as int, to as int);
        assert(trimmed.take(cut - from) =~= rest@.subrange(from as int, cut as int));
    }
    copy_range(rest, start, end)
}

/// The name that `line` gives its entry.
pub fn extract_name(line: &str) -> (name: String)
    ensures
        name@ == name_of(line@),
{
    let chars = chars_of(line);
    let name = name_of_chars(chars.as_slice());
    let text = string_of(name.as_slice(), 0, name.len());
    assert(name@.subrange(0, name.len() as int) =~= name@);
    text
}

/// What follows the last `/` of `name`; all of it where it holds none.
pub open spec fn last_segment(name: Seq<char>) -> Seq<char>
    decreases name.len(),
{
    if name.len() == 0 || name.last() == '/' {
        Seq::empty()
    } else {
        last_segment(name.drop_last()).push(name.last())
    }
}

/// Whether an entry called `name` is a directory: the name ends in `/`, or
/// its last segment holds no `.`.
pub open spec fn is_directory_name(name: Seq<char>) -> bool {
    ||| name.len() > 0 && name.last() == '/'
    ||| !last_segment(name).contains('.')
}

/// `name` without the `/` characters at its end.
pub open spec fn without_trailing_separators(name: Seq<char>) -> Seq<char>
    decreases name.len(),
{
    if name.len() > 0 && name.last() == '/' {
        without_trailing_separators(name.drop_last())
    } else {
        name
    }
}

/// The last segment starts behind the last `/`.
pub proof fn lemma_last_segment(name: Seq<char>, from: int)
    requires
        0 <= from <= name.len(),
        forall|k: int| from <= k < name.len() ==> #[trigger] name[k] != '/',
        from == 0 || name[from - 1] == '/',
    ensures
        last_segment(name) == name.skip(from),
    decreases name.len() - from,
{
    if from < name.len() {
        let front = name.drop_last();
        lemma_last_segment(front, from);
        assert(front.skip(from).push(name.last()) =~= name.skip(from));
    } else {
        assert(name.skip(from) =~= Seq::<char>::empty());
    }
}

/// Whether an entry called `name` is a directory, on its characters.
pub fn is_directory_chars(name: &[char]) -> (yes: bool)
    ensures
        yes == is_directory_name(name@),
{
    let len = name.len();
    if len > 0 && name[len - 1] == '/' {
        return true;
    }
    let mut from: usize = len;
    let mut dotted = false;
    while from > 0 && name[from - 1] != '/'
        invariant
            len == name.len(),
            from <= len,
            forall|k: int| from <= k < len ==> #[trigger] name@[k] != '/',
            dotted == name@.skip(from as int).contains('.'),
        decreases from,
    {
        from -= 1;
        proof {
            let tail = name@.skip(from as int);
            let shorter = name@.skip(from + 1);
            assert(tail[0] == name@[from as int]);
            assert(tail.skip(1) =~= shorter);
            if shorter.contains('.') {
                let k = choose|k: int| 0 <= k < shorter.len() && shorter[k] == '.';
                assert(tail[k + 1] == '.');
            }
            if tail.contains('.') && name@[from as int] != '.' {
                let k = choose|k: int| 0 <= k < tail.len() && tail[k] == '.';
                assert(shorter[k - 1] == '.');
            }
        }
        if name[from] == '.' {
            dotted = true;
        }
    }
    proof {
        lemma_last_segment(name@, from as int);
    }
    !dotted
}

/// Whether an entry called `name` is a directory.
pub fn is_directory(name: &str) -> (yes: bool)
    ensures
        yes == is_directory_name(name@),
{
    let chars = chars_of(name);
    is_directory_chars(chars.as_slice())
}

/// The length of `name` without the `/` characters at its end.
pub fn stored_len(name: &[char]) -> (len: usize)
    ensures
        len <= name.len(),
        name@.take(len as int) == without_trailing_separators(name@),
{
    let mut len: usize = name.len();
    assert(name@.take(len as int) =~= name@);
    while len > 0 && name[len - 1] == '/'
        invariant
            len <= name.len(),
            without_trailing_separators(name@.take(len as int)) == without_trailing_separators(
                name@,
            ),
        decreases len,
    {
        assert(name@.take(len as int).drop_last() =~= name@.take(len - 1));
        len -= 1;
    }
    len
}

/// A stored name never ends in `/`.
pub proof fn lemma_stored_name_end(name: Seq<char>)
    ensures
        without_trailing_separators(name).len() > 0 ==> without_trailing_separators(name).last()
            != '/',
        without_trailing_separators(name).len() <= name.len(),
    decreases name.len(),
{
    if name.len() > 0 && name.last() == '/' {
        lemma_stored_name_end(name.drop_last());
    }
}

/// A name that ends in `/` is a directory's, and is stored without the `/`.
pub proof fn lemma_trailing_separator(name: Seq<char>)
    requires
        name.len() > 0,
        name.last() == '/',
    ensures
        is_directory_name(name),
        without_trailing_separators(name).len() < name.len(),
        without_trailing_separators(name).len() > 0 ==> without_trailing_separators(name).last()
            != '/',
{
    lemma_stored_name_end(name);
    lemma_stored_name_end(name.drop_last());
}

/// A name that does not end in `/` and has a `.` in its last segment is a
/// file's.
pub proof fn lemma_dotted_name(name: Seq<char>)
    requires
        name.len() > 0,
        name.last() != '/',
        last_segment(name).contains('.'),
    ensures
        !is_directory_name(name),
        without_trailing_separators(name) == name,
{
}

} // verus!
