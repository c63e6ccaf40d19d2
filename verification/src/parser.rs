//! From the text of a diagram to its tree: the first written line names the
//! root, and the lines behind it become the entries that are nested below it.

use crate::builder::{attach, build_tree, item_views, lemma_attach_well_formed, Entry};
use crate::error::TreeCraftError;
use crate::line::{
    depth_of, depth_of_chars, is_directory_chars, is_directory_name, last_segment,
    lemma_dotted_name, lemma_stored_name_end, lemma_trailing_separator, name_of, name_of_chars,
    stored_len, without_trailing_separators,
};
use crate::text::{chars_of, lines, row_views, split_lines, string_of, trim, trim_range};
use crate::tree::{Node, Tree};
use vstd::prelude::*;
use vstd::string::StringExecFns;

verus! {

/// The entry that `line` describes. It depends on the line alone.
pub open spec fn entry_of(line: Seq<char>) -> Entry {
    Entry {
        depth: depth_of(line),
        name: without_trailing_separators(name_of(line)),
        is_directory: is_directory_name(name_of(line)),
    }
}

/// How the name on a line settles the kind of its entry and the name that
/// is stored: a name that ends in `/` gives a directory; one that does not,
/// and has a `.` in its last segment, gives a file stored under that very
/// name; and no stored name ends in `/`.
pub proof fn lemma_entry_kind(line: Seq<char>)
    ensures
        name_of(line).len() > 0 && name_of(line).last() == '/' ==> entry_of(line).is_directory,
        name_of(line).len() > 0 && name_of(line).last() != '/' && last_segment(
            name_of(line),
        ).contains('.') ==> !entry_of(line).is_directory && entry_of(line).name == name_of(line),
        entry_of(line).name.len() > 0 ==> entry_of(line).name.last() != '/',
{
    let name = name_of(line);
    lemma_stored_name_end(name);
    if name.len() > 0 && name.last() == '/' {
        lemma_trailing_separator(name);
    } else if name.len() > 0 && last_segment(name).contains('.') {
        lemma_dotted_name(name);
    }
}

/// The entries of `rows`, in order. A row that names nothing (it is blank,
/// or holds only drawing characters or a comment) has none.
pub open spec fn entries_of(rows: Seq<Seq<char>>) -> Seq<Entry> {
    rows.filter(|row: Seq<char>| name_of(row).len() > 0).map_values(
        |row: Seq<char>| entry_of(row),
    )
}

/// A row with nothing written on it.
pub open spec fn is_blank(row: Seq<char>) -> bool {
    trim(row).len() == 0
}

/// The index of the first row that is not blank, or the number of rows
/// where all are.
pub open spec fn first_written(rows: Seq<Seq<char>>) -> nat
    decreases rows.len(),
{
    if rows.len() > 0 && is_blank(rows[0]) {
        1 + first_written(rows.skip(1))
    } else {
        0
    }
}

/// `first_written` is the one index before which every row is blank and at
/// which the rows hold a written one or end.
pub proof fn lemma_first_written(rows: Seq<Seq<char>>, at: int)
    requires
        0 <= at <= rows.len(),
        forall|k: int| 0 <= k < at ==> is_blank(#[trigger] rows[k]),
        at == rows.len() || !is_blank(rows[at]),
    ensures
        first_written(rows) == at,
    decreases at,
{
    if at > 0 {
        let rest = rows.skip(1);
        assert forall|k: int| 0 <= k < at - 1 implies is_blank(#[trigger] rest[k]) by {
            assert(rest[k] == rows[k + 1]);
        }
        lemma_first_written(rest, at - 1);
    }
}

/// The name of the root: that of the first row that is not blank, without
/// `/` at its end. Where every row is blank the root has no name.
pub open spec fn root_name(rows: Seq<Seq<char>>) -> Seq<char> {
    let at = first_written(rows) as int;
    if at < rows.len() {
        without_trailing_separators(name_of(rows[at]))
    } else {
        Seq::empty()
    }
}

/// The rows behind the one that names the root.
pub open spec fn rows_below_root(rows: Seq<Seq<char>>) -> Seq<Seq<char>> {
    let at = first_written(rows) as int;
    if at < rows.len() {
        rows.skip(at + 1)
    } else {
        Seq::empty()
    }
}

/// The tree that the text of a diagram describes, or `None` where the text
/// has no line at all.
///
/// The first line that is not blank names the root, which is a directory
/// whatever its name looks like. The lines behind it give the entries, and
/// the root takes its children from them as a parent at depth 0.
pub open spec fn parsed(text: Seq<char>) -> Option<Tree> {
    let rows = lines(text);
    if rows.len() == 0 {
        None
    } else {
        Some(
            Tree {
                name: root_name(rows),
                is_directory: true,
                children: attach(entries_of(rows_below_root(rows)), 0, 0).0,
            },
        )
    }
}

/// The tree of a diagram has a directory at its root and no file with
/// children.
pub proof fn lemma_parsed_well_formed(text: Seq<char>)
    ensures
        parsed(text) matches Some(tree) ==> tree.is_directory && tree.well_formed(),
{
    lemma_attach_well_formed(entries_of(rows_below_root(lines(text))), 0, 0);
}

/// A diagram whose root line has no entry behind it gives a root without
/// children.
pub proof fn lemma_root_alone(text: Seq<char>)
    requires
        lines(text).len() > 0,
        entries_of(rows_below_root(lines(text))).len() == 0,
    ensures
        parsed(text) matches Some(tree) && tree.is_directory && tree.children.len() == 0,
{
}

/// What a line gives is settled by the line alone: the entries of a text
/// are those of what stands before the line, then the line's own if it
/// names anything, then those of what stands behind it.
pub proof fn lemma_entries_line_by_line(
    before: Seq<Seq<char>>,
    line: Seq<char>,
    after: Seq<Seq<char>>,
)
    ensures
        entries_of(before + seq![line] + after) == entries_of(before) + entries_of(seq![line])
            + entries_of(after),
        entries_of(seq![line]) == if name_of(line).len() > 0 {
            seq![entry_of(line)]
        } else {
            Seq::empty()
        },
{
    let named = |row: Seq<char>| name_of(row).len() > 0;
    let entry = |row: Seq<char>| entry_of(row);
    let one = seq![line];
    Seq::filter_distributes_over_add(before, one, named);
    Seq::filter_distributes_over_add(before + one, after, named);
    assert(entries_of(before + one + after) =~= entries_of(before) + entries_of(one) + entries_of(
        after,
    ));
    assert(one.filter(named) =~= if name_of(line).len() > 0 {
        one
    } else {
        Seq::empty()
    }) by {
        reveal_with_fuel(Seq::filter, 2);
        assert(one.drop_last() =~= Seq::<Seq<char>>::empty());
    }
    assert(entries_of(one) =~= if name_of(line).len() > 0 {
        seq![entry_of(line)]
    } else {
        Seq::empty()
    });
}

/// The index of the first row that is not blank, or the number of rows.
pub fn find_written(rows: &Vec<Vec<char>>) -> (at: usize)
    ensures
        at == first_written(row_views(rows@)),
        at <= rows.len(),
{
    let mut at: usize = 0;
    while at < rows.len()
        invariant
            at <= rows.len(),
            forall|k: int| 0 <= k < at ==> is_blank(#[trigger] row_views(rows@)[k]),
        decreases rows.len() - at,
    {
        let row = rows[at].as_slice();
        let (from, to) = trim_range(row, 0, row.len());
        assert(row@.subrange(0, row.len() as int) =~= row@);
        if from < to {
            proof {
                lemma_first_written(row_views(rows@), at as int);
            }
            return at;
        }
        at += 1;
    }
    proof {
        lemma_first_written(row_views(rows@), at as int);
    }
    at
}

/// The entries of the rows from `from` on.
pub fn read_entries(rows: &Vec<Vec<char>>, from: usize) -> (items: Vec<(usize, String, bool)>)
    requires
        from <= rows.len(),
    ensures
        item_views(items@) == entries_of(row_views(rows@).skip(from as int)),
{
    let ghost all = row_views(rows@);
    let mut items: Vec<(usize, String, bool)> = Vec::new();
    let mut i: usize = from;
    proof {
        reveal(Seq::filter);
        assert(all.subrange(from as int, i as int) =~= Seq::<Seq<char>>::empty());
        assert(item_views(items@) =~= entries_of(all.subrange(from as int, i as int)));
    }
    while i < rows.len()
        invariant
            from <= i <= rows.len(),
            all == row_views(rows@),
            item_views(items@) == entries_of(all.subrange(from as int, i as int)),
        decreases rows.len() - i,
    {
        let row = rows[i].as_slice();
        let name = name_of_chars(row);
        let ghost before = item_views(items@);
        proof {
            reveal(Seq::filter);
            let seen = all.subrange(from as int, i + 1);
            assert(seen.drop_last() =~= all.subrange(from as int, i as int));
            assert(seen.last() == row@);
        }
        if name.len() > 0 {
            let depth = depth_of_chars(row);
            let is_dir = is_directory_chars(name.as_slice());
            let len = stored_len(name.as_slice());
            let stored = string_of(name.as_slice(), 0, len);
            items.push((depth, stored, is_dir));
            proof {
                assert(name@.subrange(0, len as int) =~= name@.take(len as int));
                assert(item_views(items@) =~= before.push(entry_of(row@)));
            }
        }
        i += 1;
    }
    assert(all.subrange(from as int, i as int) =~= all.skip(from as int));
    items
}

/// What is said of a text without any line.
pub open spec fn empty_input() -> Seq<char> {
    "empty input"@
}

/// A reader of diagrams in one notation.
pub trait Parser {
    /// The tree that this notation reads in `text`, or `None` where it
    /// reads none.
    spec fn reads(&self, text: Seq<char>) -> Option<Tree>;

    /// Reads the diagram in `contents`.
    fn parse(&self, contents: &str) -> (outcome: Result<Node, TreeCraftError>)
        ensures
            match self.reads(contents@) {
                Some(tree) => outcome matches Ok(root) && root@ == tree,
                None => outcome is Err,
            },
    ;
}

/// The notation drawn with `│`, `├──` and `└──`, or with plain indentation
/// before the branch.
pub struct BoxDrawingParser;

impl Parser for BoxDrawingParser {
    open spec fn reads(&self, text: Seq<char>) -> Option<Tree> {
        parsed(text)
    }

    fn parse(&self, contents: &str) -> (outcome: Result<Node, TreeCraftError>)
        ensures
            parsed(contents@) is None ==> (outcome matches Err(TreeCraftError::Parse(message))
                && message@ == empty_input()),
    {
        let text = chars_of(contents);
        let rows = split_lines(text.as_slice());
        if rows.len() == 0 {
            return Err(TreeCraftError::Parse(String::from_str("empty input")));
        }
        let at = find_written(&rows);
        if at >= rows.len() {
            proof {
                reveal(Seq::filter);
                assert(entries_of(Seq::empty()).len() == 0);
            }
            return Ok(Node::new(String::new(), true));
        }
        let name = name_of_chars(rows[at].as_slice());
        let len = stored_len(name.as_slice());
        let mut root = Node::new(string_of(name.as_slice(), 0, len), true);
        assert(name@.subrange(0, len as int) =~= name@.take(len as int));
        let items = read_entries(&rows, at + 1);
        build_tree(&mut root, items.as_slice(), 0, 0);
        assert(root@.children =~= attach(item_views(items@), 0, 0).0);
        Ok(root)
    }
}

} // verus!
