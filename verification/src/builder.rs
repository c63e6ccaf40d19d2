//! The tree builder: nests a flat list of entries by their depths.

use crate::tree::{
    all_well_formed, forest_size, lemma_forest_size_first, lemma_grown_well_formed, Node, Tree,
};
use vstd::prelude::*;

verus! {

/// What one line of a diagram says of its entry.
pub struct Entry {
    pub depth: nat,
    pub name: Seq<char>,
    pub is_directory: bool,
}

impl Entry {
    /// The entry as a tree with `children` below it.
    pub open spec fn with_children(self, children: Seq<Tree>) -> Tree {
        Tree { name: self.name, is_directory: self.is_directory, children }
    }
}

/// The entries that `items` stand for.
pub open spec fn item_views(items: Seq<(usize, String, bool)>) -> Seq<Entry> {
    Seq::new(
        items.len(),
        |i: int| Entry { depth: items[i].0 as nat, name: items[i].1@, is_directory: items[i].2 },
    )
}

/// The children that the entries from `start` on give a parent at depth
/// `level`, and the index of the first entry that is not among them or
/// below them.
///
/// An entry one level below the parent is its child. A directory takes the
/// entries that follow as its own children, a file takes none, and the
/// parent goes on behind them. The first entry at any other depth ends the
/// parent's children: one at the parent's depth or above belongs to an
/// ancestor, one more than a level below belongs to nobody.
pub open spec fn attach(entries: Seq<Entry>, start: int, level: int) -> (Seq<Tree>, int)
    decreases entries.len() - start,
{
    if 0 <= start < entries.len() && entries[start].depth == level + 1 {
        let entry = entries[start];
        let (below, next) = if entry.is_directory {
            attach(entries, start + 1, level + 1)
        } else {
            (Seq::empty(), start + 1)
        };
        if start < next <= entries.len() {
            let (after, end) = attach(entries, next, level);
            (seq![entry.with_children(below)] + after, end)
        } else {
            // Never so: see `lemma_attach_advances`.
            (Seq::empty(), start)
        }
    } else {
        (Seq::empty(), start)
    }
}

/// `attach` stops at or behind `start`, within the entries if it started
/// there; it moves on exactly when the entry at `start` is a child.
pub proof fn lemma_attach_advances(entries: Seq<Entry>, start: int, level: int)
    ensures
        start <= attach(entries, start, level).1,
        0 <= start <= entries.len() ==> attach(entries, start, level).1 <= entries.len(),
        0 <= start < entries.len() && entries[start].depth == level + 1 ==> start < attach(
            entries,
            start,
            level,
        ).1,
    decreases entries.len() - start,
{
    if 0 <= start < entries.len() && entries[start].depth == level + 1 {
        let entry = entries[start];
        if entry.is_directory {
            lemma_attach_advances(entries, start + 1, level + 1);
        }
        let next = if entry.is_directory {
            attach(entries, start + 1, level + 1).1
        } else {
            start + 1
        };
        lemma_attach_advances(entries, next, level);
    }
}

/// No file among the attached trees has children, at any depth: only a
/// directory is ever given the entries that follow it.
pub proof fn lemma_attach_well_formed(entries: Seq<Entry>, start: int, level: int)
    ensures
        all_well_formed(attach(entries, start, level).0),
    decreases entries.len() - start,
{
    if 0 <= start < entries.len() && entries[start].depth == level + 1 {
        let entry = entries[start];
        lemma_attach_advances(entries, start, level);
        let (below, next) = if entry.is_directory {
            attach(entries, start + 1, level + 1)
        } else {
            (Seq::empty(), start + 1)
        };
        if entry.is_directory {
            lemma_attach_advances(entries, start + 1, level + 1);
            lemma_attach_well_formed(entries, start + 1, level + 1);
        }
        lemma_attach_well_formed(entries, next, level);
        let first = entry.with_children(below);
        let after = attach(entries, next, level).0;
        let all = attach(entries, start, level).0;
        assert(first.well_formed());
        assert forall|i: int| 0 <= i < all.len() implies (#[trigger] all[i]).well_formed() by {
            if i > 0 {
                assert(all[i] == after[i - 1]);
            }
        }
    }
}

/// Every entry that `attach` passes becomes exactly one entry of the
/// attached trees.
pub proof fn lemma_attach_size(entries: Seq<Entry>, start: int, level: int)
    ensures
        forest_size(attach(entries, start, level).0) == attach(entries, start, level).1 - start,
    decreases entries.len() - start,
{
    if 0 <= start < entries.len() && entries[start].depth == level + 1 {
        let entry = entries[start];
        lemma_attach_advances(entries, start, level);
        let (below, next) = if entry.is_directory {
            attach(entries, start + 1, level + 1)
        } else {
            (Seq::empty(), start + 1)
        };
        if entry.is_directory {
            lemma_attach_advances(entries, start + 1, level + 1);
            lemma_attach_size(entries, start + 1, level + 1);
        }
        lemma_attach_size(entries, next, level);
        lemma_forest_size_first(entry.with_children(below), attach(entries, next, level).0);
    }
}

/// The entries of `tree` and of all below it, parents before children,
/// where `tree` lies at `depth`.
pub open spec fn listed(tree: Tree, depth: nat) -> Seq<Entry>
    decreases tree, 0nat,
{
    seq![Entry { depth, name: tree.name, is_directory: tree.is_directory }] + listed_from(
        tree.children,
        0,
        depth + 1,
    )
}

/// The entries of the siblings from index `from` on, which lie at `depth`,
/// each followed by all below it.
pub open spec fn listed_from(forest: Seq<Tree>, from: int, depth: nat) -> Seq<Entry>
    decreases forest, forest.len() - from,
{
    if 0 <= from < forest.len() {
        listed(forest[from], depth) + listed_from(forest, from + 1, depth)
    } else {
        Seq::empty()
    }
}

/// Behind the trees of `front`, the listing goes on in `back` alone.
pub proof fn lemma_listed_from_back(front: Seq<Tree>, back: Seq<Tree>, from: int, depth: nat)
    requires
        front.len() <= from,
    ensures
        listed_from(front + back, from, depth) == listed_from(back, from - front.len(), depth),
    decreases back.len() - (from - front.len()),
{
    let all = front + back;
    if from < all.len() {
        assert(all[from] == back[from - front.len()]);
        lemma_listed_from_back(front, back, from + 1, depth);
    }
}

/// The attached trees hold the entries that `attach` passed, and nothing
/// else: listed parents first, with the depths at which they lie, they are
/// those entries in their order.
pub proof fn lemma_attach_keeps_entries(entries: Seq<Entry>, start: int, level: int)
    requires
        0 <= start <= entries.len(),
        0 <= level,
    ensures
        listed_from(attach(entries, start, level).0, 0, (level + 1) as nat) == entries.subrange(
            start,
            attach(entries, start, level).1,
        ),
    decreases entries.len() - start,
{
    lemma_attach_advances(entries, start, level);
    let end = attach(entries, start, level).1;
    if start < entries.len() && entries[start].depth == level + 1 {
        let entry = entries[start];
        let (below, next) = if entry.is_directory {
            attach(entries, start + 1, level + 1)
        } else {
            (Seq::empty(), start + 1)
        };
        if entry.is_directory {
            lemma_attach_advances(entries, start + 1, level + 1);
            lemma_attach_keeps_entries(entries, start + 1, level + 1);
        }
        lemma_attach_advances(entries, next, level);
        lemma_attach_keeps_entries(entries, next, level);
        let first = entry.with_children(below);
        let after = attach(entries, next, level).0;
        let all = seq![first] + after;
        assert(all[0] == first);
        lemma_listed_from_back(seq![first], after, 1, (level + 1) as nat);
        assert(listed_from(below, 0, (level + 2) as nat) =~= entries.subrange(start + 1, next));
        assert(listed(first, (level + 1) as nat) =~= entries.subrange(start, next));
        assert(entries.subrange(start, next) + entries.subrange(next, end) =~= entries.subrange(
            start,
            end,
        ));
    } else {
        assert(entries.subrange(start, end) =~= Seq::<Entry>::empty());
    }
}

/// Where one pass over the entries from `at` on ends that keeps nothing but
/// the depth of the directory that is `open`: it goes on while the entry
/// lies below `floor` and at most one level below the open directory, which
/// a directory then becomes and a file leaves to its parent.
pub open spec fn pass_end(entries: Seq<Entry>, at: int, floor: int, open: int) -> int
    decreases entries.len() - at,
{
    if 0 <= at < entries.len() && floor < entries[at].depth <= open + 1 {
        let entry = entries[at];
        pass_end(
            entries,
            at + 1,
            floor,
            if entry.is_directory {
                entry.depth as int
            } else {
                entry.depth - 1
            },
        )
    } else {
        at
    }
}

/// A pass below `floor` ends where the pass below the next level ends, or
/// goes on from there with the directory at `floor` open.
pub proof fn lemma_pass_end_resumes(entries: Seq<Entry>, at: int, floor: int, open: int)
    requires
        floor < open,
    ensures
        pass_end(entries, at, floor, open) == pass_end(
            entries,
            pass_end(entries, at, floor + 1, open),
            floor,
            floor,
        ),
    decreases entries.len() - at,
{
    if 0 <= at < entries.len() && floor + 1 < entries[at].depth <= open + 1 {
        let entry = entries[at];
        let next = if entry.is_directory {
            entry.depth as int
        } else {
            entry.depth - 1
        };
        lemma_pass_end_resumes(entries, at + 1, floor, next);
    }
}

/// Nesting by recursive descent takes the same entries as one forward pass
/// with a single counter: the children of a parent at depth `level` end at
/// the first entry that lies at or above that depth, or more than one level
/// below the directory that is open when it is met.
pub proof fn lemma_attach_is_one_pass(entries: Seq<Entry>, start: int, level: int)
    ensures
        attach(entries, start, level).1 == pass_end(entries, start, level, level),
    decreases entries.len() - start,
{
    if 0 <= start < entries.len() && entries[start].depth == level + 1 {
        let entry = entries[start];
        lemma_attach_advances(entries, start, level);
        if entry.is_directory {
            let inner = attach(entries, start + 1, level + 1).1;
            lemma_attach_advances(entries, start + 1, level + 1);
            lemma_attach_is_one_pass(entries, start + 1, level + 1);
            lemma_attach_is_one_pass(entries, inner, level);
            lemma_pass_end_resumes(entries, start + 1, level, level + 1);
        } else {
            lemma_attach_is_one_pass(entries, start + 1, level);
        }
    }
}

/// Appends to `parent` the children that `items` give it from `start_idx`
/// on, each with all that lies below it, and returns the index of the first
/// item that was not used. `parent_level` is the depth of `parent`.
pub fn build_tree(
    parent: &mut Node,
    items: &[(usize, String, bool)],
    start_idx: usize,
    parent_level: usize,
) -> (next: usize)
    ensures
        final(parent)@ == (Tree {
            children: old(parent)@.children + attach(
                item_views(items@),
                start_idx as int,
                parent_level as int,
            ).0,
            ..old(parent)@
        }),
        next == attach(item_views(items@), start_idx as int, parent_level as int).1,
        start_idx <= next,
        old(parent)@.is_directory && old(parent)@.well_formed() ==> final(parent)@.well_formed(),
    decreases items.len() - start_idx,
{
    let ghost entries = item_views(items@);
    proof {
        lemma_attach_well_formed(entries, start_idx as int, parent_level as int);
        if parent@.is_directory && parent@.well_formed() {
            lemma_grown_well_formed(
                parent@,
                attach(entries, start_idx as int, parent_level as int).0,
            );
        }
    }
    let ghost level = parent_level as int;
    let mut i: usize = start_idx;
    assert(parent@.children + attach(entries, i as int, level).0 =~= old(parent)@.children
        + attach(entries, start_idx as int, level).0);
    while i < items.len()
        invariant
            entries == item_views(items@),
            level == parent_level as int,
            start_idx <= i,
            parent@.name == old(parent)@.name,
            parent@.is_directory == old(parent)@.is_directory,
            parent@.children + attach(entries, i as int, level).0 == old(parent)@.children
                + attach(entries, start_idx as int, level).0,
            attach(entries, i as int, level).1 == attach(entries, start_idx as int, level).1,
            old(parent)@.is_directory && old(parent)@.well_formed() ==> (Tree {
                children: old(parent)@.children + attach(entries, start_idx as int, level).0,
                ..old(parent)@
            }).well_formed(),
        decreases items.len() - i,
    {
        let item = &items[i];
        let ghost entry = entries[i as int];
        let ghost before = parent@.children;
        if item.0 >= 1 && item.0 - 1 == parent_level {
            let mut child = Node::new(item.1.clone(), item.2);
            let next = if item.2 {
                build_tree(&mut child, items, i + 1, item.0)
            } else {
                i + 1
            };
            proof {
                lemma_attach_advances(entries, i as int, level);
                let after = attach(entries, next as int, level).0;
                assert(child@ == entry.with_children(child@.children));
                assert(child@.children =~= if entry.is_directory {
                    attach(entries, i + 1, level + 1).0
                } else {
                    Seq::empty()
                });
                assert(before.push(child@) + after =~= before + (seq![child@] + after));
            }
            parent.add_child(child);
            i = next;
        } else {
            return i;
        }
    }
    i
}

} // verus!
