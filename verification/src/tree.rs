//! The hierarchy that a diagram describes: one `Node` per entry, each owning
//! its children in the order in which they were written.

use vstd::prelude::*;

verus! {

/// The mathematical value of a `Node`: what contracts speak of.
pub struct Tree {
    pub name: Seq<char>,
    pub is_directory: bool,
    pub children: Seq<Tree>,
}

impl Tree {
    /// A file has no children, here and in every subtree.
    pub open spec fn well_formed(self) -> bool
        decreases self,
    {
        &&& !self.is_directory ==> self.children.len() == 0
        &&& forall|i: int|
            0 <= i < self.children.len() ==> (#[trigger] self.children[i]).well_formed()
    }

    /// The number of entries below this one, at any depth.
    pub open spec fn descendants(self) -> nat
        decreases self, 0nat,
    {
        size_from(self.children, 0)
    }
}

/// Every tree of `forest` is well formed.
pub open spec fn all_well_formed(forest: Seq<Tree>) -> bool {
    forall|i: int| 0 <= i < forest.len() ==> (#[trigger] forest[i]).well_formed()
}

/// A well-formed directory that is given well-formed trees as further
/// children stays well formed.
pub proof fn lemma_grown_well_formed(parent: Tree, added: Seq<Tree>)
    requires
        parent.is_directory,
        parent.well_formed(),
        all_well_formed(added),
    ensures
        (Tree { children: parent.children + added, ..parent }).well_formed(),
{
    let all = parent.children + added;
    assert forall|i: int| 0 <= i < all.len() implies (#[trigger] all[i]).well_formed() by {
        if i < parent.children.len() {
            assert(all[i] == parent.children[i]);
        } else {
            assert(all[i] == added[i - parent.children.len()]);
        }
    }
}

/// The number of entries in the trees of `forest` from index `from` on,
/// each tree counted with all that lies below it.
pub open spec fn size_from(forest: Seq<Tree>, from: int) -> nat
    decreases forest, forest.len() - from,
{
    if 0 <= from < forest.len() {
        1 + forest[from].descendants() + size_from(forest, from + 1)
    } else {
        0
    }
}

/// The number of entries in `forest`.
pub open spec fn forest_size(forest: Seq<Tree>) -> nat {
    size_from(forest, 0)
}

/// Behind the trees of `front`, the count goes on in `back` alone.
pub proof fn lemma_size_from_back(front: Seq<Tree>, back: Seq<Tree>, from: int)
    requires
        front.len() <= from,
    ensures
        size_from(front + back, from) == size_from(back, from - front.len()),
    decreases back.len() - (from - front.len()),
{
    let all = front + back;
    if from < all.len() {
        assert(all[from] == back[from - front.len()]);
        lemma_size_from_back(front, back, from + 1);
    }
}

/// A forest holds its first tree, what lies below that, and the rest.
pub proof fn lemma_forest_size_first(first: Tree, rest: Seq<Tree>)
    ensures
        forest_size(seq![first] + rest) == 1 + first.descendants() + forest_size(rest),
{
    let all = seq![first] + rest;
    assert(all[0] == first);
    lemma_size_from_back(seq![first], rest, 1);
}

/// One entry of the hierarchy, a file or a directory.
#[derive(Debug)]
pub struct Node {
    pub name: String,
    pub is_directory: bool,
    pub children: Vec<Node>,
}

/// The value of `node`: its name as characters, its kind, and the values of
/// its children in order.
pub open spec fn tree_of(node: Node) -> Tree
    decreases node,
{
    Tree {
        name: node.name@,
        is_directory: node.is_directory,
        children: Seq::new(
            node.children@.len(),
            |i: int|
                if 0 <= i < node.children@.len() {
                    tree_of(node.children@[i])
                } else {
                    arbitrary()
                },
        ),
    }
}

impl View for Node {
    type V = Tree;

    open spec fn view(&self) -> Tree {
        tree_of(*self)
    }
}

impl Clone for Node {
    /// A copy of the entry and of all that lies below it.
    fn clone(&self) -> (copy: Node)
        ensures
            copy@ == self@,
        decreases self,
    {
        let mut children: Vec<Node> = Vec::new();
        let mut i: usize = 0;
        while i < self.children.len()
            invariant
                i <= self.children.len(),
                children.len() == i,
                forall|j: int| 0 <= j < i ==> (#[trigger] children[j])@ == self.children[j]@,
            decreases self.children.len() - i,
        {
            children.push(self.children[i].clone());
            i += 1;
        }
        let copy = Node { name: self.name.clone(), is_directory: self.is_directory, children };
        assert(copy@.children =~= self@.children);
        copy
    }
}

impl Node {
    /// An entry without children.
    pub fn new(name: String, is_directory: bool) -> (node: Node)
        ensures
            node@ == (Tree { name: name@, is_directory, children: Seq::empty() }),
    {
        let node = Node { name, is_directory, children: Vec::new() };
        assert(node@.children =~= Seq::empty());
        node
    }

    /// Appends `child` after the children already there. Nothing is checked:
    /// a file given a child stops being well formed.
    pub fn add_child(&mut self, child: Node)
        ensures
            final(self)@ == (Tree { children: old(self)@.children.push(child@), ..old(self)@ }),
    {
        self.children.push(child);
        assert(self@.children =~= old(self)@.children.push(child@));
    }
}

} // verus!
