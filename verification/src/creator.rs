//! What to do with a finished tree: the lines that show it, and the steps
//! that create it on disk.

use crate::error::TreeCraftError;
use crate::tree::{all_well_formed, size_from, Node, Tree};
use vstd::prelude::*;
use vstd::string::StringExecFns;

verus! {

/// The character sequences of `lines`, in order.
pub open spec fn line_views(lines: Seq<String>) -> Seq<Seq<char>> {
    Seq::new(lines.len(), |i: int| lines[i]@)
}

/// How an entry is written: its name, with `/` behind it if it is a
/// directory.
pub open spec fn label(tree: Tree) -> Seq<char> {
    if tree.is_directory {
        tree.name + "/"@
    } else {
        tree.name
    }
}

/// The branch drawn before an entry: a corner before the last of its
/// siblings, a tee before the others.
pub open spec fn branch(is_last: bool) -> Seq<char> {
    if is_last {
        "└── "@
    } else {
        "├── "@
    }
}

/// What an entry puts before every line below it: blanks under the last of
/// its siblings, a pipe under the others.
pub open spec fn continuation(is_last: bool) -> Seq<char> {
    if is_last {
        "    "@
    } else {
        "│   "@
    }
}

/// The lines that show `tree` and all below it, where `prefix` is what its
/// ancestors put before it and `is_last` says that no sibling follows.
pub open spec fn rendered(tree: Tree, prefix: Seq<char>, is_last: bool) -> Seq<Seq<char>>
    decreases tree, 0nat,
{
    seq![prefix + branch(is_last) + label(tree)] + rendered_from(
        tree.children,
        0,
        prefix + continuation(is_last),
    )
}

/// The lines that show the siblings from index `from` on, in order, each
/// with all below it.
pub open spec fn rendered_from(siblings: Seq<Tree>, from: int, prefix: Seq<char>) -> Seq<
    Seq<char>,
>
    decreases siblings, siblings.len() - from,
{
    if 0 <= from < siblings.len() {
        rendered(siblings[from], prefix, from == siblings.len() - 1) + rendered_from(
            siblings,
            from + 1,
            prefix,
        )
    } else {
        Seq::empty()
    }
}

/// The preview of the tree under `root`: the root's name with `/` behind
/// it, then its children, drawn as a diagram.
pub open spec fn preview_of(root: Tree) -> Seq<Seq<char>> {
    seq![root.name + "/"@] + rendered_from(root.children, 0, Seq::empty())
}

/// An entry is shown on one line, and so is each entry below it.
pub proof fn lemma_rendered_len(tree: Tree, prefix: Seq<char>, is_last: bool)
    ensures
        rendered(tree, prefix, is_last).len() == 1 + tree.descendants(),
    decreases tree, 0nat,
{
    lemma_rendered_from_len(tree.children, 0, prefix + continuation(is_last));
}

/// Siblings are shown on as many lines as they hold entries.
pub proof fn lemma_rendered_from_len(siblings: Seq<Tree>, from: int, prefix: Seq<char>)
    ensures
        rendered_from(siblings, from, prefix).len() == size_from(siblings, from),
    decreases siblings, siblings.len() - from,
{
    if 0 <= from < siblings.len() {
        lemma_rendered_len(siblings[from], prefix, from == siblings.len() - 1);
        lemma_rendered_from_len(siblings, from + 1, prefix);
    }
}

/// A preview has one line for the root and one for every entry below it.
pub proof fn lemma_preview_len(root: Tree)
    ensures
        preview_of(root).len() == 1 + root.descendants(),
{
    lemma_rendered_from_len(root.children, 0, Seq::empty());
}

/// Appends to `lines` the lines that show `node` and all below it.
pub fn preview_node(node: &Node, prefix: &str, is_last: bool, lines: &mut Vec<String>)
    ensures
        line_views(final(lines)@) == line_views(old(lines)@) + rendered(node@, prefix@, is_last),
    decreases node,
{
    let ghost start = line_views(lines@);
    let ghost kids = node@.children;
    let drawn = String::from_str(prefix).concat(
        if is_last {
            "└── "
        } else {
            "├── "
        },
    ).concat(node.name.as_str());
    let line = if node.is_directory {
        drawn.concat("/")
    } else {
        drawn
    };
    let below = String::from_str(prefix).concat(
        if is_last {
            "    "
        } else {
            "│   "
        },
    );
    lines.push(line);
    assert(line_views(lines@) =~= start + seq![line@]);
    let count = node.children.len();
    let mut i: usize = 0;
    while i < count
        invariant
            i <= count == node.children.len(),
            kids == node@.children,
            below@ == prefix@ + continuation(is_last),
            line@ == prefix@ + branch(is_last) + label(node@),
            line_views(lines@) + rendered_from(kids, i as int, below@) == start + seq![line@]
                + rendered_from(kids, 0, below@),
        decreases count - i,
    {
        let ghost before = line_views(lines@);
        let ghost child = rendered(kids[i as int], below@, i == count - 1);
        let ghost rest = rendered_from(kids, i + 1, below@);
        preview_node(&node.children[i], below.as_str(), i == count - 1, lines);
        assert((before + child) + rest =~= before + (child + rest));
        i += 1;
    }
    assert(line_views(lines@) =~= line_views(lines@) + rendered_from(kids, i as int, below@));
    assert(start + seq![line@] + rendered_from(kids, 0, below@) =~= start + (seq![line@]
        + rendered_from(kids, 0, below@)));
}

/// The preview of the tree under `root`, line by line. Nothing is created.
pub fn preview(root: &Node) -> (lines: Vec<String>)
    ensures
        line_views(lines@) == preview_of(root@),
        lines.len() == 1 + root@.descendants(),
{
    proof {
        lemma_preview_len(root@);
    }
    let ghost kids = root@.children;
    let mut lines: Vec<String> = Vec::new();
    lines.push(root.name.clone().concat("/"));
    let ghost first = line_views(lines@);
    assert(first =~= seq![root@.name + "/"@]);
    let count = root.children.len();
    let mut i: usize = 0;
    while i < count
        invariant
            i <= count == root.children.len(),
            kids == root@.children,
            line_views(lines@) + rendered_from(kids, i as int, Seq::empty()) == first
                + rendered_from(kids, 0, Seq::empty()),
        decreases count - i,
    {
        let ghost before = line_views(lines@);
        let ghost child = rendered(kids[i as int], Seq::empty(), i == count - 1);
        let ghost rest = rendered_from(kids, i + 1, Seq::empty());
        preview_node(&root.children[i], "", i == count - 1, &mut lines);
        assert(""@ =~= Seq::<char>::empty()) by {
            reveal_strlit("");
        }
        assert((before + child) + rest =~= before + (child + rest));
        i += 1;
    }
    assert(line_views(lines@) =~= line_views(lines@) + rendered_from(
        kids,
        i as int,
        Seq::empty(),
    ));
    lines
}

/// One call into the file system: make a directory, or an empty file.
pub struct Step {
    /// The names that lead from the destination to the entry, the entry's
    /// own name last. The destination itself has none.
    pub path: Vec<String>,
    pub is_directory: bool,
}

/// The mathematical value of a `Step`.
pub struct StepView {
    pub path: Seq<Seq<char>>,
    pub is_directory: bool,
}

impl View for Step {
    type V = StepView;

    open spec fn view(&self) -> StepView {
        StepView { path: line_views(self.path@), is_directory: self.is_directory }
    }
}

/// The values of `steps`, in order.
pub open spec fn step_views(steps: Seq<Step>) -> Seq<StepView> {
    Seq::new(steps.len(), |i: int| steps[i]@)
}

/// The steps that create `tree` inside the directory at `base`: first the
/// entry itself, then, if it is a directory, its children in order. What a
/// file holds below it is not created.
pub open spec fn steps_of(tree: Tree, base: Seq<Seq<char>>) -> Seq<StepView>
    decreases tree, 0nat,
{
    let path = base.push(tree.name);
    let entry = StepView { path, is_directory: tree.is_directory };
    if tree.is_directory {
        seq![entry] + steps_from(tree.children, 0, path)
    } else {
        seq![entry]
    }
}

/// The steps that create the siblings from index `from` on, in order,
/// inside the directory at `base`.
pub open spec fn steps_from(siblings: Seq<Tree>, from: int, base: Seq<Seq<char>>) -> Seq<StepView>
    decreases siblings, siblings.len() - from,
{
    if 0 <= from < siblings.len() {
        steps_of(siblings[from], base) + steps_from(siblings, from + 1, base)
    } else {
        Seq::empty()
    }
}

/// The steps that create the tree under `root` at a destination: the
/// destination as a directory, whatever the root is called, then the
/// root's children in order, each before what lies below it.
pub open spec fn plan_of(root: Tree) -> Seq<StepView> {
    seq![StepView { path: Seq::empty(), is_directory: true }] + steps_from(
        root.children,
        0,
        Seq::empty(),
    )
}

/// Creating a well-formed tree takes one step for each of its entries.
pub proof fn lemma_steps_len(tree: Tree, base: Seq<Seq<char>>)
    requires
        tree.well_formed(),
    ensures
        steps_of(tree, base).len() == 1 + tree.descendants(),
    decreases tree, 0nat,
{
    if tree.is_directory {
        lemma_steps_from_len(tree.children, 0, base.push(tree.name));
    }
}

/// Creating well-formed siblings takes as many steps as they hold entries.
pub proof fn lemma_steps_from_len(siblings: Seq<Tree>, from: int, base: Seq<Seq<char>>)
    requires
        all_well_formed(siblings),
    ensures
        steps_from(siblings, from, base).len() == size_from(siblings, from),
    decreases siblings, siblings.len() - from,
{
    if 0 <= from < siblings.len() {
        lemma_steps_len(siblings[from], base);
        lemma_steps_from_len(siblings, from + 1, base);
    }
}

/// Where no file below the root has children, the plan has one step for
/// the destination and one for every entry below the root.
pub proof fn lemma_plan_len(root: Tree)
    requires
        all_well_formed(root.children),
    ensures
        plan_of(root).len() == 1 + root.descendants(),
{
    lemma_steps_from_len(root.children, 0, Seq::empty());
}

/// A copy of `path` with `name` behind it.
fn extended(path: &Vec<String>, name: &String) -> (longer: Vec<String>)
    ensures
        line_views(longer@) == line_views(path@).push(name@),
{
    let mut longer: Vec<String> = Vec::new();
    let mut i: usize = 0;
    while i < path.len()
        invariant
            i <= path.len(),
            longer.len() == i,
            forall|k: int| 0 <= k < i ==> (#[trigger] longer[k])@ == path[k]@,
        decreases path.len() - i,
    {
        longer.push(path[i].clone());
        i += 1;
    }
    longer.push(name.clone());
    assert(line_views(longer@) =~= line_views(path@).push(name@));
    longer
}

/// Appends to `steps` the steps that create `node` inside the directory at
/// `base_path`.
pub fn create_node(node: &Node, base_path: &Vec<String>, steps: &mut Vec<Step>)
    ensures
        step_views(final(steps)@) == step_views(old(steps)@) + steps_of(
            node@,
            line_views(base_path@),
        ),
    decreases node,
{
    let ghost start = step_views(steps@);
    let ghost kids = node@.children;
    let node_path = extended(base_path, &node.name);
    let step = Step { path: extended(base_path, &node.name), is_directory: node.is_directory };
    let ghost entry = step@;
    steps.push(step);
    assert(step_views(steps@) =~= start + seq![entry]);
    if node.is_directory {
        let count = node.children.len();
        let mut i: usize = 0;
        while i < count
            invariant
                i <= count == node.children.len(),
                kids == node@.children,
                step_views(steps@) + steps_from(kids, i as int, line_views(node_path@)) == start
                    + seq![entry] + steps_from(kids, 0, line_views(node_path@)),
            decreases count - i,
        {
            let ghost before = step_views(steps@);
            let ghost child = steps_of(kids[i as int], line_views(node_path@));
            let ghost rest = steps_from(kids, i + 1, line_views(node_path@));
            create_node(&node.children[i], &node_path, steps);
            assert((before + child) + rest =~= before + (child + rest));
            i += 1;
        }
        assert(step_views(steps@) =~= step_views(steps@) + steps_from(
            kids,
            i as int,
            line_views(node_path@),
        ));
        assert(start + seq![entry] + steps_from(kids, 0, line_views(node_path@)) =~= start + (
        seq![entry] + steps_from(kids, 0, line_views(node_path@))));
    }
}

/// Decides what creating the tree under `root` at `output_dir` takes.
///
/// Where the destination exists already nothing may be touched: the answer
/// is the error that says so, and no step. Otherwise the answer is the
/// steps to perform, in order; a step that fails ends the creation, and
/// what was made before it stays.
pub fn create(root: &Node, output_dir: &str, destination_exists: bool) -> (outcome: Result<
    Vec<Step>,
    TreeCraftError,
>)
    ensures
        destination_exists ==> (outcome matches Err(TreeCraftError::AlreadyExists(path)) && path@
            == output_dir@),
        !destination_exists ==> (outcome matches Ok(steps) && step_views(steps@) == plan_of(
            root@,
        )),
{
    if destination_exists {
        return Err(TreeCraftError::AlreadyExists(String::from_str(output_dir)));
    }
    let ghost kids = root@.children;
    let base: Vec<String> = Vec::new();
    let mut steps: Vec<Step> = Vec::new();
    steps.push(Step { path: Vec::new(), is_directory: true });
    let ghost first = step_views(steps@);
    assert(line_views(base@) =~= Seq::<Seq<char>>::empty());
    assert(first =~= seq![StepView { path: Seq::empty(), is_directory: true }]) by {
        assert(first[0].path =~= Seq::<Seq<char>>::empty());
    }
    let count = root.children.len();
    let mut i: usize = 0;
    while i < count
        invariant
            i <= count == root.children.len(),
            kids == root@.children,
            line_views(base@) == Seq::<Seq<char>>::empty(),
            step_views(steps@) + steps_from(kids, i as int, Seq::empty()) == first + steps_from(
                kids,
                0,
                Seq::empty(),
            ),
        decreases count - i,
    {
        let ghost before = step_views(steps@);
        let ghost child = steps_of(kids[i as int], Seq::empty());
        let ghost rest = steps_from(kids, i + 1, Seq::empty());
        create_node(&root.children[i], &base, &mut steps);
        assert((before + child) + rest =~= before + (child + rest));
        i += 1;
    }
    assert(step_views(steps@) =~= step_views(steps@) + steps_from(kids, i as int, Seq::empty()));
    Ok(steps)
}

} // verus!
