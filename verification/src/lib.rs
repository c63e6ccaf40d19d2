//! Turns a text diagram of a file hierarchy into a tree of entries, and says
//! what creating or previewing that tree amounts to.

pub mod builder;
pub mod creator;
pub mod error;
pub mod line;
pub mod parser;
pub mod text;
pub mod tree;

pub use creator::{create, preview, Step};
pub use error::TreeCraftError;
pub use parser::{BoxDrawingParser, Parser};
pub use tree::Node;

use creator::{line_views, plan_of, preview_of, step_views};
use parser::{empty_input, parsed};
use vstd::prelude::*;

verus! {

/// What the caller is to do with a diagram that was read.
pub enum Action {
    /// Print these lines, and touch nothing.
    Show(Vec<String>),
    /// Perform these steps in order, and stop at the first that fails.
    Create(Vec<Step>),
}

/// Reads the diagram in `contents` and decides what is to be done with it.
///
/// A text that is no diagram is refused before anything else is looked at.
/// With `preview` the answer is the lines that show the tree, whether or
/// not the destination exists. Without it the answer is the steps that
/// create the tree at `output_path`, or, where `destination_exists`, the
/// error that says so.
pub fn build_structure(
    contents: &str,
    output_path: &str,
    preview: bool,
    destination_exists: bool,
) -> (outcome: Result<Action, TreeCraftError>)
    ensures
        match parsed(contents@) {
            None => outcome matches Err(TreeCraftError::Parse(message)) && message@
                == empty_input(),
            Some(tree) => if preview {
                outcome matches Ok(Action::Show(lines)) && line_views(lines@) == preview_of(tree)
            } else if destination_exists {
                outcome matches Err(TreeCraftError::AlreadyExists(path)) && path@ == output_path@
            } else {
                outcome matches Ok(Action::Create(steps)) && step_views(steps@) == plan_of(tree)
            },
        },
{
    let parser = BoxDrawingParser;
    let root = match parser.parse(contents) {
        Ok(root) => root,
        Err(error) => {
            return Err(error);
        },
    };
    if preview {
        Ok(Action::Show(creator::preview(&root)))
    } else {
        match create(&root, output_path, destination_exists) {
            Ok(steps) => Ok(Action::Create(steps)),
            Err(error) => Err(error),
        }
    }
}

} // verus!
