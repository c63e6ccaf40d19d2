//! The ways in which reading a diagram or creating its tree can fail.

use vstd::prelude::*;
use vstd::string::StringExecFns;

verus! {

/// `std::io::Error`: the failure of a call into the file system. Nothing is
/// known of what it holds.
#[verifier::external_type_specification]
#[verifier::external_body]
pub struct ExIoError(std::io::Error);

/// Why an operation of this library did not succeed.
#[derive(Debug)]
pub enum TreeCraftError {
    /// The text is no diagram; the message says why.
    Parse(String),
    /// The file system refused a call.
    FileSystem(std::io::Error),
    /// The path at which the tree was to be created is taken already.
    AlreadyExists(String),
}

/// `std::io::Error`'s `to_string`: the text with which the error displays
/// itself. Nothing is claimed of it.
#[verifier::external_body]
fn describe(err: &std::io::Error) -> (text: String) {
    err.to_string()
}

impl TreeCraftError {
    /// The words that head the message of each kind of error.
    pub open spec fn heading(self) -> Seq<char> {
        match self {
            TreeCraftError::Parse(_) => "Parse error: "@,
            TreeCraftError::FileSystem(_) => "File system error: "@,
            TreeCraftError::AlreadyExists(_) => "Path already exists: "@,
        }
    }

    /// A line for the user: the heading of the error's kind, then what it
    /// carries. For a failure of the file system that is the failure's own
    /// text, of which nothing more is known.
    pub fn message(&self) -> (text: String)
        ensures
            self.heading().is_prefix_of(text@),
            self matches TreeCraftError::Parse(msg) ==> text@ == self.heading() + msg@,
            self matches TreeCraftError::AlreadyExists(path) ==> text@ == self.heading() + path@,
    {
        match self {
            TreeCraftError::Parse(msg) => String::from_str("Parse error: ").concat(msg.as_str()),
            TreeCraftError::FileSystem(err) => {
                let detail = describe(err);
                String::from_str("File system error: ").concat(detail.as_str())
            },
            TreeCraftError::AlreadyExists(path) => String::from_str("Path already exists: ").concat(
                path.as_str(),
            ),
        }
    }

    /// The failure of the file system behind this error, if that is its kind.
    pub fn source(&self) -> (cause: Option<&std::io::Error>)
        ensures
            cause == match self {
                TreeCraftError::FileSystem(err) => Some(err),
                _ => None,
            },
    {
        match self {
            TreeCraftError::FileSystem(err) => Some(err),
            _ => None,
        }
    }
}

impl From<std::io::Error> for TreeCraftError {
    fn from(err: std::io::Error) -> (error: TreeCraftError) {
        TreeCraftError::FileSystem(err)
    }
}

impl vstd::std_specs::convert::FromSpecImpl<std::io::Error> for TreeCraftError {
    open spec fn obeys_from_spec() -> bool {
        true
    }

    open spec fn from_spec(err: std::io::Error) -> TreeCraftError {
        TreeCraftError::FileSystem(err)
    }
}

} // verus!
