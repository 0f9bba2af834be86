//! The error every shell command reports, shown to the user as one message.

use vstd::prelude::*;
use vstd::string::StringExecFns;

verus! {

/// What went wrong in a shell command.
#[derive(Clone, Debug)]
pub enum ShellError {
    /// The path is not inside a git repository.
    NotARepo(String),
    /// No repository has been opened yet.
    NoRepoOpen,
    /// A git command exited unsuccessfully.
    Git {
        /// The command's arguments, joined by spaces (for display only).
        args: String,
        /// What git wrote to stderr, trimmed.
        stderr: String,
    },
    /// Reading or writing a file failed; the text of the I/O error.
    Io(String),
    /// Anything else, such as a background task that could not be joined.
    Internal(String),
}

/// The message shown for an error.
pub open spec fn error_message(e: ShellError) -> Seq<char> {
    match e {
        ShellError::NotARepo(path) => "Not a git repository: "@ + path@,
        ShellError::NoRepoOpen => "No repository is open"@,
        ShellError::Git { args, stderr } => "git "@ + args@ + ": "@ + stderr@,
        ShellError::Io(text) => "IO error: "@ + text@,
        ShellError::Internal(text) => "Internal error: "@ + text@,
    }
}

impl ShellError {
    /// The message shown for this error.
    pub fn message(&self) -> (r: String)
        ensures
            r@ == error_message(*self),
    {
        match self {
            ShellError::NotARepo(path) => {
                let mut r = "Not a git repository: ".to_owned();
                r.append(path.as_str());
                r
            },
            ShellError::NoRepoOpen => "No repository is open".to_owned(),
            ShellError::Git { args, stderr } => {
                let mut r = "git ".to_owned();
                r.append(args.as_str());
                r.append(": ");
                r.append(stderr.as_str());
                r
            },
            ShellError::Io(text) => {
                let mut r = "IO error: ".to_owned();
                r.append(text.as_str());
                r
            },
            ShellError::Internal(text) => {
                let mut r = "Internal error: ".to_owned();
                r.append(text.as_str());
                r
            },
        }
    }
}

} // verus!
