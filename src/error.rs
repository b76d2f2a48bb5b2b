//! Errors that a migration reports.

use vstd::prelude::*;
use vstd::string::StringExecFns;

verus! {

/// What went wrong.
#[derive(Clone, Copy, Debug, PartialEq, Eq, Structural)]
pub enum ErrorKind {
    /// A block's content did not have the shape its kind asks for.
    Transform,
    /// A remote call failed on the way.
    Transport,
    /// A block or file no longer resolves.
    NotFound,
    /// A document tree could not be read.
    Parse,
}

/// An error, with the block it arose on where there is one.
#[derive(Clone, Debug)]
pub struct MyError {
    pub kind: ErrorKind,
    pub block: Option<String>,
    pub detail: String,
}

pub open spec fn kind_label(k: ErrorKind) -> Seq<char> {
    match k {
        ErrorKind::Transform => "transform error"@,
        ErrorKind::Transport => "transport error"@,
        ErrorKind::NotFound => "not found"@,
        ErrorKind::Parse => "parse error"@,
    }
}

/// The text of an error: its kind, the block where there is one, its detail.
pub open spec fn message_of(kind: ErrorKind, block: Option<Seq<char>>, detail: Seq<char>) -> Seq<char> {
    kind_label(kind) + match block {
        Some(id) => " in block "@ + id,
        None => Seq::empty(),
    } + ": "@ + detail
}

impl MyError {
    pub fn message(&self) -> (r: String)
        ensures
            r@ == message_of(
                self.kind,
                match self.block {
                    Some(id) => Some(id@),
                    None => None,
                },
                self.detail@,
            ),
    {
        let mut r = match self.kind {
            ErrorKind::Transform => String::from_str("transform error"),
            ErrorKind::Transport => String::from_str("transport error"),
            ErrorKind::NotFound => String::from_str("not found"),
            ErrorKind::Parse => String::from_str("parse error"),
        };
        match &self.block {
            Some(id) => {
                r.append(" in block ");
                r.append(id.as_str());
            },
            None => {},
        }
        r.append(": ");
        r.append(self.detail.as_str());
        r
    }
}

} // verus!
