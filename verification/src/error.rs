//! The library's error type.
use vstd::prelude::*;
use crate::text::push_str;

verus! {

/// What can go wrong when storing, loading or running workflows.
pub enum Error {
    /// A JSON document could not be read or written.
    Serde(String),
    /// The database failed.
    Sql(String),
    /// A file could not be read or written.
    Io(String),
    /// The workflow cannot be run as it stands.
    InvalidWorkflow(String),
    /// A knot failed while running.
    Knot(String),
    /// No stored workflow has this id.
    NotFound { id: String },
    /// A stored workflow already has this id.
    Duplicate { id: String },
}

/// The text of an error, as its `Display` shows it.
pub open spec fn error_text(e: Error) -> Seq<char> {
    match e {
        Error::Serde(m) => "JSON error: "@ + m@,
        Error::Sql(m) => "SQLite error: "@ + m@,
        Error::Io(m) => "I/O error: "@ + m@,
        Error::InvalidWorkflow(m) => "invalid workflow: "@ + m@,
        Error::Knot(m) => "knot execution failed: "@ + m@,
        Error::NotFound { id } => "workflow with id '"@ + id@ + "' not found"@,
        Error::Duplicate { id } => "workflow with id '"@ + id@ + "' already exists"@,
    }
}

impl Error {
    /// The text of the error.
    pub fn message(&self) -> (s: String)
        ensures
            s@ == error_text(*self),
    {
        let mut s = String::new();
        match self {
            Error::Serde(m) => {
                push_str(&mut s, "JSON error: ");
                push_str(&mut s, m.as_str());
            },
            Error::Sql(m) => {
                push_str(&mut s, "SQLite error: ");
                push_str(&mut s, m.as_str());
            },
            Error::Io(m) => {
                push_str(&mut s, "I/O error: ");
                push_str(&mut s, m.as_str());
            },
            Error::InvalidWorkflow(m) => {
                push_str(&mut s, "invalid workflow: ");
                push_str(&mut s, m.as_str());
            },
            Error::Knot(m) => {
                push_str(&mut s, "knot execution failed: ");
                push_str(&mut s, m.as_str());
            },
            Error::NotFound { id } => {
                push_str(&mut s, "workflow with id '");
                push_str(&mut s, id.as_str());
                push_str(&mut s, "' not found");
            },
            Error::Duplicate { id } => {
                push_str(&mut s, "workflow with id '");
                push_str(&mut s, id.as_str());
                push_str(&mut s, "' already exists");
            },
        }
        assert(s@ =~= error_text(*self));
        s
    }
}

} // verus!
