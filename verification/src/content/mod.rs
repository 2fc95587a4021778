//! Typed content: posts parsed from markdown documents, their digests, and the decisions the
//! loader and the store make from them.
//!
//! Content is data, never code: it is loaded into a digest-keyed store and rendered by templates
//! that are already compiled. Reading files and talking to the store are the caller's; what is
//! decided about the bytes read is here.
use vstd::prelude::*;

pub mod digest;
pub mod post;
pub mod report;
pub mod slug;

pub use digest::{Changed, Digest};
pub use post::{Frontmatter, Post};
pub use report::LoadReport;

verus! {

/// Errors raised while loading or storing content.
#[derive(Debug, Clone, PartialEq, Eq)]
pub enum Error {
    /// The store rejected the operation.
    Store(String),
    /// A document's frontmatter is missing or malformed.
    Frontmatter {
        /// File the problem is in.
        path: String,
        /// What is wrong, in terms a writer can act on.
        message: String,
    },
}

impl Error {
    /// The text that describes the error to a writer.
    pub open spec fn described(&self) -> Seq<char> {
        match self {
            Error::Store(m) => "store: "@ + m@,
            Error::Frontmatter { path, message } => path@ + ": "@ + message@,
        }
    }

    /// The error as a line a writer can act on: the store's complaint, or the file and what is
    /// wrong with it.
    pub fn message(&self) -> (r: String)
        ensures
            r@ == self.described(),
    {
        let mut out = String::new();
        match self {
            Error::Store(m) => {
                crate::text::push_text(&mut out, "store: ");
                crate::text::push_text(&mut out, m.as_str());
            },
            Error::Frontmatter { path, message } => {
                crate::text::push_text(&mut out, path.as_str());
                crate::text::push_text(&mut out, ": ");
                crate::text::push_text(&mut out, message.as_str());
            },
        }
        out
    }
}

} // verus!
