//! Triblenka: a server-first web framework for content-driven sites.
//!
//! The design rests on one split: `src/**` is code, compiled into a binary, and `content/**` is
//! data, loaded into a typed store. A content change is therefore a data change rather than a
//! rebuild, which is what makes a content deploy independent of a code deploy.
//!
//! - [`compiler`] parses `.tri` templates and lowers them to descriptors or Rust source;
//! - [`runtime`] renders descriptors into sinks, escaping what it writes;
//! - [`content`] turns markdown documents into posts and decides what a load changes;
//! - [`site`] is the benchmark site built from both.
use vstd::prelude::*;

pub mod compiler;
pub mod content;
pub mod runtime;
pub mod site;
pub mod text;

verus! {

/// The stage the project is currently at.
///
/// Every public item in this crate is expected to change until [`Stage::Design`] is behind us.
#[derive(Debug, Clone, Copy, PartialEq, Eq, Structural)]
pub enum Stage {
    /// Architecture settled, implementation not started.
    Design,
    /// Proving the content and template rebuild boundaries.
    Spike,
}

/// The stage this build of the crate represents.
pub const STAGE: Stage = Stage::Design;

/// The version of this crate, as its manifest declares it.
pub fn version() -> (r: &'static str)
    ensures
        r@ == "0.1.0"@,
{
    "0.1.0"
}

} // verus!
