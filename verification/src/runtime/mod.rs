//! The rendering runtime: a depth-first write of a template descriptor into a sink.
//!
//! A [`template::Template`] is a tree of static chunks and indices into a table of compiled
//! expressions; rendering walks it and asks the [`template::Bindings`] for each expression.
pub mod error;
pub mod sink;
pub mod template;
pub mod tracking;

pub use error::Error;
pub use sink::{escape_attr, escape_text, Html, Render, Sink, SinkExt, StringSink};
pub use template::{render, Bindings, Node, Template};
pub use tracking::{render_tracked, Observed};
