//! Structural diff of hierarchical markup documents.
//!
//! The crate aligns two parsed element trees by identity keys, classifies
//! every aligned node as unchanged, added, removed or changed, and offers a
//! browsable, flattened projection of the resulting diff tree together with
//! plain-text renderings of it.

pub mod browser;
pub mod diff;
pub mod element;
pub mod parse;
pub mod render;
pub mod util;

pub use diff::DiffNode;
pub use diff::NodeStatus;
pub use element::Attr;
pub use element::Element;
