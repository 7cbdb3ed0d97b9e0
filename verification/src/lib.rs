//! pgmind: the deterministic heart of a markdown vault.
//!
//! Pure functions from markdown source text to structure, hashes, positions and
//! extracted references; the identity that blocks keep across writes; the
//! splices that block operations make; and the history that lets every past
//! state of a note be read again.

pub mod audit;
pub mod carry;
pub mod commit;
pub mod content;
pub mod document;
pub mod errors;
pub mod excision;
pub mod extraction;
pub mod faults;
pub mod frame;
pub mod frontmatter;
pub mod golden;
pub mod hash;
pub mod health;
pub mod history;
pub mod ids;
pub mod json;
pub mod lifecycle;
pub mod markdown;
pub mod marker;
pub mod note;
pub mod ops;
pub mod outline;
pub mod parse;
pub mod path;
pub mod placed;
pub mod read;
pub mod rebind;
pub mod reconcile;
pub mod record;
pub mod refs;
pub mod rows;
pub mod script;
pub mod shape;
pub mod span;
pub mod spelled;
pub mod splice;
pub mod state;
pub mod store;
pub mod text;
pub mod timetravel;
pub mod tree;
pub mod vault;
pub mod verify;
pub mod walk;
pub mod write;

pub use document::{Block, BlockKind, Document, LinkKind, LinkRef, TagRef};
pub use hash::content_hash;
pub use parse::parse;
pub use span::Span;
