//! A git-object-backed store for virtual branches and the algebra of the
//! file-hunk claims they make.
pub mod hunk;
pub mod order;
pub mod ownership;
pub mod oid;
pub mod branch;
pub mod text;
pub mod ownership_text;
pub mod store;
pub mod reader;
pub mod writer;
pub mod laws;

pub use branch::{Branch, BranchUpdateRequest};
pub use ownership::Ownership;
pub use reader::BranchReader as Reader;
pub use writer::BranchWriter as Writer;
