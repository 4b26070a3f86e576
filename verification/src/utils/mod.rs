//! Helpers shared by the engine: text, hashing, sizes.

pub mod file_lister;
pub mod file_size;
pub mod hashing;
pub mod path_order;
pub mod ranking;
pub mod text;

pub use file_size::{format_size_auto, format_size_with_unit};
pub use hashing::{hash_chunks, hash_content, ContentHasher};
