//! Line and byte counting over a directory tree.
//!
//! The caller reads the filesystem into a [`Directory`] snapshot, measuring
//! each file's content with [`measure`]. This library merges the totals of a
//! tree, skipping subdirectories that could not be read; renders the tree
//! as ordered lines with per-file counts and content categories; and formats
//! byte counts for people.
pub mod classify;
pub mod gitignore;
pub mod measure;
pub mod order;
pub mod render;
pub mod tree;
pub mod units;

pub use classify::{extension_start, is_unix_executable, is_visible, Classifier, ContentType};
pub use gitignore::gitignore_patterns;
pub use measure::{count_lines, measure, Measurement};
pub use order::{display_order, name_lt};
pub use render::{render, LineKind, Rendering, TreeLine};
pub use tree::{
    aggregate, get_totals, has_unreadable_entry, CountError, Directory, Entry, FileEntry, Tally,
};
pub use units::format_byte_count;
