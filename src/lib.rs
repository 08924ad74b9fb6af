//! Directory trees annotated with per-extension file statistics, and their
//! rendering as a box-drawn text tree.
//!
//! A [`Listing`] (what was read from disk) is scanned into a [`Directory`]
//! tree up to a depth ceiling, below which every file is folded into the
//! node at the ceiling. The tree can be condensed to a smaller depth, its
//! extensions ordered under an [`ExtensionSortingMethod`], and drawn as
//! lines of text.
pub mod directory;
pub mod laws;
pub mod listing;
pub mod order;
pub mod render;
pub mod reshape;
pub mod size;
pub mod stats;
pub mod text;
pub mod tree;

pub use directory::{Directory, ScanError, base_name_of};
pub use listing::{FileEntry, Listing};
pub use order::ExtensionSortingMethod;
pub use render::DrawError;
pub use size::format_size;
pub use stats::{Extension, extension_of};
