pub mod flatten;
pub mod nav;
pub mod paths;
pub mod popup;
pub mod text;
pub mod tree;

pub use tree::{DirEntry, LinkStatus, NodeV, ScanEntry, ScanV};
