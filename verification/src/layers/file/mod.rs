//! The layers that keep their records in a file.
pub mod file;
pub mod header;
pub mod wal;

pub use file::{FileBaseLayer, FileLayer};
pub use crate::layers::registry::get_file_layer;
pub use wal::WALLayer;
