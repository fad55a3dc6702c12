//! The layers: the storage backends behind one contract.
pub mod file;
pub mod mem;
pub mod registry;
pub mod sorting;
pub mod traits;

pub use file::FileLayer;
pub use mem::MemLayer;
pub use registry::{get_layer, AnyLayer};
pub use traits::{Layer, Location};
