//! Papyrus: an embeddable key-value store with interchangeable storage layers.
pub mod errors;
pub mod layers;
pub mod types;

pub use errors::Error;
pub use layers::file::{FileBaseLayer, FileLayer, WALLayer};
pub use layers::{get_layer, AnyLayer, Layer, Location, MemLayer};
pub use types::{Converter, Key, Packer, Pair, Value};
