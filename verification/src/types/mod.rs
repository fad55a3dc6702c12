//! The data types of the store: the searchable key, the payload, and how
//! both are written as bytes.
pub mod convert;
pub mod key;
pub mod native;
pub mod order;
pub mod pair;
pub mod traits;
pub mod value;

pub use key::Key;
pub use pair::Pair;
pub use traits::{Converter, Packer};
pub use value::Value;
