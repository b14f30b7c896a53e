//! A type-erased persistent key-value store: heterogeneous values are kept
//! under string keys in one uniform structural encoding, and the whole store
//! can be turned into a single self-describing text document and back.

pub mod codec;
pub mod store;
pub mod value;

pub use store::SaveFile;

pub use value::SaveError;
pub use value::SpecValue;
pub use value::Value;
