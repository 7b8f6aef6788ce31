//! A durable store of variable-length byte spans, backed by a memory-mapped
//! file, with a sidecar free list that records reclaimed spans for reuse.

pub mod address;
pub mod error;
pub mod fragment;
pub mod mapped;
pub mod store;

pub use address::DataAddress;
pub use error::StoreError;
pub use fragment::{Fragment, FragmentGetResult};
pub use mapped::MappedFile;
pub use store::{Data, VariousDataFile};
