//! A guest physical memory abstraction: a set of non-overlapping regions of
//! byte-addressable memory, each backed by one fixed-size mapping, addressed
//! through 64-bit guest physical addresses with checked arithmetic.

pub mod address;
pub mod data_init;
pub mod errors;
pub mod laws;
pub mod mapping;
pub mod memory;
pub mod payload;
pub mod stream;

pub use address::GuestAddress;
pub use data_init::DataInit;
pub use errors::Error;
pub use errors::MemResult;
pub use mapping::MemoryMapping;
pub use memory::GuestMemory;
pub use payload::SmallRecord;
pub use payload::WideRecord;
pub use stream::BoundedSink;
pub use stream::ByteSink;
pub use stream::ByteSource;
pub use stream::VecSink;
pub use stream::VecSource;
