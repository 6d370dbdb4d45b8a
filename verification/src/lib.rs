//! Disk-backed collections with a bounded in-memory cache window.
//!
//! A `Vecx` is a dense, 0-based ordered vector and a `Mapx` an ordered
//! key-value map; both keep their full dataset in an embedded ordered
//! key-value store on disk and a bounded, recently-touched subset of
//! decoded elements in memory. An element count is kept in a duplicated
//! little-endian length header so that a torn write is detected as
//! corruption rather than read back as a short value.

pub mod bytes;
pub mod length;
pub mod mapx;
pub mod codec;
pub mod descriptor;
pub mod helper;
pub mod store;
pub mod vecx;

pub use codec::{Codec, SampleBlock, gen_sample};
pub use descriptor::Descriptor;
pub use helper::{FundbError, Value};
pub use mapx::Mapx;
pub use vecx::{Vecx, VecxIter};
