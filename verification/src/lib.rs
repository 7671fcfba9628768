//! Codec for brick-built world saves: a document of placed bricks and its
//! lookup tables, written as framed, optionally deflated sections whose
//! brick records are packed bit by bit.
//!
//! [`encode`] makes the bytes of a [`SaveData`], [`decode`] reads them back;
//! [`SaveWriter`] and [`SaveReader`] do the same part by part. The module
//! `file` says what the bytes of a save are, `theorems` what holds of them.

pub mod attach;
pub mod bits;
pub mod block;
pub mod brick;
pub mod component;
pub mod endian;
pub mod file;
pub mod header;
pub mod lookup;
pub mod read;
pub mod repeat;
pub mod save;
pub mod scalar;
pub mod section;
pub mod section_read;
pub mod stream;
pub mod theorems;
pub mod value;
pub mod write;

pub use file::{MAGIC_BYTES, SAVE_VERSION};
pub use read::{decode, ReadError, SaveReader};
pub use save::SaveData;
pub use write::{encode, SaveWriter, WriteError};
