//! An embedded key-value store for one process: an append-only log of
//! checksummed binary entries in memory, an index from keys to the offsets
//! of their latest entries, and a file image that spells the live pairs.
//!
//! The modules, leaves first: [`value`] holds keys and values, [`checksum`]
//! the CRC-32 of a payload, [`entry`] the binary entry and its codec,
//! [`index`] the index, [`model`] the store as mathematics, [`store`] the
//! store itself, [`persist`] the file image, and [`laws`] what holds of
//! every store. On top of the store, [`notes`] keeps notes and [`browser`]
//! holds the rules of a note browser.

pub mod browser;
pub mod checksum;
pub mod entry;
pub mod error;
pub mod index;
pub mod laws;
pub mod model;
pub mod notes;
pub mod persist;
pub mod store;
pub mod value;

pub use crate::entry::{
    deserialize_borrowed, deserialize_header, parse_entry, serialize_header, serialize_value,
    RawHeader, TypeTag, CHECKSUM_BYTES, HEADER_SIZE, LEN_BYTES, TAG_BYTES,
};
pub use crate::error::{DecodeError, KvError, KvResult};
pub use crate::index::Index;
pub use crate::model::StoreView;
pub use crate::store::{BorrowedEntry, KvStore, StoreIter};
pub use crate::value::{BorrowedValue, Key, KeyView, OwnedValue, ValueView};
