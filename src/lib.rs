//! A small persistent record store: a verified record codec, durable storage
//! regions holding an identity counter and an ordered record map, and the
//! create/read/update/delete/search operations over them.

pub mod codec;
pub mod model;
pub mod search;
pub mod storage;
pub mod store;

pub use codec::{decode, encode, MAX_SIZE};
pub use model::{Error, Mahasiswa, MahasiswaPayload};
pub use search::text_contains;
pub use storage::{DurableCell, DurableMap, RegionAllocator};
pub use store::MahasiswaStore;
