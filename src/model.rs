use vstd::prelude::*;

verus! {

/// The mathematical value of a stored record.
pub struct MahasiswaModel {
    pub id: u64,
    pub nama: Seq<char>,
    pub nim: Seq<char>,
    pub jurusan: Seq<char>,
    pub angkatan: u64,
    pub created_at: u64,
    pub updated_at: Option<u64>,
}

/// A stored record: identity, the caller-supplied fields and the timestamps.
#[derive(Clone, Debug)]
pub struct Mahasiswa {
    pub id: u64,
    pub nama: String,
    pub nim: String,
    pub jurusan: String,
    pub angkatan: u64,
    pub created_at: u64,
    pub updated_at: Option<u64>,
}

impl View for Mahasiswa {
    type V = MahasiswaModel;

    open spec fn view(&self) -> MahasiswaModel {
        MahasiswaModel {
            id: self.id,
            nama: self.nama@,
            nim: self.nim@,
            jurusan: self.jurusan@,
            angkatan: self.angkatan,
            created_at: self.created_at,
            updated_at: self.updated_at,
        }
    }
}

impl Mahasiswa {
    /// A copy of the record, field for field.
    pub fn duplicate(&self) -> (r: Mahasiswa)
        ensures
            r@ == self@,
    {
        Mahasiswa {
            id: self.id,
            nama: self.nama.clone(),
            nim: self.nim.clone(),
            jurusan: self.jurusan.clone(),
            angkatan: self.angkatan,
            created_at: self.created_at,
            updated_at: self.updated_at,
        }
    }
}

/// The caller-supplied part of a record, used by create and update.
#[derive(Clone, Debug)]
pub struct MahasiswaPayload {
    pub nama: String,
    pub nim: String,
    pub jurusan: String,
    pub angkatan: u64,
}

impl MahasiswaPayload {
    /// The required text fields are all non-empty.
    pub open spec fn spec_is_valid(&self) -> bool {
        self.nama@.len() > 0 && self.nim@.len() > 0 && self.jurusan@.len() > 0
    }
}

/// The ways an operation of the store can fail.
#[derive(Clone, Copy, Debug, PartialEq, Eq, Structural)]
pub enum Error {
    /// The id is absent from the store.
    NotFound,
    /// A required text field of the payload is empty.
    InvalidInput,
    /// The record's serialized form exceeds the size bound.
    EncodeFailure,
    /// Stored bytes are not the serialized form of any record.
    DecodeFailure,
    /// The identity counter could not be advanced or persisted.
    AllocationFailure,
}

} // verus!
