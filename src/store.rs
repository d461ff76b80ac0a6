use vstd::prelude::*;
use crate::codec::{decode, decoded, encode, encoding, law_codec_round_trip, MAX_SIZE};
use crate::search::{lower_of, lowercase, name_matches, text_contains};
use crate::model::{Error, Mahasiswa, MahasiswaModel, MahasiswaPayload};
use crate::storage::{DurableCell, DurableMap, RegionAllocator};

verus! {

/// The region tag of the identity counter.
pub const COUNTER_TAG: u8 = 0;

/// The region tag of the record map.
pub const RECORDS_TAG: u8 = 1;

/// The record a create makes from a payload, under a fresh id and at time `now`.
pub open spec fn created_record(id: u64, p: MahasiswaPayload, now: u64) -> MahasiswaModel {
    MahasiswaModel {
        id,
        nama: p.nama@,
        nim: p.nim@,
        jurusan: p.jurusan@,
        angkatan: p.angkatan,
        created_at: now,
        updated_at: None,
    }
}

/// The record an update makes of `old`: the payload's fields, stamped at `now`.
pub open spec fn updated_record(old: MahasiswaModel, p: MahasiswaPayload, now: u64) -> MahasiswaModel {
    MahasiswaModel {
        id: old.id,
        nama: p.nama@,
        nim: p.nim@,
        jurusan: p.jurusan@,
        angkatan: p.angkatan,
        created_at: old.created_at,
        updated_at: Some(now),
    }
}

/// A stored entry is well formed: its bytes, within the size bound, are the
/// serialized form of a record under the entry's own key, and the key lies
/// between 1 and the counter.
pub open spec fn valid_entry(counter: u64, k: u64, b: Seq<u8>) -> bool {
    &&& 1 <= k <= counter
    &&& b.len() <= MAX_SIZE
    &&& decoded(b) is Some
    &&& decoded(b)->0.id == k
}

/// Durable contents that a store can be opened on: finitely many entries, all
/// well formed.
pub open spec fn valid_contents(counter: u64, entries: Map<u64, Seq<u8>>) -> bool {
    &&& entries.dom().finite()
    &&& forall|k: u64| #[trigger]
        entries.contains_key(k) ==> valid_entry(counter, k, entries[k])
}

/// The records that stored entries hold, by id.
pub open spec fn records_of(entries: Map<u64, Seq<u8>>) -> Map<u64, MahasiswaModel> {
    Map::new(|k: u64| entries.contains_key(k), |k: u64| decoded(entries[k])->0)
}

/// A persistent store of records: an identity counter and a map from id to
/// the serialized record, each in its own durable region.
pub struct MahasiswaStore {
    counter: DurableCell,
    records: DurableMap,
}

impl MahasiswaStore {
    /// The last id handed out; zero before the first.
    pub closed spec fn counter(&self) -> u64 {
        self.counter.value()
    }

    /// The tag of the counter's region.
    pub closed spec fn counter_tag(&self) -> u8 {
        self.counter.tag()
    }

    /// The tag of the record map's region.
    pub closed spec fn records_tag(&self) -> u8 {
        self.records.tag()
    }

    /// The value the counter starts with where no counter was stored.
    pub closed spec fn counter_default(&self) -> u64 {
        self.counter.default()
    }

    closed spec fn stored(&self) -> Map<u64, Seq<u8>> {
        self.records.contents()
    }

    /// The live records, by id.
    pub closed spec fn records(&self) -> Map<u64, MahasiswaModel> {
        records_of(self.stored())
    }

    /// Every stored value is the serialized form of a record under its own id,
    /// and no id exceeds the counter.
    pub closed spec fn wf(&self) -> bool {
        valid_contents(self.counter(), self.stored())
    }

    /// In a well-formed store every record sits under its own id, and no id
    /// exceeds the counter.
    pub proof fn lemma_record_ids(&self)
        requires
            self.wf(),
        ensures
            forall|k: u64| #[trigger]
                self.records().contains_key(k) ==> self.records()[k].id == k && 1 <= k
                    <= self.counter(),
    {
        assert forall|k: u64| #[trigger] self.records().contains_key(k) implies self.records()[k].id
            == k && 1 <= k <= self.counter() by {
            assert(self.stored().contains_key(k));
        }
    }

    /// A create step: the counter moves to the new id and the record is added.
    pub open spec fn create_step(
        before: MahasiswaStore,
        after: MahasiswaStore,
        p: MahasiswaPayload,
        now: u64,
        m: MahasiswaModel,
    ) -> bool {
        &&& before.counter() < u64::MAX
        &&& m == created_record((before.counter() + 1) as u64, p, now)
        &&& after.counter() == m.id
        &&& after.records() == before.records().insert(m.id, m)
    }

    /// An update step: the record under `id` is replaced, nothing else changes.
    pub open spec fn update_step(
        before: MahasiswaStore,
        after: MahasiswaStore,
        id: u64,
        p: MahasiswaPayload,
        now: u64,
        m: MahasiswaModel,
    ) -> bool {
        &&& before.records().contains_key(id)
        &&& m == updated_record(before.records()[id], p, now)
        &&& after.counter() == before.counter()
        &&& after.records() == before.records().insert(id, m)
    }

    /// A delete step: the record under `id` is removed and returned.
    pub open spec fn delete_step(
        before: MahasiswaStore,
        after: MahasiswaStore,
        id: u64,
        m: MahasiswaModel,
    ) -> bool {
        &&& before.records().contains_key(id)
        &&& m == before.records()[id]
        &&& after.counter() == before.counter()
        &&& after.records() == before.records().remove(id)
    }

    proof fn lemma_records_dom(&self)
        ensures
            self.records().dom() == self.stored().dom(),
    {
        assert(self.records().dom() =~= self.stored().dom());
    }

    /// Builds a store over a durable counter and record map once it has
    /// checked what they hold; an entry that is not a record under its own id
    /// within the counter gives `DecodeFailure`.
    pub fn open(counter: DurableCell, records: DurableMap) -> (r: Result<MahasiswaStore, Error>)
        requires
            records.contents().dom().finite(),
        ensures
            r is Ok <==> valid_contents(counter.value(), records.contents()),
            r matches Ok(s) ==> s.wf() && s.counter() == counter.value() && s.records()
                == records_of(records.contents()) && s.counter_tag() == counter.tag()
                && s.records_tag() == records.tag() && s.counter_default() == counter.default(),
            r matches Err(e) ==> e == Error::DecodeFailure,
    {
        let entries = records.entries();
        let current = counter.get();
        let ghost stored = records.contents();
        let mut i: usize = 0;
        while i < entries.len()
            invariant
                i <= entries@.len(),
                current == counter.value(),
                stored == records.contents(),
                forall|a: int|
                    0 <= a < entries@.len() ==> stored.contains_key(#[trigger] entries@[a].0)
                        && stored[entries@[a].0] == entries@[a].1@,
                forall|k: u64| #[trigger]
                    stored.contains_key(k) ==> exists|a: int|
                        0 <= a < entries@.len() && entries@[a].0 == k,
                forall|a: int|
                    0 <= a < i ==> valid_entry(current, #[trigger] entries@[a].0, entries@[a].1@),
            decreases entries@.len() - i,
        {
            let entry = &entries[i];
            let k = entry.0;
            assert(stored.contains_key(k));
            if k == 0 || k > current || entry.1.len() > MAX_SIZE {
                return Err(Error::DecodeFailure);
            }
            match decode(entry.1.as_slice()) {
                Ok(m) => {
                    if m.id != k {
                        return Err(Error::DecodeFailure);
                    }
                },
                Err(_) => {
                    return Err(Error::DecodeFailure);
                },
            }
            i = i + 1;
        }
        assert forall|k: u64| #[trigger] stored.contains_key(k) implies valid_entry(
            current,
            k,
            stored[k],
        ) by {
            let a = choose|a: int| 0 <= a < entries@.len() && entries@[a].0 == k;
            assert(valid_entry(current, entries@[a].0, entries@[a].1@));
        }
        Ok(MahasiswaStore { counter, records })
    }

    /// Opens the store on the durable byte space: the counter in its region,
    /// starting at zero where none was written, and the record map in its own.
    pub fn new() -> (r: Result<MahasiswaStore, Error>)
        ensures
            r matches Ok(s) ==> s.wf() && s.counter_tag() == COUNTER_TAG && s.records_tag()
                == RECORDS_TAG && s.counter_default() == 0,
            r matches Err(e) ==> e == Error::AllocationFailure || e == Error::DecodeFailure,
    {
        let mut regions = RegionAllocator::new();
        let counter_region = regions.region(COUNTER_TAG);
        let records_region = regions.region(RECORDS_TAG);
        let records = DurableMap::init(records_region);
        match DurableCell::init(counter_region, 0) {
            Some(counter) => MahasiswaStore::open(counter, records),
            None => Err(Error::AllocationFailure),
        }
    }

    /// The record under `id`, if there is one.
    pub fn _get_mahasiswa(&self, id: &u64) -> (r: Option<Mahasiswa>)
        requires
            self.wf(),
        ensures
            r is Some <==> self.records().contains_key(*id),
            r matches Some(m) ==> m@ == self.records()[*id] && m.id == *id,
    {
        match self.get_mahasiswa(*id) {
            Ok(m) => Some(m),
            Err(_) => None,
        }
    }

    /// Reads the record under `id`. Stored bytes that do not decode give
    /// `DecodeFailure`, which a well-formed store never holds.
    pub fn get_mahasiswa(&self, id: u64) -> (r: Result<Mahasiswa, Error>)
        requires
            self.wf(),
        ensures
            self.records().contains_key(id) ==> (r matches Ok(m) && m@ == self.records()[id]
                && m.id == id),
            !self.records().contains_key(id) ==> r == Err::<Mahasiswa, Error>(Error::NotFound),
    {
        proof {
            self.lemma_record_ids();
        }
        match self.records.get(id) {
            Some(bytes) => decode(bytes.as_slice()),
            None => Err(Error::NotFound),
        }
    }

    /// Creates a record from the payload under the next id, stamped at `now`.
    /// The counter is persisted before the record is written, and only once
    /// the record is known to fit its size bound.
    pub fn add_mahasiswa(&mut self, payload: MahasiswaPayload, now: u64) -> (r: Result<
        Mahasiswa,
        Error,
    >)
        requires
            old(self).wf(),
        ensures
            final(self).wf(),
            r matches Ok(m) ==> Self::create_step(*old(self), *final(self), payload, now, m@),
            r is Err ==> final(self).records() == old(self).records() && final(self).counter()
                == old(self).counter(),
            r == Err::<Mahasiswa, Error>(Error::InvalidInput) <==> !payload.spec_is_valid(),
            r == Err::<Mahasiswa, Error>(Error::EncodeFailure) <==> payload.spec_is_valid()
                && old(self).counter() < u64::MAX && encoding(
                created_record((old(self).counter() + 1) as u64, payload, now),
            ).len() > MAX_SIZE,
            r == Err::<Mahasiswa, Error>(Error::AllocationFailure) <==> payload.spec_is_valid()
                && old(self).counter() == u64::MAX,
            payload.spec_is_valid() && old(self).counter() < u64::MAX && encoding(
                created_record((old(self).counter() + 1) as u64, payload, now),
            ).len() <= MAX_SIZE ==> r is Ok,
            final(self).counter() >= old(self).counter(),
            r matches Err(e) ==> e != Error::NotFound && e != Error::DecodeFailure,
    {
        let ghost before = *self;
        if payload.nama.as_str().is_empty() || payload.nim.as_str().is_empty()
            || payload.jurusan.as_str().is_empty() {
            return Err(Error::InvalidInput);
        }
        let current = self.counter.get();
        if current == u64::MAX {
            return Err(Error::AllocationFailure);
        }
        let id = current + 1;
        let m = Mahasiswa {
            id,
            nama: payload.nama,
            nim: payload.nim,
            jurusan: payload.jurusan,
            angkatan: payload.angkatan,
            created_at: now,
            updated_at: None,
        };
        assert(m@ == created_record(id, payload, now));
        let bytes = match encode(&m) {
            Ok(b) => b,
            Err(e) => {
                return Err(e);
            },
        };
        if !self.counter.set(id) {
            return Err(Error::AllocationFailure);
        }
        let _ = self.records.insert(id, bytes);
        proof {
            law_codec_round_trip(m@);
            assert(self.stored() == before.stored().insert(id, encoding(m@)));
            assert(self.records() =~= before.records().insert(id, m@));
        }
        Ok(m)
    }

    /// Writes a record under its own id, replacing what the id held.
    pub fn do_insert(&mut self, mahasiswa: &Mahasiswa) -> (r: Result<(), Error>)
        requires
            old(self).wf(),
            1 <= mahasiswa.id <= old(self).counter(),
        ensures
            final(self).wf(),
            final(self).counter() == old(self).counter(),
            r is Ok <==> encoding(mahasiswa@).len() <= MAX_SIZE,
            r is Ok ==> final(self).records() == old(self).records().insert(
                mahasiswa.id,
                mahasiswa@,
            ),
            r is Err ==> r == Err::<(), Error>(Error::EncodeFailure) && final(self).records()
                == old(self).records(),
    {
        let ghost before = *self;
        let bytes = match encode(mahasiswa) {
            Ok(b) => b,
            Err(e) => {
                return Err(e);
            },
        };
        let _ = self.records.insert(mahasiswa.id, bytes);
        proof {
            law_codec_round_trip(mahasiswa@);
            assert(self.records() =~= before.records().insert(mahasiswa.id, mahasiswa@));
        }
        Ok(())
    }

    /// Replaces the payload fields of the record under `id` and stamps it at
    /// `now`; its id and creation time stay.
    pub fn update_mahasiswa(&mut self, id: u64, payload: MahasiswaPayload, now: u64) -> (r: Result<
        Mahasiswa,
        Error,
    >)
        requires
            old(self).wf(),
        ensures
            final(self).wf(),
            final(self).counter() == old(self).counter(),
            r is Err ==> final(self).records() == old(self).records(),
            !payload.spec_is_valid() ==> r == Err::<Mahasiswa, Error>(Error::InvalidInput),
            payload.spec_is_valid() && !old(self).records().contains_key(id) ==> r == Err::<
                Mahasiswa,
                Error,
            >(Error::NotFound),
            payload.spec_is_valid() && old(self).records().contains_key(id) ==> {
                let u = updated_record(old(self).records()[id], payload, now);
                &&& encoding(u).len() <= MAX_SIZE ==> r is Ok
                &&& encoding(u).len() > MAX_SIZE ==> r == Err::<Mahasiswa, Error>(
                    Error::EncodeFailure,
                )
            },
            r matches Ok(m) ==> Self::update_step(*old(self), *final(self), id, payload, now, m@),
    {
        if payload.nama.as_str().is_empty() || payload.nim.as_str().is_empty()
            || payload.jurusan.as_str().is_empty() {
            return Err(Error::InvalidInput);
        }
        match self._get_mahasiswa(&id) {
            Some(old_record) => {
                let m = Mahasiswa {
                    id: old_record.id,
                    nama: payload.nama,
                    nim: payload.nim,
                    jurusan: payload.jurusan,
                    angkatan: payload.angkatan,
                    created_at: old_record.created_at,
                    updated_at: Some(now),
                };
                assert(m@ == updated_record(self.records()[id], payload, now));
                match self.do_insert(&m) {
                    Ok(()) => Ok(m),
                    Err(e) => Err(e),
                }
            },
            None => Err(Error::NotFound),
        }
    }

    /// Removes the record under `id` and returns it.
    pub fn delete_mahasiswa(&mut self, id: u64) -> (r: Result<Mahasiswa, Error>)
        requires
            old(self).wf(),
        ensures
            final(self).wf(),
            final(self).counter() == old(self).counter(),
            old(self).records().contains_key(id) ==> (r matches Ok(m) && Self::delete_step(
                *old(self),
                *final(self),
                id,
                m@,
            )),
            !old(self).records().contains_key(id) ==> r == Err::<Mahasiswa, Error>(
                Error::NotFound,
            ) && final(self).records() == old(self).records(),
    {
        let ghost before = *self;
        let found = self._get_mahasiswa(&id);
        match found {
            Some(m) => {
                let _ = self.records.remove(id);
                proof {
                    assert(self.records() =~= before.records().remove(id));
                }
                Ok(m)
            },
            None => Err(Error::NotFound),
        }
    }
    /// Every record, in ascending id order.
    pub fn list_mahasiswa(&self) -> (r: Vec<Mahasiswa>)
        requires
            self.wf(),
        ensures
            r@.len() == self.records().dom().len(),
            forall|i: int, j: int| 0 <= i < j < r@.len() ==> r@[i].id < r@[j].id,
            forall|i: int|
                0 <= i < r@.len() ==> self.records().contains_key(#[trigger] r@[i].id) && r@[i]@
                    == self.records()[r@[i].id],
            forall|k: u64| #[trigger]
                self.records().contains_key(k) ==> exists|i: int| 0 <= i < r@.len() && r@[i].id == k,
    {
        let entries = self.records.entries();
        let mut out: Vec<Mahasiswa> = Vec::new();
        let mut i: usize = 0;
        while i < entries.len()
            invariant
                self.wf(),
                i <= entries@.len(),
                out@.len() == i,
                forall|a: int, b: int|
                    0 <= a < b < entries@.len() ==> entries@[a].0 < entries@[b].0,
                forall|a: int|
                    0 <= a < entries@.len() ==> self.stored().contains_key(#[trigger] entries@[a].0)
                        && self.stored()[entries@[a].0] == entries@[a].1@,
                forall|a: int|
                    0 <= a < i ==> #[trigger] out@[a].id == entries@[a].0 && out@[a]@
                        == self.records()[entries@[a].0],
            decreases entries@.len() - i,
        {
            let entry = &entries[i];
            match decode(entry.1.as_slice()) {
                Ok(m) => {
                    out.push(m);
                },
                Err(_) => {
                    assert(self.stored().contains_key(entries@[i as int].0));
                    return out;
                },
            }
            i = i + 1;
        }
        proof {
            self.lemma_records_dom();
            assert forall|k: u64| #[trigger]
                self.records().contains_key(k) implies exists|a: int|
                0 <= a < out@.len() && out@[a].id == k by {
                let a = choose|a: int| 0 <= a < entries@.len() && entries@[a].0 == k;
                assert(out@[a].id == k);
            }
        }
        out
    }

    /// The records whose name holds `nama`, ignoring case, in ascending id order.
    #[verifier::rlimit(40)]
    pub fn find_mahasiswa_by_name(&self, nama: String) -> (r: Vec<Mahasiswa>)
        requires
            self.wf(),
        ensures
            forall|i: int, j: int| 0 <= i < j < r@.len() ==> r@[i].id < r@[j].id,
            forall|i: int|
                0 <= i < r@.len() ==> self.records().contains_key(#[trigger] r@[i].id) && r@[i]@
                    == self.records()[r@[i].id] && name_matches(r@[i].nama@, nama@),
            forall|k: u64| #[trigger]
                self.records().contains_key(k) && name_matches(self.records()[k].nama, nama@)
                    ==> exists|i: int| 0 <= i < r@.len() && r@[i].id == k,
    {
        let all = self.list_mahasiswa();
        let query = lowercase(nama.as_str());
        let mut out: Vec<Mahasiswa> = Vec::new();
        let mut i: usize = 0;
        while i < all.len()
            invariant
                i <= all@.len(),
                query@ == lower_of(nama@),
                forall|a: int, b: int| 0 <= a < b < all@.len() ==> all@[a].id < all@[b].id,
                forall|a: int|
                    0 <= a < all@.len() ==> self.records().contains_key(#[trigger] all@[a].id)
                        && all@[a]@ == self.records()[all@[a].id],
                forall|k: u64| #[trigger]
                    self.records().contains_key(k) ==> exists|a: int|
                        0 <= a < all@.len() && all@[a].id == k,
                forall|a: int, b: int|
                    0 <= a < b < out@.len() ==> out@[a].id < out@[b].id,
                forall|a: int|
                    0 <= a < out@.len() ==> exists|c: int|
                        0 <= c < i && #[trigger] out@[a].id == all@[c].id,
                forall|a: int|
                    0 <= a < out@.len() ==> self.records().contains_key(#[trigger] out@[a].id)
                        && out@[a]@ == self.records()[out@[a].id] && name_matches(
                        out@[a].nama@,
                        nama@,
                    ),
                forall|c: int|
                    0 <= c < i && name_matches(#[trigger] all@[c].nama@, nama@) ==> exists|a: int|
                        0 <= a < out@.len() && out@[a].id == all@[c].id,
            decreases all@.len() - i,
        {
            let name = lowercase(all[i].nama.as_str());
            let ghost before = out@;
            if text_contains(name.as_str(), query.as_str()) {
                out.push(all[i].duplicate());
                assert(out@[out@.len() - 1].id == all@[i as int].id);
                assert(out@[out@.len() - 1]@ == all@[i as int]@);
            }
            assert forall|a: int| 0 <= a < out@.len() implies self.records().contains_key(
                #[trigger] out@[a].id,
            ) && out@[a]@ == self.records()[out@[a].id] && name_matches(out@[a].nama@, nama@) by {
                if a < before.len() {
                    assert(out@[a] == before[a]);
                }
            }
            assert forall|c: int|
                0 <= c < i + 1 && name_matches(#[trigger] all@[c].nama@, nama@) implies exists|a: int|
                0 <= a < out@.len() && out@[a].id == all@[c].id by {
                if c < i {
                    let a = choose|a: int| 0 <= a < before.len() && before[a].id == all@[c].id;
                    assert(out@[a].id == all@[c].id);
                } else {
                    assert(out@[out@.len() - 1].id == all@[c].id);
                }
            }
            i = i + 1;
        }
        out
    }

    /// The first record, in ascending id order, whose code is exactly `nim`.
    pub fn find_mahasiswa_by_nim(&self, nim: String) -> (r: Option<Mahasiswa>)
        requires
            self.wf(),
        ensures
            r matches Some(m) ==> self.records().contains_key(m.id) && m@ == self.records()[m.id]
                && m.nim@ == nim@ && forall|k: u64|
                #![trigger self.records()[k]]
                self.records().contains_key(k) && k < m.id ==> self.records()[k].nim != nim@,
            r is None ==> forall|k: u64| #[trigger]
                self.records().contains_key(k) ==> self.records()[k].nim != nim@,
    {
        let all = self.list_mahasiswa();
        let mut i: usize = 0;
        while i < all.len()
            invariant
                i <= all@.len(),
                forall|a: int, b: int| 0 <= a < b < all@.len() ==> all@[a].id < all@[b].id,
                forall|a: int|
                    0 <= a < all@.len() ==> self.records().contains_key(#[trigger] all@[a].id)
                        && all@[a]@ == self.records()[all@[a].id],
                forall|k: u64| #[trigger]
                    self.records().contains_key(k) ==> exists|a: int|
                        0 <= a < all@.len() && all@[a].id == k,
                forall|c: int| 0 <= c < i ==> #[trigger] all@[c].nim@ != nim@,
            decreases all@.len() - i,
        {
            if all[i].nim == nim {
                let found = all[i].duplicate();
                proof {
                    assert forall|k: u64|
                        #![trigger self.records()[k]]
                        self.records().contains_key(k) && k < found.id implies self.records()[k].nim
                            != nim@ by {
                        let c = choose|c: int| 0 <= c < all@.len() && all@[c].id == k;
                        if c >= i {
                            assert(all@[i as int].id <= all@[c].id);
                        }
                    }
                }
                return Some(found);
            }
            i = i + 1;
        }
        None
    }
}

/// A create hands out an id above every live one, and so never one in use.
pub proof fn law_created_id_is_new(
    before: MahasiswaStore,
    after: MahasiswaStore,
    p: MahasiswaPayload,
    now: u64,
    m: MahasiswaModel,
)
    requires
        before.wf(),
        MahasiswaStore::create_step(before, after, p, now, m),
    ensures
        forall|k: u64| #[trigger] before.records().contains_key(k) ==> k < m.id,
        !before.records().contains_key(m.id),
{
    assert forall|k: u64| #[trigger] before.records().contains_key(k) implies k < m.id by {
        assert(before.stored().contains_key(k));
    }
}

/// Ids are strictly increasing: a create that follows another, with any
/// operations between them (none of which lowers the counter), hands out a
/// larger id.
pub proof fn law_ids_increase(
    s0: MahasiswaStore,
    s1: MahasiswaStore,
    s2: MahasiswaStore,
    s3: MahasiswaStore,
    p1: MahasiswaPayload,
    t1: u64,
    m1: MahasiswaModel,
    p2: MahasiswaPayload,
    t2: u64,
    m2: MahasiswaModel,
)
    requires
        MahasiswaStore::create_step(s0, s1, p1, t1, m1),
        s1.counter() <= s2.counter(),
        MahasiswaStore::create_step(s2, s3, p2, t2, m2),
    ensures
        m1.id < m2.id,
{
}

/// After a create, reading its id gives the new record, which has a creation
/// time and no update time.
pub proof fn law_create_then_read(
    before: MahasiswaStore,
    after: MahasiswaStore,
    p: MahasiswaPayload,
    now: u64,
    m: MahasiswaModel,
)
    requires
        MahasiswaStore::create_step(before, after, p, now, m),
    ensures
        after.records().contains_key(m.id),
        after.records()[m.id] == m,
        m.created_at == now,
        m.updated_at is None,
{
}

/// After an update, the record under the id holds the payload's fields and an
/// update time no earlier than its creation time; its id and creation time
/// are unchanged.
pub proof fn law_update_then_read(
    before: MahasiswaStore,
    after: MahasiswaStore,
    id: u64,
    p: MahasiswaPayload,
    now: u64,
    m: MahasiswaModel,
)
    requires
        before.wf(),
        MahasiswaStore::update_step(before, after, id, p, now, m),
        before.records()[id].created_at <= now,
    ensures
        after.records()[id] == m,
        m.updated_at == Some(now),
        m.created_at <= now,
        m.id == id,
        m.created_at == before.records()[id].created_at,
        m.nama == p.nama@ && m.nim == p.nim@ && m.jurusan == p.jurusan@ && m.angkatan
            == p.angkatan,
{
    assert(before.stored().contains_key(id));
}

/// After a delete the id is absent, and a create that follows, with any
/// operations between them (none of which lowers the counter), never hands it
/// out again.
pub proof fn law_deleted_id_not_reused(
    s0: MahasiswaStore,
    s1: MahasiswaStore,
    s2: MahasiswaStore,
    s3: MahasiswaStore,
    id: u64,
    removed: MahasiswaModel,
    p: MahasiswaPayload,
    now: u64,
    m: MahasiswaModel,
)
    requires
        s0.wf(),
        MahasiswaStore::delete_step(s0, s1, id, removed),
        s1.counter() <= s2.counter(),
        MahasiswaStore::create_step(s2, s3, p, now, m),
    ensures
        !s1.records().contains_key(id),
        m.id != id,
        m.id > id,
{
    s0.lemma_record_ids();
}

/// An id that is absent and no larger than the counter stays absent through
/// any create, update or delete.
pub proof fn law_absent_id_stays_absent(
    before: MahasiswaStore,
    after: MahasiswaStore,
    id: u64,
    p: MahasiswaPayload,
    now: u64,
    m: MahasiswaModel,
    other: u64,
)
    requires
        !before.records().contains_key(id),
        id <= before.counter(),
        MahasiswaStore::create_step(before, after, p, now, m) || MahasiswaStore::update_step(
            before,
            after,
            other,
            p,
            now,
            m,
        ) || MahasiswaStore::delete_step(before, after, other, m),
    ensures
        !after.records().contains_key(id),
        id <= after.counter(),
{
}

/// A create, or an update or delete of another id, leaves the record under
/// `id` as it was; so a read returns what the last create or update of `id`
/// returned.
pub proof fn law_other_records_unchanged(
    before: MahasiswaStore,
    after: MahasiswaStore,
    id: u64,
    p: MahasiswaPayload,
    now: u64,
    m: MahasiswaModel,
    other: u64,
)
    requires
        before.wf(),
        before.records().contains_key(id),
        other != id,
        MahasiswaStore::create_step(before, after, p, now, m) || MahasiswaStore::update_step(
            before,
            after,
            other,
            p,
            now,
            m,
        ) || MahasiswaStore::delete_step(before, after, other, m),
    ensures
        after.records().contains_key(id),
        after.records()[id] == before.records()[id],
{
    before.lemma_record_ids();
}

/// A create adds one live record and a delete takes one away, so after N
/// creates and M deletes there are N - M.
pub proof fn law_live_count(
    s0: MahasiswaStore,
    s1: MahasiswaStore,
    p: MahasiswaPayload,
    now: u64,
    m: MahasiswaModel,
    s2: MahasiswaStore,
    id: u64,
    removed: MahasiswaModel,
)
    requires
        s0.wf(),
        s2.wf(),
    ensures
        MahasiswaStore::create_step(s0, s1, p, now, m) ==> s1.records().dom().len()
            == s0.records().dom().len() + 1,
        MahasiswaStore::delete_step(s2, s1, id, removed) ==> s1.records().dom().len()
            == s2.records().dom().len() - 1,
{
    s0.lemma_records_dom();
    s2.lemma_records_dom();
    if MahasiswaStore::create_step(s0, s1, p, now, m) {
        law_created_id_is_new(s0, s1, p, now, m);
        assert(s1.records().dom() =~= s0.records().dom().insert(m.id));
    }
    if MahasiswaStore::delete_step(s2, s1, id, removed) {
        assert(s1.records().dom() =~= s2.records().dom().remove(id));
    }
}

/// One create, update or delete, with some payload, time and id.
pub open spec fn is_step(before: MahasiswaStore, after: MahasiswaStore) -> bool {
    ||| exists|p: MahasiswaPayload, now: u64, m: MahasiswaModel|
        #[trigger] MahasiswaStore::create_step(before, after, p, now, m)
    ||| exists|id: u64, p: MahasiswaPayload, now: u64, m: MahasiswaModel|
        #[trigger] MahasiswaStore::update_step(before, after, id, p, now, m)
    ||| exists|id: u64, m: MahasiswaModel| #[trigger] MahasiswaStore::delete_step(before, after, id, m)
}

/// The step updates or deletes the record under `id`.
pub open spec fn changes_id(before: MahasiswaStore, after: MahasiswaStore, id: u64) -> bool {
    ||| exists|p: MahasiswaPayload, now: u64, m: MahasiswaModel|
        #[trigger] MahasiswaStore::update_step(before, after, id, p, now, m)
    ||| exists|m: MahasiswaModel| #[trigger] MahasiswaStore::delete_step(before, after, id, m)
}

/// The states of a well-formed store, each reached from the one before by
/// one operation.
pub open spec fn is_history(h: Seq<MahasiswaStore>) -> bool {
    &&& forall|i: int| 0 <= i < h.len() ==> #[trigger] h[i].wf()
    &&& forall|i: int| 0 <= i < h.len() - 1 ==> #[trigger] is_step(h[i], h[i + 1])
}

proof fn lemma_counter_monotone(h: Seq<MahasiswaStore>, i: int, j: int)
    requires
        is_history(h),
        0 <= i <= j < h.len(),
    ensures
        h[i].counter() <= h[j].counter(),
    decreases j - i,
{
    if i < j {
        lemma_counter_monotone(h, i, j - 1);
        let k = j - 1;
        assert(is_step(h[k], h[k + 1]));
        assert(h[k + 1] == h[j]);
    }
}

/// Over any history, a later create hands out a larger id than an earlier one.
pub proof fn law_history_ids_increase(
    h: Seq<MahasiswaStore>,
    i: int,
    j: int,
    p1: MahasiswaPayload,
    t1: u64,
    m1: MahasiswaModel,
    p2: MahasiswaPayload,
    t2: u64,
    m2: MahasiswaModel,
)
    requires
        is_history(h),
        0 <= i < j,
        j + 1 < h.len(),
        MahasiswaStore::create_step(h[i], h[i + 1], p1, t1, m1),
        MahasiswaStore::create_step(h[j], h[j + 1], p2, t2, m2),
    ensures
        m1.id < m2.id,
{
    lemma_counter_monotone(h, i + 1, j);
}

/// Over any history, an id once deleted is absent from every later state.
pub proof fn law_history_deleted_stays_absent(
    h: Seq<MahasiswaStore>,
    i: int,
    id: u64,
    removed: MahasiswaModel,
    j: int,
)
    requires
        is_history(h),
        0 <= i < j < h.len(),
        MahasiswaStore::delete_step(h[i], h[i + 1], id, removed),
    ensures
        !h[j].records().contains_key(id),
    decreases j,
{
    if j > i + 1 {
        law_history_deleted_stays_absent(h, i, id, removed, j - 1);
        assert(h[i].wf());
        h[i].lemma_record_ids();
        lemma_counter_monotone(h, i + 1, j - 1);
        let k = j - 1;
        assert(is_step(h[k], h[k + 1]));
        assert(h[k + 1] == h[j]);
    }
}

/// Over any history in which no step updates or deletes `id`, the record
/// under `id` stays as it was; so a read returns what the last create or
/// update of `id` returned.
pub proof fn law_history_record_kept(h: Seq<MahasiswaStore>, i: int, id: u64, j: int)
    requires
        is_history(h),
        0 <= i <= j < h.len(),
        h[i].records().contains_key(id),
        forall|k: int| i <= k < j ==> !#[trigger] changes_id(h[k], h[k + 1], id),
    ensures
        h[j].records().contains_key(id),
        h[j].records()[id] == h[i].records()[id],
    decreases j,
{
    if j > i {
        law_history_record_kept(h, i, id, j - 1);
        let k0 = j - 1;
        assert(!changes_id(h[k0], h[k0 + 1], id));
        assert(h[j - 1].wf());
        h[j - 1].lemma_record_ids();
        let k = j - 1;
        assert(is_step(h[k], h[k + 1]));
        assert(h[k + 1] == h[j]);
    }
}

/// The step is a create.
pub open spec fn is_create(before: MahasiswaStore, after: MahasiswaStore) -> bool {
    exists|p: MahasiswaPayload, now: u64, m: MahasiswaModel|
        #[trigger] MahasiswaStore::create_step(before, after, p, now, m)
}

/// The step is a delete.
pub open spec fn is_delete(before: MahasiswaStore, after: MahasiswaStore) -> bool {
    exists|id: u64, m: MahasiswaModel| #[trigger] MahasiswaStore::delete_step(before, after, id, m)
}

/// How many steps of a history are creates.
pub open spec fn creates_in(h: Seq<MahasiswaStore>) -> nat
    decreases h.len(),
{
    if h.len() < 2 {
        0
    } else {
        creates_in(h.drop_last()) + if is_create(h[h.len() - 2], h.last()) {
            1nat
        } else {
            0nat
        }
    }
}

/// How many steps of a history are deletes.
pub open spec fn deletes_in(h: Seq<MahasiswaStore>) -> nat
    decreases h.len(),
{
    if h.len() < 2 {
        0
    } else {
        deletes_in(h.drop_last()) + if is_delete(h[h.len() - 2], h.last()) {
            1nat
        } else {
            0nat
        }
    }
}

proof fn lemma_step_count(before: MahasiswaStore, after: MahasiswaStore)
    requires
        before.wf(),
        after.wf(),
        is_step(before, after),
    ensures
        after.records().dom().len() + (if is_delete(before, after) { 1int } else { 0int })
            == before.records().dom().len() + (if is_create(before, after) { 1int } else { 0int }),
{
    before.lemma_records_dom();
    after.lemma_records_dom();
    before.lemma_record_ids();
    if is_create(before, after) {
        let (p, now, m) = choose|p: MahasiswaPayload, now: u64, m: MahasiswaModel|
            MahasiswaStore::create_step(before, after, p, now, m);
        law_live_count(before, after, p, now, m, before, 0, m);
        if is_delete(before, after) {
            let (id, rm) = choose|id: u64, rm: MahasiswaModel|
                MahasiswaStore::delete_step(before, after, id, rm);
            assert(false);
        }
    } else if is_delete(before, after) {
        let (id, rm) = choose|id: u64, rm: MahasiswaModel|
            MahasiswaStore::delete_step(before, after, id, rm);
        law_live_count(before, after, arbitrary(), 0, rm, before, id, rm);
    } else {
        let (id, p, now, m) = choose|id: u64, p: MahasiswaPayload, now: u64, m: MahasiswaModel|
            MahasiswaStore::update_step(before, after, id, p, now, m);
        assert(after.records().dom() =~= before.records().dom());
    }
}

/// Over any history, the live records number those at the start plus the
/// creates minus the deletes; from an empty store, N creates and M deletes
/// leave N - M, which `list_mahasiswa` returns in ascending id order.
pub proof fn law_history_live_count(h: Seq<MahasiswaStore>)
    requires
        is_history(h),
        h.len() >= 1,
    ensures
        h.last().records().dom().len() + deletes_in(h) == h[0].records().dom().len()
            + creates_in(h),
    decreases h.len(),
{
    if h.len() >= 2 {
        let g = h.drop_last();
        assert forall|i: int| 0 <= i < g.len() implies #[trigger] g[i].wf() by {
            assert(g[i] == h[i]);
        }
        assert forall|i: int| 0 <= i < g.len() - 1 implies #[trigger] is_step(g[i], g[i + 1]) by {
            assert(g[i] == h[i] && g[i + 1] == h[i + 1]);
        }
        law_history_live_count(g);
        let k = h.len() - 2;
        assert(is_step(h[k], h[k + 1]));
        assert(h[k + 1] == h.last());
        assert(g.last() == h[k]);
        assert(h[k].wf() && h[k + 1].wf());
        lemma_step_count(h[k], h[k + 1]);
    }
}

} // verus!
