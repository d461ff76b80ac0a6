use record_store::{
    decode, encode, text_contains, DurableCell, DurableMap, Error, Mahasiswa, MahasiswaPayload,
    MahasiswaStore, RegionAllocator, MAX_SIZE,
};

fn payload(nama: &str, nim: &str, jurusan: &str, angkatan: u64) -> MahasiswaPayload {
    MahasiswaPayload {
        nama: nama.to_string(),
        nim: nim.to_string(),
        jurusan: jurusan.to_string(),
        angkatan,
    }
}

fn same(a: &Mahasiswa, b: &Mahasiswa) -> bool {
    a.id == b.id
        && a.nama == b.nama
        && a.nim == b.nim
        && a.jurusan == b.jurusan
        && a.angkatan == b.angkatan
        && a.created_at == b.created_at
        && a.updated_at == b.updated_at
}

#[test]
fn codec_round_trip() {
    let records = vec![
        Mahasiswa {
            id: 7,
            nama: "Budi".to_string(),
            nim: "A001".to_string(),
            jurusan: "CS".to_string(),
            angkatan: 2023,
            created_at: 1_700_000_000_000,
            updated_at: None,
        },
        Mahasiswa {
            id: u64::MAX,
            nama: "Zoë Ünal 日本".to_string(),
            nim: String::new(),
            jurusan: "Matematika".to_string(),
            angkatan: 0,
            created_at: 5,
            updated_at: Some(u64::MAX),
        },
    ];
    for r in &records {
        let bytes = encode(r).expect("fits");
        let back = decode(&bytes).expect("decodes");
        assert!(same(r, &back));
    }
}

#[test]
fn codec_exact_bytes() {
    let r = Mahasiswa {
        id: 1,
        nama: "Ab".to_string(),
        nim: "c".to_string(),
        jurusan: "".to_string(),
        angkatan: 2,
        created_at: 3,
        updated_at: Some(4),
    };
    let bytes = encode(&r).unwrap();
    let mut expected: Vec<u8> = Vec::new();
    expected.extend_from_slice(&1u64.to_le_bytes());
    expected.extend_from_slice(&2u64.to_le_bytes());
    expected.extend_from_slice(b"Ab");
    expected.extend_from_slice(&1u64.to_le_bytes());
    expected.extend_from_slice(b"c");
    expected.extend_from_slice(&0u64.to_le_bytes());
    expected.extend_from_slice(&2u64.to_le_bytes());
    expected.extend_from_slice(&3u64.to_le_bytes());
    expected.push(1);
    expected.extend_from_slice(&4u64.to_le_bytes());
    assert_eq!(bytes, expected);
    assert_eq!(bytes.len(), 60);
}

#[test]
fn codec_rejects_oversized_record() {
    let r = Mahasiswa {
        id: 1,
        nama: "x".repeat(MAX_SIZE),
        nim: "A".to_string(),
        jurusan: "CS".to_string(),
        angkatan: 2023,
        created_at: 0,
        updated_at: None,
    };
    assert!(matches!(encode(&r), Err(Error::EncodeFailure)));
    let mut fits = r.clone();
    fits.nama = "x".repeat(MAX_SIZE - 52);
    assert_eq!(encode(&fits).unwrap().len(), MAX_SIZE);
    fits.nama.push('x');
    assert!(matches!(encode(&fits), Err(Error::EncodeFailure)));
}

#[test]
fn codec_rejects_malformed_bytes() {
    let r = Mahasiswa {
        id: 3,
        nama: "Ana".to_string(),
        nim: "N1".to_string(),
        jurusan: "Fisika".to_string(),
        angkatan: 2021,
        created_at: 10,
        updated_at: None,
    };
    let bytes = encode(&r).unwrap();
    assert!(matches!(decode(&[]), Err(Error::DecodeFailure)));
    assert!(matches!(decode(&bytes[..bytes.len() - 1]), Err(Error::DecodeFailure)));
    let mut trailing = bytes.clone();
    trailing.push(0);
    assert!(matches!(decode(&trailing), Err(Error::DecodeFailure)));
    let mut bad_tag = bytes.clone();
    let last = bad_tag.len() - 1;
    bad_tag[last] = 2;
    assert!(matches!(decode(&bad_tag), Err(Error::DecodeFailure)));
    let mut bad_utf8 = bytes.clone();
    bad_utf8[16] = 0xff;
    assert!(matches!(decode(&bad_utf8), Err(Error::DecodeFailure)));
    let mut long_len = bytes.clone();
    long_len[8] = 200;
    assert!(matches!(decode(&long_len), Err(Error::DecodeFailure)));
}

#[test]
fn text_contains_cases() {
    assert!(text_contains("natalia", "ali"));
    assert!(text_contains("ali", "ali"));
    assert!(text_contains("bob", ""));
    assert!(text_contains("", ""));
    assert!(!text_contains("bob", "ali"));
    assert!(!text_contains("al", "ali"));
    assert!(text_contains("日本語", "本"));
}

#[test]
fn budi_scenario() {
    let mut store = MahasiswaStore::new().unwrap();
    let t0 = 1_000u64;
    let created = store.add_mahasiswa(payload("Budi", "A001", "CS", 2023), t0).unwrap();
    assert_eq!(created.id, 1);
    assert_eq!(created.created_at, t0);
    assert_eq!(created.updated_at, None);

    let t1 = 2_000u64;
    let updated = store.update_mahasiswa(1, payload("Budi S", "A001", "CS", 2023), t1).unwrap();
    assert_eq!(updated.id, 1);
    assert_eq!(updated.nama, "Budi S");
    assert_eq!(updated.updated_at, Some(t1));
    assert!(t1 >= t0);
    assert_eq!(updated.created_at, t0);

    let deleted = store.delete_mahasiswa(1).unwrap();
    assert!(same(&deleted, &updated));
    assert!(matches!(store.get_mahasiswa(1), Err(Error::NotFound)));
}

#[test]
fn invalid_input_consumes_no_id() {
    let mut store = MahasiswaStore::new().unwrap();
    assert!(matches!(
        store.add_mahasiswa(payload("", "A002", "CS", 2023), 5),
        Err(Error::InvalidInput)
    ));
    assert!(matches!(
        store.add_mahasiswa(payload("Ana", "", "CS", 2023), 5),
        Err(Error::InvalidInput)
    ));
    assert!(matches!(
        store.add_mahasiswa(payload("Ana", "A002", "", 2023), 5),
        Err(Error::InvalidInput)
    ));
    let ok = store.add_mahasiswa(payload("Ana", "A002", "CS", 2023), 6).unwrap();
    assert_eq!(ok.id, 1);
    assert!(store.list_mahasiswa().len() == 1);
}

#[test]
fn oversized_create_consumes_no_id() {
    let mut store = MahasiswaStore::new().unwrap();
    let big = "x".repeat(2 * MAX_SIZE);
    assert!(matches!(
        store.add_mahasiswa(payload(&big, "A1", "CS", 2023), 1),
        Err(Error::EncodeFailure)
    ));
    assert_eq!(store.add_mahasiswa(payload("Ana", "A1", "CS", 2023), 2).unwrap().id, 1);
}

#[test]
fn ids_increase_across_deletes() {
    let mut store = MahasiswaStore::new().unwrap();
    let a = store.add_mahasiswa(payload("A", "1", "CS", 2020), 1).unwrap().id;
    let b = store.add_mahasiswa(payload("B", "2", "CS", 2020), 2).unwrap().id;
    store.delete_mahasiswa(b).unwrap();
    let c = store.add_mahasiswa(payload("C", "3", "CS", 2020), 3).unwrap().id;
    store.delete_mahasiswa(a).unwrap();
    store.delete_mahasiswa(c).unwrap();
    let d = store.add_mahasiswa(payload("D", "4", "CS", 2020), 4).unwrap().id;
    assert_eq!((a, b, c, d), (1, 2, 3, 4));
}

#[test]
fn create_then_read() {
    let mut store = MahasiswaStore::new().unwrap();
    let r = store.add_mahasiswa(payload("Sari", "B7", "Biologi", 2022), 42).unwrap();
    let back = store.get_mahasiswa(r.id).unwrap();
    assert!(same(&r, &back));
    assert_eq!(back.updated_at, None);
    assert_eq!(back.created_at, 42);
}

#[test]
fn update_then_read() {
    let mut store = MahasiswaStore::new().unwrap();
    store.add_mahasiswa(payload("Sari", "B7", "Biologi", 2022), 42).unwrap();
    store.update_mahasiswa(1, payload("Sari W", "B8", "Kimia", 2021), 50).unwrap();
    let back = store.get_mahasiswa(1).unwrap();
    assert_eq!(back.id, 1);
    assert_eq!(back.nama, "Sari W");
    assert_eq!(back.nim, "B8");
    assert_eq!(back.jurusan, "Kimia");
    assert_eq!(back.angkatan, 2021);
    assert_eq!(back.created_at, 42);
    assert_eq!(back.updated_at, Some(50));
}

#[test]
fn update_errors() {
    let mut store = MahasiswaStore::new().unwrap();
    assert!(matches!(
        store.update_mahasiswa(1, payload("X", "Y", "Z", 1), 1),
        Err(Error::NotFound)
    ));
    store.add_mahasiswa(payload("Sari", "B7", "Biologi", 2022), 42).unwrap();
    assert!(matches!(
        store.update_mahasiswa(1, payload("", "Y", "Z", 1), 1),
        Err(Error::InvalidInput)
    ));
    let big = "x".repeat(2 * MAX_SIZE);
    assert!(matches!(
        store.update_mahasiswa(1, payload(&big, "Y", "Z", 1), 43),
        Err(Error::EncodeFailure)
    ));
    assert_eq!(store.get_mahasiswa(1).unwrap().nama, "Sari");
}

#[test]
fn delete_then_read_and_create() {
    let mut store = MahasiswaStore::new().unwrap();
    store.add_mahasiswa(payload("A", "1", "CS", 2020), 1).unwrap();
    assert!(matches!(store.delete_mahasiswa(2), Err(Error::NotFound)));
    store.delete_mahasiswa(1).unwrap();
    assert!(matches!(store.get_mahasiswa(1), Err(Error::NotFound)));
    assert!(matches!(store.delete_mahasiswa(1), Err(Error::NotFound)));
    let next = store.add_mahasiswa(payload("B", "2", "CS", 2020), 2).unwrap();
    assert_eq!(next.id, 2);
}

#[test]
fn list_after_creates_and_deletes() {
    let mut store = MahasiswaStore::new().unwrap();
    assert!(store.list_mahasiswa().is_empty());
    for i in 0..5u64 {
        store.add_mahasiswa(payload("N", &format!("C{i}"), "CS", 2020), i).unwrap();
    }
    store.delete_mahasiswa(2).unwrap();
    store.delete_mahasiswa(4).unwrap();
    let ids: Vec<u64> = store.list_mahasiswa().iter().map(|m| m.id).collect();
    assert_eq!(ids, vec![1, 3, 5]);
}

#[test]
fn find_by_name_ignores_case() {
    let mut store = MahasiswaStore::new().unwrap();
    for (i, n) in ["Ali", "Bob", "ali", "Natalia"].iter().enumerate() {
        store.add_mahasiswa(payload(n, &format!("N{i}"), "CS", 2020), i as u64).unwrap();
    }
    let names: Vec<String> = store.find_mahasiswa_by_name("ali".to_string()).into_iter().map(|m| m.nama).collect();
    assert_eq!(names, vec!["Ali", "ali", "Natalia"]);
    let upper: Vec<u64> = store.find_mahasiswa_by_name("ALI".to_string()).into_iter().map(|m| m.id).collect();
    assert_eq!(upper, vec![1, 3, 4]);
    assert!(store.find_mahasiswa_by_name("zed".to_string()).is_empty());
    assert_eq!(store.find_mahasiswa_by_name(String::new()).len(), 4);
}

#[test]
fn find_by_nim_takes_first() {
    let mut store = MahasiswaStore::new().unwrap();
    store.add_mahasiswa(payload("A", "X1", "CS", 2020), 1).unwrap();
    store.add_mahasiswa(payload("B", "D9", "CS", 2020), 2).unwrap();
    store.add_mahasiswa(payload("C", "D9", "CS", 2020), 3).unwrap();
    assert_eq!(store.find_mahasiswa_by_nim("D9".to_string()).unwrap().nama, "B");
    assert!(store.find_mahasiswa_by_nim("d9".to_string()).is_none());
    store.delete_mahasiswa(2).unwrap();
    assert_eq!(store.find_mahasiswa_by_nim("D9".to_string()).unwrap().id, 3);
}

#[test]
fn do_insert_and_lookup_helpers() {
    let mut store = MahasiswaStore::new().unwrap();
    let mut r = store.add_mahasiswa(payload("A", "X1", "CS", 2020), 1).unwrap();
    r.angkatan = 2030;
    store.do_insert(&r).unwrap();
    assert_eq!(store._get_mahasiswa(&1).unwrap().angkatan, 2030);
    assert!(store._get_mahasiswa(&2).is_none());
}

#[test]
fn open_rejects_undecodable_entry() {
    let mut regions = RegionAllocator::new();
    let mut map = DurableMap::init(regions.region(1));
    map.insert(1, vec![1, 2, 3]);
    let cell = DurableCell::init(regions.region(0), 0).unwrap();
    assert!(cell.get() == 0);
    let mut cell = cell;
    assert!(cell.set(1));
    assert!(matches!(MahasiswaStore::open(cell, map), Err(Error::DecodeFailure)));
}

#[test]
fn open_rejects_id_mismatch_and_id_above_counter() {
    let r = Mahasiswa {
        id: 5,
        nama: "Ana".to_string(),
        nim: "N1".to_string(),
        jurusan: "CS".to_string(),
        angkatan: 2021,
        created_at: 10,
        updated_at: None,
    };
    let bytes = encode(&r).unwrap();

    let mut regions = RegionAllocator::new();
    let mut map = DurableMap::init(regions.region(1));
    map.insert(4, bytes.clone());
    let mut cell = DurableCell::init(regions.region(0), 0).unwrap();
    cell.set(9);
    assert!(matches!(MahasiswaStore::open(cell, map), Err(Error::DecodeFailure)));

    let mut regions = RegionAllocator::new();
    let mut map = DurableMap::init(regions.region(1));
    map.insert(5, bytes);
    let cell = DurableCell::init(regions.region(0), 0).unwrap();
    assert!(matches!(MahasiswaStore::open(cell, map), Err(Error::DecodeFailure)));
}

#[test]
fn open_accepts_valid_contents() {
    let r = Mahasiswa {
        id: 5,
        nama: "Ana".to_string(),
        nim: "N1".to_string(),
        jurusan: "CS".to_string(),
        angkatan: 2021,
        created_at: 10,
        updated_at: Some(12),
    };
    let mut regions = RegionAllocator::new();
    let mut map = DurableMap::init(regions.region(1));
    map.insert(5, encode(&r).unwrap());
    let mut cell = DurableCell::init(regions.region(0), 0).unwrap();
    assert!(cell.set(7));
    let mut store = MahasiswaStore::open(cell, map).unwrap();
    let back = store.get_mahasiswa(5).unwrap();
    assert!(same(&back, &r));
    assert_eq!(store.add_mahasiswa(payload("Cici", "N3", "CS", 2021), 20).unwrap().id, 8);
    assert_eq!(store.list_mahasiswa().len(), 2);
}
