use vstd::prelude::*;
use vstd::bytes::{
    lemma_auto_spec_u64_to_from_le_bytes, spec_u64_to_le_bytes, u64_from_le_bytes,
    u64_to_le_bytes,
};
use vstd::slice::{slice_subrange, slice_to_vec};
use vstd::string::StringSliceAdditionalSpecFns;
use vstd::utf8::{
    decode_utf8, decode_utf8_encode_utf8, encode_utf8, encode_utf8_decode_utf8,
    encode_utf8_valid_utf8, valid_utf8,
};
use crate::model::{Error, Mahasiswa, MahasiswaModel};

verus! {

/// The largest number of bytes that the serialized form of a record may take.
pub const MAX_SIZE: usize = 1024;

/// An unsigned integer field: eight bytes, least significant first.
pub open spec fn u64_field(x: u64) -> Seq<u8> {
    spec_u64_to_le_bytes(x)
}

/// A text field: the length of its UTF-8 bytes as a `u64_field`, then the bytes.
pub open spec fn text_field(t: Seq<char>) -> Seq<u8> {
    u64_field(encode_utf8(t).len() as u64) + encode_utf8(t)
}

/// An optional timestamp: a zero byte when absent, else a one byte and the value.
pub open spec fn opt_field(o: Option<u64>) -> Seq<u8> {
    match o {
        None => seq![0u8],
        Some(t) => seq![1u8] + u64_field(t),
    }
}

/// The serialized form of a record: its fields in declaration order.
pub open spec fn encoding(m: MahasiswaModel) -> Seq<u8> {
    u64_field(m.id) + (text_field(m.nama) + (text_field(m.nim) + (text_field(m.jurusan) + (
    u64_field(m.angkatan) + (u64_field(m.created_at) + opt_field(m.updated_at))))))
}

/// The record whose serialized form is `b`, if there is one.
pub open spec fn decoded(b: Seq<u8>) -> Option<MahasiswaModel> {
    if exists|m: MahasiswaModel| encoding(m) == b {
        Some(choose|m: MahasiswaModel| encoding(m) == b)
    } else {
        None
    }
}

spec fn tail1(m: MahasiswaModel) -> Seq<u8> {
    text_field(m.nama) + tail2(m)
}

spec fn tail2(m: MahasiswaModel) -> Seq<u8> {
    text_field(m.nim) + tail3(m)
}

spec fn tail3(m: MahasiswaModel) -> Seq<u8> {
    text_field(m.jurusan) + tail4(m)
}

spec fn tail4(m: MahasiswaModel) -> Seq<u8> {
    u64_field(m.angkatan) + tail5(m)
}

spec fn tail5(m: MahasiswaModel) -> Seq<u8> {
    u64_field(m.created_at) + opt_field(m.updated_at)
}

proof fn lemma_u64_field_unique(a: u64, s: Seq<u8>, b: u64, t: Seq<u8>)
    requires
        u64_field(a) + s == u64_field(b) + t,
    ensures
        a == b,
        s == t,
{
    lemma_auto_spec_u64_to_from_le_bytes();
    let x = u64_field(a) + s;
    let y = u64_field(b) + t;
    assert(x.subrange(0, 8) =~= u64_field(a));
    assert(y.subrange(0, 8) =~= u64_field(b));
    assert(x.subrange(8, x.len() as int) =~= s);
    assert(y.subrange(8, y.len() as int) =~= t);
}

proof fn lemma_text_field_unique(a: Seq<char>, s: Seq<u8>, b: Seq<char>, t: Seq<u8>)
    requires
        text_field(a) + s == text_field(b) + t,
        (text_field(a) + s).len() <= u64::MAX,
    ensures
        a == b,
        s == t,
{
    lemma_auto_spec_u64_to_from_le_bytes();
    let ea = encode_utf8(a);
    let eb = encode_utf8(b);
    assert(text_field(a) + s =~= u64_field(ea.len() as u64) + (ea + s));
    assert(text_field(b) + t =~= u64_field(eb.len() as u64) + (eb + t));
    lemma_u64_field_unique(ea.len() as u64, ea + s, eb.len() as u64, eb + t);
    assert(ea.len() <= (text_field(a) + s).len());
    assert(eb.len() <= (text_field(b) + t).len());
    let x = ea + s;
    assert(x.subrange(0, ea.len() as int) =~= ea);
    assert((eb + t).subrange(0, eb.len() as int) =~= eb);
    assert(x.subrange(ea.len() as int, x.len() as int) =~= s);
    assert((eb + t).subrange(eb.len() as int, x.len() as int) =~= t);
    encode_utf8_decode_utf8(a);
    encode_utf8_decode_utf8(b);
}

proof fn lemma_opt_field_unique(a: Option<u64>, b: Option<u64>)
    requires
        opt_field(a) == opt_field(b),
    ensures
        a == b,
{
    lemma_auto_spec_u64_to_from_le_bytes();
    let x = opt_field(a);
    let y = opt_field(b);
    assert(x[0] == y[0]);
    match (a, b) {
        (Some(p), Some(q)) => {
            assert(x.subrange(1, 9) =~= u64_field(p));
            assert(y.subrange(1, 9) =~= u64_field(q));
        },
        (Some(p), None) => {
            assert(x[0] == 1u8);
            assert(y[0] == 0u8);
        },
        (None, Some(q)) => {
            assert(x[0] == 0u8);
            assert(y[0] == 1u8);
        },
        (None, None) => {},
    }
}

/// Two records with the same serialized form are the same record.
pub proof fn lemma_encoding_injective(m1: MahasiswaModel, m2: MahasiswaModel)
    requires
        encoding(m1) == encoding(m2),
        encoding(m1).len() <= u64::MAX,
    ensures
        m1 == m2,
{
    assert(encoding(m1) =~= u64_field(m1.id) + tail1(m1));
    assert(encoding(m2) =~= u64_field(m2.id) + tail1(m2));
    lemma_u64_field_unique(m1.id, tail1(m1), m2.id, tail1(m2));
    lemma_text_field_unique(m1.nama, tail2(m1), m2.nama, tail2(m2));
    lemma_text_field_unique(m1.nim, tail3(m1), m2.nim, tail3(m2));
    lemma_text_field_unique(m1.jurusan, tail4(m1), m2.jurusan, tail4(m2));
    lemma_u64_field_unique(m1.angkatan, tail5(m1), m2.angkatan, tail5(m2));
    lemma_u64_field_unique(m1.created_at, opt_field(m1.updated_at), m2.created_at, opt_field(m2.updated_at));
    lemma_opt_field_unique(m1.updated_at, m2.updated_at);
}

/// Decoding the serialized form of a record gives that record back.
pub proof fn law_codec_round_trip(m: MahasiswaModel)
    requires
        encoding(m).len() <= u64::MAX,
    ensures
        decoded(encoding(m)) == Some(m),
{
    let b = encoding(m);
    assert(exists|x: MahasiswaModel| encoding(x) == b);
    let c = choose|x: MahasiswaModel| encoding(x) == b;
    lemma_encoding_injective(c, m);
}

/// Relies on `String::from_utf8`: it succeeds exactly on well-formed UTF-8, and
/// the string then holds the characters that the bytes encode.
#[verifier::external_body]
fn string_from_utf8(v: Vec<u8>) -> (r: Option<String>)
    ensures
        r is Some <==> valid_utf8(v@),
        r matches Some(s) ==> s@ == decode_utf8(v@),
{
    String::from_utf8(v).ok()
}

fn append_bytes(out: &mut Vec<u8>, src: &[u8])
    ensures
        final(out)@ == old(out)@ + src@,
{
    let mut i: usize = 0;
    while i < src.len()
        invariant
            i <= src@.len(),
            out@ == old(out)@ + src@.subrange(0, i as int),
        decreases src@.len() - i,
    {
        out.push(src[i]);
        i = i + 1;
        assert(out@ =~= old(out)@ + src@.subrange(0, i as int));
    }
    assert(src@.subrange(0, i as int) =~= src@);
}

fn push_u64(out: &mut Vec<u8>, x: u64)
    ensures
        final(out)@ == old(out)@ + u64_field(x),
{
    let b = u64_to_le_bytes(x);
    append_bytes(out, b.as_slice());
}

fn push_text(out: &mut Vec<u8>, s: &String)
    ensures
        final(out)@ == old(out)@ + text_field(s@),
{
    let bytes = s.as_str().as_bytes();
    push_u64(out, bytes.len() as u64);
    append_bytes(out, bytes);
    assert(out@ =~= old(out)@ + text_field(s@));
}

/// Serializes a record; fails when the result would exceed `MAX_SIZE` bytes.
pub fn encode(m: &Mahasiswa) -> (r: Result<Vec<u8>, Error>)
    ensures
        match r {
            Ok(b) => b@ == encoding(m@) && b@.len() <= MAX_SIZE,
            Err(e) => e == Error::EncodeFailure && encoding(m@).len() > MAX_SIZE,
        },
{
    proof {
        lemma_auto_spec_u64_to_from_le_bytes();
    }
    let a = m.nama.as_str().as_bytes().len();
    let b = m.nim.as_str().as_bytes().len();
    let c = m.jurusan.as_str().as_bytes().len();
    if a > MAX_SIZE || b > MAX_SIZE || c > MAX_SIZE {
        return Err(Error::EncodeFailure);
    }
    let last: usize = if m.updated_at.is_some() { 9 } else { 1 };
    let total: usize = 8 + (8 + a) + (8 + b) + (8 + c) + 8 + 8 + last;
    assert(encoding(m@).len() == total);
    if total > MAX_SIZE {
        return Err(Error::EncodeFailure);
    }
    let mut out: Vec<u8> = Vec::new();
    push_u64(&mut out, m.id);
    push_text(&mut out, &m.nama);
    push_text(&mut out, &m.nim);
    push_text(&mut out, &m.jurusan);
    push_u64(&mut out, m.angkatan);
    push_u64(&mut out, m.created_at);
    match m.updated_at {
        None => {
            out.push(0u8);
        },
        Some(t) => {
            out.push(1u8);
            push_u64(&mut out, t);
        },
    }
    assert(out@ =~= encoding(m@));
    Ok(out)
}

fn take_u64(b: &[u8], pos: usize) -> (r: Option<u64>)
    requires
        pos <= b@.len(),
    ensures
        r matches Some(x) ==> pos + 8 <= b@.len() && b@.subrange(pos as int, b@.len() as int)
            == u64_field(x) + b@.subrange(pos + 8, b@.len() as int),
        r is None <==> b@.len() < pos + 8,
        r is None ==> forall|x: u64, t: Seq<u8>|
            b@.subrange(pos as int, b@.len() as int) != #[trigger] (u64_field(x) + t),
{
    proof {
        lemma_auto_spec_u64_to_from_le_bytes();
    }
    if b.len() - pos < 8 {
        assert forall|x: u64, t: Seq<u8>|
            b@.subrange(pos as int, b@.len() as int) != #[trigger] (u64_field(x) + t) by {
            assert((u64_field(x) + t).len() >= 8);
        }
        return None;
    }
    let s = slice_subrange(b, pos, pos + 8);
    let x = u64_from_le_bytes(s);
    assert(b@.subrange(pos as int, b@.len() as int) =~= s@ + b@.subrange(pos + 8, b@.len() as int));
    Some(x)
}

fn take_text(b: &[u8], pos: usize) -> (r: Option<(String, usize)>)
    requires
        pos <= b@.len(),
    ensures
        r matches Some((s, p)) ==> pos <= p <= b@.len() && b@.subrange(pos as int, b@.len() as int)
            == text_field(s@) + b@.subrange(p as int, b@.len() as int),
        r is None ==> forall|t: Seq<char>, u: Seq<u8>|
            b@.subrange(pos as int, b@.len() as int) != #[trigger] (text_field(t) + u),
{
    proof {
        lemma_auto_spec_u64_to_from_le_bytes();
    }
    let rest = Ghost(b@.subrange(pos as int, b@.len() as int));
    let first = take_u64(b, pos);
    if first.is_none() {
        assert forall|t: Seq<char>, u: Seq<u8>| rest@ != #[trigger] (text_field(t) + u) by {
            let e = encode_utf8(t);
            assert(text_field(t) + u =~= u64_field(e.len() as u64) + (e + u));
        }
        return None;
    }
    let n = first.unwrap();
    let blen = b.len();
    let start = pos + 8;
    let after = Ghost(b@.subrange(start as int, b@.len() as int));
    if n > (blen - start) as u64 {
        assert forall|t: Seq<char>, u: Seq<u8>| rest@ != #[trigger] (text_field(t) + u) by {
            let e = encode_utf8(t);
            if rest@ == text_field(t) + u {
                assert(text_field(t) + u =~= u64_field(e.len() as u64) + (e + u));
                lemma_u64_field_unique(n, after@, e.len() as u64, e + u);
            }
        }
        return None;
    }
    let end = start + n as usize;
    let bytes = slice_subrange(b, start, end);
    let v = slice_to_vec(bytes);
    match string_from_utf8(v) {
        Some(s) => {
            proof {
                decode_utf8_encode_utf8(v@);
                assert(rest@ =~= text_field(s@) + b@.subrange(end as int, b@.len() as int));
            }
            Some((s, end))
        },
        None => {
            assert forall|t: Seq<char>, u: Seq<u8>| rest@ != #[trigger] (text_field(t) + u) by {
                let e = encode_utf8(t);
                if rest@ == text_field(t) + u {
                    assert(text_field(t) + u =~= u64_field(e.len() as u64) + (e + u));
                    lemma_u64_field_unique(n, after@, e.len() as u64, e + u);
                    assert((e + u).subrange(0, e.len() as int) =~= e);
                    assert(v@ =~= after@.subrange(0, n as int));
                    encode_utf8_valid_utf8(t);
                }
            }
            None
        },
    }
}

/// Deserializes a record; fails exactly when `b` is not the serialized form of
/// any record.
pub fn decode(b: &[u8]) -> (r: Result<Mahasiswa, Error>)
    ensures
        r matches Ok(m) ==> encoding(m@) == b@ && decoded(b@) == Some(m@),
        r matches Err(e) ==> e == Error::DecodeFailure && decoded(b@) is None,
{
    proof {
        lemma_auto_spec_u64_to_from_le_bytes();
    }
    let len = b.len();
    let ghost whole = b@;
    let ghost end = len as int;
    assert(whole.subrange(0, end) =~= whole);
    assert forall|x: MahasiswaModel| #[trigger] encoding(x) == u64_field(x.id) + tail1(x) by {
        assert(encoding(x) =~= u64_field(x.id) + tail1(x));
    }

    let o0 = take_u64(b, 0);
    if o0.is_none() {
        assert forall|x: MahasiswaModel| encoding(x) != whole by {}
        return Err(Error::DecodeFailure);
    }
    let id = o0.unwrap();
    let p1: usize = 8;
    assert forall|x: MahasiswaModel| encoding(x) == whole implies x.id == id && whole.subrange(
        p1 as int,
        end,
    ) == tail1(x) by {
        lemma_u64_field_unique(id, whole.subrange(8, end), x.id, tail1(x));
    }

    let o1 = take_text(b, p1);
    if o1.is_none() {
        assert forall|x: MahasiswaModel| encoding(x) != whole by {}
        return Err(Error::DecodeFailure);
    }
    let (nama, p2) = o1.unwrap();
    assert forall|x: MahasiswaModel| encoding(x) == whole implies x.nama == nama@ && whole.subrange(
        p2 as int,
        end,
    ) == tail2(x) by {
        lemma_text_field_unique(nama@, whole.subrange(p2 as int, end), x.nama, tail2(x));
    }

    let o2 = take_text(b, p2);
    if o2.is_none() {
        assert forall|x: MahasiswaModel| encoding(x) != whole by {}
        return Err(Error::DecodeFailure);
    }
    let (nim, p3) = o2.unwrap();
    assert forall|x: MahasiswaModel| encoding(x) == whole implies x.nim == nim@ && whole.subrange(
        p3 as int,
        end,
    ) == tail3(x) by {
        lemma_text_field_unique(nim@, whole.subrange(p3 as int, end), x.nim, tail3(x));
    }

    let o3 = take_text(b, p3);
    if o3.is_none() {
        assert forall|x: MahasiswaModel| encoding(x) != whole by {}
        return Err(Error::DecodeFailure);
    }
    let (jurusan, p4) = o3.unwrap();
    assert forall|x: MahasiswaModel| encoding(x) == whole implies x.jurusan == jurusan@
        && whole.subrange(p4 as int, end) == tail4(x) by {
        lemma_text_field_unique(jurusan@, whole.subrange(p4 as int, end), x.jurusan, tail4(x));
    }

    let o4 = take_u64(b, p4);
    if o4.is_none() {
        assert forall|x: MahasiswaModel| encoding(x) != whole by {}
        return Err(Error::DecodeFailure);
    }
    let angkatan = o4.unwrap();
    let p5 = p4 + 8;
    assert forall|x: MahasiswaModel| encoding(x) == whole implies x.angkatan == angkatan
        && whole.subrange(p5 as int, end) == tail5(x) by {
        lemma_u64_field_unique(angkatan, whole.subrange(p5 as int, end), x.angkatan, tail5(x));
    }

    let o5 = take_u64(b, p5);
    if o5.is_none() {
        assert forall|x: MahasiswaModel| encoding(x) != whole by {}
        return Err(Error::DecodeFailure);
    }
    let created_at = o5.unwrap();
    let p6 = p5 + 8;
    assert forall|x: MahasiswaModel| encoding(x) == whole implies x.created_at == created_at
        && whole.subrange(p6 as int, end) == opt_field(x.updated_at) by {
        lemma_u64_field_unique(
            created_at,
            whole.subrange(p6 as int, end),
            x.created_at,
            opt_field(x.updated_at),
        );
    }

    let ghost last = whole.subrange(p6 as int, end);
    if p6 >= len {
        assert forall|x: MahasiswaModel| encoding(x) != whole by {
            if encoding(x) == whole {
                assert(opt_field(x.updated_at).len() >= 1);
            }
        }
        return Err(Error::DecodeFailure);
    }
    let tag = b[p6];
    assert(last[0] == tag);
    let updated_at: Option<u64>;
    if tag == 0 && len - p6 == 1 {
        updated_at = None;
        assert(last =~= opt_field(None));
    } else if tag == 1 && len - p6 == 9 {
        let o6 = take_u64(b, p6 + 1);
        let t = o6.unwrap();
        updated_at = Some(t);
        assert(whole.subrange(p6 + 1, end) =~= last.subrange(1, 9));
        assert(whole.subrange(p6 + 9, end) =~= Seq::<u8>::empty());
        assert(whole.subrange(p6 + 1, end) =~= u64_field(t));
        assert(last =~= seq![1u8] + whole.subrange(p6 + 1, end));
        assert(last =~= opt_field(Some(t)));
    } else {
        assert forall|x: MahasiswaModel| encoding(x) != whole by {
            if encoding(x) == whole {
                match x.updated_at {
                    Some(t) => {
                        assert(opt_field(x.updated_at)[0] == 1u8);
                    },
                    None => {
                        assert(opt_field(x.updated_at)[0] == 0u8);
                    },
                }
            }
        }
        return Err(Error::DecodeFailure);
    }
    let m = Mahasiswa { id, nama, nim, jurusan, angkatan, created_at, updated_at };
    proof {
        assert(whole.subrange(p5 as int, end) =~= u64_field(created_at) + last);
        assert(encoding(m@) =~= whole);
        assert(exists|x: MahasiswaModel| encoding(x) == whole);
        let c = choose|x: MahasiswaModel| encoding(x) == whole;
        lemma_encoding_injective(c, m@);
    }
    Ok(m)
}

} // verus!
