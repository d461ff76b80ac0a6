use vstd::prelude::*;
use vstd::string::StrSliceExecFns;

verus! {

/// What `str::to_lowercase` makes of a text.
pub uninterp spec fn lower_of(s: Seq<char>) -> Seq<char>;

/// Relies on `str::to_lowercase`: the lowercase form of the text, which
/// depends on its characters alone; empty text stays empty.
#[verifier::external_body]
pub(crate) fn lowercase(s: &str) -> (r: String)
    ensures
        r@ == lower_of(s@),
        s@.len() == 0 ==> r@.len() == 0,
{
    s.to_lowercase()
}

/// `needle` occurs in `hay` as a contiguous run of characters.
pub open spec fn contains_seq(hay: Seq<char>, needle: Seq<char>) -> bool {
    exists|i: int|
        0 <= i && i + needle.len() <= hay.len() && #[trigger] hay.subrange(i, i + needle.len())
            == needle
}

/// A name matches a query when the query occurs in it, ignoring case.
pub open spec fn name_matches(name: Seq<char>, query: Seq<char>) -> bool {
    contains_seq(lower_of(name), lower_of(query))
}

fn chars_of(s: &str) -> (r: Vec<char>)
    ensures
        r@ == s@,
{
    let n = s.unicode_len();
    let mut v: Vec<char> = Vec::new();
    let mut i: usize = 0;
    while i < n
        invariant
            n == s@.len(),
            i <= n,
            v@ == s@.subrange(0, i as int),
        decreases n - i,
    {
        v.push(s.get_char(i));
        i = i + 1;
        assert(v@ =~= s@.subrange(0, i as int));
    }
    assert(v@ =~= s@);
    v
}

fn matches_at(h: &Vec<char>, n: &Vec<char>, i: usize) -> (r: bool)
    requires
        i + n@.len() <= h@.len(),
    ensures
        r == (h@.subrange(i as int, i + n@.len()) == n@),
{
    let hlen = h.len();
    let mut j: usize = 0;
    while j < n.len()
        invariant
            hlen == h@.len(),
            i + n@.len() <= h@.len(),
            j <= n@.len(),
            forall|k: int| 0 <= k < j ==> h@[i + k] == n@[k],
        decreases n@.len() - j,
    {
        if h[i + j] != n[j] {
            assert(h@.subrange(i as int, i + n@.len())[j as int] != n@[j as int]);
            return false;
        }
        j = j + 1;
    }
    assert(h@.subrange(i as int, i + n@.len()) =~= n@);
    true
}

/// Whether `needle` occurs in `hay`, character for character.
pub fn text_contains(hay: &str, needle: &str) -> (r: bool)
    ensures
        r == contains_seq(hay@, needle@),
{
    let h = chars_of(hay);
    let n = chars_of(needle);
    if n.len() > h.len() {
        return false;
    }
    let hlen = h.len();
    let last = hlen - n.len();
    let mut i: usize = 0;
    loop
        invariant
            h@ == hay@,
            n@ == needle@,
            hlen == h@.len(),
            last == h@.len() - n@.len(),
            i <= last,
            forall|k: int| 0 <= k < i ==> #[trigger] h@.subrange(k, k + n@.len()) != n@,
        decreases last - i,
    {
        if matches_at(&h, &n, i) {
            return true;
        }
        if i == last {
            return false;
        }
        i = i + 1;
    }
}

} // verus!
