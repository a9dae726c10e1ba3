//! Byte-level text helpers: ASCII case folding, case-insensitive equality
//! and ordering, and substring search. Contracts speak about the UTF-8 byte
//! sequences of strings; ASCII case folding on those bytes coincides with
//! ASCII case folding on the characters themselves.

use vstd::prelude::*;
use vstd::string::StrSliceExecFns;
use vstd::utf8::encode_utf8;

verus! {

/// ASCII lower-casing of one byte: `A`..`Z` map to `a`..`z`, all else is kept.
pub open spec fn lower_byte(b: u8) -> u8 {
    if 0x41 <= b && b <= 0x5a {
        (b + 0x20) as u8
    } else {
        b
    }
}

/// ASCII lower-casing of a byte string.
pub open spec fn lower(s: Seq<u8>) -> Seq<u8> {
    s.map_values(|b: u8| lower_byte(b))
}

/// Equality of two byte strings up to ASCII letter case.
pub open spec fn ci_eq(a: Seq<u8>, b: Seq<u8>) -> bool {
    lower(a) == lower(b)
}

/// Lexicographic order on byte strings.
pub open spec fn lex_le(a: Seq<u8>, b: Seq<u8>) -> bool
    decreases a.len(),
{
    if a.len() == 0 {
        true
    } else if b.len() == 0 {
        false
    } else if a[0] < b[0] {
        true
    } else if a[0] > b[0] {
        false
    } else {
        lex_le(a.skip(1), b.skip(1))
    }
}

/// Lexicographic order up to ASCII letter case.
pub open spec fn ci_le(a: Seq<u8>, b: Seq<u8>) -> bool {
    lex_le(lower(a), lower(b))
}

/// `nd` occurs as a contiguous run inside `hay`.
pub open spec fn contains_seq(hay: Seq<u8>, nd: Seq<u8>) -> bool {
    exists|i: int| 0 <= i && i + nd.len() <= hay.len() && #[trigger] hay.subrange(i, i + nd.len()) == nd
}

/// An ASCII whitespace byte (space, tab, line feed, vertical tab, form feed,
/// carriage return), the bytes `str::trim` removes from ASCII text.
pub open spec fn is_ws_byte(b: u8) -> bool {
    b == 0x20 || (0x09 <= b && b <= 0x0d)
}

/// A byte string that is empty or all whitespace.
pub open spec fn is_blank(s: Seq<u8>) -> bool {
    forall|i: int| 0 <= i < s.len() ==> is_ws_byte(s[i])
}

/// The order `lex_le` is total.
pub proof fn lemma_lex_le_total(a: Seq<u8>, b: Seq<u8>)
    ensures
        lex_le(a, b) || lex_le(b, a),
    decreases a.len(),
{
    if a.len() != 0 && b.len() != 0 && a[0] == b[0] {
        lemma_lex_le_total(a.skip(1), b.skip(1));
    }
}

/// The order `lex_le` is transitive.
pub proof fn lemma_lex_le_trans(a: Seq<u8>, b: Seq<u8>, c: Seq<u8>)
    requires
        lex_le(a, b),
        lex_le(b, c),
    ensures
        lex_le(a, c),
    decreases a.len(),
{
    if a.len() != 0 && b.len() != 0 && c.len() != 0 && a[0] == b[0] && b[0] == c[0] {
        lemma_lex_le_trans(a.skip(1), b.skip(1), c.skip(1));
    }
}

/// The order `ci_le` is total.
pub proof fn lemma_ci_le_total(a: Seq<u8>, b: Seq<u8>)
    ensures
        ci_le(a, b) || ci_le(b, a),
{
    lemma_lex_le_total(lower(a), lower(b));
}

/// The order `ci_le` is transitive.
pub proof fn lemma_ci_le_trans(a: Seq<u8>, b: Seq<u8>, c: Seq<u8>)
    requires
        ci_le(a, b),
        ci_le(b, c),
    ensures
        ci_le(a, c),
{
    lemma_lex_le_trans(lower(a), lower(b), lower(c));
}

fn lower_byte_x(b: u8) -> (r: u8)
    ensures
        r == lower_byte(b),
{
    if 0x41 <= b && b <= 0x5a {
        b + 0x20
    } else {
        b
    }
}

/// The UTF-8 bytes of a string slice, as a vector.
pub fn str_bytes(s: &str) -> (r: Vec<u8>)
    ensures
        r@ == encode_utf8(s@),
{
    s.as_bytes_vec()
}

/// ASCII lower-casing of a byte vector.
pub fn lower_bytes(s: &Vec<u8>) -> (r: Vec<u8>)
    ensures
        r@ == lower(s@),
{
    let mut r: Vec<u8> = Vec::new();
    let mut i: usize = 0;
    while i < s.len()
        invariant
            i <= s@.len(),
            r@.len() == i,
            forall|k: int| 0 <= k < i ==> r@[k] == lower_byte(s@[k]),
        decreases s@.len() - i,
    {
        r.push(lower_byte_x(s[i]));
        i = i + 1;
    }
    assert(r@ =~= lower(s@));
    r
}

/// Exact equality of two byte vectors.
pub fn bytes_eq(a: &Vec<u8>, b: &Vec<u8>) -> (r: bool)
    ensures
        r == (a@ == b@),
{
    if a.len() != b.len() {
        return false;
    }
    let mut i: usize = 0;
    while i < a.len()
        invariant
            i <= a@.len(),
            a@.len() == b@.len(),
            forall|k: int| 0 <= k < i ==> a@[k] == b@[k],
        decreases a@.len() - i,
    {
        if a[i] != b[i] {
            return false;
        }
        i = i + 1;
    }
    assert(a@ =~= b@);
    true
}

/// Equality of two byte vectors up to ASCII letter case.
pub fn ci_eq_bytes(a: &Vec<u8>, b: &Vec<u8>) -> (r: bool)
    ensures
        r == ci_eq(a@, b@),
{
    let la = lower_bytes(a);
    let lb = lower_bytes(b);
    bytes_eq(&la, &lb)
}

fn lex_le_from(a: &Vec<u8>, b: &Vec<u8>, i: usize) -> (r: bool)
    requires
        i <= a@.len(),
        i <= b@.len(),
    ensures
        r == lex_le(a@.skip(i as int), b@.skip(i as int)),
    decreases a@.len() - i,
{
    if i == a.len() {
        true
    } else if i == b.len() {
        false
    } else if a[i] < b[i] {
        true
    } else if a[i] > b[i] {
        false
    } else {
        let r = lex_le_from(a, b, i + 1);
        assert(a@.skip(i as int).skip(1) =~= a@.skip(i as int + 1));
        assert(b@.skip(i as int).skip(1) =~= b@.skip(i as int + 1));
        r
    }
}

/// Case-insensitive lexicographic comparison of two byte vectors.
pub fn ci_le_bytes(a: &Vec<u8>, b: &Vec<u8>) -> (r: bool)
    ensures
        r == ci_le(a@, b@),
{
    let la = lower_bytes(a);
    let lb = lower_bytes(b);
    let r = lex_le_from(&la, &lb, 0);
    assert(la@.skip(0) =~= la@);
    assert(lb@.skip(0) =~= lb@);
    r
}

fn match_at(hay: &Vec<u8>, nd: &Vec<u8>, i: usize) -> (r: bool)
    requires
        i + nd@.len() <= hay@.len(),
    ensures
        r == (hay@.subrange(i as int, i + nd@.len()) == nd@),
{
    let mut j: usize = 0;
    while j < nd.len()
        invariant
            i + nd@.len() <= hay.len(),
            j <= nd@.len(),
            forall|k: int| 0 <= k < j ==> hay@[i + k] == nd@[k],
        decreases nd@.len() - j,
    {
        if hay[i + j] != nd[j] {
            assert(hay@.subrange(i as int, i + nd@.len())[j as int] != nd@[j as int]);
            return false;
        }
        j = j + 1;
    }
    assert(hay@.subrange(i as int, i + nd@.len()) =~= nd@);
    true
}

/// Substring search: does `nd` occur contiguously inside `hay`?
pub fn contains_bytes(hay: &Vec<u8>, nd: &Vec<u8>) -> (r: bool)
    ensures
        r == contains_seq(hay@, nd@),
{
    if nd.len() > hay.len() {
        return false;
    }
    if nd.len() == 0 {
        assert(hay@.subrange(0, 0 + nd@.len() as int) =~= nd@);
        return true;
    }
    let last = hay.len() - nd.len();
    let mut i: usize = 0;
    while i <= last
        invariant
            nd@.len() >= 1,
            last == hay.len() - nd.len(),
            i <= last + 1,
            forall|k: int| 0 <= k < i ==> #[trigger] hay@.subrange(k, k + nd@.len()) != nd@,
        decreases last - i + 1,
    {
        if match_at(hay, nd, i) {
            return true;
        }
        i = i + 1;
    }
    false
}

/// Is the byte vector empty or all whitespace?
pub fn is_blank_bytes(s: &Vec<u8>) -> (r: bool)
    ensures
        r == is_blank(s@),
{
    let mut i: usize = 0;
    while i < s.len()
        invariant
            i <= s@.len(),
            forall|k: int| 0 <= k < i ==> is_ws_byte(s@[k]),
        decreases s@.len() - i,
    {
        let b = s[i];
        if !(b == 0x20 || (0x09 <= b && b <= 0x0d)) {
            return false;
        }
        i = i + 1;
    }
    true
}

} // verus!
