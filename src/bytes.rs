use vstd::prelude::*;

verus! {

/// Byte-wise equality of two slices.
pub fn bytes_eq(a: &[u8], b: &[u8]) -> (r: bool)
    ensures
        r == (a@ == b@),
{
    if a.len() != b.len() {
        return false;
    }
    let mut i: usize = 0;
    while i < a.len()
        invariant
            a@.len() == b@.len(),
            0 <= i <= a@.len(),
            forall|j: int| 0 <= j < i ==> a@[j] == b@[j],
        decreases a@.len() - i,
    {
        if a[i] != b[i] {
            return false;
        }
        i = i + 1;
    }
    assert(a@ =~= b@);
    true
}

/// A copy of `prefix` with `last` appended.
pub fn extend_path(prefix: &[u8], last: u8) -> (r: Vec<u8>)
    ensures
        r@ == prefix@.push(last),
{
    let mut v: Vec<u8> = Vec::new();
    let mut i: usize = 0;
    while i < prefix.len()
        invariant
            0 <= i <= prefix@.len(),
            v@ == prefix@.subrange(0, i as int),
        decreases prefix@.len() - i,
    {
        v.push(prefix[i]);
        i = i + 1;
        assert(v@ =~= prefix@.subrange(0, i as int));
    }
    assert(v@ =~= prefix@);
    v.push(last);
    v
}

/// The first `n` bytes of `s`, as a fresh vector.
pub fn prefix_of(s: &[u8], n: usize) -> (r: Vec<u8>)
    requires
        n <= s@.len(),
    ensures
        r@ == s@.subrange(0, n as int),
{
    let mut v: Vec<u8> = Vec::new();
    let mut i: usize = 0;
    while i < n
        invariant
            0 <= i <= n <= s@.len(),
            v@ == s@.subrange(0, i as int),
        decreases n - i,
    {
        v.push(s[i]);
        i = i + 1;
        assert(v@ =~= s@.subrange(0, i as int));
    }
    v
}

/// A copy of `s` as a vector.
pub fn to_vec(s: &[u8]) -> (r: Vec<u8>)
    ensures
        r@ == s@,
{
    let r = prefix_of(s, s.len());
    assert(r@ =~= s@);
    r
}

/// The 31-byte stem of a 32-byte key.
pub fn stem_of_key(key: &[u8; 32]) -> (r: [u8; 31])
    ensures
        r@ == key@.subrange(0, 31),
{
    let mut s: [u8; 31] = [0u8; 31];
    let mut i: usize = 0;
    while i < 31
        invariant
            0 <= i <= 31,
            s@.len() == 31,
            key@.len() == 32,
            forall|j: int| 0 <= j < i ==> s@[j] == key@[j],
        decreases 31 - i,
    {
        s[i] = key[i];
        i = i + 1;
    }
    assert(s@ =~= key@.subrange(0, 31));
    s
}

/// The 32-byte key made of `stem` followed by `suffix`.
pub fn key_of(stem: &[u8; 31], suffix: u8) -> (r: [u8; 32])
    ensures
        r@ == stem@.push(suffix),
{
    let mut k: [u8; 32] = [0u8; 32];
    let mut i: usize = 0;
    while i < 31
        invariant
            0 <= i <= 31,
            k@.len() == 32,
            stem@.len() == 31,
            forall|j: int| 0 <= j < i ==> k@[j] == stem@[j],
        decreases 31 - i,
    {
        k[i] = stem[i];
        i = i + 1;
    }
    k[31] = suffix;
    assert(k@ =~= stem@.push(suffix));
    k
}

} // verus!
