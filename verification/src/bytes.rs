//! Byte strings: the plain values that paths and path lists are made of.

use vstd::prelude::*;
use vstd::slice::slice_to_vec;

verus! {

/// The views of the byte strings held in `v`.
pub open spec fn views(v: Seq<Vec<u8>>) -> Seq<Seq<u8>> {
    Seq::new(v.len(), |i: int| v[i]@)
}

/// The view of the byte string that `v` holds, if it holds one.
pub open spec fn option_view(v: Option<Vec<u8>>) -> Option<Seq<u8>> {
    match v {
        Some(bytes) => Some(bytes@),
        None => None,
    }
}

/// Whether the byte `d` occurs in `s`.
pub open spec fn has_byte(s: Seq<u8>, d: u8) -> bool {
    exists|i: int| 0 <= i < s.len() && s[i] == d
}

/// Whether the byte `d` occurs in `s`.
pub fn contains_byte(s: &[u8], d: u8) -> (found: bool)
    ensures
        found == has_byte(s@, d),
{
    let mut i: usize = 0;
    while i < s.len()
        invariant
            i <= s.len(),
            forall|k: int| 0 <= k < i ==> s@[k] != d,
        decreases s.len() - i,
    {
        if s[i] == d {
            return true;
        }
        i += 1;
    }
    false
}

/// Whether `a` and `b` hold the same bytes.
pub fn same_bytes(a: &[u8], b: &[u8]) -> (same: bool)
    ensures
        same == (a@ == b@),
{
    if a.len() != b.len() {
        return false;
    }
    let mut i: usize = 0;
    while i < a.len()
        invariant
            i <= a.len(),
            a.len() == b.len(),
            forall|k: int| 0 <= k < i ==> a@[k] == b@[k],
        decreases a.len() - i,
    {
        if a[i] != b[i] {
            return false;
        }
        i += 1;
    }
    assert(a@ =~= b@);
    true
}

/// A vector with the bytes of `s`.
pub fn to_vec(s: &[u8]) -> (v: Vec<u8>)
    ensures
        v@ == s@,
{
    slice_to_vec(s)
}

/// Appends the bytes of `s` to `buf`.
pub fn append(buf: &mut Vec<u8>, s: &[u8])
    ensures
        final(buf)@ == old(buf)@ + s@,
{
    let mut i: usize = 0;
    while i < s.len()
        invariant
            i <= s.len(),
            buf@ == old(buf)@ + s@.take(i as int),
        decreases s.len() - i,
    {
        buf.push(s[i]);
        assert(s@.take(i + 1) == s@.take(i as int).push(s@[i as int]));
        i += 1;
    }
    assert(s@.take(i as int) == s@);
}

} // verus!
