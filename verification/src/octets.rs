//! Byte sequences.

use vstd::prelude::*;

verus! {

/// A 16-bit number in network order.
pub open spec fn be16(n: u16) -> Seq<u8> {
    seq![(n / 256) as u8, (n % 256) as u8]
}

/// A 32-bit number in network order.
pub open spec fn be32(n: u32) -> Seq<u8> {
    be16((n / 65536) as u16) + be16((n % 65536) as u16)
}

/// The 16-bit number whose network order is the given two bytes.
pub open spec fn from_be16(high: u8, low: u8) -> u16 {
    (high * 256 + low) as u16
}

/// Writing a number in network order and reading it back gives the number.
pub proof fn lemma_be16(n: u16)
    ensures
        from_be16(be16(n)[0], be16(n)[1]) == n,
        be16(n).len() == 2,
{
}

pub proof fn lemma_from_be16(high: u8, low: u8)
    ensures
        be16(from_be16(high, low)) =~= seq![high, low],
{
}

pub fn push_all(v: &mut Vec<u8>, more: &[u8])
    ensures
        final(v)@ == old(v)@ + more@,
{
    let n: usize = more.len();
    let mut i: usize = 0;
    while i < n
        invariant
            i <= n,
            n == more@.len(),
            v@ == old(v)@ + more@.take(i as int),
        decreases n - i,
    {
        v.push(more[i]);
        i = i + 1;
        assert(v@ =~= old(v)@ + more@.take(i as int));
    }
    assert(more@.take(n as int) =~= more@);
}

pub fn copied(bytes: &[u8]) -> (r: Vec<u8>)
    ensures
        r@ == bytes@,
{
    let mut r: Vec<u8> = Vec::with_capacity(bytes.len());
    push_all(&mut r, bytes);
    assert(r@ =~= bytes@);
    r
}

pub fn same_bytes(a: &[u8], b: &[u8]) -> (r: bool)
    ensures
        r == (a@ == b@),
{
    let n: usize = a.len();
    if n != b.len() {
        return false;
    }
    let mut i: usize = 0;
    while i < n
        invariant
            i <= n,
            n == a@.len(),
            n == b@.len(),
            a@.take(i as int) == b@.take(i as int),
        decreases n - i,
    {
        if a[i] != b[i] {
            assert(a@[i as int] != b@[i as int]);
            return false;
        }
        assert(a@.take(i + 1) =~= a@.take(i as int).push(a@[i as int]));
        assert(b@.take(i + 1) =~= b@.take(i as int).push(b@[i as int]));
        i = i + 1;
    }
    assert(a@.take(n as int) =~= a@);
    assert(b@.take(n as int) =~= b@);
    true
}

} // verus!
