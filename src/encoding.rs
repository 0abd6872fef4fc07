use vstd::prelude::*;
use crate::config::Digest;

verus! {

/// The `n` low bytes of `x`, least significant first.
pub open spec fn le_bytes(x: nat, n: nat) -> Seq<u8>
    decreases n,
{
    if n == 0 {
        seq![]
    } else {
        seq![(x % 256) as u8] + le_bytes(x / 256, (n - 1) as nat)
    }
}

/// The 8-byte little-endian encoding of `x`.
pub open spec fn le64(x: u64) -> Seq<u8> {
    le_bytes(x as nat, 8)
}

/// The digests of `s` laid end to end.
pub open spec fn flatten(s: Seq<[u8; 32]>) -> Seq<u8>
    decreases s.len(),
{
    if s.len() == 0 {
        seq![]
    } else {
        flatten(s.drop_last()) + s.last()@
    }
}

/// Appends the little-endian encoding of `x`.
pub fn push_le64(buf: &mut Vec<u8>, x: u64)
    ensures
        final(buf)@ == old(buf)@ + le64(x),
{
    let mut v: u64 = x;
    let mut i: usize = 0;
    while i < 8
        invariant
            0 <= i <= 8,
            old(buf)@ + le_bytes(x as nat, 8) == buf@ + le_bytes(v as nat, (8 - i) as nat),
        decreases 8 - i,
    {
        let ghost before = buf@;
        buf.push((v % 256) as u8);
        proof {
            assert(le_bytes(v as nat, (8 - i) as nat) == seq![(v % 256) as u8] + le_bytes(
                (v / 256) as nat,
                (8 - i - 1) as nat,
            ));
            assert(before + le_bytes(v as nat, (8 - i) as nat) =~= buf@ + le_bytes(
                (v / 256) as nat,
                (8 - i - 1) as nat,
            ));
        }
        v = v / 256;
        i = i + 1;
    }
    assert(buf@ + le_bytes(v as nat, 0) =~= buf@);
}

/// Appends every byte of `d`.
pub fn push_slice(buf: &mut Vec<u8>, d: &[u8])
    ensures
        final(buf)@ == old(buf)@ + d@,
{
    let mut i: usize = 0;
    while i < d.len()
        invariant
            0 <= i <= d@.len(),
            buf@ == old(buf)@ + d@.subrange(0, i as int),
        decreases d@.len() - i,
    {
        buf.push(d[i]);
        assert(d@.subrange(0, i + 1) =~= d@.subrange(0, i as int).push(d@[i as int]));
        i = i + 1;
    }
    assert(d@.subrange(0, d@.len() as int) =~= d@);
}

/// Appends every byte of `d`.
pub fn push_digest(buf: &mut Vec<u8>, d: &Digest)
    ensures
        final(buf)@ == old(buf)@ + d@,
{
    push_slice(buf, d.as_slice());
}

/// Appends the digests of `v` one after another.
pub fn push_digests(buf: &mut Vec<u8>, v: &Vec<Digest>)
    ensures
        final(buf)@ == old(buf)@ + flatten(v@),
{
    let mut i: usize = 0;
    while i < v.len()
        invariant
            0 <= i <= v@.len(),
            buf@ == old(buf)@ + flatten(v@.subrange(0, i as int)),
        decreases v@.len() - i,
    {
        push_digest(buf, &v[i]);
        proof {
            let s = v@.subrange(0, i + 1);
            assert(s.drop_last() =~= v@.subrange(0, i as int));
            assert(buf@ =~= old(buf)@ + flatten(s));
        }
        i = i + 1;
    }
    assert(v@.subrange(0, v@.len() as int) =~= v@);
}

/// Whether two byte strings are equal.
pub fn bytes_eq(a: &[u8], b: &[u8]) -> (r: bool)
    ensures
        r == (a@ == b@),
{
    if a.len() != b.len() {
        return false;
    }
    let mut i: usize = 0;
    while i < a.len()
        invariant
            0 <= i <= a@.len(),
            a@.len() == b@.len(),
            a@.subrange(0, i as int) == b@.subrange(0, i as int),
        decreases a@.len() - i,
    {
        if a[i] != b[i] {
            assert(a@[i as int] != b@[i as int]);
            return false;
        }
        assert(a@.subrange(0, i + 1) =~= b@.subrange(0, i + 1)) by {
            assert forall|t: int| 0 <= t < i + 1 implies a@[t] == b@[t] by {
                if t < i {
                    assert(a@.subrange(0, i as int)[t] == b@.subrange(0, i as int)[t]);
                }
            }
        }
        i = i + 1;
    }
    assert(a@ =~= a@.subrange(0, a@.len() as int));
    assert(b@ =~= b@.subrange(0, b@.len() as int));
    true
}

} // verus!
