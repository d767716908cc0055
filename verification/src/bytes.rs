use vstd::prelude::*;
use vstd::bytes::{
    spec_u32_from_le_bytes, spec_u32_to_le_bytes, spec_u64_from_le_bytes, spec_u64_to_le_bytes,
    u32_from_le_bytes, u32_to_le_bytes, u64_from_le_bytes, u64_to_le_bytes,
};

verus! {

/// Copies `N` bytes starting at `off` out of `d`.
pub fn read_array<const N: usize>(d: &[u8], off: usize) -> (out: [u8; N])
    requires
        off + N <= d@.len(),
    ensures
        out@ == d@.subrange(off as int, off + N),
{
    let n = d.len();
    let mut out = [0u8; N];
    let mut i: usize = 0;
    while i < N
        invariant
            i <= N,
            n == d@.len(),
            off + N <= n,
            forall|k: int| 0 <= k < i ==> out@[k] == d@[off + k],
        decreases N - i,
    {
        out[i] = d[off + i];
        i += 1;
    }
    assert(out@ =~= d@.subrange(off as int, off + N));
    out
}

/// Copies a whole slice into a fresh vector.
pub fn copy_bytes(d: &[u8], from: usize, to: usize) -> (out: Vec<u8>)
    requires
        from <= to <= d@.len(),
    ensures
        out@ == d@.subrange(from as int, to as int),
{
    let mut out: Vec<u8> = Vec::new();
    let mut i: usize = from;
    while i < to
        invariant
            from <= i <= to <= d@.len(),
            out@ == d@.subrange(from as int, i as int),
        decreases to - i,
    {
        out.push(d[i]);
        i += 1;
        assert(out@ =~= d@.subrange(from as int, i as int));
    }
    out
}

/// Byte-wise equality of two fixed-size arrays.
pub fn array_eq<const N: usize>(a: &[u8; N], b: &[u8; N]) -> (r: bool)
    ensures
        r == (a@ == b@),
        r == (*a == *b),
{
    let mut i: usize = 0;
    while i < N
        invariant
            i <= N,
            forall|k: int| 0 <= k < i ==> a@[k] == b@[k],
        decreases N - i,
    {
        if a[i] != b[i] {
            return false;
        }
        i += 1;
    }
    assert(a@ =~= b@);
    assert(*a =~= *b);
    true
}

/// Byte-wise equality of two slices.
pub fn slice_eq(a: &[u8], b: &[u8]) -> (r: bool)
    ensures
        r == (a@ == b@),
{
    if a.len() != b.len() {
        return false;
    }
    let mut i: usize = 0;
    while i < a.len()
        invariant
            i <= a@.len(),
            a@.len() == b@.len(),
            forall|k: int| 0 <= k < i ==> a@[k] == b@[k],
        decreases a@.len() - i,
    {
        if a[i] != b[i] {
            return false;
        }
        i += 1;
    }
    assert(a@ =~= b@);
    true
}

/// Appends every byte of `src` to `buf`.
pub fn put_bytes(buf: &mut Vec<u8>, src: &[u8])
    ensures
        final(buf)@ == old(buf)@ + src@,
{
    buf.extend_from_slice(src);
    assert(buf@ =~= old(buf)@ + src@);
}

/// Appends the four little-endian bytes of `v`.
pub fn put_u32(buf: &mut Vec<u8>, v: u32)
    ensures
        final(buf)@ == old(buf)@ + spec_u32_to_le_bytes(v),
{
    let b = u32_to_le_bytes(v);
    put_bytes(buf, b.as_slice());
}

/// Appends the eight little-endian bytes of `v`.
pub fn put_u64(buf: &mut Vec<u8>, v: u64)
    ensures
        final(buf)@ == old(buf)@ + spec_u64_to_le_bytes(v),
{
    let b = u64_to_le_bytes(v);
    put_bytes(buf, b.as_slice());
}

/// Reads a little-endian `u32` at `off`.
pub fn get_u32(d: &[u8], off: usize) -> (v: u32)
    requires
        off + 4 <= d@.len(),
    ensures
        v == spec_u32_from_le_bytes(d@.subrange(off as int, off + 4)),
{
    let n = d.len();
    u32_from_le_bytes(vstd::slice::slice_subrange(d, off, off + 4))
}

/// Reads a little-endian `u64` at `off`.
pub fn get_u64(d: &[u8], off: usize) -> (v: u64)
    requires
        off + 8 <= d@.len(),
    ensures
        v == spec_u64_from_le_bytes(d@.subrange(off as int, off + 8)),
{
    let n = d.len();
    u64_from_le_bytes(vstd::slice::slice_subrange(d, off, off + 8))
}

/// The number a four-byte little-endian field stands for.
pub open spec fn le32(b: Seq<u8>) -> u32 {
    spec_u32_from_le_bytes(b)
}

/// The number an eight-byte little-endian field stands for.
pub open spec fn le64(b: Seq<u8>) -> u64 {
    spec_u64_from_le_bytes(b)
}

/// Decodes a four-byte little-endian field.
pub fn field_u32(b: &[u8; 4]) -> (v: u32)
    ensures
        v == le32(b@),
{
    u32_from_le_bytes(b.as_slice())
}

/// Encodes `v` as a four-byte little-endian field.
pub fn u32_field(v: u32) -> (b: [u8; 4])
    ensures
        b@ == spec_u32_to_le_bytes(v),
        le32(b@) == v,
{
    let bytes = u32_to_le_bytes(v);
    proof {
        vstd::bytes::lemma_auto_spec_u32_to_from_le_bytes();
    }
    let out: [u8; 4] = read_array(bytes.as_slice(), 0);
    assert(out@ =~= bytes@);
    out
}

/// Encodes `v` as an eight-byte little-endian field.
pub fn u64_field(v: u64) -> (b: [u8; 8])
    ensures
        b@ == spec_u64_to_le_bytes(v),
        le64(b@) == v,
{
    let bytes = u64_to_le_bytes(v);
    proof {
        vstd::bytes::lemma_auto_spec_u64_to_from_le_bytes();
    }
    let out: [u8; 8] = read_array(bytes.as_slice(), 0);
    assert(out@ =~= bytes@);
    out
}


/// The number a byte string stands for, most significant byte first.
pub open spec fn be_value(b: Seq<u8>) -> nat
    decreases b.len(),
{
    if b.len() == 0 {
        0
    } else {
        be_value(b.drop_last()) * 256 + b.last() as nat
    }
}

/// A run of zero bytes stands for zero.
pub proof fn lemma_be_value_zeros(b: Seq<u8>)
    requires
        forall|i: int| 0 <= i < b.len() ==> b[i] == 0,
    ensures
        be_value(b) == 0,
    decreases b.len(),
{
    if b.len() > 0 {
        lemma_be_value_zeros(b.drop_last());
    }
}

/// Byte strings of one length that stand for the same number are the same.
pub proof fn lemma_be_value_injective(a: Seq<u8>, b: Seq<u8>)
    requires
        a.len() == b.len(),
        be_value(a) == be_value(b),
    ensures
        a == b,
    decreases a.len(),
{
    if a.len() > 0 {
        assert(be_value(a.drop_last()) == be_value(b.drop_last()) && a.last() == b.last()) by {
            let x = be_value(a.drop_last());
            let y = be_value(b.drop_last());
            let p = a.last() as nat;
            let q = b.last() as nat;
            assert(x * 256 + p == y * 256 + q);
            assert(x == y && p == q) by (nonlinear_arith)
                requires
                    x * 256 + p == y * 256 + q,
                    p < 256,
                    q < 256,
            ;
        }
        lemma_be_value_injective(a.drop_last(), b.drop_last());
        assert(a =~= a.drop_last().push(a.last()));
        assert(b =~= b.drop_last().push(b.last()));
    } else {
        assert(a =~= b);
    }
}

/// Whether `a`, read as a big-endian number, is at most `b`.
pub fn be_le<const N: usize>(a: &[u8; N], b: &[u8; N]) -> (r: bool)
    ensures
        r == (be_value(a@) <= be_value(b@)),
{
    // 0: equal so far, 1: a is smaller, 2: a is larger
    let mut state: u8 = 0;
    let mut i: usize = 0;
    assert(a@.take(0) =~= Seq::<u8>::empty());
    assert(b@.take(0) =~= Seq::<u8>::empty());
    while i < N
        invariant
            i <= N,
            state <= 2,
            state == 0 ==> be_value(a@.take(i as int)) == be_value(b@.take(i as int)),
            state == 1 ==> be_value(a@.take(i as int)) < be_value(b@.take(i as int)),
            state == 2 ==> be_value(a@.take(i as int)) > be_value(b@.take(i as int)),
        decreases N - i,
    {
        proof {
            assert(a@.take(i + 1).drop_last() =~= a@.take(i as int));
            assert(b@.take(i + 1).drop_last() =~= b@.take(i as int));
            assert(a@.take(i + 1).last() == a@[i as int]);
            assert(b@.take(i + 1).last() == b@[i as int]);
        }
        if state == 0 {
            if a[i] < b[i] {
                state = 1;
            } else if a[i] > b[i] {
                state = 2;
            }
        }
        i += 1;
    }
    assert(a@.take(N as int) =~= a@);
    assert(b@.take(N as int) =~= b@);
    state != 2
}

} // verus!
