use vstd::prelude::*;

verus! {

/// The value of two bytes read as a big-endian 16-bit integer.
pub open spec fn be16(b: Seq<u8>) -> u16
    recommends
        b.len() == 2,
{
    (b[0] * 0x100 + b[1]) as u16
}

/// The value of four bytes read as a big-endian 32-bit integer.
pub open spec fn be32(b: Seq<u8>) -> u32
    recommends
        b.len() == 4,
{
    (b[0] * 0x100_0000 + b[1] * 0x1_0000 + b[2] * 0x100 + b[3]) as u32
}

/// The big-endian 16-bit integer stored at byte offset `off` of `d`.
pub open spec fn be16_at(d: Seq<u8>, off: int) -> u16 {
    be16(d.subrange(off, off + 2))
}

/// The big-endian 32-bit integer stored at byte offset `off` of `d`.
pub open spec fn be32_at(d: Seq<u8>, off: int) -> u32 {
    be32(d.subrange(off, off + 4))
}

/// The four-byte big-endian encoding of `x`.
pub open spec fn be32_bytes(x: u32) -> Seq<u8> {
    seq![
        (x / 0x100_0000) as u8,
        ((x / 0x1_0000) % 0x100) as u8,
        ((x / 0x100) % 0x100) as u8,
        (x % 0x100) as u8,
    ]
}

/// Decoding the encoding of `x` gives `x` back.
pub proof fn lemma_be32_roundtrip(x: u32)
    ensures
        be32(be32_bytes(x)) == x,
{
    assert((x / 0x100_0000) * 0x100_0000 + ((x / 0x1_0000) % 0x100) * 0x1_0000 + ((x / 0x100)
        % 0x100) * 0x100 + (x % 0x100) == x) by (bit_vector);
}

/// Reads the big-endian 16-bit integer at `off`.
pub fn read_be16(d: &[u8], off: usize) -> (r: u16)
    requires
        off + 2 <= d@.len(),
    ensures
        r == be16_at(d@, off as int),
{
    let b0 = d[off];
    let b1 = d[off + 1];
    let r: u16 = b0 as u16 * 0x100 + b1 as u16;
    proof {
        let s = d@.subrange(off as int, off as int + 2);
        assert(s[0] == d@[off as int] && s[1] == d@[off as int + 1]);
    }
    r
}

/// Reads the big-endian 32-bit integer at `off`.
pub fn read_be32(d: &[u8], off: usize) -> (r: u32)
    requires
        off + 4 <= d@.len(),
    ensures
        r == be32_at(d@, off as int),
{
    let b0 = d[off];
    let b1 = d[off + 1];
    let b2 = d[off + 2];
    let b3 = d[off + 3];
    let r: u32 = b0 as u32 * 0x100_0000 + b1 as u32 * 0x1_0000 + b2 as u32 * 0x100 + b3 as u32;
    proof {
        let s = d@.subrange(off as int, off as int + 4);
        assert(s[0] == d@[off as int] && s[1] == d@[off as int + 1] && s[2] == d@[off as int + 2]
            && s[3] == d@[off as int + 3]);
    }
    r
}

/// Stores `x` big-endian into the four bytes of `d` at `off`; all other
/// bytes keep their values.
pub fn write_be32(d: &mut Vec<u8>, off: usize, x: u32)
    requires
        off + 4 <= old(d)@.len(),
    ensures
        final(d)@ =~= old(d)@.update(off as int, be32_bytes(x)[0]).update(
            off as int + 1,
            be32_bytes(x)[1],
        ).update(off as int + 2, be32_bytes(x)[2]).update(off as int + 3, be32_bytes(x)[3]),
        final(d)@.len() == old(d)@.len(),
        final(d)@.subrange(off as int, off as int + 4) =~= be32_bytes(x),
        forall|i: int|
            0 <= i < old(d)@.len() && !(off <= i < off + 4) ==> final(d)@[i] == old(d)@[i],
{
    let n = d.len();
    let b0: u8 = (x / 0x100_0000) as u8;
    let b1: u8 = ((x / 0x1_0000) % 0x100) as u8;
    let b2: u8 = ((x / 0x100) % 0x100) as u8;
    let b3: u8 = (x % 0x100) as u8;
    d[off] = b0;
    d[off + 1] = b1;
    d[off + 2] = b2;
    d[off + 3] = b3;
}

/// Copies `n` bytes of `src` into `d` at `off`; every byte of `d` is
/// either the copied byte or its old value.
pub fn copy_into(d: &mut Vec<u8>, off: usize, src: &[u8], n: usize)
    requires
        off + n <= old(d)@.len(),
        n <= src@.len(),
    ensures
        final(d)@.len() == old(d)@.len(),
        forall|j: int|
            0 <= j < old(d)@.len() ==> final(d)@[j] == (if off <= j < off + n {
                src@[j - off]
            } else {
                old(d)@[j]
            }),
{
    let len = d.len();
    let mut i: usize = 0;
    while i < n
        invariant
            i <= n,
            off + n <= len,
            len == d@.len(),
            n <= src@.len(),
            forall|j: int|
                0 <= j < len ==> d@[j] == (if off <= j < off + i {
                    src@[j - off]
                } else {
                    old(d)@[j]
                }),
        decreases n - i,
    {
        d[off + i] = src[i];
        i += 1;
    }
}

} // verus!
