use vstd::prelude::*;
use vstd::slice::slice_subrange;
use vstd::slice::slice_to_vec;
use crate::endian::be16_at;
use crate::endian::be32_at;
use crate::endian::read_be16;
use crate::endian::read_be32;
use crate::err::AdfError;

verus! {

/// The 56-byte archive header of a Disk Masher System file.
#[derive(Debug, Clone)]
pub struct DMSHeader {
    pub signature: [u8; 4],
    pub header_type: [u8; 4],
    pub info_bits: u32,
    pub date: u32,
    pub low_track: u16,
    pub high_track: u16,
    pub packed_size: u32,
    pub unpacked_size: u32,
    pub os_version: u16,
    pub os_revision: u16,
    pub machine_cpu: u16,
    pub cpu_copro: u16,
    pub machine_type: u16,
    pub unused: u16,
    pub cpu_mhz: u16,
    pub time_create: u32,
    pub version_creator: u16,
    pub version_needed: u16,
    pub diskette_type: u16,
    pub compression_mode: u16,
    pub info_header_crc: u16,
}

/// The per-track packing schemes an archive can use; only `None`,
/// `Simple` and `Quick` are decoded.
#[derive(Debug, Clone, Copy, PartialEq, Eq, Structural)]
pub enum DMSPackingMode {
    NoCompression,
    Simple,
    Quick,
    Medium,
    Deep,
    Heavy1,
    Heavy2,
    Heavy3,
    Heavy4,
    Heavy5,
    Unsupported,
}

/// The packing mode a mode code selects.
pub open spec fn spec_packing_mode(value: u16) -> DMSPackingMode {
    if value == 0 {
        DMSPackingMode::NoCompression
    } else if value == 1 {
        DMSPackingMode::Simple
    } else if value == 2 {
        DMSPackingMode::Quick
    } else if value == 3 {
        DMSPackingMode::Medium
    } else if value == 4 {
        DMSPackingMode::Deep
    } else if value == 5 {
        DMSPackingMode::Heavy1
    } else if value == 6 {
        DMSPackingMode::Heavy2
    } else if value == 7 {
        DMSPackingMode::Heavy3
    } else if value == 8 {
        DMSPackingMode::Heavy4
    } else if value == 9 {
        DMSPackingMode::Heavy5
    } else {
        DMSPackingMode::Unsupported
    }
}

impl DMSPackingMode {
    /// The packing mode a mode code selects.
    pub fn from_code(value: u16) -> (r: DMSPackingMode)
        ensures
            r == spec_packing_mode(value),
    {
        match value {
            0 => DMSPackingMode::NoCompression,
            1 => DMSPackingMode::Simple,
            2 => DMSPackingMode::Quick,
            3 => DMSPackingMode::Medium,
            4 => DMSPackingMode::Deep,
            5 => DMSPackingMode::Heavy1,
            6 => DMSPackingMode::Heavy2,
            7 => DMSPackingMode::Heavy3,
            8 => DMSPackingMode::Heavy4,
            9 => DMSPackingMode::Heavy5,
            _ => DMSPackingMode::Unsupported,
        }
    }
}

/// A human-facing summary of an archive header.
#[derive(Debug, Clone)]
pub struct DMSInfo {
    pub signature: String,
    pub header_type: String,
    pub info_bits: InfoBits,
    pub date: u32,
    pub low_track: u16,
    pub high_track: u16,
    pub packed_size: u32,
    pub unpacked_size: u32,
    pub compression_mode: DMSPackingMode,
}

/// The 20-byte record that precedes each packed track.
#[derive(Debug, Clone)]
pub struct DMSTrackHeader {
    pub header_id: [u8; 2],
    pub track_number: u16,
    pub unused1: u16,
    pub pack_length: u16,
    pub unused2: u16,
    pub unpack_length: u16,
    pub c_flag: u8,
    pub packing_mode: DMSPackingMode,
    pub u_sum: u16,
    pub d_crc: u16,
    pub h_crc: u16,
}

/// The archive-wide flag word.
#[derive(Debug, Clone, Copy)]
pub struct InfoBits(pub u32);

impl InfoBits {
    pub const NOZERO: u32 = 0x1;

    pub const ENCRYPT: u32 = 0x2;

    pub const APPENDS: u32 = 0x4;

    pub const BANNER: u32 = 0x8;

    pub const HIGHDENSITY: u32 = 0x10;

    pub const PC: u32 = 0x20;

    pub const DMS_DEVICE_FIX: u32 = 0x40;

    pub const FILE_ID_DIZ: u32 = 0x100;

    /// Wraps a raw flag word.
    pub fn new(bits: u32) -> (r: InfoBits)
        ensures
            r.0 == bits,
    {
        InfoBits(bits)
    }

    /// Whether any bit of `flag` is set.
    pub fn contains(&self, flag: u32) -> (r: bool)
        ensures
            r == (self.0 & flag != 0),
    {
        self.0 & flag != 0
    }
}

/// The run-length decoding of `inp` from position `i` on. Literal
/// bytes pass through; after the `0x90` escape, a zero means a literal
/// `0x90`, otherwise a count (widened to 16 bits when `0xFF`) and the
/// byte to repeat follow. `None` when the input is truncated.
pub open spec fn rle_decode(inp: Seq<u8>, i: int) -> Option<Seq<u8>>
    decreases inp.len() - i,
{
    if i < 0 || i > inp.len() {
        None
    } else if i == inp.len() {
        Some(Seq::empty())
    } else {
        let a = inp[i];
        if a != 0x90 {
            match rle_decode(inp, i + 1) {
                Some(rest) => Some(seq![a] + rest),
                None => None,
            }
        } else if i + 1 >= inp.len() {
            None
        } else {
            let b = inp[i + 1];
            if b == 0 {
                match rle_decode(inp, i + 2) {
                    Some(rest) => Some(seq![0x90u8] + rest),
                    None => None,
                }
            } else if i + 2 >= inp.len() {
                None
            } else {
                let v = inp[i + 2];
                if b == 0xff {
                    if i + 5 > inp.len() {
                        None
                    } else {
                        let n = be16_at(inp, i + 3);
                        match rle_decode(inp, i + 5) {
                            Some(rest) => Some(Seq::new(n as nat, |j: int| v) + rest),
                            None => None,
                        }
                    }
                } else {
                    match rle_decode(inp, i + 3) {
                        Some(rest) => Some(Seq::new(b as nat, |j: int| v) + rest),
                        None => None,
                    }
                }
            }
        }
    }
}

/// Decodes a run-length-packed track payload; fails with
/// `UnexpectedEof` exactly when the input is truncated.
pub fn unpack_rle_bytes(input: &[u8]) -> (r: Result<Vec<u8>, AdfError>)
    ensures
        match r {
            Ok(v) => rle_decode(input@, 0) == Some(v@),
            Err(e) => e == AdfError::UnexpectedEof && rle_decode(input@, 0) is None,
        },
{
    let n = input.len();
    let mut out: Vec<u8> = Vec::new();
    let mut i: usize = 0;
    while i < n
        invariant
            i <= n,
            n == input@.len(),
            rle_decode(input@, 0) == crate::disk::opt_concat(out@, rle_decode(input@, i as int)),
        decreases n - i,
    {
        let a = input[i];
        let ghost pre = out@;
        if a != 0x90 {
            out.push(a);
            proof {
                assert(pre.push(a) =~= pre + seq![a]);
                match rle_decode(input@, i as int + 1) {
                    Some(rest) => {
                        assert(pre + (seq![a] + rest) =~= (pre + seq![a]) + rest);
                    },
                    None => {},
                }
            }
            i += 1;
        } else {
            if n - i < 2 {
                return Err(AdfError::UnexpectedEof);
            }
            let b = input[i + 1];
            if b == 0 {
                out.push(0x90);
                proof {
                    assert(pre.push(0x90u8) =~= pre + seq![0x90u8]);
                    match rle_decode(input@, i as int + 2) {
                        Some(rest) => {
                            assert(pre + (seq![0x90u8] + rest) =~= (pre + seq![0x90u8]) + rest);
                        },
                        None => {},
                    }
                }
                i += 2;
            } else {
                if n - i < 3 {
                    return Err(AdfError::UnexpectedEof);
                }
                let v = input[i + 2];
                let (rep, consumed): (usize, usize) = if b == 0xff {
                    if n - i < 5 {
                        return Err(AdfError::UnexpectedEof);
                    }
                    (read_be16(input, i + 3) as usize, 5)
                } else {
                    (b as usize, 3)
                };
                let chunk: Vec<u8> = vec![v; rep];
                out.extend_from_slice(chunk.as_slice());
                proof {
                    assert(chunk@ =~= Seq::new(rep as nat, |j: int| v));
                    match rle_decode(input@, i as int + consumed as int) {
                        Some(rest) => {
                            assert(pre + (chunk@ + rest) =~= (pre + chunk@) + rest);
                        },
                        None => {},
                    }
                }
                i += consumed;
            }
        }
    }
    proof {
        assert(out@ + Seq::<u8>::empty() =~= out@);
    }
    Ok(out)
}


/// A big-endian bit reader over a byte slice: a 32-bit buffer holding
/// `bit_count` valid low-order bits, refilled a byte at a time.
pub struct BitReader<'a> {
    pub data: &'a [u8],
    pub pos: usize,
    pub bit_buffer: u32,
    pub bit_count: u8,
}

/// The bit reader state after refilling until at least `n` bits are
/// buffered or the input is exhausted: position, buffer, count.
pub open spec fn spec_ensure_bits(d: Seq<u8>, pos: int, buf: u32, cnt: u8, n: u8) -> (int, u32, u8)
    decreases d.len() - pos,
{
    if cnt < n && 0 <= pos < d.len() {
        spec_ensure_bits(d, pos + 1, (buf << 8) | (d[pos] as u32), (cnt + 8) as u8, n)
    } else {
        (pos, buf, cnt)
    }
}

/// The value of the next `n` bits and the reader state after taking
/// them, or `None` when the input has too few bits left.
pub open spec fn spec_get_bits(d: Seq<u8>, pos: int, buf: u32, cnt: u8, n: u8) -> (
    Option<u32>,
    int,
    u32,
    u8,
) {
    let (p2, b2, c2) = spec_ensure_bits(d, pos, buf, cnt, n);
    if c2 < n {
        (None, p2, b2, c2)
    } else {
        let shift = (c2 - n) as u8;
        let mask = ((1u32 << n) - 1) as u32;
        (Some((b2 >> shift as u32) & mask), p2, b2, (c2 - n) as u8)
    }
}

impl<'a> BitReader<'a> {
    /// At most 32 bits are ever buffered.
    pub open spec fn wf(&self) -> bool {
        self.bit_count <= 32
    }

    /// A fresh reader primed with the first four bytes as a big-endian
    /// word, or zero for a shorter input.
    pub fn new(data: &'a [u8]) -> (r: BitReader<'a>)
        ensures
            r.wf(),
            r.data@ == data@,
            r.pos == 4,
            r.bit_count == 32,
            r.bit_buffer == (if data@.len() >= 4 {
                be32_at(data@, 0)
            } else {
                0u32
            }),
    {
        let init: u32 = if data.len() >= 4 {
            read_be32(data, 0)
        } else {
            0
        };
        BitReader { data, pos: 4, bit_buffer: init, bit_count: 32 }
    }

    /// Refills the buffer until it holds at least `n` bits or the
    /// input runs out.
    pub fn ensure_bits(&mut self, n: u8)
        requires
            old(self).wf(),
            n <= 8,
        ensures
            final(self).wf(),
            final(self).data@ == old(self).data@,
            (final(self).pos as int, final(self).bit_buffer, final(self).bit_count)
                == spec_ensure_bits(
                old(self).data@,
                old(self).pos as int,
                old(self).bit_buffer,
                old(self).bit_count,
                n,
            ),
    {
        while self.bit_count < n && self.pos < self.data.len()
            invariant
                self.wf(),
                n <= 8,
                self.data@ == old(self).data@,
                spec_ensure_bits(
                    old(self).data@,
                    old(self).pos as int,
                    old(self).bit_buffer,
                    old(self).bit_count,
                    n,
                ) == spec_ensure_bits(
                    self.data@,
                    self.pos as int,
                    self.bit_buffer,
                    self.bit_count,
                    n,
                ),
            decreases self.data@.len() - self.pos,
        {
            let b = self.data[self.pos];
            self.bit_buffer = (self.bit_buffer << 8) | (b as u32);
            self.pos = self.pos + 1;
            self.bit_count = self.bit_count + 8;
        }
    }

    /// Takes the next `n` bits, most significant first; fails with
    /// `UnexpectedEof` exactly when too few bits remain.
    pub fn get_bits(&mut self, n: u8) -> (r: Result<u32, AdfError>)
        requires
            old(self).wf(),
            0 < n <= 8,
        ensures
            final(self).wf(),
            final(self).data@ == old(self).data@,
            ({
                let (vo, p2, b2, c2) = spec_get_bits(
                    old(self).data@,
                    old(self).pos as int,
                    old(self).bit_buffer,
                    old(self).bit_count,
                    n,
                );
                match r {
                    Ok(v) => vo == Some(v) && final(self).pos == p2 && final(self).bit_buffer == b2
                        && final(self).bit_count == c2,
                    Err(e) => e == AdfError::UnexpectedEof && vo is None && final(self).pos == p2
                        && final(self).bit_buffer == b2 && final(self).bit_count == c2,
                }
            }),
    {
        self.ensure_bits(n);
        if self.bit_count < n {
            return Err(AdfError::UnexpectedEof);
        }
        let shift: u8 = self.bit_count - n;
        proof {
            let nn = n as u32;
            assert((1u32 << nn) >= 1) by (bit_vector)
                requires
                    nn <= 8,
            ;
        }
        let mask: u32 = (1u32 << n as u32) - 1;
        self.bit_count = self.bit_count - n;
        Ok((self.bit_buffer >> shift as u32) & mask)
    }
}


/// Bits taken from the reader fit in `n` bits.
pub proof fn lemma_get_bits_bound(d: Seq<u8>, pos: int, buf: u32, cnt: u8, n: u8)
    requires
        0 < n <= 8,
    ensures
        spec_get_bits(d, pos, buf, cnt, n).0 matches Some(v) ==> v < (1u32 << n as u32),
{
    let (p2, b2, c2) = spec_ensure_bits(d, pos, buf, cnt, n);
    if c2 >= n {
        let shift = (c2 - n) as u8;
        let nn = n as u32;
        let sh = shift as u32;
        assert((b2 >> sh) & (((1u32 << nn) - 1) as u32) < (1u32 << nn)) by (bit_vector)
            requires
                0 < nn <= 8,
        ;
    }
}

/// A full QUICK decoder state: the bit reader, the 256-byte ring, the
/// ring cursor, and the output so far.
pub struct QuickState {
    pub pos: int,
    pub buf: u32,
    pub cnt: u8,
    pub text: Seq<u8>,
    pub loc: u8,
    pub out: Seq<u8>,
}

/// Copies `n` bytes through the ring: each byte read at `start` is
/// stored at `loc` and appended to the output, both cursors wrapping.
pub open spec fn quick_copy(text: Seq<u8>, loc: u8, start: u8, n: int, out: Seq<u8>) -> (
    Seq<u8>,
    u8,
    Seq<u8>,
)
    decreases n,
{
    if n <= 0 {
        (text, loc, out)
    } else {
        let b = text[start as int];
        quick_copy(
            text.update(loc as int, b),
            vstd::wrapping::u8_specs::wrapping_add(loc, 1),
            vstd::wrapping::u8_specs::wrapping_add(start, 1),
            n - 1,
            out.push(b),
        )
    }
}

/// One QUICK decode step: a set bit introduces a literal byte, a clear
/// bit a back-reference of two to five bytes at an eight-bit distance.
pub open spec fn quick_step(d: Seq<u8>, st: QuickState) -> Option<QuickState> {
    let (b1o, p1, bf1, c1) = spec_get_bits(d, st.pos, st.buf, st.cnt, 1);
    match b1o {
        None => None,
        Some(b1) => if b1 != 0 {
            let (b2o, p2, bf2, c2) = spec_get_bits(d, p1, bf1, c1, 8);
            match b2o {
                None => None,
                Some(byte) => Some(
                    QuickState {
                        pos: p2,
                        buf: bf2,
                        cnt: c2,
                        text: st.text.update(st.loc as int, byte as u8),
                        loc: vstd::wrapping::u8_specs::wrapping_add(st.loc, 1),
                        out: st.out.push(byte as u8),
                    },
                ),
            }
        } else {
            let (jo, p2, bf2, c2) = spec_get_bits(d, p1, bf1, c1, 2);
            match jo {
                None => None,
                Some(j) => {
                    let (offo, p3, bf3, c3) = spec_get_bits(d, p2, bf2, c2, 8);
                    match offo {
                        None => None,
                        Some(off) => {
                            let start = vstd::wrapping::u8_specs::wrapping_sub(
                                vstd::wrapping::u8_specs::wrapping_sub(st.loc, off as u8),
                                1,
                            );
                            let (t2, l2, o2) = quick_copy(
                                st.text,
                                st.loc,
                                start,
                                j + 2,
                                st.out,
                            );
                            Some(QuickState { pos: p3, buf: bf3, cnt: c3, text: t2, loc: l2, out: o2 })
                        },
                    }
                },
            }
        },
    }
}

/// Runs QUICK decode steps until at least `target` bytes are out, with
/// at most `fuel` steps; each step emits at least one byte, so `fuel`
/// of `target` always suffices. `None` when the bits run out.
pub open spec fn quick_run(d: Seq<u8>, st: QuickState, target: int, fuel: nat) -> Option<QuickState>
    decreases fuel,
{
    if st.out.len() >= target {
        Some(st)
    } else if fuel == 0 {
        None
    } else {
        match quick_step(d, st) {
            None => None,
            Some(st2) => quick_run(d, st2, target, (fuel - 1) as nat),
        }
    }
}

/// A finished QUICK run has put out at least its target.
pub proof fn lemma_quick_run_len(d: Seq<u8>, st: QuickState, target: int, fuel: nat)
    ensures
        quick_run(d, st, target, fuel) matches Some(st2) ==> st2.out.len() >= target,
    decreases fuel,
{
    if st.out.len() < target && fuel > 0 {
        match quick_step(d, st) {
            None => {},
            Some(st2) => {
                lemma_quick_run_len(d, st2, target, (fuel - 1) as nat);
            },
        }
    }
}

/// The QUICK decode of a track payload against the archive's carried
/// ring and cursor, priming the bit reader from the first four bytes.
pub open spec fn quick_model(inp: Seq<u8>, text: Seq<u8>, loc: u8, target: int) -> Option<
    QuickState,
> {
    let st0 = QuickState {
        pos: 4,
        buf: if inp.len() >= 4 {
            be32_at(inp, 0)
        } else {
            0u32
        },
        cnt: 32,
        text: text,
        loc: loc,
        out: Seq::empty(),
    };
    quick_run(inp, st0, target, target as nat)
}


/// A zeroed 256-byte QUICK ring.
pub open spec fn zero_ring() -> Seq<u8> {
    Seq::new(256, |i: int| 0u8)
}

/// The packed length of the track record at `pos`.
pub open spec fn track_pack(d: Seq<u8>, pos: int) -> u16 {
    be16_at(d, pos + 6)
}

/// The unpacked length of the track record at `pos`.
pub open spec fn track_unpack(d: Seq<u8>, pos: int) -> u16 {
    be16_at(d, pos + 10)
}

/// The packing-mode byte of the track record at `pos`.
pub open spec fn track_mode(d: Seq<u8>, pos: int) -> u8 {
    d[pos + 13]
}

/// The packed payload of the track record at `pos`.
pub open spec fn track_payload(d: Seq<u8>, pos: int) -> Seq<u8> {
    d.subrange(pos + 20, pos + 20 + track_pack(d, pos))
}

/// The failure the track record at `pos` decodes to, carrying the
/// QUICK ring `text` and cursor `loc`: a truncated record or payload,
/// a missing `TR` magic, a payload that does not decode to the
/// unpacked length, or a packing mode past QUICK.
pub open spec fn track_check(d: Seq<u8>, pos: int, text: Seq<u8>, loc: u8) -> Option<AdfError> {
    if pos + 20 > d.len() {
        Some(AdfError::UnexpectedEof)
    } else if d[pos] != 84 || d[pos + 1] != 82 {
        Some(AdfError::BadMagic)
    } else if pos + 20 + track_pack(d, pos) > d.len() {
        Some(AdfError::UnexpectedEof)
    } else {
        let mode = track_mode(d, pos);
        let unpack = track_unpack(d, pos);
        let payload = track_payload(d, pos);
        if mode == 0 {
            if track_pack(d, pos) != unpack {
                Some(AdfError::BadLength)
            } else {
                None
            }
        } else if mode == 1 {
            match rle_decode(payload, 0) {
                None => Some(AdfError::UnexpectedEof),
                Some(o) => if o.len() != unpack {
                    Some(AdfError::BadLength)
                } else {
                    None
                },
            }
        } else if mode == 2 {
            match quick_model(payload, text, loc, unpack as int) {
                None => Some(AdfError::UnexpectedEof),
                Some(st) => None,
            }
        } else {
            Some(AdfError::Unsupported)
        }
    }
}

/// The decoded bytes of the track record at `pos`, exactly its
/// unpacked length.
pub open spec fn track_output(d: Seq<u8>, pos: int, text: Seq<u8>, loc: u8) -> Seq<u8> {
    let mode = track_mode(d, pos);
    let unpack = track_unpack(d, pos);
    let payload = track_payload(d, pos);
    if mode == 0 {
        payload
    } else if mode == 1 {
        rle_decode(payload, 0)->0
    } else {
        quick_model(payload, text, loc, unpack as int)->0.out.subrange(0, unpack as int)
    }
}

/// The QUICK ring after the track record at `pos`.
pub open spec fn track_text(d: Seq<u8>, pos: int, text: Seq<u8>, loc: u8) -> Seq<u8> {
    if track_mode(d, pos) == 2 {
        quick_model(track_payload(d, pos), text, loc, track_unpack(d, pos) as int)->0.text
    } else {
        text
    }
}

/// The QUICK cursor after the track record at `pos`: five past where
/// the decode left it.
pub open spec fn track_loc(d: Seq<u8>, pos: int, text: Seq<u8>, loc: u8) -> u8 {
    if track_mode(d, pos) == 2 {
        vstd::wrapping::u8_specs::wrapping_add(
            quick_model(track_payload(d, pos), text, loc, track_unpack(d, pos) as int)->0.loc,
            5,
        )
    } else {
        loc
    }
}

/// A streaming reader over an in-memory archive: the bytes, the read
/// position, the parsed header, and the QUICK ring and cursor that
/// persist across the tracks of one archive.
pub struct DMSReader {
    pub data: Vec<u8>,
    pub pos: usize,
    pub header: DMSHeader,
    pub quick_text_loc: u8,
    pub text: Vec<u8>,
}

impl DMSReader {
    /// A reader with a sound position and a 256-byte ring.
    pub open spec fn wf(&self) -> bool {
        &&& self.pos <= self.data@.len()
        &&& self.text@.len() == 256
    }

    /// Opens an archive: the input must hold the 56-byte header and
    /// start with `DMS!`. The header fields are read big-endian and
    /// the QUICK state starts zeroed.
    pub fn new(data: Vec<u8>) -> (r: Result<DMSReader, AdfError>)
        ensures
            ({
                let d = data@;
                match r {
                    Ok(rd) => {
                        &&& d.len() >= 56
                        &&& d[0] == 68 && d[1] == 77 && d[2] == 83 && d[3] == 33
                        &&& rd.wf()
                        &&& rd.data@ == d
                        &&& rd.pos == 56
                        &&& rd.header.signature@ == d.subrange(0, 4)
                        &&& rd.header.header_type@ == d.subrange(4, 8)
                        &&& rd.header.info_bits == be32_at(d, 8)
                        &&& rd.header.date == be32_at(d, 12)
                        &&& rd.header.low_track == be16_at(d, 16)
                        &&& rd.header.high_track == be16_at(d, 18)
                        &&& rd.header.packed_size == be32_at(d, 20)
                        &&& rd.header.unpacked_size == be32_at(d, 24)
                        &&& rd.header.compression_mode == be16_at(d, 52)
                        &&& rd.quick_text_loc == 0
                        &&& rd.text@ =~= zero_ring()
                    },
                    Err(e) => {
                        ||| (e == AdfError::UnexpectedEof && d.len() < 4)
                        ||| (e == AdfError::BadMagic && d.len() >= 4 && !(d[0] == 68 && d[1] == 77
                            && d[2] == 83 && d[3] == 33))
                        ||| (e == AdfError::UnexpectedEof && 4 <= d.len() < 56 && d[0] == 68 && d[1]
                            == 77 && d[2] == 83 && d[3] == 33)
                    },
                }
            }),
    {
        if data.len() < 4 {
            return Err(AdfError::UnexpectedEof);
        }
        if !(data[0] == 68 && data[1] == 77 && data[2] == 83 && data[3] == 33) {
            return Err(AdfError::BadMagic);
        }
        if data.len() < 56 {
            return Err(AdfError::UnexpectedEof);
        }
        let b = data.as_slice();
        let signature: [u8; 4] = [data[0], data[1], data[2], data[3]];
        let header_type: [u8; 4] = [data[4], data[5], data[6], data[7]];
        proof {
            assert(signature@ =~= data@.subrange(0, 4));
            assert(header_type@ =~= data@.subrange(4, 8));
        }
        let header = DMSHeader {
            signature,
            header_type,
            info_bits: read_be32(b, 8),
            date: read_be32(b, 12),
            low_track: read_be16(b, 16),
            high_track: read_be16(b, 18),
            packed_size: read_be32(b, 20),
            unpacked_size: read_be32(b, 24),
            os_version: read_be16(b, 28),
            os_revision: read_be16(b, 30),
            machine_cpu: read_be16(b, 32),
            cpu_copro: read_be16(b, 34),
            machine_type: read_be16(b, 36),
            unused: read_be16(b, 38),
            cpu_mhz: read_be16(b, 40),
            time_create: read_be32(b, 42),
            version_creator: read_be16(b, 46),
            version_needed: read_be16(b, 48),
            diskette_type: read_be16(b, 50),
            compression_mode: read_be16(b, 52),
            info_header_crc: read_be16(b, 54),
        };
        let text: Vec<u8> = vec![0u8; 256];
        Ok(DMSReader { data, pos: 56, header, quick_text_loc: 0, text })
    }

    /// The archive summary: the signature and type as printable text
    /// and the header's main fields.
    pub fn info(&self) -> (r: DMSInfo)
        ensures
            r.signature@ == crate::text::printable_chars(self.header.signature@),
            r.header_type@ == crate::text::printable_chars(self.header.header_type@),
            r.info_bits.0 == self.header.info_bits,
            r.date == self.header.date,
            r.low_track == self.header.low_track,
            r.high_track == self.header.high_track,
            r.packed_size == self.header.packed_size,
            r.unpacked_size == self.header.unpacked_size,
            r.compression_mode == spec_packing_mode(self.header.compression_mode),
    {
        DMSInfo {
            signature: crate::text::printable_string(self.header.signature.as_slice()),
            header_type: crate::text::printable_string(self.header.header_type.as_slice()),
            info_bits: InfoBits::new(self.header.info_bits),
            date: self.header.date,
            low_track: self.header.low_track,
            high_track: self.header.high_track,
            packed_size: self.header.packed_size,
            unpacked_size: self.header.unpacked_size,
            compression_mode: DMSPackingMode::from_code(self.header.compression_mode),
        }
    }

    /// Decodes a QUICK-packed payload against the archive's ring and
    /// cursor, emitting exactly `target` bytes; afterwards the cursor
    /// moves five further, as the scheme carries between tracks.
    pub fn unpack_quick(&mut self, input: &[u8], target: u16) -> (r: Result<Vec<u8>, AdfError>)
        requires
            old(self).wf(),
        ensures
            final(self).wf(),
            final(self).data == old(self).data,
            final(self).pos == old(self).pos,
            final(self).header == old(self).header,
            ({
                let model = quick_model(
                    input@,
                    old(self).text@,
                    old(self).quick_text_loc,
                    target as int,
                );
                match r {
                    Ok(v) => model matches Some(st) && v@ == st.out.subrange(0, target as int)
                        && v@.len() == target && final(self).text@ == st.text && final(self).quick_text_loc == vstd::wrapping::u8_specs::wrapping_add(st.loc, 5),
                    Err(e) => e == AdfError::UnexpectedEof && model is None && *final(self) == *old(self),
                }
            }),
    {
        let mut reader = BitReader::new(input);
        let mut out: Vec<u8> = Vec::new();
        let mut text = slice_to_vec(self.text.as_slice());
        let mut loc: u8 = self.quick_text_loc;
        let mut fuel: u32 = target as u32;
        let ghost st0 = QuickState {
            pos: 4,
            buf: reader.bit_buffer,
            cnt: 32,
            text: self.text@,
            loc: self.quick_text_loc,
            out: Seq::empty(),
        };
        while out.len() < target as usize
            invariant
                self.wf(),
                reader.wf(),
                reader.data@ == input@,
                text@.len() == 256,
                quick_model(input@, old(self).text@, old(self).quick_text_loc, target as int)
                    == quick_run(
                    input@,
                    QuickState {
                        pos: reader.pos as int,
                        buf: reader.bit_buffer,
                        cnt: reader.bit_count,
                        text: text@,
                        loc: loc,
                        out: out@,
                    },
                    target as int,
                    fuel as nat,
                ),
                out@.len() + fuel >= target,
                *self == *old(self),
            decreases fuel,
        {
            let ghost cur = QuickState {
                pos: reader.pos as int,
                buf: reader.bit_buffer,
                cnt: reader.bit_count,
                text: text@,
                loc: loc,
                out: out@,
            };
            let b1 = match reader.get_bits(1) {
                Ok(v) => v,
                Err(e) => {
                    proof {
                        assert(quick_step(input@, cur) is None);
                    }
                    return Err(AdfError::UnexpectedEof);
                },
            };
            if b1 != 0 {
                let byte = match reader.get_bits(8) {
                    Ok(v) => v,
                    Err(e) => {
                        proof {
                            assert(quick_step(input@, cur) is None);
                        }
                        return Err(AdfError::UnexpectedEof);
                    },
                };
                text[loc as usize] = byte as u8;
                loc = loc.wrapping_add(1);
                out.push(byte as u8);
                proof {
                    assert(quick_step(input@, cur) == Some(
                        QuickState {
                            pos: reader.pos as int,
                            buf: reader.bit_buffer,
                            cnt: reader.bit_count,
                            text: text@,
                            loc: loc,
                            out: out@,
                        },
                    ));
                }
            } else {
                let ghost pre2 = (reader.pos as int, reader.bit_buffer, reader.bit_count);
                let j = match reader.get_bits(2) {
                    Ok(v) => v,
                    Err(e) => {
                        proof {
                            assert(quick_step(input@, cur) is None);
                        }
                        return Err(AdfError::UnexpectedEof);
                    },
                };
                proof {
                    lemma_get_bits_bound(input@, pre2.0, pre2.1, pre2.2, 2);
                    assert((1u32 << 2u32) == 4) by (bit_vector);
                    assert(j < 4);
                }
                let ghost mid = (reader.pos as int, reader.bit_buffer, reader.bit_count);
                let off = match reader.get_bits(8) {
                    Ok(v) => v,
                    Err(e) => {
                        proof {
                            assert(quick_step(input@, cur) is None);
                        }
                        return Err(AdfError::UnexpectedEof);
                    },
                };
                proof {
                    lemma_get_bits_bound(input@, cur.pos, cur.buf, cur.cnt, 1);
                }
                let mut start: u8 = loc.wrapping_sub(off as u8).wrapping_sub(1);
                proof {
                    assert((1u32 << 2u32) == 4) by (bit_vector);
                }
                let total: u32 = j + 2;
                let ghost t0 = text@;
                let ghost l0 = loc;
                let ghost s0 = start;
                let ghost o0 = out@;
                let mut c: u32 = 0;
                while c < total
                    invariant
                        c <= total,
                        total <= 5,
                        text@.len() == 256,
                        out@.len() == o0.len() + c,
                        quick_copy(t0, l0, s0, total as int, o0) == quick_copy(
                            text@,
                            loc,
                            start,
                            total as int - c as int,
                            out@,
                        ),
                    decreases total - c,
                {
                    let b = text[start as usize];
                    text[loc as usize] = b;
                    loc = loc.wrapping_add(1);
                    start = start.wrapping_add(1);
                    out.push(b);
                    c += 1;
                }
                proof {
                    assert(quick_step(input@, cur) == Some(
                        QuickState {
                            pos: reader.pos as int,
                            buf: reader.bit_buffer,
                            cnt: reader.bit_count,
                            text: text@,
                            loc: loc,
                            out: out@,
                        },
                    ));
                }
            }
            fuel = fuel - 1;
        }
        proof {
            lemma_quick_run_len(
                input@,
                QuickState {
                    pos: reader.pos as int,
                    buf: reader.bit_buffer,
                    cnt: reader.bit_count,
                    text: text@,
                    loc: loc,
                    out: out@,
                },
                target as int,
                fuel as nat,
            );
        }
        let result = if out.len() > target as usize {
            let ghost full = out@;
            let r = slice_to_vec(slice_subrange(out.as_slice(), 0, target as usize));
            r
        } else {
            out
        };
        self.text = text;
        self.quick_text_loc = loc.wrapping_add(5);
        Ok(result)
    }
}


/// The decode of `k` consecutive track records from `pos`, threading
/// the QUICK ring and cursor: all output concatenated, the last
/// track's own output, and the position and QUICK state after; or the
/// first track's failure.
pub open spec fn decode_tracks(d: Seq<u8>, pos: int, text: Seq<u8>, loc: u8, k: nat) -> Result<
    (Seq<u8>, Seq<u8>, int, Seq<u8>, u8),
    AdfError,
>
    decreases k,
{
    if k == 0 {
        Ok((Seq::empty(), Seq::empty(), pos, text, loc))
    } else {
        match track_check(d, pos, text, loc) {
            Some(e) => Err(e),
            None => {
                let o = track_output(d, pos, text, loc);
                match decode_tracks(
                    d,
                    pos + 20 + track_pack(d, pos),
                    track_text(d, pos, text, loc),
                    track_loc(d, pos, text, loc),
                    (k - 1) as nat,
                ) {
                    Ok(tup) => Ok(
                        (
                            o + tup.0,
                            if k == 1 {
                                o
                            } else {
                                tup.1
                            },
                            tup.2,
                            tup.3,
                            tup.4,
                        ),
                    ),
                    Err(e) => Err(e),
                }
            },
        }
    }
}

/// The concatenated output of a track decode, or its failure.
pub open spec fn decode_tracks_all(r: Result<(Seq<u8>, Seq<u8>, int, Seq<u8>, u8), AdfError>) -> Result<
    Seq<u8>,
    AdfError,
> {
    match r {
        Ok(tup) => Ok(tup.0),
        Err(e) => Err(e),
    }
}

/// A track decode without its concatenated output: the last track's
/// output, the position and the QUICK state after.
pub open spec fn decode_tail(r: Result<(Seq<u8>, Seq<u8>, int, Seq<u8>, u8), AdfError>) -> Result<
    (Seq<u8>, int, Seq<u8>, u8),
    AdfError,
> {
    match r {
        Ok(tup) => Ok((tup.1, tup.2, tup.3, tup.4)),
        Err(e) => Err(e),
    }
}

/// The number of track records an archive announces.
pub open spec fn spec_track_count(d: Seq<u8>) -> nat {
    if be16_at(d, 18) >= be16_at(d, 16) {
        (be16_at(d, 18) - be16_at(d, 16) + 1) as nat
    } else {
        0
    }
}

/// Decoding the same archive twice yields identical output: the whole
/// decode, QUICK ring and cursor included, is a pure function of the
/// archive bytes, so two runs over equal bytes agree.
pub proof fn lemma_dms_decode_deterministic(d: Seq<u8>, v1: Seq<u8>, v2: Seq<u8>)
    requires
        decode_tracks_all(
            decode_tracks(d, 56, zero_ring(), 0, spec_track_count(d)),
        ) == Ok::<Seq<u8>, AdfError>(v1),
        decode_tracks_all(
            decode_tracks(d, 56, zero_ring(), 0, spec_track_count(d)),
        ) == Ok::<Seq<u8>, AdfError>(v2),
    ensures
        v1 == v2,
{
}

impl DMSReader {
    /// Decodes a run-length-packed track payload.
    pub fn unpack_rle(&self, input: &[u8]) -> (r: Result<Vec<u8>, AdfError>)
        ensures
            match r {
                Ok(v) => rle_decode(input@, 0) == Some(v@),
                Err(e) => e == AdfError::UnexpectedEof && rle_decode(input@, 0) is None,
            },
    {
        unpack_rle_bytes(input)
    }

    /// Reads and decodes the next track record: the 20-byte `TR`
    /// header, then the packed payload through the mode it names,
    /// yielding exactly the announced unpacked length. The QUICK ring
    /// and cursor persist across the tracks of one archive. On failure
    /// nothing changes.
    pub fn read_track(&mut self) -> (r: Result<Vec<u8>, AdfError>)
        requires
            old(self).wf(),
        ensures
            final(self).wf(),
            final(self).data == old(self).data,
            final(self).header == old(self).header,
            ({
                let d = old(self).data@;
                let pos = old(self).pos as int;
                let text = old(self).text@;
                let loc = old(self).quick_text_loc;
                match r {
                    Ok(v) => {
                        &&& track_check(d, pos, text, loc) is None
                        &&& v@ == track_output(d, pos, text, loc)
                        &&& v@.len() == track_unpack(d, pos)
                        &&& final(self).pos == pos + 20 + track_pack(d, pos)
                        &&& final(self).text@ == track_text(d, pos, text, loc)
                        &&& final(self).quick_text_loc == track_loc(d, pos, text, loc)
                    },
                    Err(e) => track_check(d, pos, text, loc) == Some(e) && *final(self) == *old(self),
                }
            }),
    {
        let n = self.data.len();
        let pos0 = self.pos;
        if n - pos0 < 20 {
            return Err(AdfError::UnexpectedEof);
        }
        let (pack, unpack, mode, payload_v): (usize, u16, u8, Vec<u8>) = {
            let b = self.data.as_slice();
            if !(b[pos0] == 84 && b[pos0 + 1] == 82) {
                return Err(AdfError::BadMagic);
            }
            let pack = read_be16(b, pos0 + 6) as usize;
            let unpack = read_be16(b, pos0 + 10);
            let mode = b[pos0 + 13];
            if n - (pos0 + 20) < pack {
                return Err(AdfError::UnexpectedEof);
            }
            let payload = slice_subrange(b, pos0 + 20, pos0 + 20 + pack);
            (pack, unpack, mode, slice_to_vec(payload))
        };
        proof {
            assert(payload_v@ =~= track_payload(self.data@, pos0 as int));
            assert(pack == track_pack(self.data@, pos0 as int));
            assert(unpack == track_unpack(self.data@, pos0 as int));
            assert(mode == track_mode(self.data@, pos0 as int));
        }
        if mode == 0 {
            if pack != unpack as usize {
                return Err(AdfError::BadLength);
            }
            self.pos = pos0 + 20 + pack;
            Ok(payload_v)
        } else if mode == 1 {
            match unpack_rle_bytes(payload_v.as_slice()) {
                Ok(v) => {
                    if v.len() != unpack as usize {
                        return Err(AdfError::BadLength);
                    }
                    self.pos = pos0 + 20 + pack;
                    Ok(v)
                },
                Err(e) => Err(e),
            }
        } else if mode == 2 {
            match self.unpack_quick(payload_v.as_slice(), unpack) {
                Ok(v) => {
                    self.pos = pos0 + 20 + pack;
                    Ok(v)
                },
                Err(e) => Err(e),
            }
        } else {
            Err(AdfError::Unsupported)
        }
    }

    /// Reads one 256-byte sector: skips whole tracks from the current
    /// position, decodes the track holding the sector, and cuts the
    /// sector out of it. On failure the reader may have consumed the
    /// skipped tracks.
    pub fn read_sector(&mut self, sector: usize) -> (r: Result<Vec<u8>, AdfError>)
        requires
            old(self).wf(),
            sector / 16 < 0xFFFF_FFFF,
        ensures
            final(self).wf(),
            final(self).data == old(self).data,
            final(self).header == old(self).header,
            ({
                let d = old(self).data@;
                let walked = decode_tracks(
                    d,
                    old(self).pos as int,
                    old(self).text@,
                    old(self).quick_text_loc,
                    (sector / 16 + 1) as nat,
                );
                match r {
                    Ok(v) => walked matches Ok(tup) && (sector % 16) * 256 + 256 <= tup.1.len()
                        && v@ == tup.1.subrange(
                        (sector % 16) * 256,
                        (sector % 16) * 256 + 256,
                    ) && final(self).pos == tup.2 && final(self).text@ == tup.3 && final(self).quick_text_loc == tup.4,
                    Err(e) => (walked matches Err(e2) && e == e2) || (walked matches Ok(tup) && (
                    sector % 16) * 256 + 256 > tup.1.len() && e == AdfError::OutOfRange),
                }
            }),
    {
        let track = sector / 16;
        let sec_in = sector % 16;
        let ghost d = self.data@;
        let ghost pos0 = self.pos as int;
        let ghost text0 = self.text@;
        let ghost loc0 = self.quick_text_loc;
        let mut i: usize = 0;
        while i < track
            invariant
                self.wf(),
                i <= track,
                self.data@ == d,
                self.data == old(self).data,
                d == old(self).data@,
                self.header == old(self).header,
                track < 0xFFFF_FFFF,
                track == sector / 16,
                pos0 == old(self).pos as int,
                text0 == old(self).text@,
                loc0 == old(self).quick_text_loc,
                decode_tail(decode_tracks(d, pos0, text0, loc0, (track + 1) as nat))
                    == decode_tail(
                    decode_tracks(
                        d,
                        self.pos as int,
                        self.text@,
                        self.quick_text_loc,
                        (track + 1 - i) as nat,
                    ),
                ),
            decreases track - i,
        {
            let ghost pp = self.pos as int;
            let ghost pt = self.text@;
            let ghost pl = self.quick_text_loc;
            let ghost m = (track + 1 - i) as nat;
            match self.read_track() {
                Ok(v) => {
                    proof {
                        assert(m >= 2);
                        assert(decode_tail(decode_tracks(d, pp, pt, pl, m)) == decode_tail(
                            decode_tracks(
                                d,
                                self.pos as int,
                                self.text@,
                                self.quick_text_loc,
                                (m - 1) as nat,
                            ),
                        ));
                    }
                },
                Err(e) => {
                    proof {
                        assert(decode_tracks(d, pp, pt, pl, m) == Err::<
                            (Seq<u8>, Seq<u8>, int, Seq<u8>, u8),
                            AdfError,
                        >(e));
                        assert(decode_tracks(d, pos0, text0, loc0, (track + 1) as nat) matches Err(
                            e2,
                        ) && e2 == e);
                    }
                    return Err(e);
                },
            }
            i += 1;
        }
        let ghost pp = self.pos as int;
        let ghost pt = self.text@;
        let ghost pl = self.quick_text_loc;
        let last = match self.read_track() {
            Ok(v) => v,
            Err(e) => {
                proof {
                    assert(decode_tracks(d, pp, pt, pl, 1) == Err::<
                        (Seq<u8>, Seq<u8>, int, Seq<u8>, u8),
                        AdfError,
                    >(e));
                }
                return Err(e);
            },
        };
        proof {
            reveal_with_fuel(decode_tracks, 2);
            assert(last@ + Seq::<u8>::empty() =~= last@);
            assert(decode_tracks(d, pp, pt, pl, 1) matches Ok(tup) && tup.1 == last@ && tup.2
                == self.pos as int && tup.3 == self.text@ && tup.4 == self.quick_text_loc);
        }
        if sec_in * 256 + 256 > last.len() {
            return Err(AdfError::OutOfRange);
        }
        Ok(slice_to_vec(slice_subrange(last.as_slice(), sec_in * 256, sec_in * 256 + 256)))
    }
}

/// Converts a whole archive to a raw disk image: every announced
/// track decoded in order; the total must equal the header's unpacked
/// size.
pub fn dms_to_adf(data: &[u8]) -> (r: Result<Vec<u8>, AdfError>)
    ensures
        ({
            let d = data@;
            let decoded = decode_tracks_all(
                decode_tracks(d, 56, zero_ring(), 0, spec_track_count(d)),
            );
            match r {
                Ok(v) => {
                    &&& d.len() >= 56
                    &&& d[0] == 68 && d[1] == 77 && d[2] == 83 && d[3] == 33
                    &&& decoded == Ok::<Seq<u8>, AdfError>(v@)
                    &&& v@.len() == be32_at(d, 24)
                },
                Err(e) => {
                    ||| (d.len() < 4 && e == AdfError::UnexpectedEof)
                    ||| (d.len() >= 4 && !(d[0] == 68 && d[1] == 77 && d[2] == 83 && d[3] == 33)
                        && e == AdfError::BadMagic)
                    ||| (4 <= d.len() < 56 && e == AdfError::UnexpectedEof)
                    ||| (d.len() >= 56 && (decoded matches Err(e2) && e == e2))
                    ||| (d.len() >= 56 && (decoded matches Ok(out) && out.len() != be32_at(d, 24)
                        && e == AdfError::BadSize))
                },
            }
        }),
{
    let ghost d = data@;
    let mut reader = match DMSReader::new(slice_to_vec(data)) {
        Ok(r) => r,
        Err(e) => {
            return Err(e);
        },
    };
    let low = reader.header.low_track;
    let high = reader.header.high_track;
    let unpacked = reader.header.unpacked_size;
    let count: u32 = if high >= low {
        (high - low) as u32 + 1
    } else {
        0
    };
    proof {
        assert(count == spec_track_count(d));
        assert(reader.text@ =~= zero_ring());
    }
    let mut out: Vec<u8> = Vec::new();
    let mut k: u32 = 0;
    while k < count
        invariant
            reader.wf(),
            k <= count,
            reader.data@ == d,
            d == data@,
            d.len() >= 56,
            d[0] == 68 && d[1] == 77 && d[2] == 83 && d[3] == 33,
            count == spec_track_count(d),
            reader.header.unpacked_size == be32_at(d, 24),
            decode_tracks_all(
                decode_tracks(d, 56, zero_ring(), 0, count as nat),
            ) == (match decode_tracks(
                d,
                reader.pos as int,
                reader.text@,
                reader.quick_text_loc,
                (count - k) as nat,
            ) {
                Ok(tup) => Ok::<Seq<u8>, AdfError>(out@ + tup.0),
                Err(e) => Err(e),
            }),
        decreases count - k,
    {
        let ghost pre = out@;
        match reader.read_track() {
            Ok(mut v) => {
                let ghost vv = v@;
                out.append(&mut v);
                proof {
                    assert(out@ =~= pre + vv);
                    match decode_tracks(
                        d,
                        reader.pos as int,
                        reader.text@,
                        reader.quick_text_loc,
                        (count - k - 1) as nat,
                    ) {
                        Ok(tup) => {
                            assert(pre + (vv + tup.0) =~= (pre + vv) + tup.0);
                        },
                        Err(e) => {},
                    }
                }
            },
            Err(e) => {
                proof {
                    assert(decode_tracks(
                        d,
                        reader.pos as int,
                        reader.text@,
                        reader.quick_text_loc,
                        (count - k) as nat,
                    ) == Err::<(Seq<u8>, Seq<u8>, int, Seq<u8>, u8), AdfError>(e));
                }
                return Err(e);
            },
        }
        k += 1;
    }
    proof {
        assert(decode_tracks(d, reader.pos as int, reader.text@, reader.quick_text_loc, 0) == Ok::<
            (Seq<u8>, Seq<u8>, int, Seq<u8>, u8),
            AdfError,
        >((Seq::empty(), Seq::empty(), reader.pos as int, reader.text@, reader.quick_text_loc)));
        assert(out@ + Seq::<u8>::empty() =~= out@);
    }
    if out.len() as u64 != unpacked as u64 {
        return Err(AdfError::BadSize);
    }
    Ok(out)
}

} // verus!
