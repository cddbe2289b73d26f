use vstd::prelude::*;
use vstd::slice::slice_subrange;
use vstd::slice::slice_to_vec;
use crate::endian::be32_at;
use crate::endian::read_be32;
use crate::err::AdfError;
use crate::text::printable_chars;
use crate::text::printable_string;

verus! {

/// The kind of a program segment.
#[derive(Debug, Clone, Copy, PartialEq, Eq, Structural)]
pub enum HunkType {
    Code,
    Data,
    Bss,
}

/// The memory class a segment asks for.
#[derive(Debug, Clone, Copy, PartialEq, Eq, Structural)]
pub enum MemoryType {
    Any,
    Chip,
    Fast,
}

/// One 32-bit relocation group: the target hunk and the offsets to
/// patch.
#[derive(Debug, Clone)]
pub struct RelocInfo32 {
    pub target: usize,
    pub offsets: Vec<u32>,
}

/// One symbol: a name and its offset in the hunk.
#[derive(Debug, Clone)]
pub struct Symbol {
    pub name: String,
    pub offset: u32,
}

/// One source line record of debug data.
#[derive(Debug, Clone)]
pub struct SourceLine {
    pub line: u32,
    pub offset: u32,
}

/// One source file of LINE debug data.
#[derive(Debug, Clone)]
pub struct SourceFile {
    pub name: String,
    pub base_offset: u32,
    pub lines: Vec<SourceLine>,
}

/// One parsed hunk: its kind, memory class, payload, relocations,
/// symbols and debug data.
#[derive(Debug, Clone)]
pub struct Hunk {
    pub mem_type: MemoryType,
    pub hunk_type: HunkType,
    pub alloc_size: usize,
    pub data_size: usize,
    pub code_data: Option<Vec<u8>>,
    pub reloc_32: Option<Vec<RelocInfo32>>,
    pub symbols: Option<Vec<Symbol>>,
    pub line_debug_info: Option<Vec<SourceFile>>,
}

impl Default for Hunk {
    /// An empty code hunk in any memory, with nothing attached.
    fn default() -> (r: Hunk)
        ensures
            r.mem_type == MemoryType::Any,
            r.hunk_type == HunkType::Code,
            r.alloc_size == 0,
            r.data_size == 0,
            r.code_data is None,
            r.reloc_32 is None,
            r.symbols is None,
            r.line_debug_info is None,
    {
        Hunk {
            mem_type: MemoryType::Any,
            hunk_type: HunkType::Code,
            alloc_size: 0,
            data_size: 0,
            code_data: None,
            reloc_32: None,
            symbols: None,
            line_debug_info: None,
        }
    }
}

/// A 32-bit word read from the stream, or a truncation failure.
pub open spec fn hk_u32(d: Seq<u8>, pos: int) -> Result<(u32, int), AdfError> {
    if 0 <= pos && pos + 4 <= d.len() {
        Ok((be32_at(d, pos), pos + 4))
    } else {
        Err(AdfError::UnexpectedEof)
    }
}

/// `n` consecutive 32-bit words read from the stream.
pub open spec fn hk_words(d: Seq<u8>, pos: int, n: int) -> Result<(Seq<u32>, int), AdfError>
    decreases n,
{
    if n <= 0 {
        Ok((Seq::empty(), pos))
    } else {
        match hk_u32(d, pos) {
            Err(e) => Err(e),
            Ok((w, p1)) => match hk_words(d, p1, n - 1) {
                Err(e) => Err(e),
                Ok((rest, p2)) => Ok((seq![w] + rest, p2)),
            },
        }
    }
}

/// The memory class and byte length a size word encodes: the top two
/// bits pick the class, the low 28 bits count longs.
pub open spec fn spec_size_type(t: u32) -> (int, MemoryType) {
    (
        (t & 0x0fff_ffff) * 4,
        if t & 0xf000_0000 == 0x4000_0000 {
            MemoryType::Chip
        } else if t & 0xf000_0000 == 0x8000_0000 {
            MemoryType::Fast
        } else {
            MemoryType::Any
        },
    )
}

/// The prefix of `b` before its first NUL byte.
pub open spec fn trim_nul(b: Seq<u8>) -> Seq<u8>
    decreases b.len(),
{
    if b.len() == 0 {
        Seq::empty()
    } else if b[0] == 0 {
        Seq::empty()
    } else {
        seq![b[0]] + trim_nul(b.drop_first())
    }
}

/// A length-in-longs name read from the stream, cut at its first NUL.
pub open spec fn hk_name(d: Seq<u8>, pos: int, num_longs: u32) -> Result<(Seq<u8>, int), AdfError> {
    if 0 <= pos && pos + 4 * num_longs <= d.len() {
        Ok((trim_nul(d.subrange(pos, pos + 4 * num_longs)), pos + 4 * num_longs))
    } else {
        Err(AdfError::UnexpectedEof)
    }
}

/// The zero-terminated relocation groups of a `RELOC32` block.
pub open spec fn hk_relocs(d: Seq<u8>, pos: int, fuel: nat) -> Result<
    (Seq<(u32, Seq<u32>)>, int),
    AdfError,
>
    decreases fuel,
{
    match hk_u32(d, pos) {
        Err(e) => Err(e),
        Ok((count, p1)) => if count == 0 {
            Ok((Seq::empty(), p1))
        } else if fuel == 0 {
            Err(AdfError::UnexpectedEof)
        } else {
            match hk_u32(d, p1) {
                Err(e) => Err(e),
                Ok((target, p2)) => match hk_words(d, p2, count as int) {
                    Err(e) => Err(e),
                    Ok((offsets, p3)) => match hk_relocs(d, p3, (fuel - 1) as nat) {
                        Err(e) => Err(e),
                        Ok((rest, p4)) => Ok((seq![(target, offsets)] + rest, p4)),
                    },
                },
            }
        },
    }
}

/// The zero-terminated symbol entries of a `SYMBOL` block, in arrival
/// order.
pub open spec fn hk_symbols(d: Seq<u8>, pos: int, fuel: nat) -> Result<
    (Seq<(Seq<u8>, u32)>, int),
    AdfError,
>
    decreases fuel,
{
    match hk_u32(d, pos) {
        Err(e) => Err(e),
        Ok((num_longs, p1)) => if num_longs == 0 {
            Ok((Seq::empty(), p1))
        } else if fuel == 0 {
            Err(AdfError::UnexpectedEof)
        } else {
            match hk_name(d, p1, num_longs) {
                Err(e) => Err(e),
                Ok((name, p2)) => match hk_u32(d, p2) {
                    Err(e) => Err(e),
                    Ok((offset, p3)) => match hk_symbols(d, p3, (fuel - 1) as nat) {
                        Err(e) => Err(e),
                        Ok((rest, p4)) => Ok((seq![(name, offset)] + rest, p4)),
                    },
                },
            }
        },
    }
}

/// The line records of a LINE debug block: the masked line number and
/// the base-relative offset, wrapping on overflow.
pub open spec fn hk_lines(d: Seq<u8>, pos: int, base: u32, n: int) -> Result<
    (Seq<(u32, u32)>, int),
    AdfError,
>
    decreases n,
{
    if n <= 0 {
        Ok((Seq::empty(), pos))
    } else {
        match hk_u32(d, pos) {
            Err(e) => Err(e),
            Ok((w, p1)) => match hk_u32(d, p1) {
                Err(e) => Err(e),
                Ok((off, p2)) => match hk_lines(d, p2, base, n - 1) {
                    Err(e) => Err(e),
                    Ok((rest, p3)) => Ok(
                        (
                            seq![
                                (
                                    (w & 0xff_ffff) as u32,
                                    vstd::wrapping::u32_specs::wrapping_add(base, off),
                                ),
                            ] + rest,
                            p3,
                        ),
                    ),
                },
            },
        }
    }
}

/// A `DEBUG` block: a LINE block yields a source file, any other tag
/// is skipped by its length.
pub open spec fn hk_debug(d: Seq<u8>, pos: int) -> Result<
    (Option<(Seq<u8>, u32, Seq<(u32, u32)>)>, int),
    AdfError,
> {
    match hk_u32(d, pos) {
        Err(e) => Err(e),
        Ok((raw, p1)) => if raw < 2 {
            Err(AdfError::BadTable)
        } else {
            let num_longs = (raw - 2) as u32;
            match hk_u32(d, p1) {
                Err(e) => Err(e),
                Ok((base, p2)) => match hk_u32(d, p2) {
                    Err(e) => Err(e),
                    Ok((tag, p3)) => if tag != 0x4c49_4e45 {
                        if p3 + 4 * num_longs <= d.len() {
                            Ok((None, p3 + 4 * num_longs))
                        } else {
                            Err(AdfError::UnexpectedEof)
                        }
                    } else {
                        match hk_u32(d, p3) {
                            Err(e) => Err(e),
                            Ok((name_longs, p4)) => if name_longs + 1 > num_longs {
                                Err(AdfError::BadTable)
                            } else {
                                match hk_name(d, p4, name_longs) {
                                    Err(e) => Err(e),
                                    Ok((name, p5)) => {
                                        let num_lines = (num_longs - name_longs - 1) / 2;
                                        match hk_lines(d, p5, base, num_lines as int) {
                                            Err(e) => Err(e),
                                            Ok((lines, p6)) => Ok((Some((name, base, lines)), p6)),
                                        }
                                    },
                                }
                            },
                        }
                    },
                },
            }
        },
    }
}

/// The rolling parse state of one hunk: kind, memory class, payload
/// size and bytes, relocation groups, symbols in arrival order, and
/// LINE debug files.
pub struct HunkModel {
    pub kind: HunkType,
    pub mem: MemoryType,
    pub data_size: int,
    pub code: Option<Seq<u8>>,
    pub relocs: Option<Seq<(u32, Seq<u32>)>>,
    pub syms: Option<Seq<(Seq<u8>, u32)>>,
    pub dbg: Seq<(Seq<u8>, u32, Seq<(u32, u32)>)>,
}

/// The empty hunk model a parse starts from.
pub open spec fn hk_empty() -> HunkModel {
    HunkModel {
        kind: HunkType::Code,
        mem: MemoryType::Any,
        data_size: 0,
        code: None,
        relocs: None,
        syms: None,
        dbg: Seq::empty(),
    }
}

/// Folds the sub-blocks of one hunk until its `END` record.
#[verifier::opaque]
pub open spec fn hk_blocks(d: Seq<u8>, pos: int, acc: HunkModel, fuel: nat) -> Result<
    (HunkModel, int),
    AdfError,
>
    decreases fuel,
{
    match hk_u32(d, pos) {
        Err(e) => Err(e),
        Ok((id, p1)) => if id == 1010 {
            Ok((acc, p1))
        } else if fuel == 0 {
            Err(AdfError::UnexpectedEof)
        } else if id == 1001 || id == 1002 || id == 1003 {
            match hk_u32(d, p1) {
                Err(e) => Err(e),
                Ok((szw, p2)) => {
                    let (size, mem) = spec_size_type(szw);
                    if id == 1003 {
                        hk_blocks(
                            d,
                            p2,
                            HunkModel { kind: HunkType::Bss, mem, data_size: size, ..acc },
                            (fuel - 1) as nat,
                        )
                    } else if p2 + size <= d.len() {
                        hk_blocks(
                            d,
                            p2 + size,
                            HunkModel {
                                kind: if id == 1001 {
                                    HunkType::Code
                                } else {
                                    HunkType::Data
                                },
                                mem,
                                data_size: size,
                                code: Some(d.subrange(p2, p2 + size)),
                                ..acc
                            },
                            (fuel - 1) as nat,
                        )
                    } else {
                        Err(AdfError::UnexpectedEof)
                    }
                },
            }
        } else if id == 1004 {
            match hk_relocs(d, p1, d.len() as nat) {
                Err(e) => Err(e),
                Ok((groups, p2)) => hk_blocks(
                    d,
                    p2,
                    HunkModel { relocs: Some(groups), ..acc },
                    (fuel - 1) as nat,
                ),
            }
        } else if id == 1008 {
            match hk_symbols(d, p1, d.len() as nat) {
                Err(e) => Err(e),
                Ok((syms, p2)) => hk_blocks(
                    d,
                    p2,
                    HunkModel {
                        syms: if syms.len() > 0 {
                            Some(syms)
                        } else {
                            acc.syms
                        },
                        ..acc
                    },
                    (fuel - 1) as nat,
                ),
            }
        } else if id == 1009 {
            match hk_debug(d, p1) {
                Err(e) => Err(e),
                Ok((fileo, p2)) => hk_blocks(
                    d,
                    p2,
                    HunkModel {
                        dbg: match fileo {
                            Some(f) => acc.dbg.push(f),
                            None => acc.dbg,
                        },
                        ..acc
                    },
                    (fuel - 1) as nat,
                ),
            }
        } else {
            match hk_u32(d, p1) {
                Err(e) => Err(e),
                Ok((szw, p2)) => if p2 + 4 * szw <= d.len() {
                    hk_blocks(d, p2 + 4 * szw, acc, (fuel - 1) as nat)
                } else {
                    Err(AdfError::UnexpectedEof)
                },
            }
        },
    }
}

/// Parses `k` hunks in sequence.
pub open spec fn hk_hunks(d: Seq<u8>, pos: int, k: nat) -> Result<(Seq<HunkModel>, int), AdfError>
    decreases k,
{
    if k == 0 {
        Ok((Seq::empty(), pos))
    } else {
        match hk_blocks(d, pos, hk_empty(), d.len() as nat) {
            Err(e) => Err(e),
            Ok((h, p1)) => match hk_hunks(d, p1, (k - 1) as nat) {
                Err(e) => Err(e),
                Ok((rest, p2)) => Ok((seq![h] + rest, p2)),
            },
        }
    }
}

/// The whole-file parse: the `HUNK_HEADER` magic 1011, a skipped
/// names word, the table bounds, the skipped size words, and one hunk
/// per announced slot.
pub open spec fn hk_parse(d: Seq<u8>) -> Result<Seq<HunkModel>, AdfError> {
    match hk_u32(d, 0) {
        Err(e) => Err(e),
        Ok((magic, p1)) => if magic != 1011 {
            Err(AdfError::BadMagic)
        } else {
            match hk_u32(d, p1) {
                Err(e) => Err(e),
                Ok((names, p2)) => match hk_u32(d, p2) {
                    Err(e) => Err(e),
                    Ok((table_size, p3)) => match hk_u32(d, p3) {
                        Err(e) => Err(e),
                        Ok((first, p4)) => match hk_u32(d, p4) {
                            Err(e) => Err(e),
                            Ok((last, p5)) => if last < first {
                                Err(AdfError::BadTable)
                            } else {
                                let count = last - first + 1;
                                match hk_words(d, p5, count as int) {
                                    Err(e) => Err(e),
                                    Ok((sizes, p6)) => match hk_hunks(d, p6, count as nat) {
                                        Err(e) => Err(e),
                                        Ok((hunks, p7)) => Ok(hunks),
                                    },
                                }
                            },
                        },
                    },
                },
            }
        },
    }
}

/// Symbols ordered by offset.
pub open spec fn symbols_sorted(v: Seq<Symbol>) -> bool {
    forall|i: int, j: int| 0 <= i < j < v.len() ==> v[i].offset <= v[j].offset
}

/// The multiset of (name, offset) pairs a symbol list carries.
pub open spec fn symbol_pairs(v: Seq<Symbol>) -> vstd::multiset::Multiset<(Seq<char>, u32)> {
    v.map_values(|s: Symbol| (s.name@, s.offset)).to_multiset()
}

/// The multiset of (name, offset) pairs a symbol model carries, names
/// in printable form.
pub open spec fn model_symbol_pairs(ss: Seq<(Seq<u8>, u32)>) -> vstd::multiset::Multiset<
    (Seq<char>, u32),
> {
    ss.map_values(|p: (Seq<u8>, u32)| (printable_chars(p.0), p.1)).to_multiset()
}

/// What a parsed hunk must hold of its model: kind, memory class,
/// size, payload bytes, relocation groups and debug files exactly;
/// symbols sorted by offset and equal as a multiset of pairs.
#[verifier::opaque]
pub open spec fn matches_hunk(h: Hunk, m: HunkModel) -> bool {
    &&& h.hunk_type == m.kind
    &&& h.mem_type == m.mem
    &&& h.alloc_size == 0
    &&& h.data_size == m.data_size
    &&& (match (h.code_data, m.code) {
        (Option::None, Option::None) => true,
        (Some(v), Some(s)) => v@ == s,
        _ => false,
    })
    &&& (match (h.reloc_32, m.relocs) {
        (Option::None, Option::None) => true,
        (Some(rv), Some(rs)) => rv@.len() == rs.len() && (forall|i: int|
            0 <= i < rs.len() ==> (#[trigger] rv@[i]).target == rs[i].0 && rv@[i].offsets@
                == rs[i].1),
        _ => false,
    })
    &&& (match (h.symbols, m.syms) {
        (Option::None, Option::None) => true,
        (Some(sv), Some(ss)) => symbols_sorted(sv@) && symbol_pairs(sv@) == model_symbol_pairs(ss),
        _ => false,
    })
    &&& (match h.line_debug_info {
        Option::None => m.dbg.len() == 0,
        Some(fv) => m.dbg.len() > 0 && fv@.len() == m.dbg.len() && (forall|i: int|
            0 <= i < m.dbg.len() ==> (#[trigger] fv@[i]).name@ == printable_chars(m.dbg[i].0)
                && fv@[i].base_offset == m.dbg[i].1 && fv@[i].lines@.len() == m.dbg[i].2.len() && (
            forall|j: int|
                0 <= j < m.dbg[i].2.len() ==> (#[trigger] fv@[i].lines@[j]).line == m.dbg[i].2[j].0
                    && fv@[i].lines@[j].offset == m.dbg[i].2[j].1)),
    })
}

/// The stateless parser of Amiga hunk files.
pub struct HunkParser;


/// `trim_nul` is the prefix up to the first NUL.
proof fn lemma_trim_nul(b: Seq<u8>, k: int)
    requires
        0 <= k <= b.len(),
        forall|i: int| 0 <= i < k ==> b[i] != 0,
        k < b.len() ==> b[k] == 0,
    ensures
        trim_nul(b) == b.subrange(0, k),
    decreases b.len(),
{
    if b.len() == 0 || b[0] == 0 {
        assert(k == 0);
        assert(b.subrange(0, 0) =~= Seq::<u8>::empty());
    } else {
        assert(k >= 1);
        assert forall|i: int| 0 <= i < k - 1 implies b.drop_first()[i] != 0 by {
            assert(b.drop_first()[i] == b[i + 1]);
        }
        if k - 1 < b.drop_first().len() {
            assert(b.drop_first()[k - 1] == b[k]);
        }
        lemma_trim_nul(b.drop_first(), k - 1);
        assert(seq![b[0]] + b.drop_first().subrange(0, k - 1) =~= b.subrange(0, k));
    }
}

/// Reads one big-endian 32-bit word, advancing the cursor.
fn hx_u32(data: &[u8], pos: &mut usize) -> (r: Result<u32, AdfError>)
    ensures
        match r {
            Ok(w) => hk_u32(data@, *old(pos) as int) == Ok::<(u32, int), AdfError>(
                (w, *final(pos) as int),
            ) && *final(pos) == *old(pos) + 4,
            Err(e) => hk_u32(data@, *old(pos) as int) == Err::<(u32, int), AdfError>(e) && *final(pos) == *old(pos),
        },
{
    let n = data.len();
    if *pos > n || n - *pos < 4 {
        return Err(AdfError::UnexpectedEof);
    }
    let w = read_be32(data, *pos);
    *pos = *pos + 4;
    Ok(w)
}


/// Reads `count` consecutive 32-bit words, advancing the cursor.
fn hx_words(data: &[u8], pos: &mut usize, count: u64) -> (r: Result<Vec<u32>, AdfError>)
    ensures
        match r {
            Ok(v) => hk_words(data@, *old(pos) as int, count as int) matches Ok(tup) && v@ == tup.0
                && *final(pos) == tup.1 && v@.len() == count && *final(pos) == *old(pos) + 4
                * count,
            Err(e) => hk_words(data@, *old(pos) as int, count as int) == Err::<
                (Seq<u32>, int),
                AdfError,
            >(e),
        },
{
    let ghost wstart = *pos as int;
    let mut out: Vec<u32> = Vec::new();
    let mut k: u64 = 0;
    while k < count
        invariant
            k <= count,
            out@.len() == k,
            wstart == *old(pos) as int,
            *pos as int == wstart + 4 * k,
            hk_words(data@, wstart, count as int) == (match hk_words(
                data@,
                *pos as int,
                count as int - k as int,
            ) {
                Ok(tup) => Ok::<(Seq<u32>, int), AdfError>((out@ + tup.0, tup.1)),
                Err(e) => Err(e),
            }),
        decreases count - k,
    {
        match hx_u32(data, pos) {
            Ok(w) => {
                let ghost pre = out@;
                out.push(w);
                proof {
                    assert(pre.push(w) =~= pre + seq![w]);
                    match hk_words(data@, *pos as int, count as int - k as int - 1) {
                        Ok(tup) => {
                            assert(pre + (seq![w] + tup.0) =~= (pre + seq![w]) + tup.0);
                        },
                        Err(e) => {},
                    }
                }
            },
            Err(e) => {
                return Err(e);
            },
        }
        k += 1;
    }
    proof {
        assert(out@ + Seq::<u32>::empty() =~= out@);
    }
    Ok(out)
}

impl HunkParser {
    /// The byte length and memory class a size word encodes.
    pub fn get_size_type(t: u32) -> (r: (usize, MemoryType))
        ensures
            (r.0 as int, r.1) == spec_size_type(t),
    {
        let size = (t & 0x0fff_ffff) as u64 * 4;
        let mem = if t & 0xf000_0000 == 0x4000_0000 {
            MemoryType::Chip
        } else if t & 0xf000_0000 == 0x8000_0000 {
            MemoryType::Fast
        } else {
            MemoryType::Any
        };
        proof {
            assert((t & 0x0fff_ffff) <= 0x0fff_ffff) by (bit_vector);
        }
        (size as usize, mem)
    }

    /// Reads one 32-bit word from the stream.
    pub fn read_u32(data: &[u8], pos: &mut usize) -> (r: Result<u32, AdfError>)
        ensures
            match r {
                Ok(w) => hk_u32(data@, *old(pos) as int) == Ok::<(u32, int), AdfError>(
                    (w, *final(pos) as int),
                ),
                Err(e) => hk_u32(data@, *old(pos) as int) == Err::<(u32, int), AdfError>(e)
                    && *final(pos) == *old(pos),
            },
    {
        hx_u32(data, pos)
    }

    /// Reads a length-in-longs name, cut at its first NUL, in
    /// printable form.
    pub fn read_name(data: &[u8], pos: &mut usize, num_longs: u32) -> (r: Result<String, AdfError>)
        ensures
            match r {
                Ok(name) => hk_name(data@, *old(pos) as int, num_longs) matches Ok(tup)
                    && name@ == printable_chars(tup.0) && *final(pos) == tup.1,
                Err(e) => hk_name(data@, *old(pos) as int, num_longs) == Err::<
                    (Seq<u8>, int),
                    AdfError,
                >(e) && *final(pos) == *old(pos),
            },
    {
        let n = data.len();
        let byte_len64 = num_longs as u64 * 4;
        if *pos > n {
            return Err(AdfError::UnexpectedEof);
        }
        let avail: u64 = (n - *pos) as u64;
        if avail < byte_len64 {
            return Err(AdfError::UnexpectedEof);
        }
        let byte_len = byte_len64 as usize;
        let raw = slice_subrange(data, *pos, *pos + byte_len);
        let mut k: usize = 0;
        while k < byte_len && raw[k] != 0
            invariant
                k <= byte_len,
                byte_len == raw@.len(),
                forall|i: int| 0 <= i < k ==> raw@[i] != 0,
            decreases byte_len - k,
        {
            k += 1;
        }
        proof {
            lemma_trim_nul(raw@, k as int);
            assert(raw@ =~= data@.subrange(*old(pos) as int, *old(pos) as int + 4 * num_longs));
        }
        let name_bytes = slice_subrange(raw, 0, k);
        proof {
            assert(name_bytes@ =~= raw@.subrange(0, k as int));
        }
        let name = printable_string(name_bytes);
        *pos = *pos + byte_len;
        Ok(name)
    }

    /// Checks the `HUNK_HEADER` magic 1011 and skips the names word.
    pub fn validate_hunk_header(data: &[u8], pos: &mut usize) -> (r: Result<(), AdfError>)
        requires
            *old(pos) == 0,
        ensures
            match r {
                Ok(u) => ({
                    &&& hk_u32(data@, 0) matches Ok(m) && m.0 == 1011
                    &&& hk_u32(data@, 4) matches Ok(nm) && *final(pos) == nm.1
                }),
                Err(e) => *final(pos) == *old(pos) && (match hk_u32(data@, 0) {
                    Err(e0) => e == e0,
                    Ok(m) => (m.0 != 1011 && e == AdfError::BadMagic) || (m.0 == 1011 && hk_u32(
                        data@,
                        4,
                    ) == Err::<(u32, int), AdfError>(e)),
                }),
            },
    {
        let mut p: usize = *pos;
        let magic = match hx_u32(data, &mut p) {
            Ok(w) => w,
            Err(e) => {
                return Err(e);
            },
        };
        if magic != 1011 {
            return Err(AdfError::BadMagic);
        }
        match hx_u32(data, &mut p) {
            Ok(w) => {
            },
            Err(e) => {
                return Err(e);
            },
        }
        *pos = p;
        Ok(())
    }

    /// Reads the hunk table: its size word, the first and last hunk
    /// indices, and one size word per hunk; fails with `BadTable` when
    /// the indices are reversed.
    pub fn read_hunk_table(data: &[u8], pos: &mut usize) -> (r: Result<(usize, Vec<u32>), AdfError>)
        ensures
            match r {
                Ok(tup) => ({
                    &&& hk_u32(data@, *old(pos) as int) matches Ok(ts)
                    &&& hk_u32(data@, ts.1) matches Ok(fst)
                    &&& hk_u32(data@, fst.1) matches Ok(lst)
                    &&& lst.0 >= fst.0
                    &&& tup.0 == lst.0 - fst.0 + 1
                    &&& hk_words(data@, lst.1, tup.0 as int) matches Ok(ws) && tup.1@ == ws.0
                        && *final(pos) == ws.1
                }),
                Err(e) => ({
                    ||| hk_u32(data@, *old(pos) as int) matches Err(e0) && e == e0
                    ||| (hk_u32(data@, *old(pos) as int) matches Ok(ts) && ({
                        ||| hk_u32(data@, ts.1) matches Err(e1) && e == e1
                        ||| (hk_u32(data@, ts.1) matches Ok(fst) && ({
                            ||| hk_u32(data@, fst.1) matches Err(e2) && e == e2
                            ||| (hk_u32(data@, fst.1) matches Ok(lst) && ({
                                ||| (lst.0 < fst.0 && e == AdfError::BadTable)
                                ||| (lst.0 >= fst.0 && (hk_words(
                                    data@,
                                    lst.1,
                                    lst.0 - fst.0 + 1,
                                ) matches Err(e3) && e == e3))
                            }))
                        }))
                    }))
                }),
            },
    {
        let mut p: usize = *pos;
        let table_size = match hx_u32(data, &mut p) {
            Ok(w) => w,
            Err(e) => {
                return Err(e);
            },
        };
        let first = match hx_u32(data, &mut p) {
            Ok(w) => w,
            Err(e) => {
                return Err(e);
            },
        };
        let last = match hx_u32(data, &mut p) {
            Ok(w) => w,
            Err(e) => {
                return Err(e);
            },
        };
        if last < first {
            return Err(AdfError::BadTable);
        }
        let count64: u64 = (last - first) as u64 + 1;
        let ghost old_p_val = p as int;
        let sizes = match hx_words(data, &mut p, count64) {
            Ok(v) => v,
            Err(e) => {
                return Err(e);
            },
        };
        proof {
            assert(sizes@.len() == count64);
            assert(p as int == old_p_val + 4 * count64);
            assert(4 * count64 <= usize::MAX);
        }
        let count: usize = count64 as usize;
        *pos = p;
        Ok((count, sizes))
    }
}


/// Inserting a symbol adds exactly its pair to the multiset.
proof fn lemma_pairs_insert(pre: Seq<Symbol>, j: int, s: Symbol)
    requires
        0 <= j <= pre.len(),
    ensures
        symbol_pairs(pre.insert(j, s)) =~= symbol_pairs(pre).insert((s.name@, s.offset)),
{
    broadcast use vstd::seq_lib::group_to_multiset_ensures;

    let f = |sym: Symbol| (sym.name@, sym.offset);
    let x = (s.name@, s.offset);
    let a = pre.map_values(f);
    let b = pre.insert(j, s).map_values(f);
    assert(b =~= a.insert(j, x));
    assert(a.insert(j, x).remove(j) =~= a);
    assert(a.insert(j, x)[j] == x);
    assert(a.to_multiset() =~= a.insert(j, x).to_multiset().remove(x));
    assert(a.insert(j, x).to_multiset().contains(x)) by {
        assert(a.insert(j, x).contains(x));
    }
    assert(a.insert(j, x).to_multiset() =~= a.to_multiset().insert(x));
}

/// Popping the last symbol removes exactly its pair from the multiset.
proof fn lemma_pairs_pop(pre: Seq<Symbol>)
    requires
        pre.len() > 0,
    ensures
        symbol_pairs(pre) =~= symbol_pairs(pre.drop_last()).insert(
            (pre.last().name@, pre.last().offset),
        ),
{
    broadcast use vstd::seq_lib::group_to_multiset_ensures;

    let f = |sym: Symbol| (sym.name@, sym.offset);
    let a = pre.drop_last().map_values(f);
    assert(pre.map_values(f) =~= a.push((pre.last().name@, pre.last().offset)));
}

/// Sorts symbols by offset; the multiset of (name, offset) pairs is
/// kept.
fn sort_symbols(v: Vec<Symbol>) -> (r: Vec<Symbol>)
    ensures
        symbols_sorted(r@),
        symbol_pairs(r@) == symbol_pairs(v@),
{
    let mut rest = v;
    let mut out: Vec<Symbol> = Vec::new();
    proof {
        broadcast use vstd::seq_lib::group_to_multiset_ensures;

        assert(out@.map_values(|sym: Symbol| (sym.name@, sym.offset)) =~= Seq::<
            (Seq<char>, u32),
        >::empty());
        assert(symbol_pairs(out@) =~= vstd::multiset::Multiset::empty());
        assert(symbol_pairs(out@).add(symbol_pairs(rest@)) =~= symbol_pairs(rest@));
    }
    while rest.len() > 0
        invariant
            symbols_sorted(out@),
            symbol_pairs(out@).add(symbol_pairs(rest@)) =~= symbol_pairs(v@),
        decreases rest@.len(),
    {
        let ghost rest_pre = rest@;
        let s = match rest.pop() {
            Some(s) => s,
            Option::None => {
                proof {
                    assert(false);
                }
                continue ;
            },
        };
        proof {
            lemma_pairs_pop(rest_pre);
        }
        let mut j: usize = out.len();
        while j > 0 && out[j - 1].offset > s.offset
            invariant
                j <= out@.len(),
                forall|t: int| j <= t < out@.len() ==> (#[trigger] out@[t]).offset > s.offset,
            decreases j,
        {
            j -= 1;
        }
        let ghost out_pre = out@;
        out.insert(j, s);
        proof {
            lemma_pairs_insert(out_pre, j as int, s);
            assert(symbols_sorted(out@)) by {
                assert forall|a: int, b: int| 0 <= a < b < out@.len() implies out@[a].offset
                    <= out@[b].offset by {
                    if a < j && b > j {
                        assert(out@[a] == out_pre[a]);
                        assert(out@[b] == out_pre[b - 1]);
                    } else if a == j {
                        assert(out@[b] == out_pre[b - 1]);
                    } else if b == j {
                        assert(out@[a] == out_pre[a]);
                        assert(j > 0 && out_pre[j - 1].offset <= s.offset);
                    } else if b < j {
                        assert(out@[a] == out_pre[a] && out@[b] == out_pre[b]);
                    } else {
                        assert(out@[a] == out_pre[a - 1] && out@[b] == out_pre[b - 1]);
                    }
                }
            }
        }
    }
    proof {
        broadcast use vstd::seq_lib::group_to_multiset_ensures;

        assert(rest@.map_values(|sym: Symbol| (sym.name@, sym.offset)) =~= Seq::<
            (Seq<char>, u32),
        >::empty());
        assert(symbol_pairs(rest@) =~= vstd::multiset::Multiset::empty());
        assert(symbol_pairs(out@) =~= symbol_pairs(v@));
    }
    out
}


impl HunkParser {
    /// Reads a `CODE` or `DATA` block into the hunk: the size word,
    /// then that many payload bytes.
    pub fn parse_code_or_data(kind: HunkType, hunk: &mut Hunk, data: &[u8], pos: &mut usize) -> (r:
        Result<(), AdfError>)
        requires
            kind == HunkType::Code || kind == HunkType::Data,
        ensures
            match r {
                Ok(u) => ({
                    &&& hk_u32(data@, *old(pos) as int) matches Ok(sw)
                    &&& ({
                        let (size, mem) = spec_size_type(sw.0);
                        &&& sw.1 + size <= data@.len()
                        &&& *final(pos) == sw.1 + size
                        &&& *final(hunk) == Hunk {
                            hunk_type: kind,
                            mem_type: mem,
                            data_size: size as usize,
                            code_data: Some(final(hunk).code_data->0),
                            ..*old(hunk)
                        }
                        &&& final(hunk).code_data matches Some(cv) && cv@ == data@.subrange(
                            sw.1,
                            sw.1 + size,
                        )
                    })
                }),
                Err(e) => *final(pos) == *old(pos) && *final(hunk) == *old(hunk) && (match hk_u32(
                    data@,
                    *old(pos) as int,
                ) {
                    Err(e0) => e == e0,
                    Ok(sw) => sw.1 + spec_size_type(sw.0).0 > data@.len() && e
                        == AdfError::UnexpectedEof,
                }),
            },
    {
        let mut p = *pos;
        let szw = match hx_u32(data, &mut p) {
            Ok(w) => w,
            Err(e) => {
                return Err(e);
            },
        };
        let (size, mem) = Self::get_size_type(szw);
        let n = data.len();
        if n - p < size {
            return Err(AdfError::UnexpectedEof);
        }
        let code = slice_to_vec(slice_subrange(data, p, p + size));
        hunk.hunk_type = kind;
        hunk.mem_type = mem;
        hunk.data_size = size;
        hunk.code_data = Some(code);
        *pos = p + size;
        Ok(())
    }

    /// Reads a `BSS` block into the hunk: a size word only.
    pub fn parse_bss(hunk: &mut Hunk, data: &[u8], pos: &mut usize) -> (r: Result<(), AdfError>)
        ensures
            match r {
                Ok(u) => ({
                    &&& hk_u32(data@, *old(pos) as int) matches Ok(sw)
                    &&& ({
                        let (size, mem) = spec_size_type(sw.0);
                        &&& *final(pos) == sw.1
                        &&& *final(hunk) == Hunk {
                            hunk_type: HunkType::Bss,
                            mem_type: mem,
                            data_size: size as usize,
                            ..*old(hunk)
                        }
                    })
                }),
                Err(e) => *final(pos) == *old(pos) && *final(hunk) == *old(hunk) && hk_u32(
                    data@,
                    *old(pos) as int,
                ) == Err::<(u32, int), AdfError>(e),
            },
    {
        let mut p = *pos;
        let szw = match hx_u32(data, &mut p) {
            Ok(w) => w,
            Err(e) => {
                return Err(e);
            },
        };
        let (size, mem) = Self::get_size_type(szw);
        hunk.hunk_type = HunkType::Bss;
        hunk.mem_type = mem;
        hunk.data_size = size;
        *pos = p;
        Ok(())
    }

    /// Reads the zero-terminated relocation groups of a `RELOC32`
    /// block into the hunk.
    pub fn parse_reloc32(hunk: &mut Hunk, data: &[u8], pos: &mut usize) -> (r: Result<(), AdfError>)
        ensures
            match r {
                Ok(u) => ({
                    &&& hk_relocs(data@, *old(pos) as int, data@.len() as nat) matches Ok(tup)
                    &&& *final(pos) == tup.1
                    &&& *final(hunk) == Hunk {
                        reloc_32: Some(final(hunk).reloc_32->0),
                        ..*old(hunk)
                    }
                    &&& final(hunk).reloc_32 matches Some(rv) && rv@.len() == tup.0.len() && (
                    forall|i: int|
                        0 <= i < tup.0.len() ==> (#[trigger] rv@[i]).target == tup.0[i].0
                            && rv@[i].offsets@ == tup.0[i].1)
                }),
                Err(e) => *final(pos) == *old(pos) && *final(hunk) == *old(hunk) && hk_relocs(
                    data@,
                    *old(pos) as int,
                    data@.len() as nat,
                ) == Err::<(Seq<(u32, Seq<u32>)>, int), AdfError>(e),
            },
    {
        let ghost d = data@;
        let ghost start = *pos as int;
        let mut p = *pos;
        let mut groups: Vec<RelocInfo32> = Vec::new();
        let mut fuel: usize = data.len();
        loop
            invariant
                fuel <= d.len(),
                d == data@,
                start == *old(pos) as int,
                *pos == *old(pos),
                *old(hunk) == *hunk,
                ({
                    let full = hk_relocs(d, start, d.len() as nat);
                    let rest = hk_relocs(d, p as int, fuel as nat);
                    match rest {
                        Ok(tup) => full matches Ok(ftup) && ftup.1 == tup.1 && ftup.0.len()
                            == groups@.len() + tup.0.len() && (forall|i: int|
                            0 <= i < groups@.len() ==> (#[trigger] groups@[i]).target
                                == ftup.0[i].0 && groups@[i].offsets@ == ftup.0[i].1) && (forall|
                            i: int,
                        |
                            0 <= i < tup.0.len() ==> ftup.0[groups@.len() + i] == tup.0[i]),
                        Err(e) => full == Err::<(Seq<(u32, Seq<u32>)>, int), AdfError>(e),
                    }
                }),
            decreases fuel,
        {
            let ghost p_it = p as int;
            let ghost fuel_it = fuel as nat;
            let count = match hx_u32(data, &mut p) {
                Ok(w) => w,
                Err(e) => {
                    return Err(e);
                },
            };
            if count == 0 {
                proof {
                    assert(hk_relocs(d, p_it, fuel_it) == Ok::<(Seq<(u32, Seq<u32>)>, int), AdfError>(
                        (Seq::empty(), p as int),
                    ));
                }
                hunk.reloc_32 = Some(groups);
                *pos = p;
                return Ok(());
            }
            if fuel == 0 {
                return Err(AdfError::UnexpectedEof);
            }
            let target = match hx_u32(data, &mut p) {
                Ok(w) => w,
                Err(e) => {
                    return Err(e);
                },
            };
            let offsets = match hx_words(data, &mut p, count as u64) {
                Ok(v) => v,
                Err(e) => {
                    return Err(e);
                },
            };
            let ghost og = offsets@;
            let ghost pre = groups@;
            groups.push(RelocInfo32 { target: target as usize, offsets });
            proof {
                let rest_next = hk_relocs(d, p as int, (fuel_it - 1) as nat);
                assert(hk_relocs(d, p_it, fuel_it) == (match rest_next {
                    Ok(tup) => Ok::<(Seq<(u32, Seq<u32>)>, int), AdfError>(
                        (seq![(target, og)] + tup.0, tup.1),
                    ),
                    Err(e) => Err(e),
                }));
                match rest_next {
                    Ok(tup) => {
                        assert((seq![(target, og)] + tup.0).len() == 1 + tup.0.len());
                        assert((seq![(target, og)] + tup.0)[0] == (target, og));
                        assert forall|i: int| 0 <= i < tup.0.len() implies (seq![(target, og)]
                            + tup.0)[1 + i] == tup.0[i] by {}
                    },
                    Err(e) => {},
                }
            }
            fuel -= 1;
        }
    }

    /// Reads the zero-terminated symbols of a `SYMBOL` block into the
    /// hunk, sorted by offset; an empty block leaves the hunk alone.
    pub fn parse_symbols(hunk: &mut Hunk, data: &[u8], pos: &mut usize) -> (r: Result<(), AdfError>)
        ensures
            match r {
                Ok(u) => ({
                    &&& hk_symbols(data@, *old(pos) as int, data@.len() as nat) matches Ok(tup)
                    &&& *final(pos) == tup.1
                    &&& (if tup.0.len() == 0 {
                        *final(hunk) == *old(hunk)
                    } else {
                        *final(hunk) == Hunk {
                            symbols: Some(final(hunk).symbols->0),
                            ..*old(hunk)
                        } && (final(hunk).symbols matches Some(sv) && symbols_sorted(sv@)
                            && symbol_pairs(sv@) == model_symbol_pairs(tup.0))
                    })
                }),
                Err(e) => *final(pos) == *old(pos) && *final(hunk) == *old(hunk) && hk_symbols(
                    data@,
                    *old(pos) as int,
                    data@.len() as nat,
                ) == Err::<(Seq<(Seq<u8>, u32)>, int), AdfError>(e),
            },
    {
        let ghost d = data@;
        let ghost start = *pos as int;
        let mut p = *pos;
        let mut syms: Vec<Symbol> = Vec::new();
        let mut fuel: usize = data.len();
        proof {
            broadcast use vstd::seq_lib::group_to_multiset_ensures;

            let full = hk_symbols(d, start, d.len() as nat);
            match full {
                Ok(ftup) => {
                    assert(syms@.map_values(|sy: Symbol| (sy.name@, sy.offset)) =~= Seq::<
                        (Seq<char>, u32),
                    >::empty());
                    assert(ftup.0.take(0).map_values(
                        |pr: (Seq<u8>, u32)| (printable_chars(pr.0), pr.1),
                    ) =~= Seq::<(Seq<char>, u32)>::empty());
                },
                Err(e) => {},
            }
        }
        loop
            invariant
                fuel <= d.len(),
                d == data@,
                start == *old(pos) as int,
                *pos == *old(pos),
                *old(hunk) == *hunk,
                ({
                    let full = hk_symbols(d, start, d.len() as nat);
                    let rest = hk_symbols(d, p as int, fuel as nat);
                    match rest {
                        Ok(tup) => full matches Ok(ftup) && ftup.1 == tup.1 && ftup.0.len()
                            == syms@.len() + tup.0.len() && symbol_pairs(syms@)
                            == model_symbol_pairs(ftup.0.take(syms@.len() as int)) && (forall|
                            i: int,
                        |
                            0 <= i < tup.0.len() ==> ftup.0[syms@.len() + i] == tup.0[i]),
                        Err(e) => full == Err::<(Seq<(Seq<u8>, u32)>, int), AdfError>(e),
                    }
                }),
            decreases fuel,
        {
            let ghost p_it = p as int;
            let ghost fuel_it = fuel as nat;
            let num_longs = match hx_u32(data, &mut p) {
                Ok(w) => w,
                Err(e) => {
                    return Err(e);
                },
            };
            if num_longs == 0 {
                proof {
                    assert(hk_symbols(d, p_it, fuel_it) == Ok::<
                        (Seq<(Seq<u8>, u32)>, int),
                        AdfError,
                    >((Seq::empty(), p as int)));
                    let full = hk_symbols(d, start, d.len() as nat);
                    match full {
                        Ok(ftup) => {
                            assert(ftup.0.take(syms@.len() as int) =~= ftup.0);
                        },
                        Err(e) => {},
                    }
                }
                if syms.len() > 0 {
                    let sorted = sort_symbols(syms);
                    hunk.symbols = Some(sorted);
                }
                *pos = p;
                return Ok(());
            }
            if fuel == 0 {
                return Err(AdfError::UnexpectedEof);
            }
            let name = match Self::read_name(data, &mut p, num_longs) {
                Ok(s) => s,
                Err(e) => {
                    return Err(e);
                },
            };
            let offset = match hx_u32(data, &mut p) {
                Ok(w) => w,
                Err(e) => {
                    return Err(e);
                },
            };
            let ghost pre = syms@;
            let ghost name_view = name@;
            syms.push(Symbol { name, offset });
            proof {
                broadcast use vstd::seq_lib::group_to_multiset_ensures;

                let rest_next = hk_symbols(d, p as int, (fuel_it - 1) as nat);
                let full = hk_symbols(d, start, d.len() as nat);
                let pc = hk_u32(d, p_it)->Ok_0.1;
                let nb = hk_name(d, pc, num_longs)->Ok_0.0;
                assert(name_view == printable_chars(nb));
                assert(hk_symbols(d, p_it, fuel_it) == (match rest_next {
                    Ok(t) => Ok::<(Seq<(Seq<u8>, u32)>, int), AdfError>(
                        (seq![(nb, offset)] + t.0, t.1),
                    ),
                    Err(e) => Err(e),
                }));
                match rest_next {
                    Ok(tup) => {
                        match full {
                            Ok(ftup) => {
                                let f = |pr: (Seq<u8>, u32)| (printable_chars(pr.0), pr.1);
                                let g = |sy: Symbol| (sy.name@, sy.offset);
                                assert((seq![(nb, offset)] + tup.0)[0] == (nb, offset));
                                assert(ftup.0[pre.len() as int] == (nb, offset));
                                assert(ftup.0[pre.len() as int].1 == offset);
                                assert(name_view == printable_chars(ftup.0[pre.len() as int].0));
                                assert(ftup.0.take(syms@.len() as int).map_values(f)
                                    =~= ftup.0.take(pre.len() as int).map_values(f).push(
                                    f(ftup.0[pre.len() as int]),
                                ));
                                assert(syms@.map_values(g) =~= pre.map_values(g).push(
                                    (name_view, offset),
                                ));
                                assert(symbol_pairs(syms@) =~= symbol_pairs(pre).insert(
                                    (name_view, offset),
                                ));
                                assert(model_symbol_pairs(ftup.0.take(syms@.len() as int))
                                    =~= model_symbol_pairs(ftup.0.take(pre.len() as int)).insert(
                                    (name_view, offset),
                                ));
                                assert(symbol_pairs(syms@) == model_symbol_pairs(
                                    ftup.0.take(syms@.len() as int),
                                ));
                                assert forall|i: int| 0 <= i < tup.0.len() implies ftup.0[syms@.len()
                                    + i] == tup.0[i] by {
                                    assert((seq![(nb, offset)] + tup.0)[1 + i] == tup.0[i]);
                                    assert(ftup.0[pre.len() + 1 + i] == (seq![(nb, offset)]
                                        + tup.0)[1 + i]);
                                }
                            },
                            Err(e) => {},
                        }
                    },
                    Err(e) => {},
                }
            }
            fuel -= 1;
        }
    }
}



/// Reads `count` line records, applying the mask and base offset.
fn hx_lines(data: &[u8], pos: &mut usize, base: u32, count: u32) -> (r: Result<
    Vec<SourceLine>,
    AdfError,
>)
    ensures
        match r {
            Ok(v) => hk_lines(data@, *old(pos) as int, base, count as int) matches Ok(tup)
                && *final(pos) == tup.1 && v@.len() == tup.0.len() && (forall|j: int|
                0 <= j < tup.0.len() ==> (#[trigger] v@[j]).line == tup.0[j].0 && v@[j].offset
                    == tup.0[j].1),
            Err(e) => hk_lines(data@, *old(pos) as int, base, count as int) == Err::<
                (Seq<(u32, u32)>, int),
                AdfError,
            >(e),
        },
{
    let ghost lstart = *pos as int;
    let mut lines: Vec<SourceLine> = Vec::new();
    let mut k: u32 = 0;
    while k < count
        invariant
            k <= count,
            lines@.len() == k,
            lstart == *old(pos) as int,
            ({
                let full = hk_lines(data@, lstart, base, count as int);
                let rest = hk_lines(data@, *pos as int, base, count as int - k as int);
                match rest {
                    Ok(tup) => full matches Ok(ftup) && ftup.1 == tup.1 && ftup.0.len()
                        == lines@.len() + tup.0.len() && (forall|j: int|
                        0 <= j < lines@.len() ==> (#[trigger] lines@[j]).line == ftup.0[j].0
                            && lines@[j].offset == ftup.0[j].1) && (forall|j: int|
                        0 <= j < tup.0.len() ==> ftup.0[lines@.len() + j] == tup.0[j]),
                    Err(e) => full == Err::<(Seq<(u32, u32)>, int), AdfError>(e),
                }
            }),
        decreases count - k,
    {
        let w = match hx_u32(data, pos) {
            Ok(w) => w,
            Err(e) => {
                return Err(e);
            },
        };
        let off = match hx_u32(data, pos) {
            Ok(w) => w,
            Err(e) => {
                return Err(e);
            },
        };
        let line_no = w & 0xff_ffff;
        let eff = base.wrapping_add(off);
        let ghost pre = lines@;
        lines.push(SourceLine { line: line_no, offset: eff });
        proof {
            let rest_next = hk_lines(data@, *pos as int, base, count as int - k as int - 1);
            match rest_next {
                Ok(tup) => {
                    assert((seq![(line_no, eff)] + tup.0)[0] == (line_no, eff));
                    assert forall|j: int| 0 <= j < tup.0.len() implies (seq![(line_no, eff)]
                        + tup.0)[1 + j] == tup.0[j] by {}
                },
                Err(e) => {},
            }
        }
        k += 1;
    }
    Ok(lines)
}

impl HunkParser {
    /// Reads the line records of a LINE debug block and builds the
    /// source file.
    pub fn fill_debug_info(base_offset: u32, num_longs: u32, data: &[u8], pos: &mut usize) -> (r:
        Result<SourceFile, AdfError>)
        ensures
            ({
                let m = hk_u32(data@, *old(pos) as int);
                match r {
                    Ok(sf) => ({
                        &&& m matches Ok(nl)
                        &&& nl.0 + 1 <= num_longs
                        &&& hk_name(data@, nl.1, nl.0) matches Ok(nm)
                        &&& hk_lines(data@, nm.1, base_offset, ((num_longs - nl.0 - 1) / 2) as int)
                            matches Ok(ls)
                        &&& *final(pos) == ls.1
                        &&& sf.name@ == printable_chars(nm.0)
                        &&& sf.base_offset == base_offset
                        &&& sf.lines@.len() == ls.0.len()
                        &&& (forall|j: int|
                            0 <= j < ls.0.len() ==> (#[trigger] sf.lines@[j]).line == ls.0[j].0
                                && sf.lines@[j].offset == ls.0[j].1)
                    }),
                    Err(e) => ({
                        ||| m matches Err(e0) && e == e0
                        ||| (m matches Ok(nl) && ({
                            ||| (nl.0 + 1 > num_longs && e == AdfError::BadTable)
                            ||| (nl.0 + 1 <= num_longs && (hk_name(data@, nl.1, nl.0) matches Err(
                                e1,
                            ) && e == e1))
                            ||| (nl.0 + 1 <= num_longs && (hk_name(data@, nl.1, nl.0) matches Ok(
                                nm,
                            ) && hk_lines(
                                data@,
                                nm.1,
                                base_offset,
                                ((num_longs - nl.0 - 1) / 2) as int,
                            ) matches Err(e2) && e == e2))
                        }))
                    }),
                }
            }),
    {
        let mut p = *pos;
        let num_name_longs = match hx_u32(data, &mut p) {
            Ok(w) => w,
            Err(e) => {
                return Err(e);
            },
        };
        if num_name_longs >= num_longs {
            return Err(AdfError::BadTable);
        }
        let name = match Self::read_name(data, &mut p, num_name_longs) {
            Ok(s) => s,
            Err(e) => {
                return Err(e);
            },
        };
        let num_lines: u32 = (num_longs - num_name_longs - 1) / 2;
        let lines = match hx_lines(data, &mut p, base_offset, num_lines) {
            Ok(v) => v,
            Err(e) => {
                return Err(e);
            },
        };
        *pos = p;
        Ok(SourceFile { name, base_offset, lines })
    }

    /// Reads a `DEBUG` block: a LINE block is collected into the hunk,
    /// any other tag is skipped by its length.
    pub fn parse_debug(hunk: &mut Hunk, data: &[u8], pos: &mut usize) -> (r: Result<(), AdfError>)
        ensures
            match r {
                Ok(u) => ({
                    &&& hk_debug(data@, *old(pos) as int) matches Ok(tup)
                    &&& *final(pos) == tup.1
                    &&& (match tup.0 {
                        Option::None => *final(hunk) == *old(hunk),
                        Some(f) => ({
                            &&& *final(hunk) == Hunk {
                                line_debug_info: Some(final(hunk).line_debug_info->0),
                                ..*old(hunk)
                            }
                            &&& final(hunk).line_debug_info matches Some(fv)
                            &&& ({
                                let prev = match old(hunk).line_debug_info {
                                    Some(pv) => pv@,
                                    Option::None => Seq::empty(),
                                };
                                &&& fv@.len() == prev.len() + 1
                                &&& (forall|i: int| 0 <= i < prev.len() ==> #[trigger] fv@[i] == prev[i])
                                &&& fv@.last().name@ == printable_chars(f.0)
                                &&& fv@.last().base_offset == f.1
                                &&& fv@.last().lines@.len() == f.2.len()
                                &&& (forall|j: int|
                                    0 <= j < f.2.len() ==> (#[trigger] fv@.last().lines@[j]).line
                                        == f.2[j].0 && fv@.last().lines@[j].offset == f.2[j].1)
                            })
                        }),
                    })
                }),
                Err(e) => *final(pos) == *old(pos) && *final(hunk) == *old(hunk) && hk_debug(
                    data@,
                    *old(pos) as int,
                ) == Err::<(Option<(Seq<u8>, u32, Seq<(u32, u32)>)>, int), AdfError>(e),
            },
    {
        let mut p = *pos;
        let raw = match hx_u32(data, &mut p) {
            Ok(w) => w,
            Err(e) => {
                return Err(e);
            },
        };
        if raw < 2 {
            return Err(AdfError::BadTable);
        }
        let num_longs = raw - 2;
        let base_offset = match hx_u32(data, &mut p) {
            Ok(w) => w,
            Err(e) => {
                return Err(e);
            },
        };
        let debug_tag = match hx_u32(data, &mut p) {
            Ok(w) => w,
            Err(e) => {
                return Err(e);
            },
        };
        if debug_tag != 0x4c49_4e45 {
            let n = data.len();
            let skip64 = num_longs as u64 * 4;
            if ((n - p) as u64) < skip64 {
                return Err(AdfError::UnexpectedEof);
            }
            *pos = p + skip64 as usize;
            return Ok(());
        }
        let source_file = match Self::fill_debug_info(base_offset, num_longs, data, &mut p) {
            Ok(sf) => sf,
            Err(e) => {
                return Err(e);
            },
        };
        let mut files = match hunk.line_debug_info.take() {
            Some(v) => v,
            Option::None => Vec::new(),
        };
        let ghost prev = files@;
        files.push(source_file);
        hunk.line_debug_info = Some(files);
        *pos = p;
        Ok(())
    }

    /// Skips an unknown block by its announced length.
    pub fn skip_hunk(data: &[u8], pos: &mut usize) -> (r: Result<(), AdfError>)
        ensures
            match r {
                Ok(u) => ({
                    &&& hk_u32(data@, *old(pos) as int) matches Ok(sw)
                    &&& sw.1 + 4 * sw.0 <= data@.len()
                    &&& *final(pos) == sw.1 + 4 * sw.0
                }),
                Err(e) => *final(pos) == *old(pos) && (match hk_u32(data@, *old(pos) as int) {
                    Err(e0) => e == e0,
                    Ok(sw) => sw.1 + 4 * sw.0 > data@.len() && e == AdfError::UnexpectedEof,
                }),
            },
    {
        let mut p = *pos;
        let szw = match hx_u32(data, &mut p) {
            Ok(w) => w,
            Err(e) => {
                return Err(e);
            },
        };
        let n = data.len();
        let skip64 = szw as u64 * 4;
        if ((n - p) as u64) < skip64 {
            return Err(AdfError::UnexpectedEof);
        }
        *pos = p + skip64 as usize;
        Ok(())
    }
}



/// A successful hunk-sequence parse yields one model per requested
/// hunk.
proof fn lemma_hk_hunks_len(d: Seq<u8>, pos: int, k: nat)
    ensures
        hk_hunks(d, pos, k) matches Ok(tup) ==> tup.0.len() == k,
    decreases k,
{
    if k > 0 {
        match hk_blocks(d, pos, hk_empty(), d.len() as nat) {
            Ok(h) => {
                lemma_hk_hunks_len(d, h.1, (k - 1) as nat);
            },
            Err(e) => {},
        }
    }
}

impl HunkParser {
    /// Parses one hunk: its sub-blocks up to and including its `END`
    /// record.
    /// One dispatch step of the hunk block fold, for a `CODE`, `DATA`
    /// or `BSS` record.
    #[verifier::rlimit(100)]
    #[verifier::spinoff_prover]
    fn step_size_block(
        id: u32,
        hunk: &mut Hunk,
        data: &[u8],
        pos: &mut usize,
        Ghost(p_it): Ghost<int>,
        Ghost(acc): Ghost<HunkModel>,
        Ghost(fuel): Ghost<nat>,
    ) -> (r: Result<Ghost<HunkModel>, AdfError>)
        requires
            fuel > 0,
            id == 1001 || id == 1002 || id == 1003,
            hk_u32(data@, p_it) == Ok::<(u32, int), AdfError>((id, *old(pos) as int)),
            matches_hunk(*old(hunk), acc),
        ensures
            match r {
                Ok(acc2) => matches_hunk(*final(hunk), acc2@) && hk_blocks(data@, p_it, acc, fuel)
                    == hk_blocks(data@, *final(pos) as int, acc2@, (fuel - 1) as nat),
                Err(e) => hk_blocks(data@, p_it, acc, fuel) == Err::<(HunkModel, int), AdfError>(e),
            },
    {
        let ghost d = data@;
        if id == 1003 {
            match Self::parse_bss(hunk, data, pos) {
                Ok(u) => {
                    proof {
                        let szw = hk_u32(d, *old(pos) as int)->Ok_0;
                        let t = szw.0;
                        assert(t & 0x0fff_ffff <= 0x0fff_ffff) by (bit_vector);
                        let acc2 = HunkModel {
                            kind: HunkType::Bss,
                            mem: spec_size_type(szw.0).1,
                            data_size: spec_size_type(szw.0).0,
                            ..acc
                        };
                        assert(matches_hunk(*hunk, acc2) && hk_blocks(d, p_it, acc, fuel)
                            == hk_blocks(d, *pos as int, acc2, (fuel - 1) as nat)) by {
                            reveal(matches_hunk);
                            reveal(hk_blocks);
                        };
                    }
                    Ok(Ghost(
                        HunkModel {
                            kind: HunkType::Bss,
                            mem: spec_size_type(hk_u32(d, *old(pos) as int)->Ok_0.0).1,
                            data_size: spec_size_type(hk_u32(d, *old(pos) as int)->Ok_0.0).0,
                            ..acc
                        },
                    ))
                },
                Err(e) => {
                    proof {
                        assert(hk_blocks(d, p_it, acc, fuel) == Err::<(HunkModel, int), AdfError>(
                            e,
                        )) by {
                            reveal(hk_blocks);
                        };
                    }
                    Err(e)
                },
            }
        } else {
            let kind = if id == 1001 {
                HunkType::Code
            } else {
                HunkType::Data
            };
            match Self::parse_code_or_data(kind, hunk, data, pos) {
                Ok(u) => {
                    proof {
                        let szw = hk_u32(d, *old(pos) as int)->Ok_0;
                        let t = szw.0;
                        assert(t & 0x0fff_ffff <= 0x0fff_ffff) by (bit_vector);
                        let acc2 = HunkModel {
                            kind,
                            mem: spec_size_type(szw.0).1,
                            data_size: spec_size_type(szw.0).0,
                            code: Some(d.subrange(szw.1, szw.1 + spec_size_type(szw.0).0)),
                            ..acc
                        };
                        assert(matches_hunk(*hunk, acc2) && hk_blocks(d, p_it, acc, fuel)
                            == hk_blocks(d, *pos as int, acc2, (fuel - 1) as nat)) by {
                            reveal(matches_hunk);
                            reveal(hk_blocks);
                        };
                    }
                    Ok(Ghost(
                        HunkModel {
                            kind,
                            mem: spec_size_type(hk_u32(d, *old(pos) as int)->Ok_0.0).1,
                            data_size: spec_size_type(hk_u32(d, *old(pos) as int)->Ok_0.0).0,
                            code: Some(
                                d.subrange(
                                    hk_u32(d, *old(pos) as int)->Ok_0.1,
                                    hk_u32(d, *old(pos) as int)->Ok_0.1 + spec_size_type(
                                        hk_u32(d, *old(pos) as int)->Ok_0.0,
                                    ).0,
                                ),
                            ),
                            ..acc
                        },
                    ))
                },
                Err(e) => {
                    proof {
                        assert(hk_blocks(d, p_it, acc, fuel) == Err::<(HunkModel, int), AdfError>(
                            e,
                        )) by {
                            reveal(hk_blocks);
                        };
                    }
                    Err(e)
                },
            }
        }
    }

    /// One dispatch step of the hunk block fold, for a `RELOC32`,
    /// `SYMBOL`, `DEBUG` or unknown record.
    #[verifier::rlimit(100)]
    #[verifier::spinoff_prover]
    fn step_other_block(
        id: u32,
        hunk: &mut Hunk,
        data: &[u8],
        pos: &mut usize,
        Ghost(p_it): Ghost<int>,
        Ghost(acc): Ghost<HunkModel>,
        Ghost(fuel): Ghost<nat>,
    ) -> (r: Result<Ghost<HunkModel>, AdfError>)
        requires
            fuel > 0,
            id != 1001 && id != 1002 && id != 1003 && id != 1010,
            hk_u32(data@, p_it) == Ok::<(u32, int), AdfError>((id, *old(pos) as int)),
            matches_hunk(*old(hunk), acc),
        ensures
            match r {
                Ok(acc2) => matches_hunk(*final(hunk), acc2@) && hk_blocks(data@, p_it, acc, fuel)
                    == hk_blocks(data@, *final(pos) as int, acc2@, (fuel - 1) as nat),
                Err(e) => hk_blocks(data@, p_it, acc, fuel) == Err::<(HunkModel, int), AdfError>(e),
            },
    {
        let ghost d = data@;
        if id == 1004 {
            match Self::parse_reloc32(hunk, data, pos) {
                Ok(u) => {
                    proof {
                        let groups = hk_relocs(d, *old(pos) as int, d.len() as nat)->Ok_0.0;
                        let acc2 = HunkModel { relocs: Some(groups), ..acc };
                        assert(matches_hunk(*hunk, acc2) && hk_blocks(d, p_it, acc, fuel)
                            == hk_blocks(d, *pos as int, acc2, (fuel - 1) as nat)) by {
                            reveal(matches_hunk);
                            reveal(hk_blocks);
                        };
                    }
                    Ok(Ghost(
                        HunkModel {
                            relocs: Some(hk_relocs(d, *old(pos) as int, d.len() as nat)->Ok_0.0),
                            ..acc
                        },
                    ))
                },
                Err(e) => {
                    proof {
                        assert(hk_blocks(d, p_it, acc, fuel) == Err::<(HunkModel, int), AdfError>(
                            e,
                        )) by {
                            reveal(hk_blocks);
                        };
                    }
                    Err(e)
                },
            }
        } else if id == 1008 {
            match Self::parse_symbols(hunk, data, pos) {
                Ok(u) => {
                    proof {
                        let syms = hk_symbols(d, *old(pos) as int, d.len() as nat)->Ok_0.0;
                        let acc2 = HunkModel {
                            syms: if syms.len() > 0 {
                                Some(syms)
                            } else {
                                acc.syms
                            },
                            ..acc
                        };
                        assert(matches_hunk(*hunk, acc2) && hk_blocks(d, p_it, acc, fuel)
                            == hk_blocks(d, *pos as int, acc2, (fuel - 1) as nat)) by {
                            reveal(matches_hunk);
                            reveal(hk_blocks);
                        };
                    }
                    Ok(Ghost(
                        ({
                            let syms = hk_symbols(d, *old(pos) as int, d.len() as nat)->Ok_0.0;
                            HunkModel {
                                syms: if syms.len() > 0 {
                                    Some(syms)
                                } else {
                                    acc.syms
                                },
                                ..acc
                            }
                        }),
                    ))
                },
                Err(e) => {
                    proof {
                        assert(hk_blocks(d, p_it, acc, fuel) == Err::<(HunkModel, int), AdfError>(
                            e,
                        )) by {
                            reveal(hk_blocks);
                        };
                    }
                    Err(e)
                },
            }
        } else if id == 1009 {
            match Self::parse_debug(hunk, data, pos) {
                Ok(u) => {
                    proof {
                        let fileo = hk_debug(d, *old(pos) as int)->Ok_0.0;
                        let acc2 = HunkModel {
                            dbg: match fileo {
                                Some(f) => acc.dbg.push(f),
                                Option::None => acc.dbg,
                            },
                            ..acc
                        };
                        assert(hk_blocks(d, p_it, acc, fuel) == hk_blocks(
                            d,
                            *pos as int,
                            acc2,
                            (fuel - 1) as nat,
                        )) by {
                            reveal(hk_blocks);
                        };
                        assert(matches_hunk(*hunk, acc2)) by {
                            reveal(matches_hunk);
                            match fileo {
                                Some(f) => {
                                    let prev = match old(hunk).line_debug_info {
                                        Some(pv) => pv@,
                                        Option::None => Seq::<SourceFile>::empty(),
                                    };
                                    match hunk.line_debug_info {
                                        Some(fv) => {
                                            assert(acc2.dbg.len() == acc.dbg.len() + 1);
                                            assert(fv@.len() == prev.len() + 1);
                                            assert(acc2.dbg.last() == f);
                                            assert(fv@[prev.len() as int] == fv@.last());
                                            assert forall|i: int|
                                                0 <= i < acc2.dbg.len() implies ((#[trigger] fv@[i]).name@
                                                == printable_chars(acc2.dbg[i].0) && fv@[i].base_offset
                                                == acc2.dbg[i].1 && fv@[i].lines@.len()
                                                == acc2.dbg[i].2.len() && (forall|j: int|
                                                0 <= j < acc2.dbg[i].2.len() ==> (#[trigger] fv@[i].lines@[j]).line
                                                    == acc2.dbg[i].2[j].0 && fv@[i].lines@[j].offset
                                                    == acc2.dbg[i].2[j].1)) by {
                                                if i < prev.len() {
                                                    assert(fv@[i] == prev[i]);
                                                    assert(acc2.dbg[i] == acc.dbg[i]);
                                                } else {
                                                    assert(fv@[i] == fv@.last());
                                                    assert(acc2.dbg[i] == f);
                                                }
                                            }
                                        },
                                        Option::None => {
                                            assert(false);
                                        },
                                    }
                                },
                                Option::None => {},
                            }
                        };
                    }
                    Ok(Ghost(
                        ({
                            let fileo = hk_debug(d, *old(pos) as int)->Ok_0.0;
                            HunkModel {
                                dbg: match fileo {
                                    Some(f) => acc.dbg.push(f),
                                    Option::None => acc.dbg,
                                },
                                ..acc
                            }
                        }),
                    ))
                },
                Err(e) => {
                    proof {
                        assert(hk_blocks(d, p_it, acc, fuel) == Err::<(HunkModel, int), AdfError>(
                            e,
                        )) by {
                            reveal(hk_blocks);
                        };
                    }
                    Err(e)
                },
            }
        } else {
            match Self::skip_hunk(data, pos) {
                Ok(u) => {
                    proof {
                        assert(hk_blocks(d, p_it, acc, fuel) == hk_blocks(
                            d,
                            *pos as int,
                            acc,
                            (fuel - 1) as nat,
                        )) by {
                            reveal(hk_blocks);
                        };
                    }
                    Ok(Ghost(acc))
                },
                Err(e) => {
                    proof {
                        assert(hk_blocks(d, p_it, acc, fuel) == Err::<(HunkModel, int), AdfError>(
                            e,
                        )) by {
                            reveal(hk_blocks);
                        };
                    }
                    Err(e)
                },
            }
        }
    }

    /// Parses one hunk: its sub-blocks up to and including its `END`
    /// record.
    pub fn parse_hunk(data: &[u8], pos: &mut usize) -> (r: Result<Hunk, AdfError>)
        ensures
            match r {
                Ok(h) => hk_blocks(data@, *old(pos) as int, hk_empty(), data@.len() as nat)
                    matches Ok(tup) && matches_hunk(h, tup.0) && *final(pos) == tup.1,
                Err(e) => hk_blocks(data@, *old(pos) as int, hk_empty(), data@.len() as nat)
                    == Err::<(HunkModel, int), AdfError>(e),
            },
    {
        let ghost d = data@;
        let ghost start = *pos as int;
        let mut hunk = Hunk::default();
        let ghost mut acc = hk_empty();
        let mut p = *pos;
        let mut fuel: usize = data.len();
        proof {
            assert(matches_hunk(hunk, acc)) by {
                reveal(matches_hunk);
            };
        }
        loop
            invariant
                fuel <= d.len(),
                d == data@,
                start == *old(pos) as int,
                *pos == *old(pos),
                matches_hunk(hunk, acc),
                hk_blocks(d, start, hk_empty(), d.len() as nat) == hk_blocks(
                    d,
                    p as int,
                    acc,
                    fuel as nat,
                ),
            decreases fuel,
        {
            let ghost p_it = p as int;
            let ghost fuel_it = fuel as nat;
            let ghost acc_it = acc;
            let id = match hx_u32(data, &mut p) {
                Ok(w) => w,
                Err(e) => {
                    proof {
                        assert(hk_blocks(d, p_it, acc_it, fuel_it) == Err::<
                            (HunkModel, int),
                            AdfError,
                        >(e)) by {
                            reveal(hk_blocks);
                        };
                    }
                    return Err(e);
                },
            };
            if id == 1010 {
                proof {
                    assert(hk_blocks(d, p_it, acc_it, fuel_it) == Ok::<
                        (HunkModel, int),
                        AdfError,
                    >((acc_it, p as int))) by {
                        reveal(hk_blocks);
                    };
                }
                *pos = p;
                return Ok(hunk);
            }
            if fuel == 0 {
                proof {
                    assert(hk_blocks(d, p_it, acc_it, fuel_it) == Err::<
                        (HunkModel, int),
                        AdfError,
                    >(AdfError::UnexpectedEof)) by {
                        reveal(hk_blocks);
                    };
                }
                return Err(AdfError::UnexpectedEof);
            }
            let stepped = if id == 1001 || id == 1002 || id == 1003 {
                Self::step_size_block(
                    id,
                    &mut hunk,
                    data,
                    &mut p,
                    Ghost(p_it),
                    Ghost(acc_it),
                    Ghost(fuel_it),
                )
            } else {
                Self::step_other_block(
                    id,
                    &mut hunk,
                    data,
                    &mut p,
                    Ghost(p_it),
                    Ghost(acc_it),
                    Ghost(fuel_it),
                )
            };
            match stepped {
                Ok(acc2) => {
                    proof {
                        acc = acc2@;
                    }
                },
                Err(e) => {
                    return Err(e);
                },
            }
            fuel -= 1;
        }
    }

    /// Parses a whole hunk file: the header magic, the skipped names
    /// word, the hunk table, and one hunk per announced slot.
    #[verifier::rlimit(100)]
    #[verifier::spinoff_prover]
    pub fn parse_hunks(data: &[u8]) -> (r: Result<Vec<Hunk>, AdfError>)
        ensures
            match r {
                Ok(v) => hk_parse(data@) matches Ok(ms) && v@.len() == ms.len() && (forall|i: int|
                    0 <= i < ms.len() ==> matches_hunk(#[trigger] v@[i], ms[i])),
                Err(e) => hk_parse(data@) == Err::<Seq<HunkModel>, AdfError>(e),
            },
    {
        let ghost d = data@;
        let mut pos: usize = 0;
        match Self::validate_hunk_header(data, &mut pos) {
            Ok(u) => {
            },
            Err(e) => {
                return Err(e);
            },
        }
        let (count, sizes) = match Self::read_hunk_table(data, &mut pos) {
            Ok(t) => t,
            Err(e) => {
                return Err(e);
            },
        };
        let mut hunks: Vec<Hunk> = Vec::new();
        let ghost models = hk_hunks(d, pos as int, count as nat);
        proof {
            lemma_hk_hunks_len(d, pos as int, count as nat);
        }
        let mut k: usize = 0;
        while k < count
            invariant
                k <= count,
                d == data@,
                hunks@.len() == k,
                ({
                    match hk_hunks(d, pos as int, (count - k) as nat) {
                        Ok(tup) => models matches Ok(mtup) && mtup.0.len() == count && mtup.1
                            == tup.1 && (forall|i: int|
                            0 <= i < k ==> matches_hunk(#[trigger] hunks@[i], mtup.0[i])) && (
                        forall|i: int|
                            k <= i < count ==> #[trigger] mtup.0[i] == tup.0[i - k]),
                        Err(e) => models == Err::<(Seq<HunkModel>, int), AdfError>(e),
                    }
                }),
                hk_parse(d) == (match models {
                    Ok(mtup) => Ok::<Seq<HunkModel>, AdfError>(mtup.0),
                    Err(e) => Err(e),
                }),
            decreases count - k,
        {
            let ghost p_it = pos as int;
            match Self::parse_hunk(data, &mut pos) {
                Ok(h) => {
                    let ghost pre_hunks = hunks@;
                    hunks.push(h);
                    proof {
                        let step = hk_blocks(d, p_it, hk_empty(), d.len() as nat);
                        let rest_next = hk_hunks(d, pos as int, (count - k - 1) as nat);
                        assert(hk_hunks(d, p_it, (count - k) as nat) == (match rest_next {
                            Ok(tup) => Ok::<(Seq<HunkModel>, int), AdfError>(
                                (seq![step->Ok_0.0] + tup.0, tup.1),
                            ),
                            Err(e) => Err(e),
                        }));
                        lemma_hk_hunks_len(d, pos as int, (count - k - 1) as nat);
                        match rest_next {
                            Ok(tup) => {
                                assert((seq![step->Ok_0.0] + tup.0)[0] == step->Ok_0.0);
                                assert forall|i: int| 0 <= i < tup.0.len() implies (seq![
                                    step->Ok_0.0,
                                ] + tup.0)[1 + i] == tup.0[i] by {}
                                match models {
                                    Ok(mtup) => {
                                        assert(hunks@[k as int] == h);
                                        assert(mtup.0[k as int] == step->Ok_0.0);
                                        assert(matches_hunk(hunks@[k as int], mtup.0[k as int]));
                                        assert forall|i: int| 0 <= i < k + 1 implies matches_hunk(
                                            #[trigger] hunks@[i],
                                            mtup.0[i],
                                        ) by {
                                            if i < k {
                                                assert(hunks@[i] == pre_hunks[i]);
                                            }
                                        }
                                        assert forall|i: int| k + 1 <= i < count implies #[trigger]
                                        mtup.0[i] == tup.0[i - (k + 1)] by {
                                            assert(mtup.0[i] == (seq![step->Ok_0.0] + tup.0)[i
                                                - k]);
                                        }
                                    },
                                    Err(e) => {},
                                }
                            },
                            Err(e) => {},
                        }
                    }
                },
                Err(e) => {
                    return Err(e);
                },
            }
            k += 1;
        }
        proof {
            assert(hk_hunks(d, pos as int, 0) == Ok::<(Seq<HunkModel>, int), AdfError>(
                (Seq::empty(), pos as int),
            ));
        }
        Ok(hunks)
    }
}

} // verus!
