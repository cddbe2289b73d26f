use vstd::prelude::*;
use vstd::slice::slice_subrange;
use vstd::slice::slice_to_vec;
use vstd::string::StringSliceAdditionalSpecFns;
use crate::consts::ADF_IMAGE_SIZE;
use crate::consts::ADF_NUM_SECTORS;
use crate::consts::ROOT_BLOCK;
use crate::disk::ADF;
use crate::disk::block_sum_ok;
use crate::disk::chain_lookup;
use crate::disk::checksum_of;
use crate::disk::count_free_from;
use crate::disk::dir_lookup;
use crate::disk::entry_extension;
use crate::disk::entry_first_data;
use crate::disk::entry_is_dir;
use crate::disk::entry_name_bytes;
use crate::disk::entry_next_hash;
use crate::disk::entry_secondary_type;
use crate::disk::entry_size;
use crate::disk::ffs_block_ptr;
use crate::disk::ffs_bytes_from;
use crate::disk::file_contents;
use crate::disk::first_free_from;
use crate::disk::hash_name;
use crate::disk::lemma_be32_at_sector;
use crate::disk::lemma_checksum_closes;
use crate::disk::lemma_count_free_update;
use crate::disk::lemma_first_free_from_spec;
use crate::disk::lemma_first_free_iff_count;
use crate::disk::name_hash;
use crate::disk::names_equal;
use crate::disk::ofs_chain_bytes;
use crate::disk::ofs_data_block_shape;
use crate::disk::sector_of;
use crate::disk::slot_entry;
use crate::disk::spec_checksum;
use crate::disk::spec_ffs;
use crate::disk::spec_intl;
use crate::endian::be32_at;
use crate::endian::be32_bytes;
use crate::endian::copy_into;
use crate::endian::lemma_be32_roundtrip;
use crate::endian::read_be32;
use crate::endian::write_be32;
use crate::err::AdfError;

verus! {

/// Distinct sectors occupy disjoint byte ranges: rewriting one leaves
/// every byte of the other alone.
pub proof fn lemma_sector_frame(d1: Seq<u8>, d2: Seq<u8>, written: int, other: int)
    requires
        d1.len() == ADF_IMAGE_SIZE,
        d2.len() == ADF_IMAGE_SIZE,
        0 <= written < 1760,
        0 <= other < 1760,
        other != written,
        forall|i: int|
            0 <= i < ADF_IMAGE_SIZE && !(written * 512 <= i < written * 512 + 512) ==> d2[i]
                == d1[i],
    ensures
        sector_of(d2, other) =~= sector_of(d1, other),
{
}

/// Bounds of the ceiling division `b == (len + cap - 1) / cap`.
proof fn lemma_ceil_div(len: int, cap: int, b: int)
    requires
        cap > 0,
        len >= 0,
        b == (len + cap - 1) / cap,
    ensures
        b >= 0,
        len <= b * cap,
        (b - 1) * cap < len,
        len == 0 ==> b == 0,
{
    let x = len + cap - 1;
    vstd::arithmetic::div_mod::lemma_fundamental_div_mod(x, cap);
    let q = x / cap;
    let r = x % cap;
    assert(0 <= r < cap) by (nonlinear_arith)
        requires
            cap > 0,
            x >= 0,
            r == x % cap,
    ;
    assert(b >= 0) by (nonlinear_arith)
        requires
            x == cap * b + r,
            0 <= r < cap,
            x >= 0,
            cap > 0,
    ;
    assert(len <= b * cap && (b - 1) * cap < len) by (nonlinear_arith)
        requires
            x == cap * b + r,
            0 <= r < cap,
            x == len + cap - 1,
            cap > 0,
    ;
    if len == 0 {
        assert(b == 0) by (nonlinear_arith)
            requires
                x == cap * b + r,
                0 <= r < cap,
                x == cap - 1,
                cap > 0,
        ;
    }
}

/// Zeroes the four-byte checksum field at `off` of a 512-byte block
/// and rewrites it so the block's words sum to zero; no other byte
/// changes.
pub(crate) fn close_checksum(block: &mut Vec<u8>, off: usize)
    requires
        old(block)@.len() == 512,
        off % 4 == 0,
        off + 4 <= 512,
    ensures
        final(block)@.len() == 512,
        block_sum_ok(final(block)@),
        forall|i: int|
            0 <= i < 512 && !(off <= i < off + 4) ==> #[trigger] final(block)@[i] == old(
                block,
            )@[i],
{
    write_be32(block, off, 0);
    let ghost b1 = block@;
    proof {
        lemma_be32_roundtrip(0);
        assert(be32_at(b1, off as int) == 0);
    }
    let c = checksum_of(block.as_slice());
    write_be32(block, off, c);
    proof {
        lemma_be32_roundtrip(c);
        assert(be32_at(block@, off as int) == c);
        assert(4 * (off as int / 4) == off as int) by {
            vstd::arithmetic::div_mod::lemma_fundamental_div_mod(off as int, 4);
        }
        lemma_checksum_closes(b1, block@, off as int / 4);
    }
}

/// Builds one OFS data block for the file whose header sits at `h`:
/// type `T_DATA`, the owner, the one-based sequence number, payload
/// size and bytes, the next-block pointer, and the closing checksum.
fn build_ofs_data_block(h: u32, seq: u32, payload: &[u8], next: u32) -> (r: Vec<u8>)
    requires
        0 < payload@.len() <= 488,
    ensures
        r@.len() == 512,
        ofs_data_block_shape(r@, h, seq as int, payload@, next),
        block_sum_ok(r@),
{
    let mut block: Vec<u8> = vec![0u8; 512];
    write_be32(&mut block, 0, 8);
    write_be32(&mut block, 4, h);
    write_be32(&mut block, 8, seq);
    write_be32(&mut block, 12, payload.len() as u32);
    write_be32(&mut block, 16, next);
    copy_into(&mut block, 24, payload, payload.len());
    close_checksum(&mut block, 20);
    proof {
        lemma_be32_roundtrip(8);
        lemma_be32_roundtrip(h);
        lemma_be32_roundtrip(seq);
        lemma_be32_roundtrip(payload@.len() as u32);
        lemma_be32_roundtrip(next);
        assert(block@.subrange(0, 4) =~= be32_bytes(8));
        assert(block@.subrange(4, 8) =~= be32_bytes(h));
        assert(block@.subrange(8, 12) =~= be32_bytes(seq));
        assert(block@.subrange(12, 16) =~= be32_bytes(payload@.len() as u32));
        assert(block@.subrange(16, 20) =~= be32_bytes(next));
        assert(block@.subrange(24, 24 + payload@.len() as int) =~= payload@);
    }
    block
}

/// Builds one FFS data block: the raw payload followed by zero
/// padding.
fn build_ffs_data_block(payload: &[u8]) -> (r: Vec<u8>)
    requires
        0 < payload@.len() <= 512,
    ensures
        r@.len() == 512,
        r@.subrange(0, payload@.len() as int) =~= payload@,
{
    let mut block: Vec<u8> = vec![0u8; 512];
    copy_into(&mut block, 0, payload, payload.len());
    block
}

/// Builds a fresh file header block: type `T_HEADER`, self pointer,
/// the data-block pointer table in reverse order, protection zero, the
/// byte size, the current time, the name, the bucket successor, parent
/// 880, no extension, secondary type `ST_FILE`, and the closing
/// checksum.
fn build_file_header(h: u32, blocks: &Vec<u32>, size: u32, name: &[u8], next_hash: u32) -> (r: Vec<
    u8,
>)
    requires
        blocks@.len() <= 72,
        0 < name@.len() <= 30,
    ensures
        r@.len() == 512,
        block_sum_ok(r@),
        be32_at(r@, 0) == 2,
        be32_at(r@, 4) == h,
        be32_at(r@, 8) == blocks@.len(),
        entry_first_data(r@) == (if blocks@.len() > 0 {
            blocks@[0]
        } else {
            0u32
        }),
        entry_size(r@) == size,
        crate::disk::entry_protection(r@) == 0,
        forall|i: int| 0 <= i < blocks@.len() ==> #[trigger] ffs_block_ptr(r@, i) == blocks@[i],
        entry_name_bytes(r@) == name@,
        entry_next_hash(r@) == next_hash,
        be32_at(r@, 500) == 880,
        entry_extension(r@) == 0,
        entry_secondary_type(r@) == 0xFFFF_FFFDu32,
{
    let nblocks = blocks.len();
    let mut block: Vec<u8> = vec![0u8; 512];
    write_be32(&mut block, 0, 2);
    write_be32(&mut block, 4, h);
    write_be32(&mut block, 8, nblocks as u32);
    let first: u32 = if nblocks > 0 {
        blocks[0]
    } else {
        0
    };
    write_be32(&mut block, 12, first);
    proof {
        assert forall|slot: int| 0 <= slot < 72 implies #[trigger] slot_entry(block@, slot)
            == 0 by {
            let z = block@.subrange(24 + 4 * slot, 24 + 4 * slot + 4);
            assert(z[0] == 0 && z[1] == 0 && z[2] == 0 && z[3] == 0);
        }
    }
    let ghost pre_loop = block@;
    let mut k: usize = 0;
    while k < nblocks
        invariant
            k <= nblocks,
            nblocks == blocks@.len(),
            nblocks <= 72,
            block@.len() == 512,
            forall|slot: int|
                72 - k <= slot < 72 ==> #[trigger] slot_entry(block@, slot) == blocks@[71 - slot],
            forall|slot: int| 0 <= slot < 72 - k ==> #[trigger] slot_entry(block@, slot) == 0,
            forall|i: int|
                0 <= i < 512 && !(24 <= i < 312) ==> #[trigger] block@[i] == pre_loop[i],
        decreases nblocks - k,
    {
        let ghost bpre = block@;
        write_be32(&mut block, 24 + 4 * (71 - k), blocks[k]);
        proof {
            lemma_be32_roundtrip(blocks@[k as int]);
            assert(slot_entry(block@, 71 - k as int) == blocks@[k as int]);
            assert forall|slot: int| 0 <= slot < 72 && slot != 71 - k as int implies #[trigger]
            slot_entry(block@, slot) == slot_entry(bpre, slot) by {
                assert(block@.subrange(24 + 4 * slot, 24 + 4 * slot + 4) =~= bpre.subrange(
                    24 + 4 * slot,
                    24 + 4 * slot + 4,
                ));
            }
        }
        k += 1;
    }
    let ghost tbl = block@;
    write_be32(&mut block, 324, size);
    let now = crate::disk::now_unix_seconds();
    let amiga: u64 = if now >= crate::consts::AMIGA_EPOCH_SECONDS {
        now - crate::consts::AMIGA_EPOCH_SECONDS
    } else {
        0
    };
    let days: u32 = #[verifier::truncate] ((amiga / crate::consts::SECONDS_PER_DAY) as u32);
    let mins: u32 = ((amiga % crate::consts::SECONDS_PER_DAY) / crate::consts::SECONDS_PER_MINUTE)
        as u32;
    let ticks: u32 = ((amiga % crate::consts::SECONDS_PER_MINUTE)
        * crate::consts::TICKS_PER_SECOND) as u32;
    write_be32(&mut block, 420, days);
    write_be32(&mut block, 424, mins);
    write_be32(&mut block, 428, ticks);
    let n = name.len();
    block[432] = n as u8;
    copy_into(&mut block, 433, name, n);
    write_be32(&mut block, 496, next_hash);
    write_be32(&mut block, 500, 880);
    write_be32(&mut block, 508, 0xFFFF_FFFD);
    close_checksum(&mut block, 16);
    proof {
        lemma_be32_roundtrip(2);
        lemma_be32_roundtrip(h);
        lemma_be32_roundtrip(nblocks as u32);
        lemma_be32_roundtrip(first);
        lemma_be32_roundtrip(size);
        lemma_be32_roundtrip(next_hash);
        lemma_be32_roundtrip(880);
        lemma_be32_roundtrip(0xFFFF_FFFD);
        assert(block@.subrange(0, 4) =~= be32_bytes(2));
        assert(block@.subrange(4, 8) =~= be32_bytes(h));
        assert(block@.subrange(8, 12) =~= be32_bytes(nblocks as u32));
        assert(block@.subrange(12, 16) =~= be32_bytes(first));
        assert(be32_at(block@, 320) == 0) by {
            let z = block@.subrange(320, 324);
            assert(z[0] == 0 && z[1] == 0 && z[2] == 0 && z[3] == 0);
        }
        assert(block@.subrange(324, 328) =~= be32_bytes(size));
        assert(block@.subrange(496, 500) =~= be32_bytes(next_hash));
        assert(block@.subrange(500, 504) =~= be32_bytes(880));
        assert(be32_at(block@, 504) == 0) by {
            let z = block@.subrange(504, 508);
            assert(z[0] == 0 && z[1] == 0 && z[2] == 0 && z[3] == 0);
        }
        assert(block@.subrange(508, 512) =~= be32_bytes(0xFFFF_FFFD));
        assert(block@[432] == n as u8);
        assert(entry_name_bytes(block@) =~= name@);
        assert forall|slot: int| 0 <= slot < 72 implies #[trigger] slot_entry(block@, slot)
            == slot_entry(tbl, slot) by {
            assert(block@.subrange(24 + 4 * slot, 24 + 4 * slot + 4) =~= tbl.subrange(
                24 + 4 * slot,
                24 + 4 * slot + 4,
            ));
        }
        assert forall|i: int| 0 <= i < blocks@.len() implies #[trigger] ffs_block_ptr(block@, i)
            == blocks@[i] by {
            assert(slot_entry(tbl, 71 - i) == blocks@[i]);
        }
    }
    block
}


/// After a file's OFS data blocks are in place, the chain from block
/// `k` on delivers exactly the remaining contents.
proof fn lemma_ofs_chain_built(
    d: Seq<u8>,
    h: u32,
    blocks: Seq<u32>,
    contents: Seq<u8>,
    k: int,
    fuel: nat,
)
    requires
        0 <= k < blocks.len(),
        contents.len() <= blocks.len() * 488,
        (blocks.len() - 1) * 488 < contents.len(),
        fuel >= blocks.len() - k,
        forall|j: int| 0 <= j < blocks.len() ==> 0 < #[trigger] blocks[j] < 1760,
        forall|j: int|
            0 <= j < blocks.len() ==> ofs_data_block_shape(
                sector_of(d, #[trigger] blocks[j] as int),
                h,
                j + 1,
                contents.subrange(
                    488 * j,
                    if contents.len() < 488 * j + 488 {
                        contents.len() as int
                    } else {
                        488 * j + 488
                    },
                ),
                if j + 1 < blocks.len() {
                    blocks[j + 1]
                } else {
                    0u32
                },
            ),
    ensures
        ofs_chain_bytes(d, h, blocks[k], k + 1, contents.len() - 488 * k, fuel) == Some(
            contents.subrange(488 * k, contents.len() as int),
        ),
    decreases blocks.len() - k,
{
    let len = contents.len() as int;
    let bl = blocks.len() as int;
    assert(488 * k <= 488 * (bl - 1)) by (nonlinear_arith)
        requires
            k <= bl - 1,
    ;
    assert(488 * k < len);
    let sec = blocks[k];
    let b = sector_of(d, sec as int);
    let end: int = if len < 488 * k + 488 {
        len
    } else {
        488 * k + 488
    };
    let payload = contents.subrange(488 * k, end);
    let next: u32 = if k + 1 < bl {
        blocks[k + 1]
    } else {
        0u32
    };
    assert(ofs_data_block_shape(b, h, k + 1, payload, next));
    let take = end - 488 * k;
    assert(be32_at(b, 12) == take);
    assert(b.subrange(24, 24 + take) == payload);
    if k + 1 < bl {
        assert(len >= 488 * (k + 1)) by (nonlinear_arith)
            requires
                k + 1 <= bl - 1,
                488 * (bl - 1) < len,
        ;
        assert(take == 488);
        lemma_ofs_chain_built(d, h, blocks, contents, k + 1, (fuel - 1) as nat);
        assert(ofs_chain_bytes(d, h, next, k + 2, len - 488 * (k + 1), (fuel - 1) as nat) == Some(
            contents.subrange(488 * (k + 1), len),
        ));
        assert(payload + contents.subrange(488 * (k + 1), len) =~= contents.subrange(488 * k, len));
    } else {
        assert(take == len - 488 * k);
        assert(ofs_chain_bytes(d, h, 0u32, k + 2, 0, (fuel - 1) as nat) == Some(
            Seq::<u8>::empty(),
        ));
        assert(payload + Seq::<u8>::empty() =~= contents.subrange(488 * k, len));
    }
}

/// After a file's FFS data blocks and header table are in place, the
/// table from index `k` on delivers exactly the remaining contents.
proof fn lemma_ffs_built(d: Seq<u8>, h: u32, blocks: Seq<u32>, contents: Seq<u8>, k: int)
    requires
        0 <= k < blocks.len(),
        blocks.len() <= 72,
        contents.len() <= blocks.len() * 512,
        (blocks.len() - 1) * 512 < contents.len(),
        forall|j: int| 0 <= j < blocks.len() ==> 0 < #[trigger] blocks[j] < 1760,
        forall|j: int|
            0 <= j < blocks.len() ==> #[trigger] ffs_block_ptr(sector_of(d, h as int), j)
                == blocks[j],
        forall|j: int|
            0 <= j < blocks.len() ==> sector_of(d, #[trigger] blocks[j] as int).subrange(
                0,
                if contents.len() < 512 * j + 512 {
                    contents.len() - 512 * j
                } else {
                    512
                },
            ) == contents.subrange(
                512 * j,
                if contents.len() < 512 * j + 512 {
                    contents.len() as int
                } else {
                    512 * j + 512
                },
            ),
    ensures
        ffs_bytes_from(d, h, k, contents.len() - 512 * k) == Some(
            contents.subrange(512 * k, contents.len() as int),
        ),
    decreases blocks.len() - k,
{
    let len = contents.len() as int;
    let bl = blocks.len() as int;
    assert(512 * k <= 512 * (bl - 1)) by (nonlinear_arith)
        requires
            k <= bl - 1,
    ;
    assert(512 * k < len);
    let p = ffs_block_ptr(sector_of(d, h as int), k);
    assert(p == blocks[k]);
    let remaining = len - 512 * k;
    let take: int = if remaining < 512 {
        remaining
    } else {
        512
    };
    let end: int = if len < 512 * k + 512 {
        len
    } else {
        512 * k + 512
    };
    assert(take == end - 512 * k);
    let chunk = contents.subrange(512 * k, end);
    assert(sector_of(d, p as int).subrange(0, take) == chunk);
    if k + 1 < bl {
        assert(len >= 512 * (k + 1)) by (nonlinear_arith)
            requires
                k + 1 <= bl - 1,
                512 * (bl - 1) < len,
        ;
        assert(take == 512);
        lemma_ffs_built(d, h, blocks, contents, k + 1);
        assert(chunk + contents.subrange(512 * (k + 1), len) =~= contents.subrange(512 * k, len));
    } else {
        assert(take == remaining);
        assert(ffs_bytes_from(d, h, k + 1, 0) == Some(Seq::<u8>::empty()));
        assert(chunk + Seq::<u8>::empty() =~= contents.subrange(512 * k, len));
    }
}

/// The failure a file write reports, in the order the checks run: a
/// name that is empty or over 30 bytes or contents beyond a 32-bit
/// size; a file needing more than the 72 table slots; a corrupt bucket
/// chain; a sibling already carrying the name; too few free sectors
/// for the data blocks and the header.
pub open spec fn write_file_check(d: Seq<u8>, bm: Seq<bool>, name: Seq<u8>, len: int) -> Option<
    AdfError,
> {
    let cap: int = if spec_ffs(d) {
        512
    } else {
        488
    };
    let bcount = (len + cap - 1) / cap;
    if name.len() == 0 || name.len() > 30 || len > 0xFFFF_FFFF {
        Some(AdfError::BadLength)
    } else if bcount > 72 {
        Some(AdfError::Unsupported)
    } else {
        match dir_lookup(d, 880, name, spec_intl(d)) {
            None => Some(AdfError::CorruptChain),
            Some(Some(existing)) => Some(AdfError::NameExists),
            Some(None) => if count_free_from(bm, 2) < bcount + 1 {
                Some(AdfError::OutOfSpace)
            } else {
                None
            },
        }
    }
}


impl ADF {
    /// Writes `contents` as a new file named `file_name` in the root
    /// directory: data blocks are allocated and written first, then
    /// the file header, which is hooked into the front of its hash
    /// bucket. On success the header sector is returned, the file
    /// resolves through the directory hash, and reading it back
    /// through the volume's variant yields exactly `contents`; no
    /// sector already in use changes, and of the root block only the
    /// bucket word and the checksum do. On failure nothing changes and
    /// the error follows `write_file_check`.
    pub fn write_file(&mut self, file_name: &str, contents: &[u8]) -> (r: Result<u32, AdfError>)
        requires
            old(self).wf(),
            !old(self).bitmap@[880],
        ensures
            final(self).wf(),
            ({
                let checked = write_file_check(
                    old(self).data@,
                    old(self).bitmap@,
                    file_name.spec_bytes(),
                    contents@.len() as int,
                );
                let cap: int = if spec_ffs(old(self).data@) {
                    512
                } else {
                    488
                };
                let bucket = name_hash(file_name.spec_bytes(), spec_intl(old(self).data@)) as int;
                match r {
                    Ok(h) => {
                        &&& checked is None
                        &&& 0 < h < 1760 && h != 880
                        &&& file_contents(final(self).data@, h, spec_ffs(old(self).data@)) == Some(
                            contents@,
                        )
                        &&& dir_lookup(
                            final(self).data@,
                            880,
                            file_name.spec_bytes(),
                            spec_intl(old(self).data@),
                        ) == Some(Some(h))
                        &&& spec_ffs(final(self).data@) == spec_ffs(old(self).data@)
                        &&& spec_intl(final(self).data@) == spec_intl(old(self).data@)
                        &&& block_sum_ok(sector_of(final(self).data@, h as int))
                        &&& block_sum_ok(sector_of(final(self).data@, 880))
                        &&& entry_size(sector_of(final(self).data@, h as int)) == contents@.len()
                        &&& !entry_is_dir(sector_of(final(self).data@, h as int))
                        &&& entry_name_bytes(sector_of(final(self).data@, h as int))
                            == file_name.spec_bytes()
                        &&& slot_entry(sector_of(final(self).data@, 880), bucket) == h
                        &&& (forall|i: int|
                            0 <= i < 512 && !(16 <= i < 20) && !(24 + 4 * bucket <= i < 24 + 4
                                * bucket + 4) ==> #[trigger] sector_of(final(self).data@, 880)[i]
                                == sector_of(old(self).data@, 880)[i])
                        &&& (forall|s: int|
                            0 <= s < 1760 && !old(self).bitmap@[s] && s != 880
                                ==> #[trigger] sector_of(final(self).data@, s) == sector_of(
                                old(self).data@,
                                s,
                            ))
                        &&& (forall|s: int|
                            0 <= s < 1760 ==> (#[trigger] final(self).bitmap@[s] ==> old(
                                self,
                            ).bitmap@[s]))
                        &&& count_free_from(final(self).bitmap@, 2) == count_free_from(
                            old(self).bitmap@,
                            2,
                        ) - ((contents@.len() + cap - 1) / cap + 1)
                    },
                    Err(e) => checked == Some(e) && *final(self) == *old(self),
                }
            }),
    {
        let nb = file_name.as_bytes();
        let len = contents.len();
        if nb.len() == 0 || nb.len() > 30 || len as u64 > 0xFFFF_FFFFu64 {
            return Err(AdfError::BadLength);
        }
        let flag = self.data[3];
        let ffs = flag & 1 == 1;
        let intl = flag & 2 == 2;
        let cap: usize = if ffs {
            512
        } else {
            488
        };
        let nblocks64: u64 = (len as u64 + cap as u64 - 1) / (cap as u64);
        if nblocks64 > 72 {
            return Err(AdfError::Unsupported);
        }
        let nblocks: usize = nblocks64 as usize;
        proof {
            lemma_ceil_div(len as int, cap as int, nblocks as int);
        }
        match self.find_file_header_block(ROOT_BLOCK, file_name) {
            Ok(_) => {
                return Err(AdfError::NameExists);
            },
            Err(e) => {
                if e == AdfError::CorruptChain {
                    return Err(AdfError::CorruptChain);
                }
            },
        }
        let free = self.count_free_blocks();
        if free < nblocks + 1 {
            return Err(AdfError::OutOfSpace);
        }
        let ghost d0 = self.data@;
        let ghost bm0 = self.bitmap@;
        let ghost count0 = count_free_from(bm0, 2);
        // Allocate the data blocks, then the header block.
        let mut blocks: Vec<u32> = Vec::new();
        let mut k: usize = 0;
        while k < nblocks
            invariant
                self.wf(),
                k <= nblocks,
                blocks@.len() == k,
                self.data@ == d0,
                self.bitmap@.len() == ADF_NUM_SECTORS,
                nblocks + 1 <= count0,
                count0 == count_free_from(bm0, 2),
                count_free_from(self.bitmap@, 2) == count0 - k,
                forall|j: int|
                    0 <= j < k ==> (2 <= #[trigger] blocks@[j] < 1760 && blocks@[j] != 880
                        && !self.bitmap@[blocks@[j] as int] && bm0[blocks@[j] as int]),
                forall|s: int|
                    0 <= s < ADF_NUM_SECTORS ==> (#[trigger] self.bitmap@[s] ==> bm0[s]),
                !self.bitmap@[880],
                forall|a: int, b: int| 0 <= a < b < k ==> blocks@[a] != blocks@[b],
            decreases nblocks - k,
        {
            let ghost bm_pre = self.bitmap@;
            proof {
                lemma_first_free_iff_count(bm_pre, 2);
            }
            match self.allocate_block() {
                Ok(i) => {
                    proof {
                        lemma_first_free_from_spec(bm_pre, 2);
                        assert(bm_pre[i as int]);
                        lemma_count_free_update(bm_pre, 2, i as int);
                    }
                    blocks.push(i as u32);
                },
                Err(_) => {
                    proof {
                        assert(false);
                    }
                    return Err(AdfError::OutOfSpace);
                },
            }
            k += 1;
        }
        let ghost bm_pre_h = self.bitmap@;
        proof {
            lemma_first_free_iff_count(bm_pre_h, 2);
        }
        let h: u32 = match self.allocate_block() {
            Ok(i) => {
                proof {
                    lemma_first_free_from_spec(bm_pre_h, 2);
                    assert(bm_pre_h[i as int]);
                    lemma_count_free_update(bm_pre_h, 2, i as int);
                }
                i as u32
            },
            Err(_) => {
                proof {
                    assert(false);
                }
                return Err(AdfError::OutOfSpace);
            },
        };
        let ghost bm_final = self.bitmap@;
        proof {
            assert(2 <= h < 1760 && h != 880);
            assert(forall|j: int| 0 <= j < nblocks ==> blocks@[j] != h);
            assert(bm0[h as int]);
            assert(count_free_from(bm_final, 2) == count0 - nblocks - 1);
        }
        // Write the data blocks.
        let mut k2: usize = 0;
        while k2 < nblocks
            invariant
                self.wf(),
                k2 <= nblocks,
                nblocks == blocks@.len(),
                nblocks <= 72,
                len == contents@.len(),
                len <= 0xFFFF_FFFF,
                cap == (if ffs { 512int } else { 488int }),
                len <= nblocks * cap,
                (nblocks - 1) * cap < len,
                self.bitmap@ == bm_final,
                self.data@.len() == ADF_IMAGE_SIZE,
                2 <= h < 1760 && h != 880,
                forall|j: int|
                    0 <= j < nblocks ==> (2 <= #[trigger] blocks@[j] < 1760 && blocks@[j] != 880
                        && blocks@[j] != h && bm0[blocks@[j] as int]),
                forall|a: int, b: int| 0 <= a < b < nblocks ==> blocks@[a] != blocks@[b],
                bm0.len() == ADF_NUM_SECTORS,
                bm0[h as int],
                sector_of(self.data@, 880) == sector_of(d0, 880),
                forall|s: int|
                    0 <= s < 1760 && !bm0[s] && s != 880 ==> #[trigger] sector_of(self.data@, s)
                        == sector_of(d0, s),
                self.data@[3] == d0[3],
                !ffs ==> forall|j: int|
                    0 <= j < k2 ==> ofs_data_block_shape(
                        sector_of(self.data@, #[trigger] blocks@[j] as int),
                        h,
                        j + 1,
                        contents@.subrange(
                            488 * j,
                            if contents@.len() < 488 * j + 488 {
                                contents@.len() as int
                            } else {
                                488 * j + 488
                            },
                        ),
                        if j + 1 < blocks@.len() {
                            blocks@[j + 1]
                        } else {
                            0u32
                        },
                    ),
                !ffs ==> forall|j: int|
                    0 <= j < k2 ==> block_sum_ok(
                        sector_of(self.data@, #[trigger] blocks@[j] as int),
                    ),
                ffs ==> forall|j: int|
                    0 <= j < k2 ==> sector_of(self.data@, #[trigger] blocks@[j] as int).subrange(
                        0,
                        if contents@.len() < 512 * j + 512 {
                            contents@.len() - 512 * j
                        } else {
                            512
                        },
                    ) == contents@.subrange(
                        512 * j,
                        if contents@.len() < 512 * j + 512 {
                            contents@.len() as int
                        } else {
                            512 * j + 512
                        },
                    ),
            decreases nblocks - k2,
        {
            proof {
                assert(cap * k2 <= cap * (nblocks - 1)) by (nonlinear_arith)
                    requires
                        k2 <= nblocks - 1,
                        cap >= 0,
                ;
            }
            let start = cap * k2;
            let end = if len - start < cap {
                len
            } else {
                start + cap
            };
            let chunk = slice_subrange(contents, start, end);
            let ghost d_pre = self.data@;
            let target = blocks[k2];
            if ffs {
                let blk = build_ffs_data_block(chunk);
                let res = self.write_sector(target as usize, blk.as_slice());
                proof {
                    assert(res is Ok);
                    assert(sector_of(self.data@, target as int) =~= blk@);
                    assert(sector_of(self.data@, target as int).subrange(0, end - start)
                        == chunk@);
                }
            } else {
                let blk = build_ofs_data_block(
                    h,
                    (k2 as u32) + 1,
                    chunk,
                    if k2 + 1 < nblocks {
                        blocks[k2 + 1]
                    } else {
                        0
                    },
                );
                let res = self.write_sector(target as usize, blk.as_slice());
                proof {
                    assert(res is Ok);
                    assert(sector_of(self.data@, target as int) =~= blk@);
                }
            }
            proof {
                assert forall|j: int| 0 <= j < k2 implies sector_of(
                    self.data@,
                    #[trigger] blocks@[j] as int,
                ) == sector_of(d_pre, blocks@[j] as int) by {
                    lemma_sector_frame(d_pre, self.data@, target as int, blocks@[j] as int);
                }
                lemma_sector_frame(d_pre, self.data@, target as int, 880);
                assert forall|s: int| 0 <= s < 1760 && !bm0[s] && s != 880 implies #[trigger]
                sector_of(self.data@, s) == sector_of(d0, s) by {
                    lemma_sector_frame(d_pre, self.data@, target as int, s);
                }
                assert(self.data@[3] == d_pre[3]);
            }
            k2 += 1;
        }
        let ghost d1 = self.data@;
        // Hook the header into the front of its hash bucket.
        let bucket = hash_name(nb, intl);
        let old_head = read_be32(self.read_sector(ROOT_BLOCK), 24 + 4 * (bucket as usize));
        proof {
            lemma_be32_at_sector(self.data@, 880, 24 + 4 * (bucket as int));
            assert(old_head == slot_entry(sector_of(d0, 880), bucket as int));
        }
        let mut dir_block = slice_to_vec(self.read_sector(ROOT_BLOCK));
        write_be32(&mut dir_block, 24 + 4 * (bucket as usize), h);
        close_checksum(&mut dir_block, 16);
        proof {
            lemma_be32_roundtrip(h);
            assert(dir_block@.subrange(
                24 + 4 * (bucket as int),
                24 + 4 * (bucket as int) + 4,
            ) =~= be32_bytes(h));
            assert(slot_entry(dir_block@, bucket as int) == h);
        }
        let res_dir = self.write_sector(ROOT_BLOCK, dir_block.as_slice());
        proof {
            assert(res_dir is Ok);
            assert(sector_of(self.data@, 880) =~= dir_block@);
            assert forall|j: int| 0 <= j < nblocks implies sector_of(
                self.data@,
                #[trigger] blocks@[j] as int,
            ) == sector_of(d1, blocks@[j] as int) by {
                lemma_sector_frame(d1, self.data@, 880, blocks@[j] as int);
            }
            assert forall|s: int| 0 <= s < 1760 && !bm0[s] && s != 880 implies #[trigger]
            sector_of(self.data@, s) == sector_of(d0, s) by {
                lemma_sector_frame(d1, self.data@, 880, s);
            }
            assert(self.data@[3] == d1[3]);
        }
        let ghost d2 = self.data@;
        // Write the file header last, with everything in place.
        let header = build_file_header(h, &blocks, len as u32, nb, old_head);
        let res_h = self.write_sector(h as usize, header.as_slice());
        proof {
            assert(res_h is Ok);
            assert(sector_of(self.data@, h as int) =~= header@);
            assert forall|j: int| 0 <= j < nblocks implies sector_of(
                self.data@,
                #[trigger] blocks@[j] as int,
            ) == sector_of(d2, blocks@[j] as int) by {
                lemma_sector_frame(d2, self.data@, h as int, blocks@[j] as int);
            }
            lemma_sector_frame(d2, self.data@, h as int, 880);
            assert forall|s: int| 0 <= s < 1760 && !bm0[s] && s != 880 implies #[trigger]
            sector_of(self.data@, s) == sector_of(d0, s) by {
                lemma_sector_frame(d2, self.data@, h as int, s);
            }
            assert(self.data@[3] == d2[3]);
        }
        let ghost d3 = self.data@;
        proof {
            let hb = sector_of(d3, h as int);
            assert(hb == header@);
            assert(entry_size(hb) == len as u32);
            // The contents model delivers exactly what was written.
            if nblocks == 0 {
                assert(len == 0);
                assert(contents@ =~= Seq::<u8>::empty());
                if ffs {
                    assert(file_contents(d3, h, true) == Some(Seq::<u8>::empty()));
                } else {
                    assert(entry_first_data(hb) == 0);
                    assert(file_contents(d3, h, false) == Some(Seq::<u8>::empty()));
                }
            } else {
                if ffs {
                    lemma_ffs_built(d3, h, blocks@, contents@, 0);
                    assert(contents@.subrange(0, contents@.len() as int) =~= contents@);
                    assert(file_contents(d3, h, true) == Some(contents@));
                } else {
                    lemma_ofs_chain_built(d3, h, blocks@, contents@, 0, 1760);
                    assert(contents@.subrange(0, contents@.len() as int) =~= contents@);
                    assert(entry_first_data(hb) == blocks@[0]);
                    assert(file_contents(d3, h, false) == Some(contents@));
                }
            }
            // The name resolves to the new header at the bucket head.
            assert(spec_intl(d3) == spec_intl(d0));
            assert(spec_ffs(d3) == spec_ffs(d0));
            assert(names_equal(entry_name_bytes(hb), nb@, intl));
            assert(chain_lookup(d3, h, nb@, intl, 1760) == Some(Some(h)));
            assert(sector_of(d3, 880) == dir_block@);
            assert(slot_entry(sector_of(d3, 880), name_hash(nb@, intl) as int) == h);
            assert(dir_lookup(d3, 880, nb@, intl) == Some(Some(h)));
            assert forall|i: int|
                0 <= i < 512 && !(16 <= i < 20) && !(24 + 4 * (bucket as int) <= i < 24 + 4 * (
                bucket as int) + 4) implies #[trigger] sector_of(d3, 880)[i] == sector_of(
                d0,
                880,
            )[i] by {}
            // The reported failure spec is clear of every case.
            assert(write_file_check(d0, bm0, nb@, len as int) is None);
        }
        Ok(h)
    }
}


/// Round trip: a file written with bytes `B` reads back as exactly
/// `B`. `write_file` establishes that the contents model of the new
/// header equals the written bytes, `read_file_contents` returns
/// exactly that model, and the model is a pure function of the image,
/// so the bytes a later read delivers are the bytes that were written.
pub proof fn lemma_file_round_trip(
    post: ADF,
    h: u32,
    ffs: bool,
    written: Seq<u8>,
    read_back: Seq<u8>,
)
    requires
        file_contents(post.data@, h, ffs) == Some(written),
        file_contents(post.data@, h, ffs) == Some(read_back),
    ensures
        read_back == written,
{
}

} // verus!
