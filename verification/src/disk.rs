use vstd::prelude::*;
use vstd::arithmetic::div_mod::lemma_add_mod_noop;
use vstd::arithmetic::div_mod::lemma_mod_multiples_vanish;
use vstd::arithmetic::div_mod::lemma_small_mod;
use vstd::slice::slice_subrange;
use crate::consts::ADF_IMAGE_SIZE;
use crate::consts::ADF_NUM_SECTORS;
use crate::consts::ADF_SECTOR_SIZE;
use crate::consts::BITMAP_BLOCK;
use crate::consts::BITMAP_BLOCK_SPARE;
use crate::consts::AMIGA_EPOCH_SECONDS;
use crate::consts::SECONDS_PER_DAY;
use crate::consts::SECONDS_PER_MINUTE;
use crate::consts::TICKS_PER_SECOND;
use crate::consts::MAX_NAME_LENGTH;
use vstd::string::StringSliceAdditionalSpecFns;
use crate::endian::be32_at;
use crate::endian::be32_bytes;
use crate::endian::lemma_be32_roundtrip;
use crate::endian::read_be32;
use crate::endian::write_be32;
use crate::err::AdfError;

verus! {

/// An in-memory Amiga disk image: the raw 901,120 bytes of a
/// double-density floppy, and a mirror of the free-space bitmap, one
/// boolean per sector, `true` meaning free.
#[derive(Debug, Clone)]
pub struct ADF {
    pub data: Vec<u8>,
    pub bitmap: Vec<bool>,
}

/// The two filesystem variants a volume can carry.
#[derive(Debug, Clone, Copy, PartialEq, Eq, Structural)]
pub enum DiskType {
    OFS,
    FFS,
}

/// One directory entry as reported by a listing: name, byte size,
/// whether it is a directory, the protection word, and the creation
/// instant as POSIX seconds.
#[derive(Debug, Clone)]
pub struct FileInfo {
    pub name: String,
    pub size: u32,
    pub is_dir: bool,
    pub protection: u32,
    pub creation_date: u64,
}

/// Summary of a volume: filesystem variant, disk name, raw creation-day
/// stamp, and geometry.
#[derive(Debug, Clone)]
pub struct DiskInfo {
    pub filesystem: String,
    pub disk_name: String,
    pub creation_date: u32,
    pub disk_size: u32,
    pub heads: u8,
    pub tracks: u8,
    pub sectors_per_track: u8,
    pub bytes_per_sector: u16,
    pub hash_table_size: u32,
    pub first_reserved_block: u32,
    pub last_reserved_block: u32,
}

/// A file pulled out of a volume, together with where it came from and
/// whether its bytes are plain printable ASCII.
#[derive(Debug, Clone)]
pub struct ExtractedFile {
    pub name: String,
    pub size: u32,
    pub header_block: u32,
    pub is_ascii: bool,
    pub contents: Vec<u8>,
}

/// The bytes of sector `s` of the image `d`.
pub open spec fn sector_of(d: Seq<u8>, s: int) -> Seq<u8> {
    d.subrange(s * 512, s * 512 + 512)
}

/// Sum, as an unbounded integer, of the first `k` big-endian 32-bit
/// words of `b`.
pub open spec fn word_sum_int(b: Seq<u8>, k: int) -> int
    decreases k,
{
    if k <= 0 {
        0
    } else {
        word_sum_int(b, k - 1) + be32_at(b, 4 * (k - 1))
    }
}

/// The checksum rule of every structural block: the big-endian 32-bit
/// words of the block sum to zero modulo 2^32.
pub open spec fn block_sum_ok(b: Seq<u8>) -> bool {
    word_sum_int(b, b.len() as int / 4) % 0x1_0000_0000 == 0
}

/// The value the checksum field must hold so that the whole block sums
/// to zero: the negation, modulo 2^32, of the sum of the other words.
pub open spec fn spec_checksum(b: Seq<u8>) -> u32 {
    ((0x1_0000_0000 - (word_sum_int(b, b.len() as int / 4) % 0x1_0000_0000)) % 0x1_0000_0000) as u32
}

/// Bit `k` of the 32-bit word `w`; bit 0 is the least significant.
pub open spec fn word_bit(w: u32, k: u32) -> bool
    recommends
        k < 32,
{
    (w >> k) & 1 == 1
}

/// The free-bit of sector `s` as a 512-byte bitmap block stores it:
/// after the 4-byte checksum, one bit per sector from sector 2 up,
/// least-significant bit of each big-endian long first.
pub open spec fn block_bitmap_bit(b: Seq<u8>, s: int) -> bool
    recommends
        2 <= s,
        b.len() == 512,
{
    word_bit(be32_at(b, 4 + 4 * ((s - 2) / 32)), ((s - 2) % 32) as u32)
}

/// The free-bit of sector `s` as the on-disk bitmap block at sector 881
/// stores it.
pub open spec fn disk_bitmap_bit(d: Seq<u8>, s: int) -> bool {
    block_bitmap_bit(sector_of(d, 881), s)
}

/// A word of zero has no bit set.
proof fn lemma_word_bit_zero(j: u32)
    requires
        j < 32,
    ensures
        !word_bit(0u32, j),
{
    assert((0u32 >> j) & 1 == 0) by (bit_vector);
}

/// Setting bit `k` of a word sets that bit and leaves every other bit
/// alone.
proof fn lemma_word_bit_or(w: u32, k: u32, j: u32)
    requires
        k < 32,
        j < 32,
    ensures
        word_bit(w | (1u32 << k), j) == (j == k || word_bit(w, j)),
{
    if j == k {
        assert(((w | (1u32 << k)) >> k) & 1 == 1) by (bit_vector)
            requires
                k < 32,
        ;
    } else {
        assert(((w | (1u32 << k)) >> j) & 1 == (w >> j) & 1) by (bit_vector)
            requires
                k < 32,
                j < 32,
                j != k,
        ;
    }
}

/// A 32-bit field read inside a sector equals the same field read at
/// the sector's offset in the whole image.
pub proof fn lemma_be32_at_sector(d: Seq<u8>, s: int, off: int)
    requires
        0 <= off,
        off + 4 <= 512,
        0 <= s,
        s * 512 + 512 <= d.len(),
    ensures
        be32_at(sector_of(d, s), off) == be32_at(d, s * 512 + off),
{
    assert(sector_of(d, s).subrange(off, off + 4) =~= d.subrange(s * 512 + off, s * 512 + off + 4));
}

/// The lowest index `i' >= i` with `bm[i']` free, if any.
pub open spec fn first_free_from(bm: Seq<bool>, i: int) -> Option<int>
    decreases bm.len() - i,
{
    if i < 0 || i >= bm.len() {
        None
    } else if bm[i] {
        Some(i)
    } else {
        first_free_from(bm, i + 1)
    }
}

/// Number of used (false) entries of the bitmap mirror.
pub open spec fn count_used(bm: Seq<bool>) -> int
    decreases bm.len(),
{
    if bm.len() == 0 {
        0
    } else {
        count_used(bm.drop_last()) + if bm.last() {
            0int
        } else {
            1int
        }
    }
}

/// All of `bm[i..i+n)` is free.
pub open spec fn run_free(bm: Seq<bool>, i: int, n: int) -> bool {
    forall|j: int| i <= j < i + n ==> bm[j]
}

/// What `first_free_from` returns: the lowest free index at or after
/// `i`, or nothing when everything from `i` on is used.
pub proof fn lemma_first_free_from_spec(bm: Seq<bool>, i: int)
    requires
        0 <= i,
    ensures
        match first_free_from(bm, i) {
            Some(r) => i <= r < bm.len() && bm[r] && forall|j: int| i <= j < r ==> !bm[j],
            None => forall|j: int| i <= j < bm.len() ==> !bm[j],
        },
    decreases bm.len() - i,
{
    if i < bm.len() && !bm[i] {
        lemma_first_free_from_spec(bm, i + 1);
    }
}

/// Freeing a sector and then allocating yields the lowest free sector
/// at or after 2, which is no higher than the sector just freed.
pub proof fn lemma_free_then_allocate(bm: Seq<bool>, s: int)
    requires
        2 <= s < bm.len(),
    ensures
        ({
            let bm2 = bm.update(s, true);
            let r = first_free_from(bm2, 2);
            &&& r is Some
            &&& 2 <= r->0 <= s
            &&& bm2[r->0]
            &&& forall|j: int| 2 <= j < r->0 ==> !bm2[j]
        }),
{
    let bm2 = bm.update(s, true);
    lemma_first_free_from_spec(bm2, 2);
    if first_free_from(bm2, 2) is None {
        assert(!bm2[s]);
    }
    let r = first_free_from(bm2, 2)->0;
    if r > s {
        assert(!bm2[s]);
    }
}

/// Replacing the word at index `k` leaves the sum of the other words
/// alone: the new total is the old total minus the old word plus the
/// new word.
proof fn lemma_word_sum_patch(b1: Seq<u8>, b2: Seq<u8>, k: int, n: int)
    requires
        b1.len() == b2.len(),
        0 <= k < n,
        4 * n <= b1.len(),
        forall|i: int| 0 <= i < b1.len() && !(4 * k <= i < 4 * k + 4) ==> b1[i] == b2[i],
    ensures
        word_sum_int(b2, n) == word_sum_int(b1, n) - be32_at(b1, 4 * k) + be32_at(b2, 4 * k),
    decreases n,
{
    if n == k + 1 {
        lemma_word_sum_eq_prefix(b1, b2, k);
    } else {
        lemma_word_sum_patch(b1, b2, k, n - 1);
        assert(b1.subrange(4 * (n - 1), 4 * (n - 1) + 4) =~= b2.subrange(
            4 * (n - 1),
            4 * (n - 1) + 4,
        ));
    }
}

/// Two blocks that agree on their first `4k` bytes have equal sums of
/// their first `k` words.
proof fn lemma_word_sum_eq_prefix(b1: Seq<u8>, b2: Seq<u8>, k: int)
    requires
        4 * k <= b1.len(),
        4 * k <= b2.len(),
        forall|i: int| 0 <= i < 4 * k ==> b1[i] == b2[i],
    ensures
        word_sum_int(b1, k) == word_sum_int(b2, k),
    decreases k,
{
    if k > 0 {
        lemma_word_sum_eq_prefix(b1, b2, k - 1);
        assert(b1.subrange(4 * (k - 1), 4 * (k - 1) + 4) =~= b2.subrange(
            4 * (k - 1),
            4 * (k - 1) + 4,
        ));
    }
}

/// Word sums of byte sequences are never negative.
proof fn lemma_word_sum_nonneg(b: Seq<u8>, k: int)
    ensures
        word_sum_int(b, k) >= 0,
    decreases k,
{
    if k > 0 {
        lemma_word_sum_nonneg(b, k - 1);
    }
}

/// A block whose checksum word was zero and is replaced by
/// `spec_checksum` of the block sums to zero: the closure property of
/// every structural block this library writes.
pub proof fn lemma_checksum_closes(b1: Seq<u8>, b2: Seq<u8>, k: int)
    requires
        b1.len() == b2.len(),
        b1.len() % 4 == 0,
        0 <= k,
        4 * k + 4 <= b1.len(),
        forall|i: int| 0 <= i < b1.len() && !(4 * k <= i < 4 * k + 4) ==> b1[i] == b2[i],
        be32_at(b1, 4 * k) == 0,
        be32_at(b2, 4 * k) == spec_checksum(b1),
    ensures
        block_sum_ok(b2),
{
    let m: int = 0x1_0000_0000;
    let n = b1.len() as int / 4;
    let s1 = word_sum_int(b1, n);
    let s2 = word_sum_int(b2, n);
    lemma_word_sum_patch(b1, b2, k, n);
    lemma_word_sum_nonneg(b1, n);
    let c = (m - s1 % m) % m;
    assert(s2 == s1 + c);
    if s1 % m == 0 {
        lemma_mod_multiples_vanish(1, 0, m);
        assert(c == 0);
        assert(s2 % m == 0);
    } else {
        lemma_small_mod((m - s1 % m) as nat, m as nat);
        assert(c == m - s1 % m);
        assert(s2 == s1 - s1 % m + m);
        lemma_mod_multiples_vanish(1, s1 - s1 % m, m);
        assert(s2 % m == (s1 - s1 % m) % m);
        assert(s1 - s1 % m == m * (s1 / m)) by {
            vstd::arithmetic::div_mod::lemma_fundamental_div_mod(s1, m);
        }
        lemma_mod_multiples_vanish(s1 / m, 0, m);
        assert((m * (s1 / m)) % m == 0);
    }
}

impl ADF {
    /// Well-formedness of an image: exactly 1760 sectors of 512 bytes,
    /// and one bitmap-mirror entry per sector.
    pub open spec fn wf(&self) -> bool {
        &&& self.data@.len() == ADF_IMAGE_SIZE
        &&& self.bitmap@.len() == ADF_NUM_SECTORS
    }

    /// The bytes of sector `s`.
    pub open spec fn spec_sector(&self, s: int) -> Seq<u8> {
        sector_of(self.data@, s)
    }

    /// A fresh image of `size` sectors of `block_size` bytes each, all
    /// zero, with every sector marked free in the mirror.
    pub fn new(size: usize, block_size: usize) -> (r: ADF)
        requires
            size * block_size <= usize::MAX,
        ensures
            r.data@ =~= Seq::new((size * block_size) as nat, |i: int| 0u8),
            r.bitmap@ =~= Seq::new(size as nat, |i: int| true),
            size == ADF_NUM_SECTORS && block_size == ADF_SECTOR_SIZE ==> r.wf(),
    {
        let n = size * block_size;
        ADF { data: vec![0u8; n], bitmap: vec![true; size] }
    }

    /// The 512 bytes of sector `sector`.
    pub fn read_sector(&self, sector: usize) -> (r: &[u8])
        requires
            self.wf(),
            sector < ADF_NUM_SECTORS,
        ensures
            r@ == self.spec_sector(sector as int),
            r@.len() == ADF_SECTOR_SIZE,
    {
        let offset = sector * ADF_SECTOR_SIZE;
        slice_subrange(self.data.as_slice(), offset, offset + ADF_SECTOR_SIZE)
    }

    /// Replaces sector `sector` with `data`. Fails with `OutOfRange`
    /// for a sector beyond the disk and with `BadLength` unless `data`
    /// holds exactly 512 bytes; on failure nothing changes.
    pub fn write_sector(&mut self, sector: usize, data: &[u8]) -> (r: Result<(), AdfError>)
        requires
            old(self).wf(),
        ensures
            final(self).wf(),
            final(self).bitmap == old(self).bitmap,
            r is Ok <==> (sector < ADF_NUM_SECTORS && data@.len() == ADF_SECTOR_SIZE),
            sector >= ADF_NUM_SECTORS ==> r == Err::<(), AdfError>(AdfError::OutOfRange),
            sector < ADF_NUM_SECTORS && data@.len() != ADF_SECTOR_SIZE ==> r == Err::<
                (),
                AdfError,
            >(AdfError::BadLength),
            r is Err ==> *final(self) == *old(self),
            r is Ok ==> final(self).spec_sector(sector as int) =~= data@,
            r is Ok ==> forall|i: int|
                0 <= i < ADF_IMAGE_SIZE && !(sector * ADF_SECTOR_SIZE <= i < sector
                    * ADF_SECTOR_SIZE + ADF_SECTOR_SIZE) ==> final(self).data@[i] == old(self).data@[i],
    {
        if sector >= ADF_NUM_SECTORS {
            return Err(AdfError::OutOfRange);
        }
        if data.len() != ADF_SECTOR_SIZE {
            return Err(AdfError::BadLength);
        }
        let offset = sector * ADF_SECTOR_SIZE;
        let mut i: usize = 0;
        while i < ADF_SECTOR_SIZE
            invariant
                i <= ADF_SECTOR_SIZE,
                data@.len() == ADF_SECTOR_SIZE,
                offset == sector * ADF_SECTOR_SIZE,
                sector < ADF_NUM_SECTORS,
                self.data@.len() == ADF_IMAGE_SIZE,
                self.bitmap == old(self).bitmap,
                forall|j: int| 0 <= j < i ==> self.data@[offset + j] == data@[j],
                forall|j: int|
                    0 <= j < ADF_IMAGE_SIZE && !(offset <= j < offset + i) ==> self.data@[j] == old(self).data@[j],
            decreases ADF_SECTOR_SIZE - i,
        {
            self.data[offset + i] = data[i];
            i += 1;
        }
        Ok(())
    }

    /// The first 1024 bytes of the image: the boot block.
    pub fn read_boot_block(&self) -> (r: &[u8])
        requires
            self.wf(),
        ensures
            r@ == self.data@.subrange(0, 1024),
    {
        slice_subrange(self.data.as_slice(), 0, 2 * ADF_SECTOR_SIZE)
    }

    /// The 512 bytes of the root block at sector 880.
    pub fn read_root_block(&self) -> (r: &[u8])
        requires
            self.wf(),
        ensures
            r@ == self.spec_sector(crate::consts::ROOT_BLOCK as int),
    {
        self.read_sector(crate::consts::ROOT_BLOCK)
    }

    /// The checksum value that, stored into a zeroed checksum field,
    /// makes the words of `data` sum to zero modulo 2^32.
    pub fn calculate_checksum(&self, data: &[u8]) -> (r: u32)
        requires
            data@.len() % 4 == 0,
        ensures
            r == spec_checksum(data@),
    {
        checksum_of(data)
    }
}

/// The checksum value that, stored into a zeroed checksum field, makes
/// the words of `data` sum to zero modulo 2^32.
pub fn checksum_of(data: &[u8]) -> (r: u32)
    requires
        data@.len() % 4 == 0,
    ensures
        r == spec_checksum(data@),
{
    {
        let ghost m: int = 0x1_0000_0000;
        let len = data.len();
        let n = len / 4;
        let mut sum: u32 = 0;
        let mut i: usize = 0;
        proof {
            lemma_small_mod(0nat, m as nat);
            vstd::arithmetic::div_mod::lemma_fundamental_div_mod(data@.len() as int, 4);
        }
        while i < n
            invariant
                i <= n,
                n == data@.len() / 4,
                len == data@.len(),
                4 * n <= len,
                data@.len() % 4 == 0,
                sum as int == word_sum_int(data@, i as int) % m,
                m == 0x1_0000_0000,
            decreases n - i,
        {
            let w = read_be32(data, 4 * i);
            proof {
                let s = word_sum_int(data@, i as int);
                lemma_word_sum_nonneg(data@, i as int);
                lemma_add_mod_noop(s, w as int, m);
                lemma_small_mod(w as nat, m as nat);
                if sum + w < m {
                    lemma_small_mod((sum + w) as nat, m as nat);
                } else {
                    lemma_mod_multiples_vanish(-1, sum + w, m);
                    lemma_small_mod((sum + w - m) as nat, m as nat);
                }
            }
            sum = sum.wrapping_add(w);
            i += 1;
        }
        proof {
            let s = word_sum_int(data@, n as int);
            if sum == 0 {
                lemma_mod_multiples_vanish(1, 0, m);
            } else {
                lemma_small_mod((m - sum) as nat, m as nat);
            }
        }
        0u32.wrapping_sub(sum)
    }
}

impl ADF {
    /// The bitmap mirror, one boolean per sector, `true` meaning free.
    pub fn get_bitmap(&self) -> (r: &[bool])
        ensures
            r@ == self.bitmap@,
    {
        self.bitmap.as_slice()
    }

    /// The mirror bit of `block_index`, or nothing when the index is
    /// beyond the disk.
    pub fn get_block_status(&self, block_index: usize) -> (r: Option<bool>)
        ensures
            block_index < self.bitmap@.len() ==> r == Some(self.bitmap@[block_index as int]),
            block_index >= self.bitmap@.len() ==> r is None,
    {
        if block_index < self.bitmap.len() {
            Some(self.bitmap[block_index])
        } else {
            None
        }
    }

    /// Sets the mirror bit of `block_index`; fails with `OutOfRange`
    /// beyond the disk.
    pub fn set_block_status(&mut self, block_index: usize, status: bool) -> (r: Result<
        (),
        AdfError,
    >)
        ensures
            r is Ok <==> block_index < old(self).bitmap@.len(),
            r is Err ==> r == Err::<(), AdfError>(AdfError::OutOfRange) && *final(self) == *old(self),
            r is Ok ==> final(self).bitmap@ =~= old(self).bitmap@.update(
                block_index as int,
                status,
            ) && final(self).data == old(self).data,
    {
        if block_index < self.bitmap.len() {
            self.bitmap[block_index] = status;
            Ok(())
        } else {
            Err(AdfError::OutOfRange)
        }
    }

    /// Marks `block_index` used in the mirror; an index beyond the disk
    /// changes nothing.
    pub fn set_block_used(&mut self, block_index: usize)
        ensures
            final(self).data == old(self).data,
            block_index < old(self).bitmap@.len() ==> final(self).bitmap@ =~= old(self).bitmap@.update(block_index as int, false),
            block_index >= old(self).bitmap@.len() ==> *final(self) == *old(self),
    {
        if block_index < self.bitmap.len() {
            self.bitmap[block_index] = false;
        }
    }

    /// Marks `block_index` free in the mirror; an index beyond the disk
    /// changes nothing.
    pub fn set_block_free(&mut self, block_index: usize)
        ensures
            final(self).data == old(self).data,
            block_index < old(self).bitmap@.len() ==> final(self).bitmap@ =~= old(self).bitmap@.update(block_index as int, true),
            block_index >= old(self).bitmap@.len() ==> *final(self) == *old(self),
    {
        if block_index < self.bitmap.len() {
            self.bitmap[block_index] = true;
        }
    }

    /// The lowest free sector at or after sector 2, if any.
    pub fn find_free_block(&self) -> (r: Option<usize>)
        ensures
            match r {
                Some(i) => first_free_from(self.bitmap@, 2) == Some(i as int),
                None => first_free_from(self.bitmap@, 2) is None,
            },
    {
        let n = self.bitmap.len();
        let mut i: usize = 2;
        while i < n
            invariant
                2 <= i,
                n == self.bitmap@.len(),
                first_free_from(self.bitmap@, 2) == first_free_from(self.bitmap@, i as int),
            decreases n - i,
        {
            if self.bitmap[i] {
                return Some(i);
            }
            i += 1;
        }
        None
    }

    /// Allocates the lowest free sector at or after 2, marking it used;
    /// fails with `OutOfSpace` when no sector is free.
    pub fn allocate_block(&mut self) -> (r: Result<usize, AdfError>)
        ensures
            final(self).data == old(self).data,
            match r {
                Ok(i) => first_free_from(old(self).bitmap@, 2) == Some(i as int)
                    && final(self).bitmap@ =~= old(self).bitmap@.update(i as int, false),
                Err(e) => e == AdfError::OutOfSpace && first_free_from(old(self).bitmap@, 2)
                    is None && *final(self) == *old(self),
            },
    {
        match self.find_free_block() {
            Some(i) => {
                proof {
                    lemma_first_free_from_spec(self.bitmap@, 2);
                }
                self.set_block_used(i);
                Ok(i)
            },
            None => Err(AdfError::OutOfSpace),
        }
    }

    /// The number of used sectors in the mirror.
    pub fn get_fragmentation_score(&self) -> (r: usize)
        ensures
            r == count_used(self.bitmap@),
    {
        let n = self.bitmap.len();
        let mut used: usize = 0;
        let mut i: usize = 0;
        while i < n
            invariant
                i <= n,
                n == self.bitmap@.len(),
                used == count_used(self.bitmap@.subrange(0, i as int)),
                used <= i,
            decreases n - i,
        {
            proof {
                let pre = self.bitmap@.subrange(0, i as int);
                let post = self.bitmap@.subrange(0, i as int + 1);
                assert(post.drop_last() =~= pre);
            }
            if !self.bitmap[i] {
                used += 1;
            }
            i += 1;
        }
        proof {
            assert(self.bitmap@.subrange(0, n as int) =~= self.bitmap@);
        }
        used
    }

    /// Reports the image as already contiguous: blocks are never moved,
    /// so the call succeeds and changes nothing.
    pub fn defragment(&mut self) -> (r: Result<(), AdfError>)
        ensures
            r is Ok,
            *final(self) == *old(self),
    {
        Ok(())
    }

    /// The lowest start of a run of `count` consecutive free sectors,
    /// if the mirror holds one.
    pub fn find_contiguous_free_blocks(&self, count: usize) -> (r: Option<usize>)
        ensures
            match r {
                Some(s) => s + count <= self.bitmap@.len() && run_free(
                    self.bitmap@,
                    s as int,
                    count as int,
                ) && forall|t: int|
                    0 <= t < s ==> !run_free(self.bitmap@, t, count as int),
                None => forall|t: int|
                    0 <= t && t + count <= self.bitmap@.len() ==> !run_free(
                        self.bitmap@,
                        t,
                        count as int,
                    ),
            },
    {
        let n = self.bitmap.len();
        if count > n {
            proof {
                assert forall|t: int| 0 <= t && t + count <= self.bitmap@.len() implies !run_free(
                    self.bitmap@,
                    t,
                    count as int,
                ) by {}
            }
            return None;
        }
        let mut s: usize = 0;
        while s <= n - count
            invariant
                count <= n,
                n == self.bitmap@.len(),
                forall|t: int| 0 <= t < s ==> !run_free(self.bitmap@, t, count as int),
            decreases n + 1 - s,
        {
            let mut j: usize = 0;
            let mut ok: bool = true;
            while j < count
                invariant
                    j <= count,
                    s + count <= n,
                    n == self.bitmap@.len(),
                    ok <==> (forall|t: int| s <= t < s + j ==> self.bitmap@[t]),
                decreases count - j,
            {
                if !self.bitmap[s + j] {
                    ok = false;
                    proof {
                        assert(!self.bitmap@[s + j]);
                    }
                    j = count;
                } else {
                    j += 1;
                }
            }
            if ok {
                return Some(s);
            }
            proof {
                assert(!run_free(self.bitmap@, s as int, count as int));
            }
            s += 1;
        }
        None
    }
}

/// Relies on std::time::SystemTime::now for the wall-clock time, read
/// once and converted to POSIX seconds; nothing is assumed of the
/// value.
#[verifier::external_body]
pub(crate) fn now_unix_seconds() -> u64 {
    match std::time::SystemTime::now().duration_since(std::time::UNIX_EPOCH) {
        Ok(d) => d.as_secs(),
        Err(_) => 0,
    }
}

/// The flag byte a freshly formatted volume carries in byte 3 of its
/// boot block.
pub open spec fn spec_fs_flag(t: DiskType) -> u8 {
    match t {
        DiskType::OFS => 0u8,
        DiskType::FFS => 1u8,
    }
}

/// Which sectors a freshly formatted volume leaves free: everything
/// from sector 2 up except the root block and the two bitmap blocks.
pub open spec fn fresh_bitmap_free(s: int) -> bool {
    2 <= s && s != 880 && s != 881 && s != 882
}

/// Hash-table or data-pointer slot `slot` of a directory or file
/// header block: the 32-bit word at byte offset `24 + 4*slot`.
pub open spec fn slot_entry(b: Seq<u8>, slot: int) -> u32 {
    be32_at(b, 24 + 4 * slot)
}

/// The shape of a freshly written root block: a header block of type 2
/// with a 72-entry empty hash table, a valid-bitmap flag, pointers to
/// the two bitmap blocks, the clamped disk name, secondary type
/// `ST_ROOT`, and a closing checksum.
pub open spec fn root_block_fresh(b: Seq<u8>, name: Seq<u8>) -> bool {
    let n: int = if name.len() <= 30 {
        name.len() as int
    } else {
        30
    };
    &&& be32_at(b, 0) == 2
    &&& be32_at(b, 12) == 72
    &&& (forall|slot: int| 0 <= slot < 72 ==> slot_entry(b, slot) == 0)
    &&& be32_at(b, 312) == 0xFFFF_FFFFu32
    &&& be32_at(b, 316) == 881
    &&& be32_at(b, 320) == 882
    &&& b[432] == n as u8
    &&& (forall|i: int| 0 <= i < n ==> b[433 + i] == name[i])
    &&& be32_at(b, 508) == 1
    &&& block_sum_ok(b)
}

/// Persisting the bitmap mirror and reloading the image hands the
/// mirror back unchanged on every tracked sector.
pub proof fn lemma_bitmap_persist_reload(persisted: ADF, reloaded: ADF)
    requires
        forall|s: int|
            2 <= s < ADF_NUM_SECTORS ==> disk_bitmap_bit(persisted.data@, s) == persisted.bitmap@[s],
        reloaded.data@ == persisted.data@,
        forall|s: int|
            2 <= s < ADF_NUM_SECTORS ==> reloaded.bitmap@[s] == disk_bitmap_bit(reloaded.data@, s),
    ensures
        forall|s: int| 2 <= s < ADF_NUM_SECTORS ==> reloaded.bitmap@[s] == persisted.bitmap@[s],
{
}

impl ADF {
    /// Serialises the bitmap mirror into the bitmap block at sector
    /// 881, closing it with its checksum; nothing else changes.
    pub fn update_bitmap_blocks(&mut self) -> (r: Result<(), AdfError>)
        requires
            old(self).wf(),
        ensures
            final(self).wf(),
            r is Ok,
            final(self).bitmap == old(self).bitmap,
            forall|s: int|
                2 <= s < ADF_NUM_SECTORS ==> disk_bitmap_bit(final(self).data@, s) == old(self).bitmap@[s],
            block_sum_ok(sector_of(final(self).data@, 881)),
            forall|i: int|
                0 <= i < ADF_IMAGE_SIZE && !(881 * 512 <= i < 881 * 512 + 512) ==> final(self).data@[i] == old(self).data@[i],
    {
        let mut block: Vec<u8> = vec![0u8; ADF_SECTOR_SIZE];
        proof {
            assert(be32_at(block@, 0) == 0) by {
                let z = block@.subrange(0, 4);
                assert(z[0] == 0 && z[1] == 0 && z[2] == 0 && z[3] == 0);
            }
        }
        let mut l: usize = 0;
        while l < 55
            invariant
                l <= 55,
                block@.len() == 512,
                *self == *old(self),
                self.wf(),
                be32_at(block@, 0) == 0,
                forall|s: int|
                    2 <= s < 2 + 32 * l && s < ADF_NUM_SECTORS ==> block_bitmap_bit(block@, s)
                        == self.bitmap@[s],
            decreases 55 - l,
        {
            let mut w: u32 = 0;
            proof {
                assert forall|j: u32| j < 32 implies !word_bit(0u32, j) by {
                    lemma_word_bit_zero(j);
                }
            }
            let mut k: usize = 0;
            while k < 32
                invariant
                    k <= 32,
                    l < 55,
                    *self == *old(self),
                    self.wf(),
                    forall|j: u32|
                        j < k ==> word_bit(w, j) == (2 + 32 * l + j < ADF_NUM_SECTORS
                            && self.bitmap@[2 + 32 * (l as int) + j]),
                    forall|j: u32| k <= j < 32 ==> !word_bit(w, j),
                decreases 32 - k,
            {
                let s = 2 + 32 * l + k;
                if s < ADF_NUM_SECTORS && self.bitmap[s] {
                    let ghost w0 = w;
                    w = w | (1u32 << (k as u32));
                    proof {
                        assert forall|j: u32| j < 32 implies word_bit(w, j) == (j == k as u32
                            || word_bit(w0, j)) by {
                            lemma_word_bit_or(w0, k as u32, j);
                        }
                    }
                }
                k += 1;
            }
            let ghost b_pre = block@;
            write_be32(&mut block, 4 + 4 * l, w);
            proof {
                lemma_be32_roundtrip(w);
                assert(be32_at(block@, 4 + 4 * (l as int)) == w);
                assert(be32_at(block@, 0) == 0) by {
                    assert(block@.subrange(0, 4) =~= b_pre.subrange(0, 4));
                }
                assert forall|s: int|
                    2 <= s < 2 + 32 * (l + 1) && s < ADF_NUM_SECTORS implies block_bitmap_bit(
                    block@,
                    s,
                ) == self.bitmap@[s] by {
                    let q = (s - 2) / 32;
                    let jj = (s - 2) % 32;
                    if s < 2 + 32 * l {
                        assert(0 <= s - 2 < 32 * (l as int));
                        assert(0 <= q < l) by (nonlinear_arith)
                            requires
                                q == (s - 2) / 32,
                                0 <= s - 2 < 32 * (l as int),
                        ;
                        assert(block@.subrange(4 + 4 * q, 4 + 4 * q + 4) =~= b_pre.subrange(
                            4 + 4 * q,
                            4 + 4 * q + 4,
                        ));
                        assert(block_bitmap_bit(block@, s) == block_bitmap_bit(b_pre, s));
                    } else {
                        let j = s - 2 - 32 * (l as int);
                        vstd::arithmetic::div_mod::lemma_fundamental_div_mod_converse(
                            s - 2,
                            32,
                            l as int,
                            j,
                        );
                        assert(q == l as int && jj == j);
                        assert(word_bit(w, j as u32) == (2 + 32 * (l as int) + j
                            < ADF_NUM_SECTORS && self.bitmap@[2 + 32 * (l as int) + j]));
                    }
                }
            }
            l += 1;
        }
        let ghost b1 = block@;
        let ghost bmv = self.bitmap@;
        let c = self.calculate_checksum(block.as_slice());
        write_be32(&mut block, 0, c);
        proof {
            lemma_be32_roundtrip(c);
            assert(be32_at(block@, 0) == c);
            lemma_checksum_closes(b1, block@, 0);
            assert forall|s: int|
                2 <= s < ADF_NUM_SECTORS implies block_bitmap_bit(block@, s) == bmv[s] by {
                let q = (s - 2) / 32;
                assert(0 <= q <= 54) by (nonlinear_arith)
                    requires
                        q == (s - 2) / 32,
                        0 <= s - 2 < 1758,
                ;
                assert(block@.subrange(4 + 4 * q, 4 + 4 * q + 4) =~= b1.subrange(
                    4 + 4 * q,
                    4 + 4 * q + 4,
                ));
                assert(block_bitmap_bit(block@, s) == block_bitmap_bit(b1, s));
                assert(block_bitmap_bit(b1, s) == bmv[s]);
            }
        }
        let ghost b2 = block@;
        let res = self.write_sector(BITMAP_BLOCK, block.as_slice());
        proof {
            assert(res is Ok);
            assert(self.bitmap@ == bmv);
            assert(sector_of(self.data@, 881) =~= b2);
            assert forall|s: int|
                2 <= s < ADF_NUM_SECTORS implies disk_bitmap_bit(self.data@, s) == bmv[s] by {
                assert(block_bitmap_bit(b2, s) == bmv[s]);
            }
        }
        Ok(())
    }

    /// Resets the bitmap mirror to the fresh-volume pattern, sectors 2
    /// and up free except root and the two bitmap blocks, and persists
    /// it.
    pub fn initialize_bitmap(&mut self) -> (r: Result<(), AdfError>)
        requires
            old(self).wf(),
        ensures
            final(self).wf(),
            r is Ok,
            forall|s: int|
                0 <= s < ADF_NUM_SECTORS ==> final(self).bitmap@[s] == fresh_bitmap_free(s),
            forall|s: int|
                2 <= s < ADF_NUM_SECTORS ==> disk_bitmap_bit(final(self).data@, s)
                    == fresh_bitmap_free(s),
            block_sum_ok(sector_of(final(self).data@, 881)),
            sector_of(final(self).data@, 882) =~= sector_of(final(self).data@, 881),
            forall|i: int|
                0 <= i < ADF_IMAGE_SIZE && !(881 * 512 <= i < 881 * 512 + 512) && !(882 * 512 <= i
                    < 882 * 512 + 512) ==> final(self).data@[i] == old(self).data@[i],
    {
        let mut bm: Vec<bool> = vec![true; ADF_NUM_SECTORS];
        bm[0] = false;
        bm[1] = false;
        bm[880] = false;
        bm[881] = false;
        bm[882] = false;
        self.bitmap = bm;
        proof {
            assert forall|s: int| 0 <= s < ADF_NUM_SECTORS implies self.bitmap@[s]
                == fresh_bitmap_free(s) by {}
        }
        self.write_bitmap_blocks()
    }

    /// Persists the bitmap mirror: sector 881 gets the serialised,
    /// checksummed bitmap block and sector 882 a spare copy of it.
    pub fn write_bitmap_blocks(&mut self) -> (r: Result<(), AdfError>)
        requires
            old(self).wf(),
        ensures
            final(self).wf(),
            r is Ok,
            final(self).bitmap == old(self).bitmap,
            forall|s: int|
                2 <= s < ADF_NUM_SECTORS ==> disk_bitmap_bit(final(self).data@, s) == old(self).bitmap@[s],
            block_sum_ok(sector_of(final(self).data@, 881)),
            sector_of(final(self).data@, 882) =~= sector_of(final(self).data@, 881),
            forall|i: int|
                0 <= i < ADF_IMAGE_SIZE && !(881 * 512 <= i < 881 * 512 + 512) && !(882 * 512 <= i
                    < 882 * 512 + 512) ==> final(self).data@[i] == old(self).data@[i],
    {
        let res = self.update_bitmap_blocks();
        proof {
            assert(res is Ok);
        }
        let spare = vstd::slice::slice_to_vec(self.read_sector(BITMAP_BLOCK));
        let ghost mid = *self;
        let res2 = self.write_sector(BITMAP_BLOCK_SPARE, spare.as_slice());
        proof {
            assert(res2 is Ok);
            assert(sector_of(self.data@, 881) =~= sector_of(mid.data@, 881));
            assert forall|s: int|
                2 <= s < ADF_NUM_SECTORS implies disk_bitmap_bit(self.data@, s) == old(self).bitmap@[s] by {
                assert(block_bitmap_bit(sector_of(self.data@, 881), s) == block_bitmap_bit(
                    sector_of(mid.data@, 881),
                    s,
                ));
            }
        }
        Ok(())
    }

    /// Writes a fresh boot block: the "DOS" signature, the variant
    /// flag byte, and the root-block pointer; the boot checksum stays
    /// zero, as it is only checked when booting.
    pub fn write_boot_block(&mut self, disk_type: DiskType) -> (r: Result<(), AdfError>)
        requires
            old(self).wf(),
        ensures
            final(self).wf(),
            r is Ok,
            final(self).bitmap == old(self).bitmap,
            final(self).data@[0] == 0x44u8,
            final(self).data@[1] == 0x4Fu8,
            final(self).data@[2] == 0x53u8,
            final(self).data@[3] == spec_fs_flag(disk_type),
            be32_at(final(self).data@, 8) == 880,
            forall|i: int|
                0 <= i < ADF_IMAGE_SIZE && !(0 <= i < 4) && !(8 <= i < 12) ==> final(self).data@[i]
                    == old(self).data@[i],
    {
        self.data[0] = 0x44;
        self.data[1] = 0x4F;
        self.data[2] = 0x53;
        self.data[3] = match disk_type {
            DiskType::OFS => 0,
            DiskType::FFS => 1,
        };
        write_be32(&mut self.data, 8, 880);
        proof {
            lemma_be32_roundtrip(880);
        }
        Ok(())
    }

    /// Writes a fresh root block at sector 880: type 2, hash-table
    /// size 72, empty hash table, valid-bitmap flag and bitmap-block
    /// pointers, the current time, the clamped disk name, secondary
    /// type `ST_ROOT`, and the closing checksum.
    pub fn write_root_block(&mut self, disk_type: DiskType, disk_name: &str) -> (r: Result<
        (),
        AdfError,
    >)
        requires
            old(self).wf(),
        ensures
            final(self).wf(),
            r is Ok,
            final(self).bitmap == old(self).bitmap,
            root_block_fresh(sector_of(final(self).data@, 880), disk_name.spec_bytes()),
            forall|i: int|
                0 <= i < ADF_IMAGE_SIZE && !(880 * 512 <= i < 880 * 512 + 512) ==> final(self).data@[i] == old(self).data@[i],
    {
        let mut block: Vec<u8> = vec![0u8; ADF_SECTOR_SIZE];
        write_be32(&mut block, 0, 2);
        write_be32(&mut block, 12, 72);
        write_be32(&mut block, 312, 0xFFFF_FFFF);
        write_be32(&mut block, 316, 881);
        write_be32(&mut block, 320, 882);
        let now = now_unix_seconds();
        let amiga: u64 = if now >= AMIGA_EPOCH_SECONDS {
            now - AMIGA_EPOCH_SECONDS
        } else {
            0
        };
        let days: u32 = #[verifier::truncate] ((amiga / SECONDS_PER_DAY) as u32);
        let mins: u32 = ((amiga % SECONDS_PER_DAY) / SECONDS_PER_MINUTE) as u32;
        let ticks: u32 = ((amiga % SECONDS_PER_MINUTE) * TICKS_PER_SECOND) as u32;
        write_be32(&mut block, 420, days);
        write_be32(&mut block, 424, mins);
        write_be32(&mut block, 428, ticks);
        let nb = disk_name.as_bytes();
        let n: usize = if nb.len() > MAX_NAME_LENGTH {
            MAX_NAME_LENGTH
        } else {
            nb.len()
        };
        block[432] = n as u8;
        crate::endian::copy_into(&mut block, 433, nb, n);
        write_be32(&mut block, 508, 1);
        let ghost b1 = block@;
        proof {
            assert(be32_at(b1, 16) == 0) by {
                let z = b1.subrange(16, 20);
                assert(z[0] == 0 && z[1] == 0 && z[2] == 0 && z[3] == 0);
            }
        }
        let c = self.calculate_checksum(block.as_slice());
        write_be32(&mut block, 16, c);
        proof {
            lemma_be32_roundtrip(c);
            assert(be32_at(block@, 16) == c);
            lemma_checksum_closes(b1, block@, 4);
        }
        let ghost b2 = block@;
        let res = self.write_sector(880, block.as_slice());
        proof {
            assert(res is Ok);
            assert(sector_of(self.data@, 880) =~= b2);
            lemma_be32_roundtrip(2);
            lemma_be32_roundtrip(72);
            lemma_be32_roundtrip(0xFFFF_FFFF);
            lemma_be32_roundtrip(881);
            lemma_be32_roundtrip(882);
            lemma_be32_roundtrip(1);
            assert(b2.subrange(0, 4) =~= be32_bytes(2));
            assert(b2.subrange(12, 16) =~= be32_bytes(72));
            assert(b2.subrange(312, 316) =~= be32_bytes(0xFFFF_FFFF));
            assert(b2.subrange(316, 320) =~= be32_bytes(881));
            assert(b2.subrange(320, 324) =~= be32_bytes(882));
            assert(b2.subrange(508, 512) =~= be32_bytes(1));
            assert forall|slot: int| 0 <= slot < 72 implies slot_entry(b2, slot) == 0 by {
                let z = b2.subrange(24 + 4 * slot, 24 + 4 * slot + 4);
                assert(z[0] == 0 && z[1] == 0 && z[2] == 0 && z[3] == 0);
            }
            assert(b2[432] == n as u8);
            assert forall|j: int| 0 <= j < n implies b2[433 + j] == nb@[j] by {}
        }
        Ok(())
    }

    /// Formats the image as a fresh empty volume: a boot block naming
    /// the variant, a root block carrying the disk name, and an
    /// initialized free-space bitmap; every byte outside those
    /// structures is zero.
    pub fn format(&mut self, disk_type: DiskType, disk_name: &str) -> (r: Result<(), AdfError>)
        requires
            old(self).wf(),
        ensures
            final(self).wf(),
            r is Ok,
            final(self).data@[0] == 0x44u8,
            final(self).data@[1] == 0x4Fu8,
            final(self).data@[2] == 0x53u8,
            final(self).data@[3] == spec_fs_flag(disk_type),
            be32_at(final(self).data@, 8) == 880,
            root_block_fresh(sector_of(final(self).data@, 880), disk_name.spec_bytes()),
            forall|s: int|
                0 <= s < ADF_NUM_SECTORS ==> final(self).bitmap@[s] == fresh_bitmap_free(s),
            forall|s: int|
                2 <= s < ADF_NUM_SECTORS ==> disk_bitmap_bit(final(self).data@, s)
                    == fresh_bitmap_free(s),
            block_sum_ok(sector_of(final(self).data@, 881)),
            forall|i: int|
                0 <= i < ADF_IMAGE_SIZE && !(0 <= i < 4) && !(8 <= i < 12) && !(880 * 512 <= i
                    < 881 * 512) && !(881 * 512 <= i < 883 * 512) ==> #[trigger] final(self).data@[i]
                    == 0,
    {
        self.data = vec![0u8; ADF_IMAGE_SIZE];
        let ghost dz = self.data@;
        let res1 = self.write_boot_block(disk_type);
        proof {
            assert(res1 is Ok);
        }
        let ghost d1 = self.data@;
        let res2 = self.write_root_block(disk_type, disk_name);
        proof {
            assert(res2 is Ok);
        }
        let ghost d2 = self.data@;
        let res3 = self.initialize_bitmap();
        proof {
            assert(res3 is Ok);
            assert(sector_of(self.data@, 880) =~= sector_of(d2, 880));
            assert(self.data@.subrange(8, 12) =~= d1.subrange(8, 12));
            assert(be32_at(self.data@, 8) == be32_at(d1, 8));
            assert forall|i: int|
                0 <= i < ADF_IMAGE_SIZE && !(0 <= i < 4) && !(8 <= i < 12) && !(880 * 512 <= i
                    < 881 * 512) && !(881 * 512 <= i < 883 * 512) implies #[trigger] self.data@[i]
                == 0 by {
                assert(self.data@[i] == d2[i]);
                assert(d2[i] == d1[i]);
                assert(d1[i] == dz[i]);
            }
        }
        Ok(())
    }

    /// Rebuilds an image from raw bytes. Exactly 901,120 bytes are
    /// accepted, anything else fails with `BadSize`; the on-disk
    /// bitmap block is authoritative and is decoded into the mirror,
    /// with the two boot sectors always marked used.
    pub fn from_bytes(data: &[u8]) -> (r: Result<ADF, AdfError>)
        ensures
            match r {
                Ok(a) => {
                    &&& data@.len() == ADF_IMAGE_SIZE
                    &&& a.wf()
                    &&& a.data@ == data@
                    &&& a.bitmap@[0] == false
                    &&& a.bitmap@[1] == false
                    &&& forall|s: int|
                        2 <= s < ADF_NUM_SECTORS ==> a.bitmap@[s] == disk_bitmap_bit(data@, s)
                },
                Err(e) => e == AdfError::BadSize && data@.len() != ADF_IMAGE_SIZE,
            },
    {
        if data.len() != ADF_IMAGE_SIZE {
            return Err(AdfError::BadSize);
        }
        let bytes = vstd::slice::slice_to_vec(data);
        let mut bm: Vec<bool> = Vec::new();
        bm.push(false);
        bm.push(false);
        let mut s: usize = 2;
        while s < ADF_NUM_SECTORS
            invariant
                2 <= s <= ADF_NUM_SECTORS,
                data@.len() == ADF_IMAGE_SIZE,
                bm@.len() == s,
                bm@[0] == false,
                bm@[1] == false,
                forall|t: int| 2 <= t < s ==> bm@[t] == disk_bitmap_bit(data@, t),
            decreases ADF_NUM_SECTORS - s,
        {
            let q = (s - 2) / 32;
            let j = ((s - 2) % 32) as u32;
            let w = read_be32(data, 881 * 512 + 4 + 4 * q);
            let bit = ((w >> j) & 1) == 1;
            proof {
                assert(0 <= (s - 2) / 32 <= 54) by (nonlinear_arith)
                    requires
                        0 <= s - 2 < 1758,
                ;
                lemma_be32_at_sector(data@, 881, 4 + 4 * (q as int));
                assert(bit == disk_bitmap_bit(data@, s as int));
            }
            bm.push(bit);
            s += 1;
        }
        Ok(ADF { data: bytes, bitmap: bm })
    }
}

// ---------------------------------------------------------------------
// Directory hashing
// ---------------------------------------------------------------------
/// The uppercase image of an ASCII byte.
pub open spec fn upper_byte(b: u8) -> u8 {
    if 97 <= b <= 122 {
        (b - 32) as u8
    } else {
        b
    }
}

/// The lowercase image of an ASCII byte.
pub open spec fn lower_byte(b: u8) -> u8 {
    if 65 <= b <= 90 {
        (b + 32) as u8
    } else {
        b
    }
}

/// One folding step of the directory hash: multiply by 13, add the
/// byte, keep eleven bits.
pub open spec fn hash_step(h: u32, b: u8) -> u32 {
    ((h * 13 + b) % 0x800) as u32
}

/// Left fold of the hash over the name bytes; an international volume
/// folds the uppercased byte.
pub open spec fn hash_fold(s: Seq<u8>, h: u32, intl: bool) -> u32
    decreases s.len(),
{
    if s.len() == 0 {
        h
    } else {
        hash_fold(
            s.drop_first(),
            hash_step(
                h,
                if intl {
                    upper_byte(s[0])
                } else {
                    s[0]
                },
            ),
            intl,
        )
    }
}

/// The hash bucket of a name: the fold, seeded with the name length,
/// taken modulo the 72 hash-table entries.
pub open spec fn name_hash(s: Seq<u8>, intl: bool) -> u32 {
    (hash_fold(s, (s.len() % 0x800) as u32, intl) % 72) as u32
}

/// Every name hashes into one of the 72 buckets; the bucket is a pure
/// function of the name bytes, so equal names agree on every run.
pub proof fn lemma_hash_in_range(s: Seq<u8>, intl: bool)
    ensures
        name_hash(s, intl) < 72,
{
}

/// Folding two byte sequences that agree after uppercasing gives the
/// same hash.
proof fn lemma_hash_fold_case(a: Seq<u8>, b: Seq<u8>, h: u32)
    requires
        a.len() == b.len(),
        forall|i: int| 0 <= i < a.len() ==> upper_byte(a[i]) == upper_byte(b[i]),
    ensures
        hash_fold(a, h, true) == hash_fold(b, h, true),
    decreases a.len(),
{
    if a.len() > 0 {
        assert(upper_byte(a[0]) == upper_byte(b[0]));
        assert forall|i: int| 0 <= i < a.drop_first().len() implies upper_byte(
            a.drop_first()[i],
        ) == upper_byte(b.drop_first()[i]) by {
            assert(a.drop_first()[i] == a[i + 1]);
            assert(b.drop_first()[i] == b[i + 1]);
        }
        lemma_hash_fold_case(a.drop_first(), b.drop_first(), hash_step(h, upper_byte(a[0])));
    }
}

/// On an international volume the hash ignores ASCII case: the
/// lowercase and uppercase forms of a name share a bucket.
pub proof fn lemma_hash_case_insensitive(s: Seq<u8>)
    ensures
        name_hash(s.map_values(|b: u8| lower_byte(b)), true) == name_hash(
            s.map_values(|b: u8| upper_byte(b)),
            true,
        ),
{
    let lo = s.map_values(|b: u8| lower_byte(b));
    let hi = s.map_values(|b: u8| upper_byte(b));
    assert forall|i: int| 0 <= i < lo.len() implies upper_byte(lo[i]) == upper_byte(hi[i]) by {
        assert(lo[i] == lower_byte(s[i]));
        assert(hi[i] == upper_byte(s[i]));
    }
    lemma_hash_fold_case(lo, hi, (s.len() % 0x800) as u32);
}

/// The hash bucket of `name`, always below 72.
pub fn hash_name(name: &[u8], intl: bool) -> (r: u32)
    ensures
        r == name_hash(name@, intl),
        r < 72,
{
    let n = name.len();
    let mut h: u32 = (n % 0x800) as u32;
    let mut i: usize = 0;
    proof {
        assert(name@.skip(0) =~= name@);
    }
    while i < n
        invariant
            i <= n,
            n == name@.len(),
            h < 0x800,
            hash_fold(name@, (name@.len() % 0x800) as u32, intl) == hash_fold(
                name@.skip(i as int),
                h,
                intl,
            ),
        decreases n - i,
    {
        let b = name[i];
        let c: u8 = if intl {
            if 97 <= b && b <= 122 {
                b - 32
            } else {
                b
            }
        } else {
            b
        };
        proof {
            let rest = name@.skip(i as int);
            assert(rest.len() > 0);
            assert(rest[0] == name@[i as int]);
            assert(rest.drop_first() =~= name@.skip(i as int + 1));
        }
        h = (h * 13 + c as u32) % 0x800;
        i += 1;
    }
    proof {
        assert(name@.skip(n as int) =~= Seq::<u8>::empty());
    }
    h % 72
}

// ---------------------------------------------------------------------
// Header blocks and directory traversal
// ---------------------------------------------------------------------
/// The raw name bytes of a header block: length byte at 432, clamped
/// to 30 characters, characters from 433.
pub open spec fn entry_name_bytes(b: Seq<u8>) -> Seq<u8> {
    let n: int = if b[432] <= 30 {
        b[432] as int
    } else {
        30
    };
    b.subrange(433, 433 + n)
}

/// The byte size stored in a file header.
pub open spec fn entry_size(b: Seq<u8>) -> u32 {
    be32_at(b, 324)
}

/// The protection word stored in a header.
pub open spec fn entry_protection(b: Seq<u8>) -> u32 {
    be32_at(b, 320)
}

/// The secondary type word of a header.
pub open spec fn entry_secondary_type(b: Seq<u8>) -> u32 {
    be32_at(b, 508)
}

/// A header is a directory when its secondary type is `ST_ROOT` or
/// `ST_DIR`.
pub open spec fn entry_is_dir(b: Seq<u8>) -> bool {
    entry_secondary_type(b) == 1 || entry_secondary_type(b) == 2
}

/// The hash-chain successor of a header.
pub open spec fn entry_next_hash(b: Seq<u8>) -> u32 {
    be32_at(b, 496)
}

/// The creation instant of a header as POSIX seconds: the Amiga epoch
/// plus the stored days, minutes and ticks, fifty ticks a second.
pub open spec fn entry_date_secs(b: Seq<u8>) -> u64 {
    (252460800 + be32_at(b, 420) * 86400 + be32_at(b, 424) * 60 + be32_at(b, 428) / 50) as u64
}

/// The `FileInfo` a header block yields.
pub open spec fn matches_entry(fi: FileInfo, b: Seq<u8>) -> bool {
    &&& fi.name@ == crate::text::printable_chars(entry_name_bytes(b))
    &&& fi.size == entry_size(b)
    &&& fi.is_dir == entry_is_dir(b)
    &&& fi.protection == entry_protection(b)
    &&& fi.creation_date == entry_date_secs(b)
}

/// The collision chain starting at header sector `sec`, in order; a
/// sector of 0 ends the chain. The chain is `None` when it points off
/// the disk or does not end within `fuel` steps, which on a 1760-sector
/// disk means it cycles.
pub open spec fn chain_sectors(d: Seq<u8>, sec: u32, fuel: nat) -> Option<Seq<u32>>
    decreases fuel,
{
    if sec == 0 {
        Some(Seq::empty())
    } else if sec >= 1760 {
        None
    } else if fuel == 0 {
        None
    } else {
        match chain_sectors(d, entry_next_hash(sector_of(d, sec as int)), (fuel - 1) as nat) {
            Some(rest) => Some(seq![sec] + rest),
            None => None,
        }
    }
}

/// The header sectors of buckets `slot` down to 0 of the directory
/// block at sector `dir`, concatenated.
pub open spec fn dir_sectors_down(d: Seq<u8>, dir: int, slot: int) -> Option<Seq<u32>>
    decreases slot + 1,
{
    if slot < 0 {
        Some(Seq::empty())
    } else {
        match chain_sectors(d, slot_entry(sector_of(d, dir), slot), 1760) {
            Some(c) => match dir_sectors_down(d, dir, slot - 1) {
                Some(rest) => Some(c + rest),
                None => None,
            },
            None => None,
        }
    }
}

/// Every header sector of a directory listing, bucket 71 first, the
/// collision chain of each bucket in order; `None` when some chain is
/// corrupt.
pub open spec fn dir_listing_sectors(d: Seq<u8>, dir: int) -> Option<Seq<u32>> {
    dir_sectors_down(d, dir, 71)
}

/// Prepends a collected prefix to an optional remainder.
pub open spec fn opt_concat<T>(pre: Seq<T>, o: Option<Seq<T>>) -> Option<Seq<T>> {
    match o {
        Some(rest) => Some(pre + rest),
        None => None,
    }
}

/// Whether two names are the same on a volume: byte for byte, or byte
/// for byte after uppercasing on an international volume.
pub open spec fn names_equal(a: Seq<u8>, b: Seq<u8>, intl: bool) -> bool {
    &&& a.len() == b.len()
    &&& forall|i: int|
        0 <= i < a.len() ==> (if intl {
            upper_byte(a[i]) == upper_byte(b[i])
        } else {
            a[i] == b[i]
        })
}

/// The header sector holding `name` in the collision chain from `sec`:
/// `Some(None)` when the chain ends without it, `Some(Some(h))` when
/// header `h` carries it, `None` when the chain is corrupt.
pub open spec fn chain_lookup(d: Seq<u8>, sec: u32, name: Seq<u8>, intl: bool, fuel: nat) -> Option<
    Option<u32>,
>
    decreases fuel,
{
    if sec == 0 {
        Some(None)
    } else if sec >= 1760 {
        None
    } else if fuel == 0 {
        None
    } else if names_equal(entry_name_bytes(sector_of(d, sec as int)), name, intl) {
        Some(Some(sec))
    } else {
        chain_lookup(d, entry_next_hash(sector_of(d, sec as int)), name, intl, (fuel - 1) as nat)
    }
}

/// The header sector holding `name` in the directory at `dir`: the
/// lookup walks the bucket the name hashes to.
pub open spec fn dir_lookup(d: Seq<u8>, dir: int, name: Seq<u8>, intl: bool) -> Option<Option<u32>> {
    chain_lookup(d, slot_entry(sector_of(d, dir), name_hash(name, intl) as int), name, intl, 1760)
}


/// Names that are the same on a volume hash to the same bucket.
pub proof fn lemma_names_equal_same_hash(a: Seq<u8>, b: Seq<u8>, intl: bool)
    requires
        names_equal(a, b, intl),
    ensures
        name_hash(a, intl) == name_hash(b, intl),
{
    if intl {
        lemma_hash_fold_case(a, b, (a.len() % 0x800) as u32);
    } else {
        assert(a =~= b);
    }
}

/// A chain lookup cannot tell two names apart that are the same on the
/// volume.
pub proof fn lemma_chain_lookup_names_equal(
    d: Seq<u8>,
    sec: u32,
    a: Seq<u8>,
    b: Seq<u8>,
    intl: bool,
    fuel: nat,
)
    requires
        names_equal(a, b, intl),
    ensures
        chain_lookup(d, sec, a, intl, fuel) == chain_lookup(d, sec, b, intl, fuel),
    decreases fuel,
{
    if !(sec == 0 || sec >= 1760 || fuel == 0) {
        let en = entry_name_bytes(sector_of(d, sec as int));
        assert(names_equal(en, a, intl) == names_equal(en, b, intl)) by {
            if names_equal(en, a, intl) {
                assert forall|i: int|
                    0 <= i < en.len() implies (if intl {
                        upper_byte(en[i]) == upper_byte(b[i])
                    } else {
                        en[i] == b[i]
                    }) by {}
                assert(names_equal(en, b, intl));
            }
            if names_equal(en, b, intl) {
                assert forall|i: int|
                    0 <= i < en.len() implies (if intl {
                        upper_byte(en[i]) == upper_byte(a[i])
                    } else {
                        en[i] == a[i]
                    }) by {}
                assert(names_equal(en, a, intl));
            }
        }
        if !names_equal(en, a, intl) {
            lemma_chain_lookup_names_equal(
                d,
                entry_next_hash(sector_of(d, sec as int)),
                a,
                b,
                intl,
                (fuel - 1) as nat,
            );
        }
    }
}

/// The international-mode flag of the volume, bit 1 of the boot flag
/// byte.
pub open spec fn spec_intl(d: Seq<u8>) -> bool {
    d[3] & 2 == 2
}

impl ADF {
    /// Reads the directory entry stored in the header block at
    /// `block`: name, size, kind, protection and creation date.
    pub fn read_file_header(&self, block: usize) -> (r: Result<FileInfo, AdfError>)
        requires
            self.wf(),
            block < ADF_NUM_SECTORS,
        ensures
            r is Ok,
            r matches Ok(fi) ==> matches_entry(fi, self.spec_sector(block as int)),
    {
        let sec = self.read_sector(block);
        let raw_len = sec[432];
        let name_len: usize = if raw_len > 30 {
            30
        } else {
            raw_len as usize
        };
        let name_bytes = slice_subrange(sec, 433, 433 + name_len);
        let name = crate::text::printable_string(name_bytes);
        let size = read_be32(sec, 324);
        let protection = read_be32(sec, 320);
        let sectype = read_be32(sec, 508);
        let is_dir = sectype == 1 || sectype == 2;
        let days = read_be32(sec, 420);
        let mins = read_be32(sec, 424);
        let ticks = read_be32(sec, 428);
        let creation: u64 = 252460800u64 + days as u64 * 86400 + mins as u64 * 60 + ticks as u64
            / 50;
        proof {
            assert(entry_name_bytes(sec@) =~= name_bytes@);
        }
        Ok(
            FileInfo {
                name,
                size,
                is_dir,
                protection,
                creation_date: creation,
            },
        )
    }

    /// Walks a collision chain from `start`, collecting its header
    /// sectors; fails with `CorruptChain` exactly when the chain
    /// leaves the disk or cycles.
    fn walk_chain(&self, start: u32) -> (r: Result<Vec<u32>, AdfError>)
        requires
            self.wf(),
        ensures
            match r {
                Ok(v) => chain_sectors(self.data@, start, 1760) == Some(v@) && forall|i: int|
                    0 <= i < v@.len() ==> 0 < #[trigger] v@[i] < 1760,
                Err(e) => e == AdfError::CorruptChain && chain_sectors(self.data@, start, 1760)
                    is None,
            },
    {
        let mut v: Vec<u32> = Vec::new();
        let mut cur: u32 = start;
        let mut fuel: u32 = 1760;
        loop
            invariant
                self.wf(),
                fuel <= 1760,
                forall|i: int| 0 <= i < v@.len() ==> 0 < #[trigger] v@[i] < 1760,
                chain_sectors(self.data@, start, 1760) == opt_concat(
                    v@,
                    chain_sectors(self.data@, cur, fuel as nat),
                ),
            decreases fuel,
        {
            if cur == 0 {
                proof {
                    assert(v@ + Seq::<u32>::empty() =~= v@);
                }
                return Ok(v);
            }
            if cur >= 1760 || fuel == 0 {
                return Err(AdfError::CorruptChain);
            }
            let ghost pre = v@;
            v.push(cur);
            let next = read_be32(self.read_sector(cur as usize), 496);
            proof {
                lemma_be32_at_sector(self.data@, cur as int, 496);
                assert(next == entry_next_hash(sector_of(self.data@, cur as int)));
                assert(pre.push(cur) =~= pre + seq![cur]);
                let o = chain_sectors(
                    self.data@,
                    entry_next_hash(sector_of(self.data@, cur as int)),
                    (fuel - 1) as nat,
                );
                match o {
                    Some(rest) => {
                        assert(pre + (seq![cur] + rest) =~= (pre + seq![cur]) + rest);
                    },
                    None => {},
                }
            }
            cur = next;
            fuel = fuel - 1;
        }
    }

    /// Lists the directory whose block sits at `block`: bucket 71 down
    /// to 0, each bucket's collision chain in order. Fails with
    /// `OutOfRange` for a block beyond the disk and `CorruptChain`
    /// exactly when some chain leaves the disk or cycles.
    pub fn list_directory(&self, block: usize) -> (r: Result<Vec<FileInfo>, AdfError>)
        requires
            self.wf(),
        ensures
            block >= ADF_NUM_SECTORS ==> r == Err::<Vec<FileInfo>, AdfError>(AdfError::OutOfRange),
            block < ADF_NUM_SECTORS ==> match r {
                Ok(v) => ({
                    &&& dir_listing_sectors(self.data@, block as int) is Some
                    &&& ({
                        let secs = dir_listing_sectors(self.data@, block as int)->0;
                        &&& v@.len() == secs.len()
                        &&& forall|i: int|
                            0 <= i < secs.len() ==> matches_entry(
                                #[trigger] v@[i],
                                sector_of(self.data@, secs[i] as int),
                            )
                    })
                }),
                Err(e) => e == AdfError::CorruptChain && dir_listing_sectors(
                    self.data@,
                    block as int,
                ) is None,
            },
    {
        if block >= ADF_NUM_SECTORS {
            return Err(AdfError::OutOfRange);
        }
        let mut secs: Vec<u32> = Vec::new();
        let mut slot: usize = 72;
        while slot > 0
            invariant
                self.wf(),
                block < ADF_NUM_SECTORS,
                slot <= 72,
                forall|i: int| 0 <= i < secs@.len() ==> 0 < #[trigger] secs@[i] < 1760,
                dir_listing_sectors(self.data@, block as int) == opt_concat(
                    secs@,
                    dir_sectors_down(self.data@, block as int, slot as int - 1),
                ),
            decreases slot,
        {
            let entry = read_be32(self.read_sector(block), 24 + 4 * (slot - 1));
            proof {
                lemma_be32_at_sector(self.data@, block as int, 24 + 4 * (slot as int - 1));
                assert(entry == slot_entry(sector_of(self.data@, block as int), slot as int - 1));
            }
            let ghost pre = secs@;
            match self.walk_chain(entry) {
                Ok(mut c) => {
                    let ghost cv = c@;
                    secs.append(&mut c);
                    proof {
                        assert(secs@ =~= pre + cv);
                        match dir_sectors_down(self.data@, block as int, slot as int - 2) {
                            Some(rest) => {
                                assert(pre + (cv + rest) =~= (pre + cv) + rest);
                            },
                            None => {},
                        }
                    }
                },
                Err(e) => {
                    return Err(e);
                },
            }
            slot = slot - 1;
        }
        proof {
            assert(dir_sectors_down(self.data@, block as int, -1) == Some(Seq::<u32>::empty()));
            assert(secs@ + Seq::<u32>::empty() =~= secs@);
            assert(dir_listing_sectors(self.data@, block as int) == Some(secs@));
        }
        let ghost model = dir_listing_sectors(self.data@, block as int)->0;
        let mut out: Vec<FileInfo> = Vec::new();
        let n = secs.len();
        let mut i: usize = 0;
        while i < n
            invariant
                self.wf(),
                i <= n,
                n == secs@.len(),
                secs@ == model,
                forall|k: int| 0 <= k < secs@.len() ==> 0 < #[trigger] secs@[k] < 1760,
                out@.len() == i,
                forall|k: int|
                    0 <= k < i ==> matches_entry(
                        #[trigger] out@[k],
                        sector_of(self.data@, secs@[k] as int),
                    ),
            decreases n - i,
        {
            match self.read_file_header(secs[i] as usize) {
                Ok(fi) => {
                    out.push(fi);
                },
                Err(_) => {
                    proof {
                        assert(false);
                    }
                },
            }
            i += 1;
        }
        Ok(out)
    }

    /// Lists the root directory at sector 880.
    pub fn list_root_directory(&self) -> (r: Result<Vec<FileInfo>, AdfError>)
        requires
            self.wf(),
        ensures
            match r {
                Ok(v) => ({
                    &&& dir_listing_sectors(self.data@, 880) is Some
                    &&& ({
                        let secs = dir_listing_sectors(self.data@, 880)->0;
                        &&& v@.len() == secs.len()
                        &&& forall|i: int|
                            0 <= i < secs.len() ==> matches_entry(
                                #[trigger] v@[i],
                                sector_of(self.data@, secs[i] as int),
                            )
                    })
                }),
                Err(e) => e == AdfError::CorruptChain && dir_listing_sectors(self.data@, 880)
                    is None,
            },
    {
        self.list_directory(crate::consts::ROOT_BLOCK)
    }

    /// Finds the header sector of `file_name` in the directory at
    /// `dir_block` by hashing the name and walking its bucket's
    /// collision chain. Fails with `NotFound` exactly when the chain
    /// ends without the name, and with `CorruptChain` exactly when the
    /// chain is corrupt.
    pub fn find_file_header_block(&self, dir_block: usize, file_name: &str) -> (r: Result<
        usize,
        AdfError,
    >)
        requires
            self.wf(),
            dir_block < ADF_NUM_SECTORS,
        ensures
            ({
                let looked = dir_lookup(
                    self.data@,
                    dir_block as int,
                    file_name.spec_bytes(),
                    spec_intl(self.data@),
                );
                match r {
                    Ok(sec) => looked == Some(Some(sec as u32)) && 0 < sec < 1760,
                    Err(e) => (e == AdfError::NotFound && looked == Some(None::<u32>)) || (e
                        == AdfError::CorruptChain && looked is None),
                }
            }),
    {
        let name = file_name.as_bytes();
        let intl = self.data[3] & 2 == 2;
        let bucket = hash_name(name, intl);
        let start = read_be32(self.read_sector(dir_block), 24 + 4 * (bucket as usize));
        proof {
            lemma_be32_at_sector(self.data@, dir_block as int, 24 + 4 * (bucket as int));
            assert(start == slot_entry(sector_of(self.data@, dir_block as int), bucket as int));
        }
        let mut cur: u32 = start;
        let mut fuel: u32 = 1760;
        loop
            invariant
                self.wf(),
                fuel <= 1760,
                name@ == file_name.spec_bytes(),
                intl == spec_intl(self.data@),
                dir_lookup(self.data@, dir_block as int, file_name.spec_bytes(), intl)
                    == chain_lookup(self.data@, cur, name@, intl, fuel as nat),
            decreases fuel,
        {
            if cur == 0 {
                return Err(AdfError::NotFound);
            }
            if cur >= 1760 || fuel == 0 {
                return Err(AdfError::CorruptChain);
            }
            let sec = self.read_sector(cur as usize);
            let raw_len = sec[432];
            let name_len: usize = if raw_len > 30 {
                30
            } else {
                raw_len as usize
            };
            let entry_name = slice_subrange(sec, 433, 433 + name_len);
            proof {
                assert(entry_name@ =~= entry_name_bytes(sector_of(self.data@, cur as int)));
            }
            if names_match(entry_name, name, intl) {
                return Ok(cur as usize);
            }
            let next = read_be32(sec, 496);
            proof {
                lemma_be32_at_sector(self.data@, cur as int, 496);
                assert(next == entry_next_hash(sector_of(self.data@, cur as int)));
            }
            cur = next;
            fuel = fuel - 1;
        }
    }

    /// The disk name stored in the root block, in printable form.
    pub fn read_disk_name(&self) -> (r: Result<String, AdfError>)
        requires
            self.wf(),
        ensures
            r is Ok,
            r matches Ok(name) ==> name@ == crate::text::printable_chars(
                entry_name_bytes(sector_of(self.data@, 880)),
            ),
    {
        let sec = self.read_sector(crate::consts::ROOT_BLOCK);
        let raw_len = sec[432];
        let name_len: usize = if raw_len > 30 {
            30
        } else {
            raw_len as usize
        };
        let name_bytes = slice_subrange(sec, 433, 433 + name_len);
        proof {
            assert(entry_name_bytes(sec@) =~= name_bytes@);
        }
        Ok(crate::text::printable_string(name_bytes))
    }

    /// Decodes the on-disk bitmap block at sector 881 into one boolean
    /// per sector; the untracked boot sectors 0 and 1 read as used.
    pub fn decode_bitmap(&self) -> (r: Vec<bool>)
        requires
            self.wf(),
        ensures
            r@.len() == ADF_NUM_SECTORS,
            r@[0] == false,
            r@[1] == false,
            forall|s: int| 2 <= s < ADF_NUM_SECTORS ==> r@[s] == disk_bitmap_bit(self.data@, s),
    {
        let mut bm: Vec<bool> = Vec::new();
        bm.push(false);
        bm.push(false);
        let mut s: usize = 2;
        while s < ADF_NUM_SECTORS
            invariant
                self.wf(),
                2 <= s <= ADF_NUM_SECTORS,
                bm@.len() == s,
                bm@[0] == false,
                bm@[1] == false,
                forall|t: int| 2 <= t < s ==> bm@[t] == disk_bitmap_bit(self.data@, t),
            decreases ADF_NUM_SECTORS - s,
        {
            let q = (s - 2) / 32;
            let j = ((s - 2) % 32) as u32;
            let w = read_be32(self.data.as_slice(), 881 * 512 + 4 + 4 * q);
            let bit = ((w >> j) & 1) == 1;
            proof {
                assert(0 <= (s - 2) / 32 <= 54) by (nonlinear_arith)
                    requires
                        0 <= s - 2 < 1758,
                ;
                lemma_be32_at_sector(self.data@, 881, 4 + 4 * (q as int));
                assert(bit == disk_bitmap_bit(self.data@, s as int));
            }
            bm.push(bit);
            s += 1;
        }
        bm
    }
}

/// The number of free entries of a decoded bitmap.
pub fn count_free_bits(bits: &[bool]) -> (r: usize)
    ensures
        r == count_free_from(bits@, 0),
{
    let n = bits.len();
    let mut count: usize = 0;
    let mut i: usize = n;
    while i > 0
        invariant
            i <= n,
            n == bits@.len(),
            count == count_free_from(bits@, i as int),
            count <= n - i,
        decreases i,
    {
        i -= 1;
        if bits[i] {
            count += 1;
        }
    }
    count
}

/// Whether two byte names are the same, byte for byte, or byte for
/// byte after uppercasing when `intl` holds.
pub fn names_match(a: &[u8], b: &[u8], intl: bool) -> (r: bool)
    ensures
        r == names_equal(a@, b@, intl),
{
    if a.len() != b.len() {
        return false;
    }
    let n = a.len();
    let mut i: usize = 0;
    while i < n
        invariant
            i <= n,
            n == a@.len(),
            n == b@.len(),
            forall|j: int|
                0 <= j < i ==> (if intl {
                    upper_byte(a@[j]) == upper_byte(b@[j])
                } else {
                    a@[j] == b@[j]
                }),
        decreases n - i,
    {
        let x = a[i];
        let y = b[i];
        let same: bool = if intl {
            let ux: u8 = if 97 <= x && x <= 122 {
                x - 32
            } else {
                x
            };
            let uy: u8 = if 97 <= y && y <= 122 {
                y - 32
            } else {
                y
            };
            ux == uy
        } else {
            x == y
        };
        if !same {
            return false;
        }
        i += 1;
    }
    true
}

// ---------------------------------------------------------------------
// File contents
// ---------------------------------------------------------------------
/// The Fast File System flag of the volume, bit 0 of the boot flag
/// byte.
pub open spec fn spec_ffs(d: Seq<u8>) -> bool {
    d[3] & 1 == 1
}

/// The first-data-block pointer of a file header.
pub open spec fn entry_first_data(b: Seq<u8>) -> u32 {
    be32_at(b, 12)
}

/// The extension-block pointer of a file header.
pub open spec fn entry_extension(b: Seq<u8>) -> u32 {
    be32_at(b, 504)
}

/// The number of free entries of `bm` at or after index `i`.
pub open spec fn count_free_from(bm: Seq<bool>, i: int) -> int
    decreases bm.len() - i,
{
    if i < 0 || i >= bm.len() {
        0
    } else {
        count_free_from(bm, i + 1) + if bm[i] {
            1int
        } else {
            0int
        }
    }
}

/// Free counts are never negative.
pub proof fn lemma_count_free_nonneg(bm: Seq<bool>, i: int)
    ensures
        count_free_from(bm, i) >= 0,
    decreases bm.len() - i,
{
    if 0 <= i < bm.len() {
        lemma_count_free_nonneg(bm, i + 1);
    }
}

/// A free entry exists at or after `i` exactly when the free count
/// there is positive.
pub proof fn lemma_first_free_iff_count(bm: Seq<bool>, i: int)
    requires
        0 <= i,
    ensures
        first_free_from(bm, i) is Some <==> count_free_from(bm, i) > 0,
    decreases bm.len() - i,
{
    lemma_count_free_nonneg(bm, i);
    if i < bm.len() {
        lemma_first_free_iff_count(bm, i + 1);
        lemma_count_free_nonneg(bm, i + 1);
    }
}

/// Two mirrors that agree from `i` on have the same free count there.
proof fn lemma_count_free_suffix_eq(a: Seq<bool>, b: Seq<bool>, i: int)
    requires
        a.len() == b.len(),
        forall|k: int| i <= k < a.len() ==> a[k] == b[k],
    ensures
        count_free_from(a, i) == count_free_from(b, i),
    decreases a.len() - i,
{
    if 0 <= i < a.len() {
        lemma_count_free_suffix_eq(a, b, i + 1);
    }
}

/// Marking a free entry used lowers the free count by one.
pub proof fn lemma_count_free_update(bm: Seq<bool>, i: int, j: int)
    requires
        0 <= i,
        i <= j < bm.len(),
        bm[j],
    ensures
        count_free_from(bm.update(j, false), i) == count_free_from(bm, i) - 1,
    decreases bm.len() - i,
{
    if i < bm.len() {
        if i < j {
            lemma_count_free_update(bm, i + 1, j);
        } else {
            lemma_count_free_suffix_eq(bm, bm.update(j, false), j + 1);
        }
    }
}

/// The shape of a written OFS data block: type `T_DATA`, the owning
/// header, a one-based sequence number, the payload length and bytes,
/// and the next-block pointer.
pub open spec fn ofs_data_block_shape(
    b: Seq<u8>,
    h: u32,
    seq: int,
    payload: Seq<u8>,
    next: u32,
) -> bool {
    &&& be32_at(b, 0) == 8
    &&& be32_at(b, 4) == h
    &&& be32_at(b, 8) == seq
    &&& be32_at(b, 12) == payload.len()
    &&& be32_at(b, 16) == next
    &&& 0 < payload.len() <= 488
    &&& b.subrange(24, 24 + payload.len() as int) == payload
}

/// The payload of an Old File System data-block chain: from data block
/// `sec`, expecting sequence number `seq`, with `remaining` bytes still
/// owed to the file whose header sits at `header`. `None` when the
/// chain leaves the disk, cycles, carries wrong block types, owners,
/// sequence numbers or sizes, or ends at the wrong total.
pub open spec fn ofs_chain_bytes(
    d: Seq<u8>,
    header: u32,
    sec: u32,
    seq: int,
    remaining: int,
    fuel: nat,
) -> Option<Seq<u8>>
    decreases fuel,
{
    if remaining <= 0 {
        if sec == 0 {
            Some(Seq::empty())
        } else {
            None
        }
    } else if sec == 0 || sec >= 1760 || fuel == 0 {
        None
    } else {
        let b = sector_of(d, sec as int);
        let size = be32_at(b, 12) as int;
        if be32_at(b, 0) == 8 && be32_at(b, 4) == header && be32_at(b, 8) == seq && 0 < size <= 488
            && size <= remaining {
            match ofs_chain_bytes(
                d,
                header,
                be32_at(b, 16),
                seq + 1,
                remaining - size,
                (fuel - 1) as nat,
            ) {
                Some(rest) => Some(b.subrange(24, 24 + size) + rest),
                None => None,
            }
        } else {
            None
        }
    }
}

/// Data-block pointer `i` of a file header: the table runs backwards,
/// slot 71 holding the first block.
pub open spec fn ffs_block_ptr(hb: Seq<u8>, i: int) -> u32 {
    slot_entry(hb, 71 - i)
}

/// The payload of a Fast File System file from data-block index `i`
/// on, `remaining` bytes still owed: 512 raw bytes per block, the last
/// block clipped. `None` when a pointer is missing or off the disk, or
/// when the file would need more than the 72 table slots.
pub open spec fn ffs_bytes_from(d: Seq<u8>, header: u32, i: int, remaining: int) -> Option<Seq<u8>>
    decreases remaining,
{
    if remaining <= 0 {
        Some(Seq::empty())
    } else if i >= 72 {
        None
    } else {
        let p = ffs_block_ptr(sector_of(d, header as int), i);
        if p == 0 || p >= 1760 {
            None
        } else {
            let take: int = if remaining < 512 {
                remaining
            } else {
                512
            };
            match ffs_bytes_from(d, header, i + 1, remaining - take) {
                Some(rest) => Some(sector_of(d, p as int).subrange(0, take) + rest),
                None => None,
            }
        }
    }
}

/// The contents of the file whose header sits at sector `h`, read
/// through the variant's data-block scheme: the header's byte size
/// from an OFS chain or from the FFS pointer table.
pub open spec fn file_contents(d: Seq<u8>, h: u32, ffs: bool) -> Option<Seq<u8>> {
    let hb = sector_of(d, h as int);
    let size = entry_size(hb) as int;
    if ffs {
        ffs_bytes_from(d, h, 0, size)
    } else {
        ofs_chain_bytes(d, h, entry_first_data(hb), 1, size, 1760)
    }
}

/// A Fast File System file larger than the 72 table slots can hold has
/// no in-table contents.
proof fn lemma_ffs_too_large(d: Seq<u8>, header: u32, i: int, remaining: int)
    requires
        0 <= i <= 72,
        remaining > 512 * (72 - i),
    ensures
        ffs_bytes_from(d, header, i, remaining) is None,
    decreases 72 - i,
{
    if i < 72 {
        let p = ffs_block_ptr(sector_of(d, header as int), i);
        if p != 0 && p < 1760 {
            lemma_ffs_too_large(d, header, i + 1, remaining - 512);
        }
    }
}

impl ADF {
    /// The number of free sectors at or after sector 2 in the mirror.
    pub fn count_free_blocks(&self) -> (r: usize)
        ensures
            r == count_free_from(self.bitmap@, 2),
    {
        let n = self.bitmap.len();
        if n < 2 {
            return 0;
        }
        let mut count: usize = 0;
        let mut i: usize = n;
        while i > 2
            invariant
                2 <= i <= n,
                n == self.bitmap@.len(),
                count == count_free_from(self.bitmap@, i as int),
                count <= n - i,
            decreases i,
        {
            i -= 1;
            if self.bitmap[i] {
                count += 1;
            }
        }
        count
    }

    /// Reads the contents of the file whose header sits at `block`,
    /// following the volume's variant; fails with `CorruptChain`
    /// exactly when the stored structure does not deliver the header's
    /// byte size, except that an FFS file needing an extension block
    /// is reported `Unsupported`.
    pub fn read_file_contents(&self, block: usize) -> (r: Result<Vec<u8>, AdfError>)
        requires
            self.wf(),
            block < ADF_NUM_SECTORS,
        ensures
            ({
                let model = file_contents(self.data@, block as u32, spec_ffs(self.data@));
                match r {
                    Ok(v) => model == Some(v@),
                    Err(e) => model is None && (e == AdfError::CorruptChain || (e
                        == AdfError::Unsupported && entry_extension(
                        sector_of(self.data@, block as int),
                    ) != 0)),
                }
            }),
    {
        let hb = self.read_sector(block);
        let size = read_be32(hb, 324);
        proof {
            lemma_be32_at_sector(self.data@, block as int, 324);
        }
        let flag = self.data[3];
        let ffs = flag & 1 == 1;
        if ffs {
            if size > 72 * 512 {
                let ext = read_be32(hb, 504);
                proof {
                    lemma_be32_at_sector(self.data@, block as int, 504);
                    lemma_ffs_too_large(self.data@, block as u32, 0, size as int);
                }
                if ext != 0 {
                    return Err(AdfError::Unsupported);
                } else {
                    return Err(AdfError::CorruptChain);
                }
            }
            let mut out: Vec<u8> = Vec::new();
            let mut i: usize = 0;
            let mut remaining: u32 = size;
            proof {
                assert(Seq::<u8>::empty() + file_contents(
                    self.data@,
                    block as u32,
                    true,
                )->0 =~= file_contents(self.data@, block as u32, true)->0);
            }
            while remaining > 0
                invariant
                    self.wf(),
                    block < ADF_NUM_SECTORS,
                    i <= 72,
                    spec_ffs(self.data@),
                    remaining > 512 * (72 - i) ==> ffs_bytes_from(
                        self.data@,
                        block as u32,
                        i as int,
                        remaining as int,
                    ) is None,
                    file_contents(self.data@, block as u32, true) == opt_concat(
                        out@,
                        ffs_bytes_from(self.data@, block as u32, i as int, remaining as int),
                    ),
                decreases remaining,
            {
                if i >= 72 {
                    return Err(AdfError::CorruptChain);
                }
                let p = read_be32(self.read_sector(block), 24 + 4 * (71 - i));
                proof {
                    lemma_be32_at_sector(self.data@, block as int, 24 + 4 * (71 - i as int));
                    assert(p == ffs_block_ptr(sector_of(self.data@, block as int), i as int));
                }
                if p == 0 || p >= 1760 {
                    return Err(AdfError::CorruptChain);
                }
                let take: u32 = if remaining < 512 {
                    remaining
                } else {
                    512
                };
                let sec = self.read_sector(p as usize);
                let chunk = slice_subrange(sec, 0, take as usize);
                let ghost pre = out@;
                let ghost rest_model = ffs_bytes_from(
                    self.data@,
                    block as u32,
                    i as int + 1,
                    remaining as int - take as int,
                );
                out.extend_from_slice(chunk);
                proof {
                    match rest_model {
                        Some(rest) => {
                            assert(pre + (chunk@ + rest) =~= (pre + chunk@) + rest);
                        },
                        None => {},
                    }
                    if remaining - take > 512 * (72 - (i + 1)) {
                        lemma_ffs_too_large(
                            self.data@,
                            block as u32,
                            i as int + 1,
                            remaining as int - take as int,
                        );
                    }
                }
                i += 1;
                remaining -= take;
            }
            proof {
                assert(out@ + Seq::<u8>::empty() =~= out@);
            }
            Ok(out)
        } else {
            let first = read_be32(hb, 12);
            proof {
                lemma_be32_at_sector(self.data@, block as int, 12);
            }
            let mut out: Vec<u8> = Vec::new();
            let mut cur: u32 = first;
            let mut seq: u32 = 1;
            let mut remaining: u32 = size;
            let mut fuel: u32 = 1760;
            loop
                invariant
                    self.wf(),
                    block < ADF_NUM_SECTORS,
                    fuel <= 1760,
                    seq as int + fuel as int == 1761,
                    !spec_ffs(self.data@),
                    file_contents(self.data@, block as u32, false) == opt_concat(
                        out@,
                        ofs_chain_bytes(
                            self.data@,
                            block as u32,
                            cur,
                            seq as int,
                            remaining as int,
                            fuel as nat,
                        ),
                    ),
                decreases fuel,
            {
                if remaining == 0 {
                    if cur == 0 {
                        proof {
                            assert(out@ + Seq::<u8>::empty() =~= out@);
                        }
                        return Ok(out);
                    }
                    return Err(AdfError::CorruptChain);
                }
                if cur == 0 || cur >= 1760 || fuel == 0 {
                    return Err(AdfError::CorruptChain);
                }
                let sec = self.read_sector(cur as usize);
                let btype = read_be32(sec, 0);
                let owner = read_be32(sec, 4);
                let bseq = read_be32(sec, 8);
                let bsize = read_be32(sec, 12);
                let next = read_be32(sec, 16);
                proof {
                    lemma_be32_at_sector(self.data@, cur as int, 0);
                    lemma_be32_at_sector(self.data@, cur as int, 4);
                    lemma_be32_at_sector(self.data@, cur as int, 8);
                    lemma_be32_at_sector(self.data@, cur as int, 12);
                    lemma_be32_at_sector(self.data@, cur as int, 16);
                }
                if !(btype == 8 && owner == block as u32 && bseq == seq && 0 < bsize && bsize <= 488
                    && bsize <= remaining) {
                    return Err(AdfError::CorruptChain);
                }
                let chunk = slice_subrange(sec, 24, 24 + bsize as usize);
                let ghost pre = out@;
                let ghost rest_model = ofs_chain_bytes(
                    self.data@,
                    block as u32,
                    next,
                    seq as int + 1,
                    remaining as int - bsize as int,
                    (fuel - 1) as nat,
                );
                out.extend_from_slice(chunk);
                proof {
                    match rest_model {
                        Some(rest) => {
                            assert(pre + (chunk@ + rest) =~= (pre + chunk@) + rest);
                        },
                        None => {},
                    }
                }
                cur = next;
                seq += 1;
                remaining -= bsize;
                fuel -= 1;
            }
        }
    }

    /// Extracts the file named `file_name` from the root directory:
    /// resolves it through the directory hash, refuses a directory,
    /// reads its contents, and notes whether they are printable text.
    pub fn extract_file(&self, file_name: &str) -> (r: Result<ExtractedFile, AdfError>)
        requires
            self.wf(),
        ensures
            ({
                let looked = dir_lookup(
                    self.data@,
                    880,
                    file_name.spec_bytes(),
                    spec_intl(self.data@),
                );
                match r {
                    Ok(ef) => ({
                        &&& looked == Some(Some(ef.header_block))
                        &&& 0 < ef.header_block < 1760
                        &&& !entry_is_dir(sector_of(self.data@, ef.header_block as int))
                        &&& file_contents(self.data@, ef.header_block, spec_ffs(self.data@))
                            == Some(ef.contents@)
                        &&& ef.name@ == file_name@
                        &&& ef.size == entry_size(sector_of(self.data@, ef.header_block as int))
                        &&& ef.is_ascii == (forall|i: int|
                            0 <= i < ef.contents@.len() ==> crate::text::spec_text_byte(
                                #[trigger] ef.contents@[i],
                            ))
                    }),
                    Err(e) => {
                        ||| (e == AdfError::NotFound && looked == Some(None::<u32>))
                        ||| (e == AdfError::CorruptChain && looked is None)
                        ||| (looked matches Some(Some(h)) && entry_is_dir(
                            sector_of(self.data@, h as int),
                        ) && e == AdfError::Unsupported)
                        ||| (looked matches Some(Some(h)) && !entry_is_dir(
                            sector_of(self.data@, h as int),
                        ) && file_contents(self.data@, h, spec_ffs(self.data@)) is None && (e
                            == AdfError::CorruptChain || e == AdfError::Unsupported))
                    },
                }
            }),
    {
        let h = match self.find_file_header_block(crate::consts::ROOT_BLOCK, file_name) {
            Ok(h) => h,
            Err(e) => {
                return Err(e);
            },
        };
        let sectype = read_be32(self.read_sector(h), 508);
        proof {
            lemma_be32_at_sector(self.data@, h as int, 508);
        }
        if sectype == 1 || sectype == 2 {
            return Err(AdfError::Unsupported);
        }
        let contents = match self.read_file_contents(h) {
            Ok(v) => v,
            Err(e) => {
                return Err(e);
            },
        };
        let is_ascii = crate::text::all_text_bytes(contents.as_slice());
        let size = read_be32(self.read_sector(h), 324);
        proof {
            lemma_be32_at_sector(self.data@, h as int, 324);
        }
        let name = String::from_str(file_name);
        Ok(
            ExtractedFile {
                name,
                size,
                header_block: h as u32,
                is_ascii,
                contents,
            },
        )
    }
}

impl ExtractedFile {
    /// The raw bytes of the extracted file.
    pub fn as_bytes(&self) -> (r: &[u8])
        ensures
            r@ == self.contents@,
    {
        self.contents.as_slice()
    }

    /// The contents as text: succeeds exactly when every byte is an
    /// ASCII graphic or whitespace character.
    pub fn as_string(&self) -> (r: Result<String, AdfError>)
        ensures
            match r {
                Ok(text) => (forall|i: int|
                    0 <= i < self.contents@.len() ==> crate::text::spec_text_byte(
                        #[trigger] self.contents@[i],
                    )) && text@ == crate::text::chars_of_bytes(self.contents@),
                Err(e) => e == AdfError::Unsupported && !(forall|i: int|
                    0 <= i < self.contents@.len() ==> crate::text::spec_text_byte(
                        #[trigger] self.contents@[i],
                    )),
            },
    {
        if crate::text::all_text_bytes(self.contents.as_slice()) {
            Ok(crate::text::ascii_string(self.contents.as_slice()))
        } else {
            Err(AdfError::Unsupported)
        }
    }
}


// ---------------------------------------------------------------------
// Reporting
// ---------------------------------------------------------------------
/// The protection letters as bytes: `hsparwed`, each position showing
/// its letter when its bit is clear and `-` when the bit is set.
pub open spec fn prot_bytes(flags: u32) -> Seq<u8> {
    seq![
        if flags & 0x80 == 0 {
            104u8
        } else {
            45u8
        },
        if flags & 0x40 == 0 {
            115u8
        } else {
            45u8
        },
        if flags & 0x20 == 0 {
            112u8
        } else {
            45u8
        },
        if flags & 0x10 == 0 {
            97u8
        } else {
            45u8
        },
        if flags & 0x8 == 0 {
            114u8
        } else {
            45u8
        },
        if flags & 0x4 == 0 {
            119u8
        } else {
            45u8
        },
        if flags & 0x2 == 0 {
            101u8
        } else {
            45u8
        },
        if flags & 0x1 == 0 {
            100u8
        } else {
            45u8
        },
    ]
}

/// The rendered protection string of a protection word.
pub open spec fn spec_protection_string(flags: u32) -> Seq<char> {
    crate::text::chars_of_bytes(prot_bytes(flags))
}

/// One line of a directory listing: the name, the byte size in
/// decimal, and a newline.
pub open spec fn render_entry(name: Seq<char>, size: u32) -> Seq<char> {
    name + seq![' ', '('] + crate::text::dec_digits(size as int) + seq![
        ' ',
        'b',
        'y',
        't',
        'e',
        's',
        ')',
        '\n',
    ]
}

/// The rendered lines of the listing entries `secs[k..]`.
pub open spec fn render_from(d: Seq<u8>, secs: Seq<u32>, k: int) -> Seq<char>
    decreases secs.len() - k,
{
    if k < 0 || k >= secs.len() {
        Seq::empty()
    } else {
        render_entry(
            crate::text::printable_chars(entry_name_bytes(sector_of(d, secs[k] as int))),
            entry_size(sector_of(d, secs[k] as int)),
        ) + render_from(d, secs, k + 1)
    }
}

/// One rendered listing line as ASCII bytes: the printable name, the
/// size in decimal, and the fixed punctuation.
fn render_line_bytes(name_bytes: &[u8], size: u32) -> (r: Vec<u8>)
    ensures
        crate::text::chars_of_bytes(r@) == render_entry(
            crate::text::printable_chars(name_bytes@),
            size,
        ),
        forall|i: int| 0 <= i < r@.len() ==> #[trigger] r@[i] < 128,
{
    let n = name_bytes.len();
    let mut v: Vec<u8> = Vec::new();
    let mut j: usize = 0;
    while j < n
        invariant
            j <= n,
            n == name_bytes@.len(),
            v@.len() == j,
            forall|i: int|
                0 <= i < j ==> #[trigger] v@[i] == crate::text::sanitize_byte(name_bytes@[i]),
        decreases n - j,
    {
        let b = name_bytes[j];
        if b < 128 {
            v.push(b);
        } else {
            v.push(63);
        }
        j += 1;
    }
    let ghost a = v@;
    proof {
        assert(crate::text::chars_of_bytes(a) =~= crate::text::printable_chars(name_bytes@));
    }
    v.push(32);
    v.push(40);
    let ghost a2 = v@;
    proof {
        assert(a2 =~= a + seq![32u8, 40u8]);
        crate::text::lemma_chars_concat(a, seq![32u8, 40u8]);
        assert(crate::text::chars_of_bytes(seq![32u8, 40u8]) =~= seq![' ', '(']);
    }
    let digits = crate::text::dec_bytes(size as u64);
    let ghost dv = digits@;
    v.extend_from_slice(digits.as_slice());
    let ghost a3 = v@;
    proof {
        assert(a3 =~= a2 + dv);
        crate::text::lemma_chars_concat(a2, dv);
    }
    v.push(32);
    v.push(98);
    v.push(121);
    v.push(116);
    v.push(101);
    v.push(115);
    v.push(41);
    v.push(10);
    proof {
        let tail = seq![32u8, 98u8, 121u8, 116u8, 101u8, 115u8, 41u8, 10u8];
        assert(v@ =~= a3 + tail);
        crate::text::lemma_chars_concat(a3, tail);
        assert(crate::text::chars_of_bytes(tail) =~= seq![' ', 'b', 'y', 't', 'e', 's', ')', '\n']);
        assert(crate::text::chars_of_bytes(v@) =~= render_entry(
            crate::text::printable_chars(name_bytes@),
            size,
        ));
    }
    v
}

impl ADF {
    /// The protection letters of a protection word: `hsparwed`, a
    /// letter where its bit is clear, `-` where it is set.
    pub fn format_protection_flags(&self, flags: u32) -> (r: String)
        ensures
            r@ == spec_protection_string(flags),
    {
        let mut v: Vec<u8> = Vec::new();
        v.push(if flags & 0x80 == 0 { 104 } else { 45 });
        v.push(if flags & 0x40 == 0 { 115 } else { 45 });
        v.push(if flags & 0x20 == 0 { 112 } else { 45 });
        v.push(if flags & 0x10 == 0 { 97 } else { 45 });
        v.push(if flags & 0x8 == 0 { 114 } else { 45 });
        v.push(if flags & 0x4 == 0 { 119 } else { 45 });
        v.push(if flags & 0x2 == 0 { 101 } else { 45 });
        v.push(if flags & 0x1 == 0 { 100 } else { 45 });
        proof {
            assert(v@ =~= prot_bytes(flags));
        }
        crate::text::ascii_string(v.as_slice())
    }

    /// The volume summary: variant, name, raw creation-day stamp,
    /// geometry, hash-table size, and the reserved structural blocks.
    pub fn information(&self) -> (r: Result<DiskInfo, AdfError>)
        requires
            self.wf(),
        ensures
            r is Ok,
            r matches Ok(info) ==> ({
                let root = sector_of(self.data@, 880);
                &&& info.filesystem@ == (if spec_ffs(self.data@) {
                    seq!['F', 'F', 'S']
                } else {
                    seq!['O', 'F', 'S']
                })
                &&& info.disk_name@ == crate::text::printable_chars(entry_name_bytes(root))
                &&& info.creation_date == be32_at(root, 420)
                &&& info.disk_size == ADF_IMAGE_SIZE
                &&& info.heads == 2
                &&& info.tracks == 80
                &&& info.sectors_per_track == 11
                &&& info.bytes_per_sector == 512
                &&& info.hash_table_size == be32_at(root, 12)
                &&& info.first_reserved_block == 880
                &&& info.last_reserved_block == 882
            }),
    {
        let flag = self.data[3];
        let filesystem = if flag & 1 == 1 {
            let v: Vec<u8> = vec![70u8, 70u8, 83u8];
            proof {
                assert(crate::text::chars_of_bytes(v@) =~= seq!['F', 'F', 'S']);
            }
            crate::text::ascii_string(v.as_slice())
        } else {
            let v: Vec<u8> = vec![79u8, 70u8, 83u8];
            proof {
                assert(crate::text::chars_of_bytes(v@) =~= seq!['O', 'F', 'S']);
            }
            crate::text::ascii_string(v.as_slice())
        };
        let disk_name = match self.read_disk_name() {
            Ok(n) => n,
            Err(e) => {
                return Err(e);
            },
        };
        let root = self.read_sector(crate::consts::ROOT_BLOCK);
        let creation_date = read_be32(root, 420);
        let hash_table_size = read_be32(root, 12);
        proof {
            lemma_be32_at_sector(self.data@, 880, 420);
            lemma_be32_at_sector(self.data@, 880, 12);
        }
        Ok(
            DiskInfo {
                filesystem,
                disk_name,
                creation_date,
                disk_size: ADF_IMAGE_SIZE as u32,
                heads: 2,
                tracks: 80,
                sectors_per_track: 11,
                bytes_per_sector: 512,
                hash_table_size,
                first_reserved_block: 880,
                last_reserved_block: 882,
            },
        )
    }

    /// Renders the root directory, one line per entry: the name and
    /// the byte size.
    pub fn list(&self) -> (r: Result<String, AdfError>)
        requires
            self.wf(),
        ensures
            match r {
                Ok(text) => dir_listing_sectors(self.data@, 880) is Some && text@ == render_from(
                    self.data@,
                    dir_listing_sectors(self.data@, 880)->0,
                    0,
                ),
                Err(e) => e == AdfError::CorruptChain && dir_listing_sectors(self.data@, 880)
                    is None,
            },
    {
        let mut secs: Vec<u32> = Vec::new();
        let mut slot: usize = 72;
        while slot > 0
            invariant
                self.wf(),
                slot <= 72,
                forall|i: int| 0 <= i < secs@.len() ==> 0 < #[trigger] secs@[i] < 1760,
                dir_listing_sectors(self.data@, 880) == opt_concat(
                    secs@,
                    dir_sectors_down(self.data@, 880, slot as int - 1),
                ),
            decreases slot,
        {
            let entry = read_be32(self.read_sector(crate::consts::ROOT_BLOCK), 24 + 4 * (slot - 1));
            proof {
                lemma_be32_at_sector(self.data@, 880, 24 + 4 * (slot as int - 1));
                assert(entry == slot_entry(sector_of(self.data@, 880), slot as int - 1));
            }
            let ghost pre = secs@;
            match self.walk_chain(entry) {
                Ok(mut c) => {
                    let ghost cv = c@;
                    secs.append(&mut c);
                    proof {
                        assert(secs@ =~= pre + cv);
                        match dir_sectors_down(self.data@, 880, slot as int - 2) {
                            Some(rest) => {
                                assert(pre + (cv + rest) =~= (pre + cv) + rest);
                            },
                            None => {},
                        }
                    }
                },
                Err(e) => {
                    return Err(e);
                },
            }
            slot = slot - 1;
        }
        proof {
            assert(dir_sectors_down(self.data@, 880, -1) == Some(Seq::<u32>::empty()));
            assert(secs@ + Seq::<u32>::empty() =~= secs@);
        }
        let ghost model = secs@;
        let mut buf: Vec<u8> = Vec::new();
        let n = secs.len();
        let mut k: usize = 0;
        while k < n
            invariant
                self.wf(),
                k <= n,
                n == secs@.len(),
                secs@ == model,
                forall|i: int| 0 <= i < secs@.len() ==> 0 < #[trigger] secs@[i] < 1760,
                forall|i: int| 0 <= i < buf@.len() ==> #[trigger] buf@[i] < 128,
                render_from(self.data@, model, 0) == crate::text::chars_of_bytes(buf@)
                    + render_from(self.data@, model, k as int),
            decreases n - k,
        {
            let sec = self.read_sector(secs[k] as usize);
            let raw_len = sec[432];
            let name_len: usize = if raw_len > 30 {
                30
            } else {
                raw_len as usize
            };
            let size = read_be32(sec, 324);
            proof {
                lemma_be32_at_sector(self.data@, secs@[k as int] as int, 324);
            }
            let name_bytes = slice_subrange(sec, 433, 433 + name_len);
            let line = render_line_bytes(name_bytes, size);
            let ghost pre = buf@;
            let ghost lv = line@;
            buf.extend_from_slice(line.as_slice());
            proof {
                let hb = sector_of(self.data@, model[k as int] as int);
                assert(entry_name_bytes(hb) =~= name_bytes@);
                let rline = render_entry(
                    crate::text::printable_chars(entry_name_bytes(hb)),
                    entry_size(hb),
                );
                assert(buf@ =~= pre + lv);
                crate::text::lemma_chars_concat(pre, lv);
                assert(crate::text::chars_of_bytes(buf@) =~= crate::text::chars_of_bytes(pre)
                    + rline);
                assert(render_from(self.data@, model, k as int) == rline + render_from(
                    self.data@,
                    model,
                    k as int + 1,
                ));
                assert((crate::text::chars_of_bytes(pre) + rline) + render_from(
                    self.data@,
                    model,
                    k as int + 1,
                ) =~= crate::text::chars_of_bytes(pre) + (rline + render_from(
                    self.data@,
                    model,
                    k as int + 1,
                )));
            }
            k += 1;
        }
        proof {
            assert(render_from(self.data@, model, n as int) =~= Seq::<char>::empty());
            assert(crate::text::chars_of_bytes(buf@) + Seq::<char>::empty()
                =~= crate::text::chars_of_bytes(buf@));
        }
        Ok(crate::text::ascii_string(buf.as_slice()))
    }
}

/// The creation instant, in POSIX seconds, rendered in decimal.
pub fn format_creation_date(secs: u64) -> (r: String)
    ensures
        r@ == crate::text::dec_digits(secs as int),
{
    crate::text::u64_to_string(secs)
}

impl DiskInfo {
    /// A one-line rendering of the summary: variant, name, size and
    /// hash-table size separated by spaces.
    pub fn as_string(&self) -> (r: String)
        ensures
            r@ == self.filesystem@ + seq![' '] + self.disk_name@ + seq![' ']
                + crate::text::dec_digits(self.disk_size as int) + seq![' ']
                + crate::text::dec_digits(self.hash_table_size as int),
    {
        let mut r = String::new();
        r.append(self.filesystem.as_str());
        r.append(" ");
        r.append(self.disk_name.as_str());
        r.append(" ");
        let size_text = crate::text::u64_to_string(self.disk_size as u64);
        r.append(size_text.as_str());
        r.append(" ");
        let ht_text = crate::text::u64_to_string(self.hash_table_size as u64);
        r.append(ht_text.as_str());
        proof {
            reveal_strlit(" ");
            assert(" "@ =~= seq![' ']);
            assert(r@ =~= self.filesystem@ + seq![' '] + self.disk_name@ + seq![' ']
                + crate::text::dec_digits(self.disk_size as int) + seq![' ']
                + crate::text::dec_digits(self.hash_table_size as int));
        }
        r
    }
}

} // verus!
