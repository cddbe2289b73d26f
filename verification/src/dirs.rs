use vstd::prelude::*;
use vstd::slice::slice_subrange;
use vstd::slice::slice_to_vec;
use vstd::string::StrSliceExecFns;
use vstd::string::StringSliceAdditionalSpecFns;
use crate::consts::ADF_IMAGE_SIZE;
use crate::consts::ADF_NUM_SECTORS;
use crate::consts::ROOT_BLOCK;
use crate::disk::ADF;
use crate::disk::block_sum_ok;
use crate::disk::chain_lookup;
use crate::disk::dir_lookup;
use crate::disk::entry_is_dir;
use crate::disk::entry_name_bytes;
use crate::disk::entry_next_hash;
use crate::disk::entry_secondary_type;
use crate::disk::hash_name;
use crate::disk::lemma_be32_at_sector;
use crate::disk::name_hash;
use crate::disk::names_equal;
use crate::disk::names_match;
use crate::disk::sector_of;
use crate::disk::slot_entry;
use crate::disk::spec_intl;
use crate::endian::be32_at;
use crate::endian::be32_bytes;
use crate::endian::lemma_be32_roundtrip;
use crate::endian::read_be32;
use crate::endian::write_be32;
use crate::err::AdfError;

verus! {

/// The index of the last `/` byte of `b` at or before `i`, if any.
pub open spec fn last_slash(b: Seq<u8>, i: int) -> Option<int>
    decreases i + 1,
{
    if i < 0 || i >= b.len() {
        None
    } else if b[i] == 47 {
        Some(i)
    } else {
        last_slash(b, i - 1)
    }
}

/// The length of the first path component of `p`: the bytes before the
/// first `/`, or all of `p` when it has none.
pub open spec fn component_len(p: Seq<u8>) -> nat
    decreases p.len(),
{
    if p.len() == 0 {
        0
    } else if p[0] == 47 {
        0
    } else {
        1 + component_len(p.drop_first())
    }
}

/// The first component never runs past the path.
pub proof fn lemma_component_len_bounds(p: Seq<u8>)
    ensures
        0 <= component_len(p) <= p.len(),
        forall|j: int| 0 <= j < component_len(p) ==> p[j] != 47,
        component_len(p) < p.len() ==> p[component_len(p) as int] == 47,
    decreases p.len(),
{
    if p.len() > 0 && p[0] != 47 {
        lemma_component_len_bounds(p.drop_first());
        assert forall|j: int| 0 <= j < component_len(p) implies p[j] != 47 by {
            if j > 0 {
                assert(p.drop_first()[j - 1] != 47);
            }
        }
        if component_len(p) < p.len() {
            assert(p.drop_first()[component_len(p) as int - 1] == 47);
        }
    }
}

/// Resolves a `/`-separated path against the directory tree, starting
/// at the directory block `cur`: empty components are skipped, each
/// named component is looked up in the current directory and must be a
/// directory itself. Fails with `NotFound`, `NotADirectory` or
/// `CorruptChain` as the walk does.
pub open spec fn resolve_from(d: Seq<u8>, cur: u32, p: Seq<u8>, intl: bool) -> Result<
    u32,
    AdfError,
>
    decreases p.len(),
    via resolve_from_decreases
{
    if p.len() == 0 {
        Ok(cur)
    } else if p[0] == 47 {
        resolve_from(d, cur, p.drop_first(), intl)
    } else {
        let n = component_len(p) as int;
        let name = p.subrange(0, n);
        let rest = p.subrange(n, p.len() as int);
        match dir_lookup(d, cur as int, name, intl) {
            None => Err(AdfError::CorruptChain),
            Some(None) => Err(AdfError::NotFound),
            Some(Some(b)) => if entry_is_dir(sector_of(d, b as int)) {
                resolve_from(d, b, rest, intl)
            } else {
                Err(AdfError::NotADirectory)
            },
        }
    }
}

#[via_fn]
proof fn resolve_from_decreases(d: Seq<u8>, cur: u32, p: Seq<u8>, intl: bool) {
    if p.len() > 0 && p[0] != 47 {
        lemma_component_len_bounds(p);
        assert(component_len(p) >= 1);
    }
}

/// The predecessor of `target` in the collision chain from `sec`:
/// `Some(None)` when `target` heads the chain, `Some(Some(p))` when
/// header `p` links to it, `None` when the chain ends or is corrupt
/// before reaching `target`.
pub open spec fn chain_pred(d: Seq<u8>, sec: u32, target: u32, fuel: nat) -> Option<Option<u32>>
    decreases fuel,
{
    if sec == 0 || sec >= 1760 || fuel == 0 {
        None
    } else if sec == target {
        Some(None)
    } else {
        match chain_pred(d, entry_next_hash(sector_of(d, sec as int)), target, (fuel - 1) as nat) {
            None => None,
            Some(None) => Some(Some(sec)),
            Some(Some(p)) => Some(Some(p)),
        }
    }
}

impl ADF {
    /// Whether the block at `block` is a directory: its secondary type
    /// is `ST_ROOT` or `ST_DIR`.
    pub fn is_directory(&self, block: usize) -> (r: bool)
        requires
            self.wf(),
            block < ADF_NUM_SECTORS,
        ensures
            r == entry_is_dir(sector_of(self.data@, block as int)),
    {
        let sectype = read_be32(self.read_sector(block), 508);
        proof {
            lemma_be32_at_sector(self.data@, block as int, 508);
        }
        sectype == 1 || sectype == 2
    }

    /// Whether the directory at `dir_block` is empty: all 72 hash
    /// buckets are zero.
    pub fn is_directory_empty(&self, dir_block: usize) -> (r: Result<bool, AdfError>)
        requires
            self.wf(),
            dir_block < ADF_NUM_SECTORS,
        ensures
            r matches Ok(empty) && (empty <==> forall|slot: int|
                0 <= slot < 72 ==> #[trigger] slot_entry(
                    sector_of(self.data@, dir_block as int),
                    slot,
                ) == 0),
    {
        let sec = self.read_sector(dir_block);
        let mut slot: usize = 0;
        while slot < 72
            invariant
                self.wf(),
                dir_block < ADF_NUM_SECTORS,
                slot <= 72,
                sec@ == sector_of(self.data@, dir_block as int),
                forall|j: int|
                    0 <= j < slot ==> #[trigger] slot_entry(
                        sector_of(self.data@, dir_block as int),
                        j,
                    ) == 0,
            decreases 72 - slot,
        {
            let e = read_be32(sec, 24 + 4 * slot);
            if e != 0 {
                proof {
                    assert(slot_entry(sector_of(self.data@, dir_block as int), slot as int) != 0);
                }
                return Ok(false);
            }
            slot += 1;
        }
        Ok(true)
    }

    /// Finds the header sector of the byte name `name` in the
    /// directory at `dir_block`; the byte-level core of
    /// `find_file_header_block`.
    pub(crate) fn lookup_in_dir(&self, dir_block: usize, name: &[u8]) -> (r: Result<u32, AdfError>)
        requires
            self.wf(),
            dir_block < ADF_NUM_SECTORS,
        ensures
            ({
                let looked = dir_lookup(self.data@, dir_block as int, name@, spec_intl(self.data@));
                match r {
                    Ok(sec) => looked == Some(Some(sec)) && 0 < sec < 1760,
                    Err(e) => (e == AdfError::NotFound && looked == Some(None::<u32>)) || (e
                        == AdfError::CorruptChain && looked is None),
                }
            }),
    {
        let intl = self.data[3] & 2 == 2;
        let bucket = hash_name(name, intl);
        let start = read_be32(self.read_sector(dir_block), 24 + 4 * (bucket as usize));
        proof {
            lemma_be32_at_sector(self.data@, dir_block as int, 24 + 4 * (bucket as int));
            assert(start == slot_entry(sector_of(self.data@, dir_block as int), bucket as int));
        }
        let mut cur: u32 = start;
        let mut fuel: u32 = 1760;
        loop
            invariant
                self.wf(),
                fuel <= 1760,
                intl == spec_intl(self.data@),
                dir_lookup(self.data@, dir_block as int, name@, intl) == chain_lookup(
                    self.data@,
                    cur,
                    name@,
                    intl,
                    fuel as nat,
                ),
            decreases fuel,
        {
            if cur == 0 {
                return Err(AdfError::NotFound);
            }
            if cur >= 1760 || fuel == 0 {
                return Err(AdfError::CorruptChain);
            }
            let sec = self.read_sector(cur as usize);
            let raw_len = sec[432];
            let name_len: usize = if raw_len > 30 {
                30
            } else {
                raw_len as usize
            };
            let entry_name = slice_subrange(sec, 433, 433 + name_len);
            proof {
                assert(entry_name@ =~= entry_name_bytes(sector_of(self.data@, cur as int)));
            }
            if names_match(entry_name, name, intl) {
                return Ok(cur);
            }
            let next = read_be32(sec, 496);
            proof {
                lemma_be32_at_sector(self.data@, cur as int, 496);
            }
            cur = next;
            fuel = fuel - 1;
        }
    }

    /// Resolves a `/`-separated byte path from the root directory.
    pub(crate) fn resolve_path(&self, path: &[u8]) -> (r: Result<u32, AdfError>)
        requires
            self.wf(),
        ensures
            r == resolve_from(self.data@, 880, path@, spec_intl(self.data@)),
            r matches Ok(b) ==> b < 1760,
    {
        let ghost intl = spec_intl(self.data@);
        let mut cur: u32 = 880;
        let mut i: usize = 0;
        let n = path.len();
        proof {
            assert(path@.skip(0) =~= path@);
        }
        while i < n
            invariant
                self.wf(),
                i <= n,
                n == path@.len(),
                cur < 1760,
                resolve_from(self.data@, 880, path@, intl) == resolve_from(
                    self.data@,
                    cur,
                    path@.skip(i as int),
                    intl,
                ),
                intl == spec_intl(self.data@),
            decreases n - i,
        {
            let ghost p = path@.skip(i as int);
            if path[i] == 47 {
                proof {
                    assert(p[0] == 47);
                    assert(p.drop_first() =~= path@.skip(i as int + 1));
                }
                i += 1;
            } else {
                // Find the end of this component.
                let mut j: usize = i;
                while j < n && path[j] != 47
                    invariant
                        i <= j <= n,
                        n == path@.len(),
                        forall|t: int| i <= t < j ==> path@[t] != 47,
                    decreases n - j,
                {
                    j += 1;
                }
                proof {
                    lemma_component_len_bounds(p);
                    assert forall|t: int| 0 <= t < j - i implies p[t] != 47 by {
                        assert(p[t] == path@[i + t]);
                    }
                    if j < n {
                        assert(p[j - i] == path@[j as int]);
                    }
                    assert(component_len(p) == j - i) by {
                        if component_len(p) < j - i {
                            assert(p[component_len(p) as int] != 47);
                            lemma_component_len_bounds(p);
                        }
                        if component_len(p) > j - i {
                            assert(j < n);
                            assert(p[j - i] == 47);
                        }
                    }
                }
                let name = slice_subrange(path, i, j);
                proof {
                    assert(name@ =~= p.subrange(0, j - i));
                }
                match self.lookup_in_dir(cur as usize, name) {
                    Ok(b) => {
                        let sectype = read_be32(self.read_sector(b as usize), 508);
                        proof {
                            lemma_be32_at_sector(self.data@, b as int, 508);
                        }
                        if sectype == 1 || sectype == 2 {
                            proof {
                                assert(p.subrange(j - i, p.len() as int) =~= path@.skip(j as int));
                            }
                            cur = b;
                            i = j;
                        } else {
                            return Err(AdfError::NotADirectory);
                        }
                    },
                    Err(e) => {
                        return Err(e);
                    },
                }
            }
        }
        proof {
            assert(path@.skip(n as int) =~= Seq::<u8>::empty());
        }
        Ok(cur)
    }

    /// Resolves a `/`-separated path to a directory block, starting at
    /// the root.
    pub fn find_directory_block(&self, path: &str) -> (r: Result<usize, AdfError>)
        requires
            self.wf(),
        ensures
            ({
                let resolved = resolve_from(
                    self.data@,
                    880,
                    path.spec_bytes(),
                    spec_intl(self.data@),
                );
                match r {
                    Ok(b) => resolved == Ok::<u32, AdfError>(b as u32) && b < 1760,
                    Err(e) => resolved == Err::<u32, AdfError>(e),
                }
            }),
    {
        match self.resolve_path(path.as_bytes()) {
            Ok(b) => Ok(b as usize),
            Err(e) => Err(e),
        }
    }
}

/// Splits an ASCII path at its last slash: everything before it, and
/// the final component after it. A path without a slash is all final
/// component, with an empty parent.
pub fn split_path(path: &str) -> (r: (&str, &str))
    requires
        path.is_ascii(),
    ensures
        ({
            let b = path.spec_bytes();
            match last_slash(b, b.len() - 1) {
                Some(i) => r.0.spec_bytes() == b.subrange(0, i) && r.1.spec_bytes() == b.subrange(
                    i + 1,
                    b.len() as int,
                ),
                None => r.0.spec_bytes().len() == 0 && r.1.spec_bytes() == b,
            }
        }),
{
    proof {
        vstd::string::is_ascii_spec_bytes(path);
    }
    let nb = path.as_bytes();
    let n = nb.len();
    let ghost b = path.spec_bytes();
    let mut i: usize = n;
    while i > 0
        invariant
            i <= n,
            n == b.len(),
            nb@ == b,
            path.is_ascii(),
            path@.len() == b.len(),
            forall|t: int| 0 <= t < b.len() ==> b[t] == path@[t] as u8,
            last_slash(b, n as int - 1) == last_slash(b, i as int - 1),
        decreases i,
    {
        i -= 1;
        if nb[i] == 47 {
            proof {
                assert(last_slash(b, n as int - 1) == Some(i as int));
            }
            let left = path.substring_ascii(0, i);
            let right = path.substring_ascii(i + 1, n);
            proof {
                vstd::string::is_ascii_spec_bytes(left);
                vstd::string::is_ascii_spec_bytes(right);
                assert(left.spec_bytes() =~= b.subrange(0, i as int));
                assert(right.spec_bytes() =~= b.subrange(i as int + 1, b.len() as int));
                assert(b == path.spec_bytes());
                assert(left.spec_bytes() == b.subrange(0, i as int));
                assert(right.spec_bytes() == b.subrange(i as int + 1, b.len() as int));
                assert(last_slash(b, b.len() - 1) == Some(i as int));
            }
            return (left, right);
        }
    }
    let empty = path.substring_ascii(0, 0);
    proof {
        vstd::string::is_ascii_spec_bytes(empty);
        assert(empty.spec_bytes() =~= Seq::<u8>::empty());
    }
    (empty, path)
}


/// A name clamped to the 30 characters a header block can hold.
pub open spec fn clamp30(s: Seq<u8>) -> Seq<u8> {
    if s.len() <= 30 {
        s
    } else {
        s.subrange(0, 30)
    }
}

impl ADF {
    /// Initializes the block at `new_block` as a fresh empty
    /// directory: type `T_HEADER`, self pointer, an empty hash table,
    /// the clamped name, the parent pointer, secondary type `ST_DIR`,
    /// and the closing checksum.
    pub fn initialize_directory(&mut self, new_block: usize, parent_block: usize, name: &str) -> (r:
        Result<(), AdfError>)
        requires
            old(self).wf(),
            new_block < ADF_NUM_SECTORS,
        ensures
            final(self).wf(),
            r is Ok,
            final(self).bitmap == old(self).bitmap,
            ({
                let b = sector_of(final(self).data@, new_block as int);
                &&& be32_at(b, 0) == 2
                &&& entry_secondary_type(b) == 2
                &&& entry_is_dir(b)
                &&& entry_name_bytes(b) == clamp30(name.spec_bytes())
                &&& (forall|slot: int| 0 <= slot < 72 ==> #[trigger] slot_entry(b, slot) == 0)
                &&& entry_next_hash(b) == 0
                &&& be32_at(b, 500) == parent_block as u32
                &&& block_sum_ok(b)
            }),
            forall|i: int|
                0 <= i < ADF_IMAGE_SIZE && !(new_block * 512 <= i < new_block * 512 + 512)
                    ==> final(self).data@[i] == old(self).data@[i],
    {
        self.initialize_directory_bytes(new_block, parent_block, name.as_bytes())
    }

    /// The byte-level core of `initialize_directory`.
    pub(crate) fn initialize_directory_bytes(
        &mut self,
        new_block: usize,
        parent_block: usize,
        name: &[u8],
    ) -> (r: Result<(), AdfError>)
        requires
            old(self).wf(),
            new_block < ADF_NUM_SECTORS,
        ensures
            final(self).wf(),
            r is Ok,
            final(self).bitmap == old(self).bitmap,
            ({
                let b = sector_of(final(self).data@, new_block as int);
                &&& be32_at(b, 0) == 2
                &&& entry_secondary_type(b) == 2
                &&& entry_is_dir(b)
                &&& entry_name_bytes(b) == clamp30(name@)
                &&& (forall|slot: int| 0 <= slot < 72 ==> #[trigger] slot_entry(b, slot) == 0)
                &&& entry_next_hash(b) == 0
                &&& be32_at(b, 500) == parent_block as u32
                &&& block_sum_ok(b)
            }),
            forall|i: int|
                0 <= i < ADF_IMAGE_SIZE && !(new_block * 512 <= i < new_block * 512 + 512)
                    ==> final(self).data@[i] == old(self).data@[i],
    {
        let nb = name;
        let n: usize = if nb.len() > 30 {
            30
        } else {
            nb.len()
        };
        let mut block: Vec<u8> = vec![0u8; 512];
        write_be32(&mut block, 0, 2);
        write_be32(&mut block, 4, new_block as u32);
        block[432] = n as u8;
        crate::endian::copy_into(&mut block, 433, nb, n);
        write_be32(&mut block, 500, parent_block as u32);
        write_be32(&mut block, 508, 2);
        crate::files::close_checksum(&mut block, 16);
        proof {
            lemma_be32_roundtrip(2);
            lemma_be32_roundtrip(new_block as u32);
            lemma_be32_roundtrip(parent_block as u32);
            assert(block@.subrange(0, 4) =~= be32_bytes(2));
            assert(block@.subrange(500, 504) =~= be32_bytes(parent_block as u32));
            assert(block@.subrange(508, 512) =~= be32_bytes(2));
            assert(be32_at(block@, 496) == 0) by {
                let z = block@.subrange(496, 500);
                assert(z[0] == 0 && z[1] == 0 && z[2] == 0 && z[3] == 0);
            }
            assert forall|slot: int| 0 <= slot < 72 implies #[trigger] slot_entry(block@, slot)
                == 0 by {
                let z = block@.subrange(24 + 4 * slot, 24 + 4 * slot + 4);
                assert(z[0] == 0 && z[1] == 0 && z[2] == 0 && z[3] == 0);
            }
            assert(block@[432] == n as u8);
            assert(entry_name_bytes(block@) =~= clamp30(name@));
        }
        let res = self.write_sector(new_block, block.as_slice());
        proof {
            assert(res is Ok);
            assert(sector_of(self.data@, new_block as int) =~= block@);
        }
        Ok(())
    }

    /// Rewrites the name of the header block at `dir_block` in place,
    /// clamped to 30 characters, and closes the checksum; every other
    /// field keeps its value.
    pub fn update_directory_name(&mut self, dir_block: usize, new_name: &str) -> (r: Result<
        (),
        AdfError,
    >)
        requires
            old(self).wf(),
            dir_block < ADF_NUM_SECTORS,
        ensures
            final(self).wf(),
            r is Ok,
            final(self).bitmap == old(self).bitmap,
            ({
                let b = sector_of(final(self).data@, dir_block as int);
                &&& entry_name_bytes(b) == clamp30(new_name.spec_bytes())
                &&& block_sum_ok(b)
                &&& (forall|i: int|
                    0 <= i < 512 && !(16 <= i < 20) && !(432 <= i < 463) ==> #[trigger] b[i]
                        == sector_of(old(self).data@, dir_block as int)[i])
            }),
            forall|i: int|
                0 <= i < ADF_IMAGE_SIZE && !(dir_block * 512 <= i < dir_block * 512 + 512)
                    ==> final(self).data@[i] == old(self).data@[i],
    {
        let nb = new_name.as_bytes();
        let n: usize = if nb.len() > 30 {
            30
        } else {
            nb.len()
        };
        let mut block = slice_to_vec(self.read_sector(dir_block));
        block[432] = n as u8;
        crate::endian::copy_into(&mut block, 433, nb, n);
        crate::files::close_checksum(&mut block, 16);
        proof {
            assert(block@[432] == n as u8);
            assert(entry_name_bytes(block@) =~= clamp30(new_name.spec_bytes()));
        }
        let res = self.write_sector(dir_block, block.as_slice());
        proof {
            assert(res is Ok);
            assert(sector_of(self.data@, dir_block as int) =~= block@);
        }
        Ok(())
    }

    /// Hooks the header at `entry_block` into the front of the hash
    /// bucket its `name` selects in the directory at `dir_block`: the
    /// entry's chain pointer takes the old bucket head, the bucket
    /// takes the entry, and both blocks close their checksums.
    pub fn add_entry_to_directory(&mut self, dir_block: usize, entry_block: u32, name: &str) -> (r:
        Result<(), AdfError>)
        requires
            old(self).wf(),
            dir_block < ADF_NUM_SECTORS,
            0 < entry_block < 1760,
            entry_block != dir_block as u32,
        ensures
            final(self).wf(),
            r is Ok,
            final(self).bitmap == old(self).bitmap,
            ({
                let intl = spec_intl(old(self).data@);
                let bucket = name_hash(name.spec_bytes(), intl) as int;
                let de = sector_of(final(self).data@, dir_block as int);
                let ee = sector_of(final(self).data@, entry_block as int);
                &&& slot_entry(de, bucket) == entry_block
                &&& block_sum_ok(de)
                &&& block_sum_ok(ee)
                &&& (names_equal(entry_name_bytes(ee), name.spec_bytes(), intl) ==> dir_lookup(
                    final(self).data@,
                    dir_block as int,
                    name.spec_bytes(),
                    intl,
                ) == Some(Some(entry_block)))
            }),
    {
        self.add_entry_bytes(dir_block, entry_block, name.as_bytes())
    }

    /// The byte-level core of `add_entry_to_directory`.
    pub(crate) fn add_entry_bytes(&mut self, dir_block: usize, entry_block: u32, name: &[u8]) -> (r:
        Result<(), AdfError>)
        requires
            old(self).wf(),
            dir_block < ADF_NUM_SECTORS,
            0 < entry_block < 1760,
            entry_block != dir_block as u32,
        ensures
            final(self).wf(),
            r is Ok,
            final(self).bitmap == old(self).bitmap,
            ({
                let intl = spec_intl(old(self).data@);
                let bucket = name_hash(name@, intl) as int;
                let de = sector_of(final(self).data@, dir_block as int);
                let ee = sector_of(final(self).data@, entry_block as int);
                &&& slot_entry(de, bucket) == entry_block
                &&& block_sum_ok(de)
                &&& block_sum_ok(ee)
                &&& entry_next_hash(ee) == slot_entry(
                    sector_of(old(self).data@, dir_block as int),
                    bucket,
                )
                &&& (forall|i: int|
                    0 <= i < 512 && !(16 <= i < 20) && !(496 <= i < 500) ==> #[trigger] ee[i]
                        == sector_of(old(self).data@, entry_block as int)[i])
                &&& (forall|i: int|
                    0 <= i < 512 && !(16 <= i < 20) && !(24 + 4 * bucket <= i < 24 + 4 * bucket
                        + 4) ==> #[trigger] de[i] == sector_of(
                        old(self).data@,
                        dir_block as int,
                    )[i])
                &&& (names_equal(entry_name_bytes(ee), name@, intl) ==> dir_lookup(
                    final(self).data@,
                    dir_block as int,
                    name@,
                    intl,
                ) == Some(Some(entry_block)))
            }),
            forall|i: int|
                0 <= i < ADF_IMAGE_SIZE && !(dir_block * 512 <= i < dir_block * 512 + 512) && !(
                entry_block * 512 <= i < entry_block * 512 + 512) ==> final(self).data@[i] == old(self).data@[i],
    {
        let nb = name;
        let intl = self.data[3] & 2 == 2;
        let bucket = hash_name(nb, intl);
        let old_head = read_be32(self.read_sector(dir_block), 24 + 4 * (bucket as usize));
        proof {
            lemma_be32_at_sector(self.data@, dir_block as int, 24 + 4 * (bucket as int));
        }
        let ghost d0 = self.data@;
        // The entry's chain pointer takes the old bucket head.
        let mut eb = slice_to_vec(self.read_sector(entry_block as usize));
        write_be32(&mut eb, 496, old_head);
        crate::files::close_checksum(&mut eb, 16);
        proof {
            lemma_be32_roundtrip(old_head);
            assert(eb@.subrange(496, 500) =~= be32_bytes(old_head));
        }
        let res1 = self.write_sector(entry_block as usize, eb.as_slice());
        proof {
            assert(res1 is Ok);
            assert(sector_of(self.data@, entry_block as int) =~= eb@);
            crate::files::lemma_sector_frame(d0, self.data@, entry_block as int, dir_block as int);
            assert(self.data@[3] == d0[3]);
        }
        let ghost d1 = self.data@;
        // The bucket takes the entry.
        let mut db = slice_to_vec(self.read_sector(dir_block));
        write_be32(&mut db, 24 + 4 * (bucket as usize), entry_block);
        crate::files::close_checksum(&mut db, 16);
        proof {
            lemma_be32_roundtrip(entry_block);
            assert(db@.subrange(24 + 4 * (bucket as int), 24 + 4 * (bucket as int) + 4)
                =~= be32_bytes(entry_block));
            assert(slot_entry(db@, bucket as int) == entry_block);
        }
        let res2 = self.write_sector(dir_block, db.as_slice());
        proof {
            assert(res2 is Ok);
            assert(sector_of(self.data@, dir_block as int) =~= db@);
            crate::files::lemma_sector_frame(d1, self.data@, dir_block as int, entry_block as int);
            assert(sector_of(self.data@, entry_block as int) == sector_of(d1, entry_block as int));
            let ee = sector_of(self.data@, entry_block as int);
            if names_equal(entry_name_bytes(ee), name@, intl) {
                assert(chain_lookup(self.data@, entry_block, name@, intl, 1760)
                    == Some(Some(entry_block)));
            }
        }
        Ok(())
    }
}


/// The parent part of a path: everything before the last slash, or
/// empty without one.
pub open spec fn parent_bytes_of(p: Seq<u8>) -> Seq<u8> {
    match last_slash(p, p.len() - 1) {
        Some(i) => p.subrange(0, i),
        None => Seq::empty(),
    }
}

/// The final component of a path: everything after the last slash, or
/// the whole path without one.
pub open spec fn leaf_bytes_of(p: Seq<u8>) -> Seq<u8> {
    match last_slash(p, p.len() - 1) {
        Some(i) => p.subrange(i + 1, p.len() as int),
        None => p,
    }
}

/// The surgical effect of unlinking the header `t` from bucket
/// `bucket` of the directory at `dir`: the bucket head, or the
/// predecessor's chain pointer, now skips to the entry's successor,
/// the one rewritten block closes its checksum, and no byte outside
/// that block changes.
pub open spec fn unlinked_entry(d: Seq<u8>, d2: Seq<u8>, dir: int, bucket: int, t: u32) -> bool {
    let head = slot_entry(sector_of(d, dir), bucket);
    match chain_pred(d, head, t, 1760) {
        Some(None::<u32>) => slot_entry(sector_of(d2, dir), bucket) == entry_next_hash(
            sector_of(d, t as int),
        ) && block_sum_ok(sector_of(d2, dir)) && only_sector_changed(d, d2, dir),
        Some(Some(p)) => entry_next_hash(sector_of(d2, p as int)) == entry_next_hash(
            sector_of(d, t as int),
        ) && block_sum_ok(sector_of(d2, p as int)) && only_sector_changed(d, d2, p as int),
        None => false,
    }
}

/// The failure an unlink of `name` from the directory at `dir`
/// reports: the name must resolve in its bucket, and the bucket chain
/// must reach its header.
pub open spec fn remove_entry_check(d: Seq<u8>, dir: int, name: Seq<u8>) -> Option<AdfError> {
    let intl = spec_intl(d);
    match dir_lookup(d, dir, name, intl) {
        None => Some(AdfError::CorruptChain),
        Some(None) => Some(AdfError::NotFound),
        Some(Some(t)) => match chain_pred(
            d,
            slot_entry(sector_of(d, dir), name_hash(name, intl) as int),
            t,
            1760,
        ) {
            None => Some(AdfError::CorruptChain),
            Some(predopt) => None,
        },
    }
}

/// A predecessor reported by `chain_pred` is a real sector.
pub proof fn lemma_chain_pred_bounds(d: Seq<u8>, sec: u32, target: u32, fuel: nat)
    ensures
        chain_pred(d, sec, target, fuel) matches Some(Some(p)) ==> 0 < p < 1760,
    decreases fuel,
{
    if !(sec == 0 || sec >= 1760 || fuel == 0) && sec != target {
        lemma_chain_pred_bounds(d, entry_next_hash(sector_of(d, sec as int)), target, (fuel
            - 1) as nat);
    }
}

impl ADF {
    /// Walks the collision chain from `head` until the link to
    /// `target`: nothing for `target` at the head, otherwise its
    /// predecessor; fails with `CorruptChain` exactly when the chain
    /// ends or is corrupt before reaching `target`.
    fn find_chain_pred(&self, head: u32, target: u32) -> (r: Result<Option<u32>, AdfError>)
        requires
            self.wf(),
            0 < target < 1760,
        ensures
            match r {
                Ok(p) => chain_pred(self.data@, head, target, 1760) == Some(p) && (p matches Some(
                    pp,
                ) ==> 0 < pp < 1760 && pp != target),
                Err(e) => e == AdfError::CorruptChain && chain_pred(
                    self.data@,
                    head,
                    target,
                    1760,
                ) is None,
            },
    {
        if head == 0 || head >= 1760 {
            return Err(AdfError::CorruptChain);
        }
        if head == target {
            return Ok(None);
        }
        let mut cur: u32 = head;
        let mut fuel: u32 = 1760;
        loop
            invariant
                self.wf(),
                0 < fuel <= 1760,
                0 < cur < 1760,
                0 < target < 1760,
                cur != target,
                chain_pred(self.data@, head, target, 1760) == chain_pred(
                    self.data@,
                    cur,
                    target,
                    fuel as nat,
                ),
            decreases fuel,
        {
            let next = read_be32(self.read_sector(cur as usize), 496);
            proof {
                lemma_be32_at_sector(self.data@, cur as int, 496);
                assert(next == entry_next_hash(sector_of(self.data@, cur as int)));
            }
            let ghost inner = chain_pred(self.data@, next, target, (fuel - 1) as nat);
            if fuel == 1 {
                proof {
                    assert(inner is None);
                    assert(chain_pred(self.data@, cur, target, fuel as nat) is None);
                }
                return Err(AdfError::CorruptChain);
            }
            if next == target {
                proof {
                    reveal_with_fuel(chain_pred, 2);
                    assert(0 < target < 1760);
                    assert(fuel >= 2);
                    assert(inner == Some(None::<u32>));
                    assert(chain_pred(self.data@, cur, target, fuel as nat) == Some(Some(cur)));
                }
                return Ok(Some(cur));
            }
            if next == 0 || next >= 1760 {
                proof {
                    assert(inner is None);
                    assert(chain_pred(self.data@, cur, target, fuel as nat) is None);
                }
                return Err(AdfError::CorruptChain);
            }
            proof {
                match inner {
                    Some(po) => {
                        if po is None {
                            assert(next == target);
                        }
                    },
                    None => {},
                }
                assert(chain_pred(self.data@, cur, target, fuel as nat) == inner);
            }
            cur = next;
            fuel = fuel - 1;
        }
    }

    /// Unlinks the entry named `name` (as bytes) from the directory at
    /// `dir_block`: the bucket head or the predecessor's chain pointer
    /// skips to the entry's successor. Exactly one sector changes.
    pub(crate) fn remove_entry_bytes(&mut self, dir_block: usize, name: &[u8]) -> (r: Result<
        u32,
        AdfError,
    >)
        requires
            old(self).wf(),
            dir_block < ADF_NUM_SECTORS,
        ensures
            final(self).wf(),
            final(self).bitmap == old(self).bitmap,
            ({
                let d = old(self).data@;
                let intl = spec_intl(d);
                let bucket = name_hash(name@, intl) as int;
                let head = slot_entry(sector_of(d, dir_block as int), bucket);
                match r {
                    Ok(t) => {
                        &&& remove_entry_check(d, dir_block as int, name@) is None
                        &&& dir_lookup(d, dir_block as int, name@, intl) == Some(Some(t))
                        &&& 0 < t < 1760
                        &&& unlinked_entry(d, final(self).data@, dir_block as int, bucket, t)
                    },
                    Err(e) => remove_entry_check(d, dir_block as int, name@) == Some(e) && final(self).data@ == d,
                }
            }),
    {
        let t = match self.lookup_in_dir(dir_block, name) {
            Ok(t) => t,
            Err(e) => {
                return Err(e);
            },
        };
        let intl = self.data[3] & 2 == 2;
        let bucket = hash_name(name, intl);
        let head = read_be32(self.read_sector(dir_block), 24 + 4 * (bucket as usize));
        proof {
            lemma_be32_at_sector(self.data@, dir_block as int, 24 + 4 * (bucket as int));
        }
        let next_t = read_be32(self.read_sector(t as usize), 496);
        proof {
            lemma_be32_at_sector(self.data@, t as int, 496);
        }
        match self.find_chain_pred(head, t) {
            Ok(None) => {
                // The entry heads its bucket: the bucket skips to its
                // successor.
                let mut db = slice_to_vec(self.read_sector(dir_block));
                write_be32(&mut db, 24 + 4 * (bucket as usize), next_t);
                crate::files::close_checksum(&mut db, 16);
                proof {
                    lemma_be32_roundtrip(next_t);
                    assert(db@.subrange(24 + 4 * (bucket as int), 24 + 4 * (bucket as int) + 4)
                        =~= be32_bytes(next_t));
                    assert(slot_entry(db@, bucket as int) == next_t);
                }
                let res = self.write_sector(dir_block, db.as_slice());
                proof {
                    assert(res is Ok);
                    assert(sector_of(self.data@, dir_block as int) =~= db@);
                }
                Ok(t)
            },
            Ok(Some(p)) => {
                // A predecessor links to the entry: its chain pointer
                // skips to the successor.
                let mut pb = slice_to_vec(self.read_sector(p as usize));
                write_be32(&mut pb, 496, next_t);
                crate::files::close_checksum(&mut pb, 16);
                proof {
                    lemma_be32_roundtrip(next_t);
                    assert(pb@.subrange(496, 500) =~= be32_bytes(next_t));
                }
                let res = self.write_sector(p as usize, pb.as_slice());
                proof {
                    assert(res is Ok);
                    assert(sector_of(self.data@, p as int) =~= pb@);
                }
                Ok(t)
            },
            Err(e) => Err(e),
        }
    }

    /// Unlinks the entry named `name` from the directory at
    /// `dir_block`, patching the bucket head or the predecessor's
    /// chain pointer.
    pub fn remove_entry_from_directory(&mut self, dir_block: usize, name: &str) -> (r: Result<
        (),
        AdfError,
    >)
        requires
            old(self).wf(),
            dir_block < ADF_NUM_SECTORS,
        ensures
            final(self).wf(),
            final(self).bitmap == old(self).bitmap,
            ({
                let d = old(self).data@;
                let intl = spec_intl(d);
                let nb = name.spec_bytes();
                match r {
                    Ok(u) => {
                        &&& remove_entry_check(d, dir_block as int, nb) is None
                        &&& (dir_lookup(d, dir_block as int, nb, intl) matches Some(Some(t))
                            && unlinked_entry(
                            d,
                            final(self).data@,
                            dir_block as int,
                            name_hash(nb, intl) as int,
                            t,
                        ))
                    },
                    Err(e) => remove_entry_check(d, dir_block as int, nb) == Some(e) && final(self).data@ == d,
                }
            }),
    {
        match self.remove_entry_bytes(dir_block, name.as_bytes()) {
            Ok(t) => Ok(()),
            Err(e) => Err(e),
        }
    }
}


/// The failure a directory creation reports, in the order the checks
/// run: parent resolution, the name length, the duplicate lookup, the
/// free-block search, and a mirror that would hand out the parent's
/// own sector.
pub open spec fn create_dir_check(d: Seq<u8>, bm: Seq<bool>, path: Seq<u8>) -> Option<AdfError> {
    let intl = spec_intl(d);
    let name = leaf_bytes_of(path);
    match resolve_from(d, 880, parent_bytes_of(path), intl) {
        Err(e) => Some(e),
        Ok(parent) => if name.len() == 0 || name.len() > 30 {
            Some(AdfError::BadLength)
        } else {
            match dir_lookup(d, parent as int, name, intl) {
                None => Some(AdfError::CorruptChain),
                Some(Some(existing)) => Some(AdfError::NameExists),
                Some(None) => match crate::disk::first_free_from(bm, 2) {
                    None => Some(AdfError::OutOfSpace),
                    Some(b) => if b == parent as int {
                        Some(AdfError::CorruptChain)
                    } else {
                        None
                    },
                },
            }
        },
    }
}

/// Finds the index of the last slash of a byte path, if any.
fn last_slash_index(nb: &[u8]) -> (r: Option<usize>)
    ensures
        match r {
            Some(i) => last_slash(nb@, nb@.len() - 1) == Some(i as int) && i < nb@.len(),
            None => last_slash(nb@, nb@.len() - 1) is None,
        },
{
    let n = nb.len();
    let mut i: usize = n;
    while i > 0
        invariant
            i <= n,
            n == nb@.len(),
            last_slash(nb@, n as int - 1) == last_slash(nb@, i as int - 1),
        decreases i,
    {
        i -= 1;
        if nb[i] == 47 {
            proof {
                assert(last_slash(nb@, n as int - 1) == Some(i as int));
            }
            return Some(i);
        }
    }
    None
}

impl ADF {
    /// Creates the directory named by the final component of `path`
    /// inside the directory its parent part resolves to: a block is
    /// allocated, initialized as an empty directory, and hooked into
    /// the parent's hash table. On failure nothing changes.
    pub fn create_directory(&mut self, path: &str) -> (r: Result<(), AdfError>)
        requires
            old(self).wf(),
        ensures
            final(self).wf(),
            ({
                let d = old(self).data@;
                let bm = old(self).bitmap@;
                let p = path.spec_bytes();
                let intl = spec_intl(d);
                let name = leaf_bytes_of(p);
                match r {
                    Ok(u) => {
                        &&& create_dir_check(d, bm, p) is None
                        &&& (resolve_from(d, 880, parent_bytes_of(p), intl) matches Ok(parent)
                            && crate::disk::first_free_from(bm, 2) matches Some(nd) && {
                            &&& final(self).bitmap@ == bm.update(nd, false)
                            &&& dir_lookup(final(self).data@, parent as int, name, intl) == Some(
                                Some(nd as u32),
                            )
                            &&& entry_is_dir(sector_of(final(self).data@, nd))
                            &&& (forall|slot: int|
                                0 <= slot < 72 ==> #[trigger] slot_entry(
                                    sector_of(final(self).data@, nd),
                                    slot,
                                ) == 0)
                            &&& block_sum_ok(sector_of(final(self).data@, nd))
                            &&& block_sum_ok(sector_of(final(self).data@, parent as int))
                            &&& be32_at(sector_of(final(self).data@, nd), 500) == parent
                            &&& (forall|i: int|
                                0 <= i < ADF_IMAGE_SIZE && !(nd * 512 <= i < nd * 512 + 512) && !(
                                parent * 512 <= i < parent * 512 + 512) ==> #[trigger] final(self).data@[i]
                                    == d[i])
                        })
                    },
                    Err(e) => create_dir_check(d, bm, p) == Some(e) && final(self).data@ == d
                        && final(self).bitmap@ == bm,
                }
            }),
    {
        let nb = path.as_bytes();
        let n = nb.len();
        let (parent_part, name): (&[u8], &[u8]) = match last_slash_index(nb) {
            Some(i) => (slice_subrange(nb, 0, i), slice_subrange(nb, i + 1, n)),
            None => (slice_subrange(nb, 0, 0), slice_subrange(nb, 0, n)),
        };
        proof {
            assert(parent_part@ =~= parent_bytes_of(nb@));
            assert(name@ =~= leaf_bytes_of(nb@));
        }
        let parent = match self.resolve_path(parent_part) {
            Ok(b) => b,
            Err(e) => {
                return Err(e);
            },
        };
        if name.len() == 0 || name.len() > 30 {
            return Err(AdfError::BadLength);
        }
        match self.lookup_in_dir(parent as usize, name) {
            Ok(_) => {
                return Err(AdfError::NameExists);
            },
            Err(e) => {
                if e == AdfError::CorruptChain {
                    return Err(AdfError::CorruptChain);
                }
            },
        }
        let ghost bm0 = self.bitmap@;
        let ghost d0 = self.data@;
        let nd = match self.allocate_block() {
            Ok(b) => b,
            Err(e) => {
                return Err(AdfError::OutOfSpace);
            },
        };
        proof {
            crate::disk::lemma_first_free_from_spec(bm0, 2);
        }
        if nd as u32 == parent {
            // The mirror handed out the parent's own sector: the
            // volume is inconsistent. Put the block back.
            self.set_block_free(nd);
            proof {
                assert(self.bitmap@ =~= bm0);
            }
            return Err(AdfError::CorruptChain);
        }
        let res1 = self.initialize_directory_bytes(nd, parent as usize, name);
        proof {
            assert(res1 is Ok);
            assert(self.data@[3] == d0[3]) by {
                assert(3 < nd * 512 || 512 + nd * 512 <= 3);
            }
            assert(spec_intl(self.data@) == spec_intl(d0));
            assert(sector_of(self.data@, parent as int) == sector_of(d0, parent as int)) by {
                crate::files::lemma_sector_frame(d0, self.data@, nd as int, parent as int);
            }
        }
        let ghost d1 = self.data@;
        let res2 = self.add_entry_bytes(parent as usize, nd as u32, name);
        proof {
            assert(res2 is Ok);
            let ee = sector_of(self.data@, nd as int);
            assert(entry_name_bytes(ee) =~= entry_name_bytes(sector_of(d1, nd as int)));
            assert(entry_name_bytes(ee) == name@);
            assert(names_equal(entry_name_bytes(ee), name@, spec_intl(d0)));
            assert(dir_lookup(self.data@, parent as int, name@, spec_intl(d0)) == Some(
                Some(nd as u32),
            ));
            assert(entry_secondary_type(ee) == entry_secondary_type(sector_of(d1, nd as int)))
                by {
                assert(ee.subrange(508, 512) =~= sector_of(d1, nd as int).subrange(508, 512));
            }
            assert forall|slot: int| 0 <= slot < 72 implies #[trigger] slot_entry(ee, slot)
                == 0 by {
                assert(ee.subrange(24 + 4 * slot, 24 + 4 * slot + 4) =~= sector_of(
                    d1,
                    nd as int,
                ).subrange(24 + 4 * slot, 24 + 4 * slot + 4));
                assert(slot_entry(sector_of(d1, nd as int), slot) == 0);
            }
            assert(be32_at(ee, 500) == parent) by {
                assert(ee.subrange(500, 504) =~= sector_of(d1, nd as int).subrange(500, 504));
            }
            assert forall|i: int|
                0 <= i < ADF_IMAGE_SIZE && !(nd * 512 <= i < nd * 512 + 512) && !(parent * 512 <= i
                    < parent * 512 + 512) implies #[trigger] self.data@[i] == d0[i] by {}
        }
        Ok(())
    }
}


/// Only the bytes of sector `s` may differ between `d1` and `d2`.
pub open spec fn only_sector_changed(d1: Seq<u8>, d2: Seq<u8>, s: int) -> bool {
    forall|i: int|
        0 <= i < ADF_IMAGE_SIZE && !(s * 512 <= i < s * 512 + 512) ==> #[trigger] d2[i] == d1[i]
}

/// The failure a directory removal reports, in the order the checks
/// run: parent resolution, the lookup of the final component, the
/// emptiness of the directory, and the reachability of its header in
/// its bucket chain.
pub open spec fn delete_dir_check(d: Seq<u8>, path: Seq<u8>) -> Option<AdfError> {
    let intl = spec_intl(d);
    let name = leaf_bytes_of(path);
    match resolve_from(d, 880, parent_bytes_of(path), intl) {
        Err(e) => Some(e),
        Ok(parent) => match dir_lookup(d, parent as int, name, intl) {
            None => Some(AdfError::CorruptChain),
            Some(None) => Some(AdfError::NotFound),
            Some(Some(t)) => if !(forall|slot: int|
                0 <= slot < 72 ==> #[trigger] slot_entry(sector_of(d, t as int), slot) == 0) {
                Some(AdfError::NotEmpty)
            } else {
                match chain_pred(
                    d,
                    slot_entry(sector_of(d, parent as int), name_hash(name, intl) as int),
                    t,
                    1760,
                ) {
                    None => Some(AdfError::CorruptChain),
                    Some(x) => None,
                }
            },
        },
    }
}

/// The failure a rename inside one directory reports, in the order the
/// checks run: the lookup of the old name, a header that is the
/// directory itself, the new name's length, the collision lookup, and
/// the reachability of the header in its old bucket chain.
pub open spec fn update_entry_check(
    d: Seq<u8>,
    dir: int,
    old_name: Seq<u8>,
    new_name: Seq<u8>,
) -> Option<AdfError> {
    let intl = spec_intl(d);
    match dir_lookup(d, dir, old_name, intl) {
        None => Some(AdfError::CorruptChain),
        Some(None) => Some(AdfError::NotFound),
        Some(Some(t)) => if t == dir {
            Some(AdfError::CorruptChain)
        } else if new_name.len() == 0 || new_name.len() > 30 {
            Some(AdfError::BadLength)
        } else {
            match dir_lookup(d, dir, new_name, intl) {
                None => Some(AdfError::CorruptChain),
                Some(Some(x)) => Some(AdfError::NameExists),
                Some(None) => match chain_pred(
                    d,
                    slot_entry(sector_of(d, dir), name_hash(old_name, intl) as int),
                    t,
                    1760,
                ) {
                    None => Some(AdfError::CorruptChain),
                    Some(x) => None,
                },
            }
        },
    }
}

/// The failure a rename by path reports: parent resolution, then the
/// in-directory rename checks.
pub open spec fn rename_dir_check(d: Seq<u8>, path: Seq<u8>, new_name: Seq<u8>) -> Option<
    AdfError,
> {
    match resolve_from(d, 880, parent_bytes_of(path), spec_intl(d)) {
        Err(e) => Some(e),
        Ok(parent) => update_entry_check(d, parent as int, leaf_bytes_of(path), new_name),
    }
}

impl ADF {
    /// Removes the directory named by the final component of `path`:
    /// it must resolve, be empty, and sit in a sound bucket chain; its
    /// header is unlinked and its sector freed in the mirror. On
    /// failure nothing changes.
    #[verifier::rlimit(30)]
    pub fn delete_directory(&mut self, path: &str) -> (r: Result<(), AdfError>)
        requires
            old(self).wf(),
        ensures
            final(self).wf(),
            r is Ok ==> delete_dir_check(old(self).data@, path.spec_bytes()) is None,
            r is Ok ==> ({
                let d = old(self).data@;
                let intl = spec_intl(d);
                let parent = resolve_from(d, 880, parent_bytes_of(path.spec_bytes()), intl)->Ok_0;
                let t = dir_lookup(d, parent as int, leaf_bytes_of(path.spec_bytes()), intl)->0->0;
                final(self).bitmap@ =~= old(self).bitmap@.update(t as int, true)
            }),
            r is Ok ==> ({
                let d = old(self).data@;
                let intl = spec_intl(d);
                let name = leaf_bytes_of(path.spec_bytes());
                let parent = resolve_from(d, 880, parent_bytes_of(path.spec_bytes()), intl)->Ok_0;
                dir_lookup(d, parent as int, name, intl) matches Some(Some(t)) && unlinked_entry(
                    d,
                    final(self).data@,
                    parent as int,
                    name_hash(name, intl) as int,
                    t,
                )
            }),
            r matches Err(e) ==> delete_dir_check(old(self).data@, path.spec_bytes()) == Some(e)
                && final(self).data@ == old(self).data@ && final(self).bitmap@ == old(
                self,
            ).bitmap@,
    {
        let nb = path.as_bytes();
        let n = nb.len();
        let (parent_part, name): (&[u8], &[u8]) = match last_slash_index(nb) {
            Some(i) => (slice_subrange(nb, 0, i), slice_subrange(nb, i + 1, n)),
            None => (slice_subrange(nb, 0, 0), slice_subrange(nb, 0, n)),
        };
        proof {
            assert(parent_part@ =~= parent_bytes_of(nb@));
            assert(name@ =~= leaf_bytes_of(nb@));
        }
        let parent = match self.resolve_path(parent_part) {
            Ok(b) => b,
            Err(e) => {
                return Err(e);
            },
        };
        let t = match self.lookup_in_dir(parent as usize, name) {
            Ok(t) => t,
            Err(e) => {
                return Err(e);
            },
        };
        let empty = match self.is_directory_empty(t as usize) {
            Ok(b) => b,
            Err(e) => {
                return Err(AdfError::CorruptChain);
            },
        };
        if !empty {
            return Err(AdfError::NotEmpty);
        }
        let ghost d0 = self.data@;
        let ghost bm0 = self.bitmap@;
        match self.remove_entry_bytes(parent as usize, name) {
            Ok(t2) => {
                proof {
                    assert(t2 == t);
                }
                let ghost d_removed = self.data@;
                self.set_block_free(t as usize);
                proof {
                    assert(self.bitmap@ =~= bm0.update(t as int, true));
                    assert(self.bitmap@ == bm0.update(t as int, true));
                    assert(self.data@ == d_removed);
                    assert(unlinked_entry(
                        d0,
                        self.data@,
                        parent as int,
                        name_hash(name@, spec_intl(d0)) as int,
                        t,
                    ));
                    assert(d0 == old(self).data@);
                }
                Ok(())
            },
            Err(e) => Err(e),
        }
    }

    /// Renames the entry `old_name` of the directory at `dir_block` to
    /// `new_name`: the header is unlinked from its old bucket, its
    /// name rewritten, and it is hooked into the front of the bucket
    /// the new name selects. The two names cannot be the same on the
    /// volume, so the renamed header no longer answers to the old
    /// name; at most the directory block, the header, and the
    /// unlinked predecessor change.
    pub fn update_entry_in_directory(
        &mut self,
        dir_block: usize,
        old_name: &str,
        new_name: &str,
    ) -> (r: Result<(), AdfError>)
        requires
            old(self).wf(),
            dir_block < ADF_NUM_SECTORS,
        ensures
            final(self).wf(),
            final(self).bitmap == old(self).bitmap,
            ({
                let d = old(self).data@;
                let intl = spec_intl(d);
                let checked = update_entry_check(
                    d,
                    dir_block as int,
                    old_name.spec_bytes(),
                    new_name.spec_bytes(),
                );
                match r {
                    Ok(u) => checked is None && !names_equal(
                        new_name.spec_bytes(),
                        old_name.spec_bytes(),
                        intl,
                    ) && (dir_lookup(
                        d,
                        dir_block as int,
                        old_name.spec_bytes(),
                        intl,
                    ) matches Some(Some(t)) && {
                        &&& dir_lookup(final(self).data@, dir_block as int, new_name.spec_bytes(), intl)
                            == Some(Some(t))
                        &&& entry_name_bytes(sector_of(final(self).data@, t as int))
                            == new_name.spec_bytes()
                        &&& !names_equal(
                            entry_name_bytes(sector_of(final(self).data@, t as int)),
                            old_name.spec_bytes(),
                            intl,
                        )
                        &&& block_sum_ok(sector_of(final(self).data@, t as int))
                        &&& block_sum_ok(sector_of(final(self).data@, dir_block as int))
                        &&& (match chain_pred(
                            d,
                            slot_entry(
                                sector_of(d, dir_block as int),
                                name_hash(old_name.spec_bytes(), intl) as int,
                            ),
                            t,
                            1760,
                        ) {
                            Some(None::<u32>) => forall|i: int|
                                0 <= i < ADF_IMAGE_SIZE && !(dir_block * 512 <= i < dir_block * 512
                                    + 512) && !(t * 512 <= i < t * 512 + 512)
                                    ==> #[trigger] final(self).data@[i] == d[i],
                            Some(Some(pp)) => forall|i: int|
                                0 <= i < ADF_IMAGE_SIZE && !(dir_block * 512 <= i < dir_block * 512
                                    + 512) && !(t * 512 <= i < t * 512 + 512) && !(pp * 512 <= i
                                    < pp * 512 + 512) ==> #[trigger] final(self).data@[i] == d[i],
                            None => false,
                        })
                    }),
                    Err(e) => checked == Some(e) && final(self).data@ == d,
                }
            }),
    {
        self.update_entry_bytes(dir_block, old_name.as_bytes(), new_name.as_bytes())
    }

    /// The byte-level core of `update_entry_in_directory`.
    pub(crate) fn update_entry_bytes(
        &mut self,
        dir_block: usize,
        old_name: &[u8],
        new_name: &[u8],
    ) -> (r: Result<(), AdfError>)
        requires
            old(self).wf(),
            dir_block < ADF_NUM_SECTORS,
        ensures
            final(self).wf(),
            final(self).bitmap == old(self).bitmap,
            ({
                let d = old(self).data@;
                let intl = spec_intl(d);
                let checked = update_entry_check(d, dir_block as int, old_name@, new_name@);
                match r {
                    Ok(u) => checked is None && !names_equal(new_name@, old_name@, intl) && (
                    dir_lookup(
                        d,
                        dir_block as int,
                        old_name@,
                        intl,
                    ) matches Some(Some(t)) && {
                        &&& dir_lookup(final(self).data@, dir_block as int, new_name@, intl)
                            == Some(Some(t))
                        &&& entry_name_bytes(sector_of(final(self).data@, t as int)) == new_name@
                        &&& !names_equal(
                            entry_name_bytes(sector_of(final(self).data@, t as int)),
                            old_name@,
                            intl,
                        )
                        &&& block_sum_ok(sector_of(final(self).data@, t as int))
                        &&& block_sum_ok(sector_of(final(self).data@, dir_block as int))
                        &&& (match chain_pred(
                            d,
                            slot_entry(
                                sector_of(d, dir_block as int),
                                name_hash(old_name@, intl) as int,
                            ),
                            t,
                            1760,
                        ) {
                            Some(None::<u32>) => forall|i: int|
                                0 <= i < ADF_IMAGE_SIZE && !(dir_block * 512 <= i < dir_block * 512
                                    + 512) && !(t * 512 <= i < t * 512 + 512)
                                    ==> #[trigger] final(self).data@[i] == d[i],
                            Some(Some(pp)) => forall|i: int|
                                0 <= i < ADF_IMAGE_SIZE && !(dir_block * 512 <= i < dir_block * 512
                                    + 512) && !(t * 512 <= i < t * 512 + 512) && !(pp * 512 <= i
                                    < pp * 512 + 512) ==> #[trigger] final(self).data@[i] == d[i],
                            None => false,
                        })
                    }),
                    Err(e) => checked == Some(e) && final(self).data@ == d,
                }
            }),
    {
        let ghost d0 = self.data@;
        let t = match self.lookup_in_dir(dir_block, old_name) {
            Ok(t) => t,
            Err(e) => {
                return Err(e);
            },
        };
        if t == dir_block as u32 {
            return Err(AdfError::CorruptChain);
        }
        if new_name.len() == 0 || new_name.len() > 30 {
            return Err(AdfError::BadLength);
        }
        match self.lookup_in_dir(dir_block, new_name) {
            Ok(_) => {
                return Err(AdfError::NameExists);
            },
            Err(e) => {
                if e == AdfError::CorruptChain {
                    return Err(AdfError::CorruptChain);
                }
            },
        }
        proof {
            // The two names cannot be the same on the volume: the old
            // one resolves and the new one does not, and a chain
            // lookup cannot tell equal names apart.
            if names_equal(new_name@, old_name@, spec_intl(d0)) {
                crate::disk::lemma_names_equal_same_hash(new_name@, old_name@, spec_intl(d0));
                crate::disk::lemma_chain_lookup_names_equal(
                    d0,
                    slot_entry(
                        sector_of(d0, dir_block as int),
                        name_hash(new_name@, spec_intl(d0)) as int,
                    ),
                    new_name@,
                    old_name@,
                    spec_intl(d0),
                    1760,
                );
                assert(false);
            }
        }
        let intl = self.data[3] & 2 == 2;
        match self.remove_entry_bytes(dir_block, old_name) {
            Ok(t2) => {
                proof {
                    assert(t2 == t);
                }
            },
            Err(e) => {
                return Err(e);
            },
        }
        let ghost d1 = self.data@;
        // Read the new bucket's head after the unlink.
        let bucket_new = hash_name(new_name, intl);
        let old_head = read_be32(self.read_sector(dir_block), 24 + 4 * (bucket_new as usize));
        proof {
            lemma_be32_at_sector(self.data@, dir_block as int, 24 + 4 * (bucket_new as int));
        }
        // Rewrite the renamed header: new name, new chain successor.
        let nn_len = new_name.len();
        let mut eb = slice_to_vec(self.read_sector(t as usize));
        eb[432] = nn_len as u8;
        crate::endian::copy_into(&mut eb, 433, new_name, nn_len);
        write_be32(&mut eb, 496, old_head);
        crate::files::close_checksum(&mut eb, 16);
        proof {
            assert(eb@[432] == nn_len as u8);
            assert(entry_name_bytes(eb@) =~= new_name@);
        }
        let res1 = self.write_sector(t as usize, eb.as_slice());
        proof {
            assert(res1 is Ok);
            assert(sector_of(self.data@, t as int) =~= eb@);
        }
        let ghost d2 = self.data@;
        // Hook it into the front of the new bucket.
        let mut db = slice_to_vec(self.read_sector(dir_block));
        write_be32(&mut db, 24 + 4 * (bucket_new as usize), t);
        crate::files::close_checksum(&mut db, 16);
        proof {
            lemma_be32_roundtrip(t);
            assert(db@.subrange(24 + 4 * (bucket_new as int), 24 + 4 * (bucket_new as int) + 4)
                =~= be32_bytes(t));
            assert(slot_entry(db@, bucket_new as int) == t);
        }
        let res2 = self.write_sector(dir_block, db.as_slice());
        proof {
            assert(res2 is Ok);
            assert(sector_of(self.data@, dir_block as int) =~= db@);
            crate::files::lemma_sector_frame(d2, self.data@, dir_block as int, t as int);
            assert(sector_of(self.data@, t as int) == sector_of(d2, t as int));
            let ee = sector_of(self.data@, t as int);
            assert(entry_name_bytes(ee) == new_name@);
            assert(names_equal(entry_name_bytes(ee), new_name@, intl));
            assert(chain_lookup(self.data@, t, new_name@, intl, 1760) == Some(Some(t)));
            assert(dir_lookup(self.data@, dir_block as int, new_name@, intl) == Some(Some(t)));
            assert(!names_equal(entry_name_bytes(ee), old_name@, intl));
            let head_old = slot_entry(
                sector_of(d0, dir_block as int),
                name_hash(old_name@, intl) as int,
            );
            match chain_pred(d0, head_old, t, 1760) {
                Some(None) => {
                    assert forall|i: int|
                        0 <= i < ADF_IMAGE_SIZE && !(dir_block * 512 <= i < dir_block * 512 + 512)
                            && !(t * 512 <= i < t * 512 + 512) implies #[trigger] self.data@[i]
                        == d0[i] by {
                        assert(self.data@[i] == d2[i]);
                        assert(d2[i] == d1[i]);
                        assert(d1[i] == d0[i]);
                    }
                },
                Some(Some(pp)) => {
                    lemma_chain_pred_bounds(d0, head_old, t, 1760);
                    assert forall|i: int|
                        0 <= i < ADF_IMAGE_SIZE && !(dir_block * 512 <= i < dir_block * 512 + 512)
                            && !(t * 512 <= i < t * 512 + 512) && !(pp * 512 <= i < pp * 512 + 512)
                            implies #[trigger] self.data@[i] == d0[i] by {
                        assert(self.data@[i] == d2[i]);
                        assert(d2[i] == d1[i]);
                        assert(d1[i] == d0[i]);
                    }
                },
                None => {
                    assert(false);
                },
            }
        }
        Ok(())
    }

    /// Renames the directory entry named by the final component of
    /// `old_path` to `new_name`, moving it between hash buckets when
    /// the new name selects a different one; the renamed header no
    /// longer answers to the old name. On failure nothing changes.
    pub fn rename_directory(&mut self, old_path: &str, new_name: &str) -> (r: Result<(), AdfError>)
        requires
            old(self).wf(),
        ensures
            final(self).wf(),
            final(self).bitmap == old(self).bitmap,
            ({
                let d = old(self).data@;
                let intl = spec_intl(d);
                let p = old_path.spec_bytes();
                let checked = rename_dir_check(d, p, new_name.spec_bytes());
                match r {
                    Ok(u) => checked is None && !names_equal(
                        new_name.spec_bytes(),
                        leaf_bytes_of(p),
                        intl,
                    ) && (resolve_from(d, 880, parent_bytes_of(p), intl)
                        matches Ok(parent) && dir_lookup(
                        d,
                        parent as int,
                        leaf_bytes_of(p),
                        intl,
                    ) matches Some(Some(t)) && {
                        &&& dir_lookup(final(self).data@, parent as int, new_name.spec_bytes(), intl)
                            == Some(Some(t))
                        &&& entry_name_bytes(sector_of(final(self).data@, t as int))
                            == new_name.spec_bytes()
                        &&& !names_equal(
                            entry_name_bytes(sector_of(final(self).data@, t as int)),
                            leaf_bytes_of(p),
                            intl,
                        )
                        &&& (match chain_pred(
                            d,
                            slot_entry(
                                sector_of(d, parent as int),
                                name_hash(leaf_bytes_of(p), intl) as int,
                            ),
                            t,
                            1760,
                        ) {
                            Some(None::<u32>) => forall|i: int|
                                0 <= i < ADF_IMAGE_SIZE && !(parent * 512 <= i < parent * 512
                                    + 512) && !(t * 512 <= i < t * 512 + 512)
                                    ==> #[trigger] final(self).data@[i] == d[i],
                            Some(Some(pp)) => forall|i: int|
                                0 <= i < ADF_IMAGE_SIZE && !(parent * 512 <= i < parent * 512
                                    + 512) && !(t * 512 <= i < t * 512 + 512) && !(pp * 512 <= i
                                    < pp * 512 + 512) ==> #[trigger] final(self).data@[i] == d[i],
                            None => false,
                        })
                    }),
                    Err(e) => checked == Some(e) && final(self).data@ == d,
                }
            }),
    {
        let nb = old_path.as_bytes();
        let n = nb.len();
        let (parent_part, name): (&[u8], &[u8]) = match last_slash_index(nb) {
            Some(i) => (slice_subrange(nb, 0, i), slice_subrange(nb, i + 1, n)),
            None => (slice_subrange(nb, 0, 0), slice_subrange(nb, 0, n)),
        };
        proof {
            assert(parent_part@ =~= parent_bytes_of(nb@));
            assert(name@ =~= leaf_bytes_of(nb@));
        }
        let parent = match self.resolve_path(parent_part) {
            Ok(b) => b,
            Err(e) => {
                return Err(e);
            },
        };
        self.update_entry_bytes(parent as usize, name, new_name.as_bytes())
    }
}

} // verus!
