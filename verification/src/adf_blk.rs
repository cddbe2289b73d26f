use vstd::prelude::*;

verus! {

// Filesystem variant flags stored in the fourth byte of the boot block.
pub const FSMASK_FFS: u8 = 1;

pub const FSMASK_INTL: u8 = 2;

pub const FSMASK_DIRCACHE: u8 = 4;

pub const MAXNAMELENGTH: usize = 30;

pub const MAXCOMMENTLENGTH: usize = 79;

/// Number of hash-table entries in a directory block.
pub const HT_SIZE: usize = 72;

/// Number of bitmap-block pointers in the root block.
pub const BM_SIZE: usize = 25;

/// Number of data-block pointers in a file header block.
pub const MAX_DATABLOCK: usize = 72;

pub const BM_VALID: isize = -1;

pub const BM_INVALID: isize = 0;

/// True when the flag byte selects the Fast File System.
pub fn is_ffs(c: u8) -> (r: bool)
    ensures
        r == ((c & FSMASK_FFS) != 0),
{
    (c & FSMASK_FFS) != 0
}

/// True when the flag byte selects the Old File System.
pub fn is_ofs(c: u8) -> (r: bool)
    ensures
        r == ((c & FSMASK_FFS) == 0),
{
    (c & FSMASK_FFS) == 0
}

/// True when the flag byte sets the international-mode bit.
pub fn is_intl(c: u8) -> (r: bool)
    ensures
        r == ((c & FSMASK_INTL) != 0),
{
    (c & FSMASK_INTL) != 0
}

/// True when the flag byte sets the directory-cache bit.
pub fn is_dircache(c: u8) -> (r: bool)
    ensures
        r == ((c & FSMASK_DIRCACHE) != 0),
{
    (c & FSMASK_DIRCACHE) != 0
}

/// Decoded boot block: sectors 0 and 1 of a volume.
pub struct BootBlock {
    pub dostype: [u8; 4],
    pub checksum: u32,
    pub rootblock: i32,
    pub data: [u8; 1012],
}

/// Decoded root block: the top-level directory at sector 880.
pub struct RootBlock {
    pub amiga_type: i32,
    pub headerkey: i32,
    pub highseq: i32,
    pub hashtablesize: i32,
    pub firstdata: i32,
    pub checksum: u32,
    pub hashtable: [i32; HT_SIZE],
    pub bmflag: i32,
    pub bmpages: [i32; BM_SIZE],
    pub bmext: i32,
    pub cdays: i32,
    pub cmins: i32,
    pub cticks: i32,
    pub namelength: i8,
    pub diskname: [i8; MAXNAMELENGTH],
    pub r2: [i8; 8],
    pub days: i32,
    pub mins: i32,
    pub ticks: i32,
    pub codays: i32,
    pub comins: i32,
    pub coticks: i32,
    pub nextsamehash: i32,
    pub parent: i32,
    pub extension: i32,
    pub sectype: i32,
}

/// Decoded file header block.
pub struct Fileheaderblock {
    pub amiga_type: i32,
    pub headerkey: i32,
    pub highseq: i32,
    pub datasize: i32,
    pub firstdata: i32,
    pub checksum: u32,
    pub datablocks: [i32; MAX_DATABLOCK],
    pub r1: i32,
    pub r2: i32,
    pub access: i32,
    pub bytesize: u32,
    pub commlen: u8,
    pub comment: [u8; 80],
    pub days: i32,
    pub mins: i32,
    pub ticks: i32,
    pub namelen: u8,
    pub filename: [u8; 31],
    pub real: i32,
    pub nextlink: i32,
    pub nextsamehash: i32,
    pub parent: i32,
    pub extension: i32,
    pub sectype: i32,
}

/// Decoded directory block.
pub struct Directoryblock {
    pub amiga_type: i32,
    pub headerkey: i32,
    pub highseq: i32,
    pub hashtabsize: i32,
    pub r1: i32,
    pub hashtable: [i32; HT_SIZE],
    pub r2: [i32; 2],
    pub access: i32,
    pub r4: i32,
    pub commlen: u8,
    pub comment: [u8; 80],
    pub r5: [u8; 11],
    pub days: i32,
    pub mins: i32,
    pub ticks: i32,
    pub namelen: u8,
    pub dirname: [u8; 31],
    pub r6: i32,
    pub real: i32,
    pub nextlink: i32,
    pub r7: [i32; 5],
    pub nextsamehash: i32,
    pub parent: i32,
    pub extension: i32,
    pub sectype: i32,
}

/// Decoded Old File System data block.
pub struct OFSDatablock {
    pub amiga_type: i32,
    pub headerkey: i32,
    pub seqnum: i32,
    pub datasize: i32,
    pub nextdata: i32,
    pub checksum: u32,
    pub data: [u8; 488],
}

/// Decoded bitmap block.
pub struct Bitmapblock {
    pub checksum: u32,
    pub map: [u32; 127],
}

/// Decoded bitmap extension block.
pub struct Bitmapextblock {
    pub bmpages: [i32; 127],
    pub nextblock: i32,
}

/// Decoded file extension block: continuation of a file header's
/// data-block pointer table.
pub struct Fileextblock {
    pub amiga_type: i32,
    pub headerkey: i32,
    pub highseq: i32,
    pub checksum: u32,
    pub datablocks: [i32; MAX_DATABLOCK],
    pub parent: i32,
    pub extension: i32,
    pub sectype: i32,
}

/// Decoded hard- or soft-link block.
pub struct Linkblock {
    pub amiga_type: i32,
    pub headerkey: i32,
    pub r1: [i32; 3],
    pub checksum: u32,
    pub realname: [u8; 64],
    pub r2: [i32; 83],
    pub days: i32,
    pub mins: i32,
    pub ticks: i32,
    pub namelen: u8,
    pub name: [u8; 31],
    pub r3: i32,
    pub realentry: i32,
    pub nextlink: i32,
    pub r4: [i32; 5],
    pub nextsamehash: i32,
    pub parent: i32,
    pub r5: i32,
    pub sectype: i32,
}

} // verus!
