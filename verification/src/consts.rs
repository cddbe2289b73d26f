use vstd::prelude::*;

verus! {

// Geometry of a double-density Amiga floppy image.
pub const ADF_SECTOR_SIZE: usize = 512;

pub const ADF_TRACK_SIZE: usize = 11 * ADF_SECTOR_SIZE;

pub const ADF_NUM_TRACKS: usize = 160;

pub const ADF_NUM_SECTORS: usize = 1760;

pub const ADF_IMAGE_SIZE: usize = ADF_NUM_SECTORS * ADF_SECTOR_SIZE;

/// Sector of the root block.
pub const ROOT_BLOCK: usize = 880;

/// Sector of the primary bitmap block.
pub const BITMAP_BLOCK: usize = 881;

/// Sector of the spare bitmap block written beside the primary one.
pub const BITMAP_BLOCK_SPARE: usize = 882;

// Block type codes.
pub const T_HEADER: u32 = 2;

pub const T_DATA: u32 = 8;

// Secondary type codes (stored as signed 32-bit on disk).
pub const ST_ROOT: u32 = 1;

pub const ST_DIR: u32 = 2;

/// `ST_FILE` is -3 as a signed 32-bit word.
pub const ST_FILE: u32 = 0xFFFF_FFFD;

// Shared header/directory block field offsets within a 512-byte block.
pub const BLOCK_TYPE_OFFSET: usize = 0;

pub const SELF_POINTER_OFFSET: usize = 4;

pub const HIGH_SEQ_OFFSET: usize = 8;

pub const FIRST_DATA_OFFSET: usize = 12;

pub const CHECKSUM_OFFSET: usize = 16;

/// Start of the 72-entry hash table of a directory block, and of the
/// data-block pointer table of a file header.
pub const HASH_TABLE_OFFSET: usize = 24;

pub const HASH_TABLE_SIZE: usize = 72;

pub const MAX_DATABLOCKS: usize = 72;

pub const FILE_PROTECTION_OFFSET: usize = 320;

pub const FILE_SIZE_OFFSET: usize = 324;

pub const FILE_DAYS_OFFSET: usize = 420;

pub const FILE_MINS_OFFSET: usize = 424;

pub const FILE_TICKS_OFFSET: usize = 428;

pub const FILE_NAME_LEN_OFFSET: usize = 432;

pub const FILE_NAME_OFFSET: usize = 433;

pub const HASH_CHAIN_OFFSET: usize = 496;

pub const PARENT_OFFSET: usize = 500;

pub const EXTENSION_OFFSET: usize = 504;

pub const SECONDARY_TYPE_OFFSET: usize = 508;

// Root block field offsets.
pub const ROOT_BLOCK_HASH_TABLE_SIZE_OFFSET: usize = 12;

pub const ROOT_BLOCK_BITMAP_FLAG_OFFSET: usize = 312;

pub const ROOT_BLOCK_BITMAP_POINTERS_OFFSET: usize = 316;

pub const ROOT_BLOCK_BITMAP_COUNT: usize = 25;

pub const ROOT_BLOCK_DAYS_OFFSET: usize = 420;

pub const ROOT_BLOCK_MINS_OFFSET: usize = 424;

pub const ROOT_BLOCK_TICKS_OFFSET: usize = 428;

pub const ROOT_BLOCK_NAME_LEN_OFFSET: usize = 432;

pub const ROOT_BLOCK_NAME_OFFSET: usize = 433;

// OFS data block field offsets.
pub const DATA_HEADER_KEY_OFFSET: usize = 4;

pub const DATA_SEQNUM_OFFSET: usize = 8;

pub const DATA_SIZE_OFFSET: usize = 12;

pub const DATA_NEXT_OFFSET: usize = 16;

pub const DATA_CHECKSUM_OFFSET: usize = 20;

pub const DATA_PAYLOAD_OFFSET: usize = 24;

/// Payload capacity of one OFS data block.
pub const OFS_DATA_CAPACITY: usize = 488;

// Boot block.
pub const BOOT_BLOCK_SIZE: usize = 1024;

pub const BOOT_BLOCK_FLAGS_OFFSET: usize = 3;

pub const BOOT_BLOCK_CHECKSUM_OFFSET: usize = 4;

pub const BOOT_BLOCK_ROOT_OFFSET: usize = 8;

// Bitmap block layout: checksum, then 127 long-words of bits.
pub const BITMAP_CHECKSUM_OFFSET: usize = 0;

pub const BITMAP_BITS_OFFSET: usize = 4;

/// The first sector covered by the bitmap; sectors 0 and 1 hold the boot
/// block and are never tracked.
pub const BITMAP_FIRST_SECTOR: usize = 2;

pub const MAX_NAME_LENGTH: usize = 30;

// Date arithmetic.
pub const SECONDS_PER_DAY: u64 = 86400;

pub const SECONDS_PER_HOUR: u64 = 3600;

pub const SECONDS_PER_MINUTE: u64 = 60;

pub const TICKS_PER_SECOND: u64 = 50;

/// The Amiga epoch, 1978-01-01 00:00 UTC, as a POSIX timestamp.
pub const AMIGA_EPOCH_SECONDS: u64 = 252460800;

} // verus!
