pub mod adf_blk;
pub mod adf_disk;
pub mod adf_str;
pub mod consts;
pub mod disk;
pub mod dirs;
pub mod dms;
pub mod endian;
pub mod err;
pub mod files;
pub mod hunk;
pub mod text;
