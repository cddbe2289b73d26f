use adflib::consts::ADF_IMAGE_SIZE;
use adflib::disk::ADF;
use adflib::disk::DiskType;
use adflib::err::AdfError;

fn fresh() -> ADF {
    ADF::new(1760, 512)
}

fn be32_word(sector: &[u8], off: usize) -> u32 {
    (sector[off] as u32) << 24
        | (sector[off + 1] as u32) << 16
        | (sector[off + 2] as u32) << 8
        | (sector[off + 3] as u32)
}

fn block_word_sum(sector: &[u8]) -> u32 {
    let mut sum: u32 = 0;
    let mut off = 0;
    while off + 4 <= sector.len() {
        sum = sum.wrapping_add(be32_word(sector, off));
        off += 4;
    }
    sum
}

#[test]
fn image_has_fixed_size() {
    let adf = fresh();
    assert_eq!(adf.data.len(), 901120);
    assert_eq!(adf.data.len(), ADF_IMAGE_SIZE);
    assert_eq!(adf.bitmap.len(), 1760);
}

#[test]
fn empty_format_lists_nothing() {
    let mut adf = fresh();
    adf.format(DiskType::OFS, "TestDisk").unwrap();
    let files = adf.list_root_directory().unwrap();
    assert!(files.is_empty());
    let info = adf.information().unwrap();
    assert_eq!(info.disk_name, "TestDisk");
    assert_eq!(info.filesystem, "OFS");
    let boot = adf.read_boot_block();
    assert_eq!(&boot[0..4], &[b'D', b'O', b'S', 0u8]);
}

#[test]
fn sector_round_trip() {
    let mut adf = fresh();
    let payload = [42u8; 512];
    adf.write_sector(10, &payload).unwrap();
    assert_eq!(adf.read_sector(10), &payload[..]);
}

#[test]
fn write_sector_rejects_bad_length() {
    let mut adf = fresh();
    assert_eq!(adf.write_sector(10, &[1u8; 100]), Err(AdfError::BadLength));
    assert_eq!(adf.write_sector(9999, &[1u8; 512]), Err(AdfError::OutOfRange));
}

#[test]
fn file_create_and_read_back() {
    let mut adf = fresh();
    adf.format(DiskType::FFS, "V").unwrap();
    let contents = b"Hello, world!\n";
    let header = adf.write_file("HELLO", contents).unwrap();
    assert!(header >= 2 && header < 1760);

    let files = adf.list_root_directory().unwrap();
    assert_eq!(files.len(), 1);
    assert_eq!(files[0].name, "HELLO");
    assert_eq!(files[0].size, 14);
    assert!(!files[0].is_dir);

    let extracted = adf.extract_file("HELLO").unwrap();
    assert_eq!(extracted.as_bytes(), contents);
    assert_eq!(extracted.as_string().unwrap(), "Hello, world!\n");
}

#[test]
fn file_round_trip_ofs_multi_block() {
    let mut adf = fresh();
    adf.format(DiskType::OFS, "O").unwrap();
    let mut contents = Vec::new();
    for i in 0..2000 {
        contents.push((i % 251) as u8);
    }
    adf.write_file("BIG", &contents).unwrap();
    let read_back = adf.extract_file("BIG").unwrap();
    assert_eq!(read_back.as_bytes(), &contents[..]);
}

#[test]
fn file_round_trip_ffs_multi_block() {
    let mut adf = fresh();
    adf.format(DiskType::FFS, "F").unwrap();
    let mut contents = Vec::new();
    for i in 0..5000 {
        contents.push((i % 13) as u8);
    }
    adf.write_file("BIG", &contents).unwrap();
    let read_back = adf.extract_file("BIG").unwrap();
    assert_eq!(read_back.as_bytes(), &contents[..]);
}

#[test]
fn empty_file_round_trip() {
    let mut adf = fresh();
    adf.format(DiskType::OFS, "E").unwrap();
    adf.write_file("EMPTY", b"").unwrap();
    let read_back = adf.extract_file("EMPTY").unwrap();
    assert_eq!(read_back.as_bytes(), b"");
}

#[test]
fn duplicate_file_name_is_refused() {
    let mut adf = fresh();
    adf.format(DiskType::FFS, "V").unwrap();
    adf.write_file("HELLO", b"one").unwrap();
    assert_eq!(adf.write_file("HELLO", b"two"), Err(AdfError::NameExists));
}

#[test]
fn missing_file_is_not_found() {
    let mut adf = fresh();
    adf.format(DiskType::FFS, "V").unwrap();
    assert!(matches!(adf.extract_file("NOPE"), Err(AdfError::NotFound)));
}

#[test]
fn directory_lifecycle() {
    let mut adf = fresh();
    adf.format(DiskType::FFS, "V").unwrap();
    adf.create_directory("A").unwrap();
    adf.create_directory("A/B").unwrap();
    assert_eq!(adf.delete_directory("A"), Err(AdfError::NotEmpty));
    adf.delete_directory("A/B").unwrap();
    adf.delete_directory("A").unwrap();
    let files = adf.list_root_directory().unwrap();
    assert!(files.is_empty());
}

#[test]
fn rename_directory_moves_the_name() {
    let mut adf = fresh();
    adf.format(DiskType::FFS, "V").unwrap();
    adf.create_directory("OldDir").unwrap();
    adf.rename_directory("OldDir", "NewDir").unwrap();
    let files = adf.list_root_directory().unwrap();
    assert_eq!(files.len(), 1);
    assert_eq!(files[0].name, "NewDir");
    assert!(files[0].is_dir);
}

#[test]
fn rename_missing_directory_fails() {
    let mut adf = fresh();
    adf.format(DiskType::FFS, "V").unwrap();
    assert_eq!(
        adf.rename_directory("NonExistent", "NewName"),
        Err(AdfError::NotFound)
    );
}

#[test]
fn path_through_file_is_not_a_directory() {
    let mut adf = fresh();
    adf.format(DiskType::FFS, "V").unwrap();
    adf.write_file("HELLO", b"x").unwrap();
    assert_eq!(
        adf.create_directory("HELLO/SUB"),
        Err(AdfError::NotADirectory)
    );
}

#[test]
fn allocator_hands_out_lowest_free() {
    let mut adf = fresh();
    adf.format(DiskType::OFS, "V").unwrap();
    let a = adf.allocate_block().unwrap();
    assert_eq!(a, 2);
    let b = adf.allocate_block().unwrap();
    assert_eq!(b, 3);
    adf.set_block_free(2);
    let c = adf.allocate_block().unwrap();
    assert_eq!(c, 2);
}

#[test]
fn block_status_tracks_the_mirror() {
    let mut adf = fresh();
    adf.format(DiskType::OFS, "V").unwrap();
    assert_eq!(adf.get_block_status(880), Some(false));
    assert_eq!(adf.get_block_status(2), Some(true));
    assert_eq!(adf.get_block_status(5000), None);
    adf.set_block_status(2, false).unwrap();
    assert_eq!(adf.get_block_status(2), Some(false));
    assert_eq!(adf.set_block_status(5000, true), Err(AdfError::OutOfRange));
}

#[test]
fn bitmap_persists_and_reloads() {
    let mut adf = fresh();
    adf.format(DiskType::OFS, "V").unwrap();
    adf.set_block_used(100);
    adf.update_bitmap_blocks().unwrap();
    let reloaded = ADF::from_bytes(&adf.data).unwrap();
    assert_eq!(adf.get_bitmap(), reloaded.get_bitmap());
    assert_eq!(reloaded.get_block_status(100), Some(false));
}

#[test]
fn from_bytes_rejects_wrong_size() {
    assert!(matches!(
        ADF::from_bytes(&[0u8; 1000]),
        Err(AdfError::BadSize)
    ));
}

#[test]
fn structural_blocks_sum_to_zero() {
    let mut adf = fresh();
    adf.format(DiskType::FFS, "Check").unwrap();
    adf.write_file("HELLO", b"Hello, world!\n").unwrap();
    adf.create_directory("DIR").unwrap();
    // Root block, bitmap block, every file header and directory block.
    assert_eq!(block_word_sum(adf.read_root_block()), 0);
    assert_eq!(block_word_sum(adf.read_sector(881)), 0);
    for info in adf.list_root_directory().unwrap() {
        let header = adf.find_file_header_block(880, &info.name).unwrap();
        assert_eq!(block_word_sum(adf.read_sector(header)), 0);
    }
}

#[test]
fn ofs_data_blocks_sum_to_zero() {
    let mut adf = fresh();
    adf.format(DiskType::OFS, "Check").unwrap();
    adf.write_file("DATA", &[7u8; 1000]).unwrap();
    let header = adf.find_file_header_block(880, "DATA").unwrap();
    let hb = adf.read_sector(header).to_vec();
    let first = be32_word(&hb, 12);
    let mut cur = first as usize;
    let mut seen = 0;
    while cur != 0 {
        let blk = adf.read_sector(cur).to_vec();
        assert_eq!(block_word_sum(&blk), 0);
        cur = be32_word(&blk, 16) as usize;
        seen += 1;
    }
    assert_eq!(seen, 3);
}

#[test]
fn hash_is_stable_and_in_range() {
    let h1 = adflib::disk::hash_name(b"Workbench", false);
    let h2 = adflib::disk::hash_name(b"Workbench", false);
    assert_eq!(h1, h2);
    assert!(h1 < 72);
    let lo = adflib::disk::hash_name(b"workbench", true);
    let hi = adflib::disk::hash_name(b"WORKBENCH", true);
    assert_eq!(lo, hi);
}

#[test]
fn protection_flags_render_by_bit() {
    let adf = fresh();
    assert_eq!(adf.format_protection_flags(0), "hsparwed");
    assert_eq!(adf.format_protection_flags(0xFF), "--------");
    assert_eq!(adf.format_protection_flags(0x80), "-sparwed");
    assert_eq!(adf.format_protection_flags(0x01), "hsparwe-");
}

#[test]
fn listing_renders_name_and_size() {
    let mut adf = fresh();
    adf.format(DiskType::FFS, "V").unwrap();
    adf.write_file("HELLO", b"Hello, world!\n").unwrap();
    let text = adf.list().unwrap();
    assert_eq!(text, "HELLO (14 bytes)\n");
}

#[test]
fn information_reports_geometry() {
    let mut adf = fresh();
    adf.format(DiskType::FFS, "Geo").unwrap();
    let info = adf.information().unwrap();
    assert_eq!(info.filesystem, "FFS");
    assert_eq!(info.disk_size, 901120);
    assert_eq!(info.heads, 2);
    assert_eq!(info.tracks, 80);
    assert_eq!(info.sectors_per_track, 11);
    assert_eq!(info.bytes_per_sector, 512);
    assert_eq!(info.hash_table_size, 72);
    let line = info.as_string();
    assert!(line.contains("FFS"));
    assert!(line.contains("Geo"));
    assert!(line.contains("901120"));
}

#[test]
fn contiguous_free_run_is_found() {
    let mut adf = fresh();
    adf.format(DiskType::OFS, "V").unwrap();
    let start = adf.find_contiguous_free_blocks(5).unwrap();
    assert_eq!(start, 2);
    assert!(adf.find_contiguous_free_blocks(0).is_some());
}

#[test]
fn fragmentation_counts_used_blocks() {
    let mut adf = fresh();
    // Fresh mirror from `new` marks everything free.
    assert_eq!(adf.get_fragmentation_score(), 0);
    adf.set_block_used(7);
    assert_eq!(adf.get_fragmentation_score(), 1);
    adf.defragment().unwrap();
    assert_eq!(adf.get_fragmentation_score(), 1);
}

#[test]
fn split_path_cuts_at_last_slash() {
    assert_eq!(adflib::dirs::split_path("a/b/c"), ("a/b", "c"));
    assert_eq!(adflib::dirs::split_path("abc"), ("", "abc"));
    assert_eq!(adflib::dirs::split_path("/top"), ("", "top"));
}

#[test]
fn date_renders_in_decimal() {
    assert_eq!(adflib::disk::format_creation_date(0), "0");
    assert_eq!(adflib::disk::format_creation_date(1234567), "1234567");
}

#[test]
fn raw_track_sector_device() {
    let mut raw = adflib::adf_disk::ADF::new();
    let payload = [9u8; 512];
    raw.write_sector(3, 7, &payload).unwrap();
    assert_eq!(raw.read_sector(3, 7), &payload[..]);
    assert!(matches!(
        raw.write_sector(0, 0, &[1u8; 3]),
        Err(AdfError::BadLength)
    ));
}

#[test]
fn boot_flag_bits() {
    assert!(adflib::adf_blk::is_ffs(1));
    assert!(adflib::adf_blk::is_ofs(0));
    assert!(adflib::adf_blk::is_intl(2));
    assert!(adflib::adf_blk::is_dircache(4));
    assert!(!adflib::adf_blk::is_ffs(4));
}

#[test]
fn checksum_value_closes_a_block() {
    let adf = fresh();
    let mut block = vec![0u8; 512];
    block[0] = 0x12;
    block[100] = 0x34;
    let c = adf.calculate_checksum(&block);
    block[16..20].copy_from_slice(&c.to_be_bytes());
    assert_eq!(block_word_sum(&block), 0);
}

#[test]
fn decode_bitmap_reads_the_stored_block() {
    let mut adf = fresh();
    adf.format(DiskType::OFS, "V").unwrap();
    let bits = adf.decode_bitmap();
    assert_eq!(bits.len(), 1760);
    assert!(!bits[880]);
    assert!(!bits[881]);
    assert!(bits[2]);
}

#[test]
fn directory_helpers_compose() {
    let mut adf = fresh();
    adf.format(DiskType::FFS, "V").unwrap();
    adf.create_directory("SUB").unwrap();
    let sub = adf.find_directory_block("SUB").unwrap();
    assert!(adf.is_directory(sub));
    assert!(adf.is_directory_empty(sub).unwrap());
    adf.update_entry_in_directory(880, "SUB", "TUB").unwrap();
    assert!(adf.find_file_header_block(880, "SUB").is_err());
    let moved = adf.find_file_header_block(880, "TUB").unwrap();
    assert_eq!(moved, sub);
    adf.remove_entry_from_directory(880, "TUB").unwrap();
    assert!(adf.list_root_directory().unwrap().is_empty());
}

#[test]
fn update_directory_name_rewrites_in_place() {
    let mut adf = fresh();
    adf.format(DiskType::FFS, "V").unwrap();
    adf.create_directory("NAME").unwrap();
    let block = adf.find_directory_block("NAME").unwrap();
    adf.update_directory_name(block, "LONGERNAME").unwrap();
    let info = adf.read_file_header(block).unwrap();
    assert_eq!(info.name, "LONGERNAME");
    assert_eq!(block_word_sum(adf.read_sector(block)), 0);
}

#[test]
fn format_zeroes_everything_outside_the_structures() {
    let mut adf = fresh();
    adf.data[5000] = 0xEE;
    adf.data[400 * 512] = 0x77;
    adf.format(DiskType::OFS, "Zed").unwrap();
    assert!(adf.read_sector(100).iter().all(|&b| b == 0));
    assert!(adf.read_sector(400).iter().all(|&b| b == 0));
    // Boot block: signature and root pointer only, checksum left zero.
    let boot = adf.read_boot_block();
    assert_eq!(&boot[4..8], &[0, 0, 0, 0]);
    assert_eq!(&boot[8..12], &[0, 0, 3, 112]);
    assert!(boot[12..].iter().all(|&b| b == 0));
}

#[test]
fn write_file_leaves_used_sectors_alone() {
    let mut adf = fresh();
    adf.format(DiskType::FFS, "V").unwrap();
    adf.write_file("FIRST", b"first contents").unwrap();
    let bitmap_block = adf.read_sector(881).to_vec();
    let first_header = adf.find_file_header_block(880, "FIRST").unwrap();
    let first_sector = adf.read_sector(first_header).to_vec();
    adf.write_file("SECOND", b"second contents").unwrap();
    // Sectors that were already in use are untouched by a later write.
    assert_eq!(adf.read_sector(881), &bitmap_block[..]);
    assert_eq!(adf.read_sector(first_header), &first_sector[..]);
    assert_eq!(adf.extract_file("FIRST").unwrap().as_bytes(), b"first contents");
}

#[test]
fn rename_leaves_the_old_name_unresolved() {
    let mut adf = fresh();
    adf.format(DiskType::FFS, "V").unwrap();
    adf.create_directory("ONE").unwrap();
    adf.create_directory("TWO").unwrap();
    adf.rename_directory("ONE", "THREE").unwrap();
    assert!(matches!(
        adf.find_file_header_block(880, "ONE"),
        Err(AdfError::NotFound)
    ));
    assert!(adf.find_file_header_block(880, "THREE").is_ok());
    assert!(adf.find_file_header_block(880, "TWO").is_ok());
}

#[test]
fn created_directory_points_back_at_its_parent() {
    let mut adf = fresh();
    adf.format(DiskType::FFS, "V").unwrap();
    adf.create_directory("SUB").unwrap();
    let sub = adf.find_directory_block("SUB").unwrap();
    let sector = adf.read_sector(sub);
    let parent = be32_word(sector, 500);
    assert_eq!(parent, 880);
}

#[test]
fn free_bit_counting() {
    assert_eq!(adflib::disk::count_free_bits(&[true, false, true]), 2);
    assert_eq!(adflib::disk::count_free_bits(&[]), 0);
}
