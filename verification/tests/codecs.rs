use adflib::dms::dms_to_adf;
use adflib::dms::unpack_rle_bytes;
use adflib::dms::DMSPackingMode;
use adflib::dms::DMSReader;
use adflib::dms::InfoBits;
use adflib::err::AdfError;
use adflib::hunk::HunkParser;
use adflib::hunk::HunkType;
use adflib::hunk::MemoryType;

fn push_u16(v: &mut Vec<u8>, x: u16) {
    v.push((x >> 8) as u8);
    v.push((x & 0xff) as u8);
}

fn push_u32(v: &mut Vec<u8>, x: u32) {
    v.push((x >> 24) as u8);
    v.push((x >> 16) as u8);
    v.push((x >> 8) as u8);
    v.push(x as u8);
}

/// A 56-byte archive header: `DMS!`, one track from `low` to `high`,
/// the given unpacked size.
fn dms_header(low: u16, high: u16, unpacked: u32) -> Vec<u8> {
    let mut v = Vec::new();
    v.extend_from_slice(b"DMS!");
    v.extend_from_slice(b"PRO ");
    push_u32(&mut v, 1); // info_bits
    push_u32(&mut v, 2); // date
    push_u16(&mut v, low);
    push_u16(&mut v, high);
    push_u32(&mut v, 3); // packed_size
    push_u32(&mut v, unpacked);
    for _ in 0..12 {
        push_u16(&mut v, 0);
    }
    push_u16(&mut v, 2); // compression_mode
    push_u16(&mut v, 0); // info_header_crc
    assert_eq!(v.len(), 56);
    v
}

fn track_header(pack: u16, unpack: u16, mode: u8) -> Vec<u8> {
    let mut v = Vec::new();
    v.extend_from_slice(b"TR");
    push_u16(&mut v, 0); // track number
    push_u16(&mut v, 0); // unused
    push_u16(&mut v, pack);
    push_u16(&mut v, 0); // unused
    push_u16(&mut v, unpack);
    v.push(0); // c_flag
    v.push(mode);
    push_u16(&mut v, 0); // u_sum
    push_u16(&mut v, 0); // d_crc
    push_u16(&mut v, 0); // h_crc
    assert_eq!(v.len(), 20);
    v
}

#[test]
fn dms_header_fields_are_read() {
    let input = dms_header(0, 79, 4);
    let reader = DMSReader::new(input).unwrap();
    let info = reader.info();
    assert_eq!(info.signature, "DMS!");
    assert_eq!(info.header_type, "PRO ");
    assert_eq!(info.info_bits.0, 1);
    assert_eq!(info.date, 2);
    assert_eq!(info.low_track, 0);
    assert_eq!(info.high_track, 79);
    assert_eq!(info.packed_size, 3);
    assert_eq!(info.unpacked_size, 4);
    assert!(matches!(info.compression_mode, DMSPackingMode::Quick));
}

#[test]
fn dms_bad_magic_is_refused() {
    let mut input = dms_header(0, 0, 0);
    input[0] = b'X';
    assert!(matches!(DMSReader::new(input), Err(AdfError::BadMagic)));
    // The magic is judged as soon as four bytes are there, before the
    // whole header is demanded.
    assert!(matches!(
        DMSReader::new(vec![b'X', b'M', b'S', b'!', 0, 0]),
        Err(AdfError::BadMagic)
    ));
    assert!(matches!(
        DMSReader::new(vec![b'D', b'M', b'S', b'!', 0, 0]),
        Err(AdfError::UnexpectedEof)
    ));
    assert!(matches!(
        DMSReader::new(vec![1, 2, 3]),
        Err(AdfError::UnexpectedEof)
    ));
}

#[test]
fn dms_none_mode_copies_payload() {
    let mut input = dms_header(0, 0, 5);
    input.extend_from_slice(&track_header(5, 5, 0));
    input.extend_from_slice(&[1, 2, 3, 4, 5]);
    let mut reader = DMSReader::new(input).unwrap();
    let track = reader.read_track().unwrap();
    assert_eq!(track, vec![1, 2, 3, 4, 5]);
}

#[test]
fn dms_rle_fixed_vector() {
    let encoded = [0x01u8, 0x02, 0x90, 0x03, 0x41, 0x03, 0x04];
    let decoded = unpack_rle_bytes(&encoded).unwrap();
    assert_eq!(decoded, vec![0x01, 0x02, 0x41, 0x41, 0x41, 0x03, 0x04]);
}

#[test]
fn dms_rle_escape_and_wide_count() {
    // 0x90 0x00 stands for a literal 0x90.
    assert_eq!(unpack_rle_bytes(&[0x90, 0x00]).unwrap(), vec![0x90]);
    // 0x90 0xFF v n16 repeats v n16 times.
    let out = unpack_rle_bytes(&[0x90, 0xFF, 0x07, 0x01, 0x00]).unwrap();
    assert_eq!(out.len(), 256);
    assert!(out.iter().all(|&b| b == 7));
    // Truncated input fails.
    assert!(matches!(
        unpack_rle_bytes(&[0x90]),
        Err(AdfError::UnexpectedEof)
    ));
}

#[test]
fn dms_rle_track_decodes_through_reader() {
    let mut input = dms_header(0, 0, 7);
    input.extend_from_slice(&track_header(7, 7, 1));
    input.extend_from_slice(&[1, 2, 0x90, 3, 65, 3, 4]);
    let mut reader = DMSReader::new(input).unwrap();
    let track = reader.read_track().unwrap();
    assert_eq!(track, vec![1, 2, 65, 65, 65, 3, 4]);
}

/// The QUICK payload whose bit stream repeats `1 10101010`: every step
/// reads a set bit, then the literal byte 0xAA.
fn quick_payload(bytes_out: usize) -> Vec<u8> {
    let mut v = Vec::new();
    let mut acc: u32 = 0;
    let mut nbits = 0;
    for _ in 0..bytes_out {
        acc = (acc << 9) | 0b1_1010_1010;
        nbits += 9;
        while nbits >= 8 {
            v.push(((acc >> (nbits - 8)) & 0xff) as u8);
            nbits -= 8;
        }
    }
    if nbits > 0 {
        v.push(((acc << (8 - nbits)) & 0xff) as u8);
    }
    v
}

#[test]
fn dms_quick_fixed_vector() {
    let payload = quick_payload(11360);
    let mut input = dms_header(0, 0, 11360);
    input.extend_from_slice(&track_header(payload.len() as u16, 11360, 2));
    input.extend_from_slice(&payload);
    let mut reader = DMSReader::new(input).unwrap();
    let track = reader.read_track().unwrap();
    assert_eq!(track.len(), 11360);
    assert_eq!(&track[0..4], &[0xAA, 0xAA, 0xAA, 0xAA]);
}

#[test]
fn dms_unsupported_mode_is_reported() {
    let mut input = dms_header(0, 0, 5);
    input.extend_from_slice(&track_header(5, 5, 3));
    input.extend_from_slice(&[1, 2, 3, 4, 5]);
    let mut reader = DMSReader::new(input).unwrap();
    assert_eq!(reader.read_track(), Err(AdfError::Unsupported));
}

#[test]
fn dms_bad_track_magic_is_reported() {
    let mut input = dms_header(0, 0, 5);
    let mut th = track_header(5, 5, 0);
    th[0] = b'X';
    input.extend_from_slice(&th);
    input.extend_from_slice(&[1, 2, 3, 4, 5]);
    let mut reader = DMSReader::new(input).unwrap();
    assert_eq!(reader.read_track(), Err(AdfError::BadMagic));
}

#[test]
fn dms_total_length_matches_header() {
    let mut input = dms_header(0, 1, 10);
    input.extend_from_slice(&track_header(5, 5, 0));
    input.extend_from_slice(&[1, 2, 3, 4, 5]);
    input.extend_from_slice(&track_header(5, 5, 0));
    input.extend_from_slice(&[6, 7, 8, 9, 10]);
    let image = dms_to_adf(&input).unwrap();
    assert_eq!(image.len(), 10);
    assert_eq!(image, vec![1, 2, 3, 4, 5, 6, 7, 8, 9, 10]);
}

#[test]
fn dms_size_mismatch_is_reported() {
    let mut input = dms_header(0, 0, 9);
    input.extend_from_slice(&track_header(5, 5, 0));
    input.extend_from_slice(&[1, 2, 3, 4, 5]);
    assert_eq!(dms_to_adf(&input), Err(AdfError::BadSize));
}

#[test]
fn dms_decode_is_deterministic() {
    let payload = quick_payload(11360);
    let mut input = dms_header(0, 0, 11360);
    input.extend_from_slice(&track_header(payload.len() as u16, 11360, 2));
    input.extend_from_slice(&payload);
    let first = dms_to_adf(&input).unwrap();
    let second = dms_to_adf(&input).unwrap();
    assert_eq!(first, second);
}

#[test]
fn dms_read_sector_cuts_a_track() {
    let mut input = dms_header(0, 0, 4096);
    let mut payload = Vec::new();
    for i in 0..4096u32 {
        payload.push((i % 7) as u8);
    }
    input.extend_from_slice(&track_header(4096, 4096, 0));
    input.extend_from_slice(&payload);
    let mut reader = DMSReader::new(input).unwrap();
    let sector = reader.read_sector(2).unwrap();
    assert_eq!(sector.len(), 256);
    assert_eq!(sector[..], payload[512..768]);
}

#[test]
fn info_bits_flags() {
    let bits = InfoBits::new(InfoBits::ENCRYPT | InfoBits::BANNER);
    assert!(bits.contains(InfoBits::ENCRYPT));
    assert!(bits.contains(InfoBits::BANNER));
    assert!(!bits.contains(InfoBits::NOZERO));
    assert!(matches!(
        DMSPackingMode::from_code(0),
        DMSPackingMode::NoCompression
    ));
    assert!(matches!(
        DMSPackingMode::from_code(77),
        DMSPackingMode::Unsupported
    ));
}

#[test]
fn hunk_minimal_code_file() {
    let mut v = Vec::new();
    push_u32(&mut v, 1011); // HUNK_HEADER
    push_u32(&mut v, 0); // empty names table
    push_u32(&mut v, 1); // table size
    push_u32(&mut v, 0); // first hunk
    push_u32(&mut v, 0); // last hunk
    push_u32(&mut v, 1); // size word of hunk 0
    push_u32(&mut v, 1001); // HUNK_CODE
    push_u32(&mut v, 1); // one long of code
    v.extend_from_slice(&[0xDE, 0xAD, 0xBE, 0xEF]);
    push_u32(&mut v, 1010); // HUNK_END
    let hunks = HunkParser::parse_hunks(&v).unwrap();
    assert_eq!(hunks.len(), 1);
    assert_eq!(hunks[0].hunk_type, HunkType::Code);
    assert_eq!(hunks[0].mem_type, MemoryType::Any);
    assert_eq!(hunks[0].data_size, 4);
    assert_eq!(
        hunks[0].code_data.as_ref().unwrap(),
        &vec![0xDE, 0xAD, 0xBE, 0xEF]
    );
    assert!(hunks[0].reloc_32.is_none());
    assert!(hunks[0].symbols.is_none());
    assert!(hunks[0].line_debug_info.is_none());
}

#[test]
fn hunk_bad_magic_and_table() {
    let mut v = Vec::new();
    push_u32(&mut v, 999);
    push_u32(&mut v, 0);
    assert!(matches!(HunkParser::parse_hunks(&v), Err(AdfError::BadMagic)));

    let mut w = Vec::new();
    push_u32(&mut w, 1011);
    push_u32(&mut w, 0);
    push_u32(&mut w, 1);
    push_u32(&mut w, 5); // first
    push_u32(&mut w, 2); // last < first
    assert!(matches!(HunkParser::parse_hunks(&w), Err(AdfError::BadTable)));
}

#[test]
fn hunk_memory_classes_and_reloc() {
    let mut v = Vec::new();
    push_u32(&mut v, 1011);
    push_u32(&mut v, 0);
    push_u32(&mut v, 1);
    push_u32(&mut v, 0);
    push_u32(&mut v, 0);
    push_u32(&mut v, 1);
    push_u32(&mut v, 1002); // HUNK_DATA
    push_u32(&mut v, 0x4000_0001); // one long, chip memory
    v.extend_from_slice(&[1, 2, 3, 4]);
    push_u32(&mut v, 1004); // HUNK_RELOC32
    push_u32(&mut v, 2); // two offsets
    push_u32(&mut v, 0); // target hunk
    push_u32(&mut v, 0);
    push_u32(&mut v, 4);
    push_u32(&mut v, 0); // end of groups
    push_u32(&mut v, 1010);
    let hunks = HunkParser::parse_hunks(&v).unwrap();
    assert_eq!(hunks.len(), 1);
    assert_eq!(hunks[0].hunk_type, HunkType::Data);
    assert_eq!(hunks[0].mem_type, MemoryType::Chip);
    let relocs = hunks[0].reloc_32.as_ref().unwrap();
    assert_eq!(relocs.len(), 1);
    assert_eq!(relocs[0].target, 0);
    assert_eq!(relocs[0].offsets, vec![0, 4]);
}

#[test]
fn hunk_symbols_are_sorted_by_offset() {
    let mut v = Vec::new();
    push_u32(&mut v, 1011);
    push_u32(&mut v, 0);
    push_u32(&mut v, 1);
    push_u32(&mut v, 0);
    push_u32(&mut v, 0);
    push_u32(&mut v, 1);
    push_u32(&mut v, 1003); // HUNK_BSS
    push_u32(&mut v, 2);
    push_u32(&mut v, 1008); // HUNK_SYMBOL
    push_u32(&mut v, 1);
    v.extend_from_slice(b"ZZZ\0");
    push_u32(&mut v, 8);
    push_u32(&mut v, 1);
    v.extend_from_slice(b"AAA\0");
    push_u32(&mut v, 4);
    push_u32(&mut v, 0);
    push_u32(&mut v, 1010);
    let hunks = HunkParser::parse_hunks(&v).unwrap();
    assert_eq!(hunks[0].hunk_type, HunkType::Bss);
    assert_eq!(hunks[0].data_size, 8);
    let syms = hunks[0].symbols.as_ref().unwrap();
    assert_eq!(syms.len(), 2);
    assert_eq!(syms[0].name, "AAA");
    assert_eq!(syms[0].offset, 4);
    assert_eq!(syms[1].name, "ZZZ");
    assert_eq!(syms[1].offset, 8);
}

#[test]
fn hunk_line_debug_records() {
    let mut v = Vec::new();
    push_u32(&mut v, 1011);
    push_u32(&mut v, 0);
    push_u32(&mut v, 1);
    push_u32(&mut v, 0);
    push_u32(&mut v, 0);
    push_u32(&mut v, 1);
    push_u32(&mut v, 1009); // HUNK_DEBUG
    push_u32(&mut v, 6); // total longs incl. base and tag
    push_u32(&mut v, 0x100); // base offset
    push_u32(&mut v, 0x4c49_4e45); // LINE
    push_u32(&mut v, 1); // name longs
    v.extend_from_slice(b"f.c\0");
    push_u32(&mut v, 12); // line number
    push_u32(&mut v, 8); // offset
    push_u32(&mut v, 1010);
    let hunks = HunkParser::parse_hunks(&v).unwrap();
    let files = hunks[0].line_debug_info.as_ref().unwrap();
    assert_eq!(files.len(), 1);
    assert_eq!(files[0].name, "f.c");
    assert_eq!(files[0].base_offset, 0x100);
    assert_eq!(files[0].lines.len(), 1);
    assert_eq!(files[0].lines[0].line, 12);
    assert_eq!(files[0].lines[0].offset, 0x108);
}

#[test]
fn text_rendering_helpers() {
    assert_eq!(adflib::text::u64_to_string(0), "0");
    assert_eq!(adflib::text::u64_to_string(90210), "90210");
    assert_eq!(adflib::text::printable_string(b"ok"), "ok");
    assert_eq!(adflib::text::printable_string(&[0x41, 0xFF]), "A?");
    assert_eq!(adflib::err::AdfError::OutOfSpace.message(), "out of space");
}

#[test]
fn bit_reader_takes_bits_big_endian_first() {
    let data = [0b1100_0000u8, 0, 0, 0, 0xFF];
    let mut reader = adflib::dms::BitReader::new(&data);
    assert_eq!(reader.get_bits(1).unwrap(), 1);
    assert_eq!(reader.get_bits(1).unwrap(), 1);
    assert_eq!(reader.get_bits(2).unwrap(), 0);
    let mut short = adflib::dms::BitReader::new(&[0u8; 4]);
    assert_eq!(short.get_bits(8).unwrap(), 0);
}

#[test]
fn hunk_leaf_readers() {
    let mut v = Vec::new();
    push_u32(&mut v, 0xDEADBEEF);
    v.extend_from_slice(b"hi\0\0");
    let mut pos = 0;
    assert_eq!(HunkParser::read_u32(&v, &mut pos).unwrap(), 0xDEADBEEF);
    assert_eq!(HunkParser::read_name(&v, &mut pos, 1).unwrap(), "hi");
    assert_eq!(pos, 8);
    let (size, mem) = HunkParser::get_size_type(0x8000_0002);
    assert_eq!(size, 8);
    assert_eq!(mem, MemoryType::Fast);
}

#[test]
fn hunk_skips_unknown_blocks() {
    let mut v = Vec::new();
    push_u32(&mut v, 1011);
    push_u32(&mut v, 0);
    push_u32(&mut v, 1);
    push_u32(&mut v, 0);
    push_u32(&mut v, 0);
    push_u32(&mut v, 1);
    push_u32(&mut v, 9999); // unknown block id
    push_u32(&mut v, 1); // skip one long
    push_u32(&mut v, 0);
    push_u32(&mut v, 1003); // HUNK_BSS
    push_u32(&mut v, 3);
    push_u32(&mut v, 1010);
    let hunks = HunkParser::parse_hunks(&v).unwrap();
    assert_eq!(hunks[0].hunk_type, HunkType::Bss);
    assert_eq!(hunks[0].data_size, 12);
}
