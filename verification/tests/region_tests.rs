use mccompress::Error;
use mccompress::RegionFile;

/// Big-endian bytes of a 32-bit word.
fn be32(v: u32) -> [u8; 4] {
    [(v >> 24) as u8, (v >> 16) as u8, (v >> 8) as u8, v as u8]
}

/// Records `slot` in the header: its offset in sectors, its allocated sector
/// count, and its timestamp.
fn set_header(data: &mut Vec<u8>, slot: usize, sector: u32, count: u8, ts: u32) {
    let word = (sector << 8) | count as u32;
    data[4 * slot..4 * slot + 4].copy_from_slice(&be32(word));
    data[4096 + 4 * slot..4096 + 4 * slot + 4].copy_from_slice(&be32(ts));
}

/// Writes a chunk at `offset`: declared length, tag byte, payload.
fn put_chunk(data: &mut Vec<u8>, offset: usize, l: u32, tag: u8, payload: &[u8]) {
    data[offset..offset + 4].copy_from_slice(&be32(l));
    data[offset + 4] = tag;
    data[offset + 5..offset + 5 + payload.len()].copy_from_slice(payload);
}

/// Deflates `raw` into a zlib stream at the given level.
fn zlib_bytes(raw: &[u8], level: u32) -> Vec<u8> {
    let mut encoder =
        flate2::write::ZlibEncoder::new(Vec::new(), flate2::Compression::new(level));
    std::io::Write::write_all(&mut encoder, raw).unwrap();
    encoder.finish().unwrap()
}

/// Inflates a zlib stream back into bytes.
fn unzlib_bytes(compressed: &[u8]) -> Vec<u8> {
    let mut decoder = flate2::read::ZlibDecoder::new(compressed);
    let mut out = Vec::new();
    std::io::Read::read_to_end(&mut decoder, &mut out).unwrap();
    out
}

/// A fixture region file mirroring the recorded one: slot (0,0) at byte
/// offset 180224 with timestamp 1383443712, slot (14,10) with timestamp
/// 1383443713, slots (13,23) and (15,15) unused.
fn fixture() -> Vec<u8> {
    let mut data = vec![0u8; 45 * 4096];
    set_header(&mut data, 0, 44, 1, 1383443712);
    set_header(&mut data, 14 + 10 * 32, 2, 1, 1383443713);
    put_chunk(&mut data, 180224, 10, 2, &[1, 2, 3, 4, 5, 6, 7, 8, 9]);
    put_chunk(&mut data, 8192, 10, 2, &[1, 2, 3, 4, 5, 6, 7, 8, 9]);
    data
}

#[test]
fn test_region() {
    let region = RegionFile::new(fixture()).unwrap();

    let ts = region.get_chunk_timestamp(0, 0).unwrap();
    assert_eq!(ts, 1383443712);

    let ts = region.get_chunk_timestamp(13, 23).unwrap();
    assert_eq!(ts, 0);

    let ts = region.get_chunk_timestamp(14, 10).unwrap();
    assert_eq!(ts, 1383443713);

    assert!(region.chunk_exists(14, 10));
    assert!(!region.chunk_exists(15, 15));

    assert_eq!(region.get_chunk_offset(0, 0), 180224);

    assert_eq!(region.junk_bytes(14, 10).unwrap(), 0);
}

#[test]
fn offsets_are_sector_multiples() {
    let region = RegionFile::new(fixture()).unwrap();
    assert_eq!(region.get_chunk_offset(0, 0) % 4096, 0);
    assert_eq!(region.get_chunk_offset(14, 10), 8192);
    assert_eq!(region.get_chunk_size(14, 10), 4096);
    assert_eq!(region.get_chunk_size(0, 0), 4096);
}

#[test]
fn short_file_is_an_io_error() {
    let err = RegionFile::new(vec![0u8; 100]).unwrap_err();
    assert!(matches!(err, Error::Io));
}

#[test]
fn oversized_sector_offset_is_rejected() {
    let mut data = vec![0u8; 8192];
    // A sector offset above 0xFFFFF cannot be held as a 32-bit byte offset.
    data[0..4].copy_from_slice(&be32(0x100000u32 << 8));
    let err = RegionFile::new(data).unwrap_err();
    assert!(matches!(err, Error::InvariantViolation));
}

#[test]
fn junk_is_detected_and_cleaned() {
    let mut data = vec![0u8; 3 * 4096];
    set_header(&mut data, 0, 2, 1, 7);
    put_chunk(&mut data, 8192, 10, 2, &[9; 9]);
    data[8192 + 100] = 0xAB; // a stale byte past the declared length
    let mut region = RegionFile::new(data).unwrap();

    // the whole trailing window past the declared length counts as junk
    assert_eq!(region.junk_bytes(0, 0).unwrap(), 4096 - 5 - 10);

    let cleaned = region.clean_junk().unwrap();
    assert_eq!(cleaned, 4096 - 10 - 4);
    assert_eq!(region.junk_bytes(0, 0).unwrap(), 0);

    // cleaning again reports the same total and changes not one byte
    let before = region.file_bytes().clone();
    assert_eq!(region.clean_junk().unwrap(), cleaned);
    assert_eq!(region.file_bytes(), &before);
}

#[test]
fn clean_preserves_payload_and_header() {
    let mut data = vec![0u8; 3 * 4096];
    set_header(&mut data, 3, 2, 1, 11);
    put_chunk(&mut data, 8192, 10, 2, &[7; 9]);
    data[8192 + 4000] = 1;
    let mut region = RegionFile::new(data).unwrap();
    region.clean_junk().unwrap();

    // re-parsing the rewritten bytes yields the identical index
    let reparsed = RegionFile::new(region.file_bytes().clone()).unwrap();
    for x in 0..32u8 {
        for z in 0..32u8 {
            assert_eq!(reparsed.chunk_exists(x, z), region.chunk_exists(x, z));
            assert_eq!(reparsed.get_chunk_offset(x, z), region.get_chunk_offset(x, z));
            assert_eq!(reparsed.get_chunk_size(x, z), region.get_chunk_size(x, z));
            assert_eq!(
                reparsed.get_chunk_timestamp(x, z),
                region.get_chunk_timestamp(x, z)
            );
        }
    }
    // the declared-length window survives: length, tag and payload bytes
    let bytes = region.file_bytes();
    assert_eq!(&bytes[8192..8192 + 4], &be32(10));
    assert_eq!(bytes[8192 + 4], 2);
    assert_eq!(&bytes[8192 + 5..8192 + 14], &[7; 9]);
}

#[test]
fn junk_bytes_reports_errors() {
    // region reaching past the file's end
    let mut data = vec![0u8; 3 * 4096];
    set_header(&mut data, 0, 100, 1, 0);
    let region = RegionFile::new(data).unwrap();
    assert!(matches!(region.junk_bytes(0, 0), Err(Error::Io)));

    // declared length exceeding the region
    let mut data = vec![0u8; 3 * 4096];
    set_header(&mut data, 0, 2, 1, 0);
    put_chunk(&mut data, 8192, 5000, 2, &[]);
    let region = RegionFile::new(data).unwrap();
    assert!(matches!(region.junk_bytes(0, 0), Err(Error::InvariantViolation)));
}

#[test]
fn clean_junk_fails_fast_on_bad_length() {
    let mut data = vec![0u8; 3 * 4096];
    set_header(&mut data, 0, 2, 1, 0);
    put_chunk(&mut data, 8192, 5000, 2, &[]);
    let mut region = RegionFile::new(data).unwrap();
    assert!(matches!(region.clean_junk(), Err(Error::InvariantViolation)));
}

#[test]
fn recompress_round_trip() {
    let raw: Vec<u8> = (0..3000u32).map(|i| (i % 251) as u8).collect();
    for level in [0u32, 1, 5, 9] {
        let compressed = zlib_bytes(&raw, 6);
        let mut data = vec![0u8; 3 * 4096];
        set_header(&mut data, 5, 2, 1, 1);
        let l = (compressed.len() + 1) as u32;
        put_chunk(&mut data, 8192, l, 2, &compressed);
        let mut region = RegionFile::new(data).unwrap();

        let (old_total, new_total) = region.recompress_region(level).unwrap();
        assert_eq!(old_total, l as usize);
        assert!(new_total >= 1);

        let bytes = region.file_bytes();
        let new_l =
            u32::from_be_bytes([bytes[8192], bytes[8193], bytes[8194], bytes[8195]]) as usize;
        assert_eq!(new_l, new_total);
        assert_eq!(bytes[8192 + 4], 2);

        // the rewritten payload inflates to exactly the original bytes
        let new_payload = &bytes[8192 + 5..8192 + 4 + new_l];
        assert_eq!(unzlib_bytes(new_payload), raw);

        // the freed space is zero-padded to the region's end
        assert!(bytes[8192 + 4 + new_l..3 * 4096].iter().all(|b| *b == 0));
    }
}

#[test]
fn recompress_keeps_header_intact() {
    let raw = vec![42u8; 2000];
    let compressed = zlib_bytes(&raw, 2);
    let mut data = vec![0u8; 4 * 4096];
    set_header(&mut data, 17, 2, 1, 123);
    set_header(&mut data, 40, 3, 1, 456);
    put_chunk(&mut data, 8192, (compressed.len() + 1) as u32, 2, &compressed);
    put_chunk(&mut data, 12288, (compressed.len() + 1) as u32, 2, &compressed);
    let header_before = data[..8192].to_vec();
    let mut region = RegionFile::new(data).unwrap();

    region.recompress_region(9).unwrap();
    assert_eq!(&region.file_bytes()[..8192], &header_before[..]);
}

#[test]
fn unsupported_tag_is_rejected_untouched() {
    let mut data = vec![0u8; 3 * 4096];
    set_header(&mut data, 0, 2, 1, 1);
    put_chunk(&mut data, 8192, 10, 3, &[1; 9]);
    let before = data.clone();
    let mut region = RegionFile::new(data).unwrap();

    let err = region.recompress_region(5).unwrap_err();
    assert!(matches!(
        err,
        Error::UnsupportedCompressionFormat { compression_type: 3 }
    ));
    assert_eq!(region.file_bytes(), &before);
}

#[test]
fn recompress_fails_fast_keeping_earlier_rewrites() {
    let raw = vec![7u8; 1500];
    let compressed = zlib_bytes(&raw, 3);
    let mut data = vec![0u8; 4 * 4096];
    // passes walk x outer, z inner: slot (0,0) is rewritten before (1,0) fails
    set_header(&mut data, 0, 2, 1, 1);
    set_header(&mut data, 1, 3, 1, 1);
    put_chunk(&mut data, 8192, (compressed.len() + 1) as u32, 2, &compressed);
    put_chunk(&mut data, 12288, 10, 3, &[1; 9]);
    let before = data.clone();
    let mut region = RegionFile::new(data).unwrap();

    let err = region.recompress_region(9).unwrap_err();
    assert!(matches!(
        err,
        Error::UnsupportedCompressionFormat { compression_type: 3 }
    ));
    let bytes = region.file_bytes();
    // the failing slot and everything from it on are untouched
    assert_eq!(&bytes[12288..], &before[12288..]);
    assert_eq!(&bytes[..8192], &before[..8192]);
    // the slot before it keeps its rewrite, which still round-trips
    let new_l =
        u32::from_be_bytes([bytes[8192], bytes[8193], bytes[8194], bytes[8195]]) as usize;
    assert_eq!(bytes[8192 + 4], 2);
    assert_eq!(unzlib_bytes(&bytes[8192 + 5..8192 + 4 + new_l]), raw);
}

#[test]
fn clean_junk_fails_fast_keeping_earlier_cleaning() {
    let mut data = vec![0u8; 4 * 4096];
    // a junk-bearing slot cleans before the bad-length slot aborts the pass
    set_header(&mut data, 0, 2, 1, 1);
    set_header(&mut data, 1, 3, 1, 1);
    put_chunk(&mut data, 8192, 10, 2, &[9; 9]);
    data[8192 + 200] = 0xEE;
    put_chunk(&mut data, 12288, 5000, 2, &[]);
    let before = data.clone();
    let mut region = RegionFile::new(data).unwrap();

    assert!(matches!(region.clean_junk(), Err(Error::InvariantViolation)));
    let bytes = region.file_bytes();
    // the slot before the failure had its tail zeroed
    assert!(bytes[8192 + 4 + 10..12288].iter().all(|b| *b == 0));
    // the failing slot and the header are untouched
    assert_eq!(&bytes[12288..], &before[12288..]);
    assert_eq!(&bytes[..8192], &before[..8192]);
}

#[test]
fn corrupt_payload_is_an_io_error() {
    let mut data = vec![0u8; 3 * 4096];
    set_header(&mut data, 0, 2, 1, 1);
    put_chunk(&mut data, 8192, 10, 2, &[1, 2, 3, 4, 5, 6, 7, 8, 9]);
    let before = data.clone();
    let mut region = RegionFile::new(data).unwrap();

    assert!(matches!(region.recompress_chunk(0, 0, 5), Err(Error::Io)));
    assert_eq!(region.file_bytes(), &before);
}

#[test]
fn recompress_chunk_reports_bad_length() {
    let mut data = vec![0u8; 3 * 4096];
    set_header(&mut data, 0, 2, 1, 1);
    put_chunk(&mut data, 8192, 5000, 2, &[]);
    let mut region = RegionFile::new(data).unwrap();
    assert!(matches!(
        region.recompress_chunk(0, 0, 5),
        Err(Error::InvariantViolation)
    ));
}

#[test]
fn write_recompressed_demands_room() {
    let mut data = vec![0u8; 3 * 4096];
    set_header(&mut data, 0, 2, 1, 1);
    put_chunk(&mut data, 8192, 10, 2, &[1; 9]);
    let before = data.clone();
    let mut region = RegionFile::new(data).unwrap();

    // a payload that fills the region completely leaves no strict room
    let too_big = vec![1u8; 4096 - 6];
    assert!(matches!(
        region.write_recompressed(0, 0, &too_big),
        Err(Error::InvariantViolation)
    ));
    assert_eq!(region.file_bytes(), &before);

    // a fitting payload is stored with its length, tag and zero padding
    let payload = vec![5u8; 100];
    let new_len = region.write_recompressed(0, 0, &payload).unwrap();
    assert_eq!(new_len, 101);
    let bytes = region.file_bytes();
    assert_eq!(&bytes[8192..8192 + 4], &be32(101));
    assert_eq!(bytes[8192 + 4], 2);
    assert_eq!(&bytes[8192 + 5..8192 + 105], &payload[..]);
    assert!(bytes[8192 + 105..3 * 4096].iter().all(|b| *b == 0));
}
