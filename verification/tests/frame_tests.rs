use lz4_simple::bytes::read_vec_u32_le;
use lz4_simple::bytes::write_vec_u32_le;
use lz4_simple::errors::Lz4Error;
use lz4_simple::frame::build_frame_header;
use lz4_simple::frame::compress_frame;
use lz4_simple::frame::decompress_frame;
use lz4_simple::frame::parse_block_prefix;
use lz4_simple::frame::parse_frame_header;
use lz4_simple::frame::BlockPrefix;
use lz4_simple::xxhash32::XXHash32;

fn roundtrip(data: &Vec<u8>, level: usize) -> Vec<u8> {
    let packed = compress_frame(data, level).unwrap();
    let unpacked = decompress_frame(&packed).unwrap();
    assert_eq!(&unpacked, data, "level {level} len {}", data.len());
    packed
}

fn header_with(flags: u8, bd: u8) -> Vec<u8> {
    let mut h: Vec<u8> = Vec::new();
    h.resize(7, 0);
    write_vec_u32_le(&mut h, 0, 0x184d2204);
    h[4] = flags;
    h[5] = bd;
    let mut hash = XXHash32::new(0);
    let digest = hash.update(&h, 4, 2).unwrap();
    h[6] = ((digest >> 8) & 0xff) as u8;
    h
}

fn pattern(len: usize, period: usize) -> Vec<u8> {
    let mut v: Vec<u8> = Vec::new();
    for i in 0..len {
        v.push((i % period) as u8);
    }
    v
}

fn pseudo_random(len: usize) -> Vec<u8> {
    let mut v: Vec<u8> = Vec::new();
    let mut x: u64 = 0x9e3779b97f4a7c15;
    for _ in 0..len {
        x ^= x << 13;
        x ^= x >> 7;
        x ^= x << 17;
        v.push((x >> 32) as u8);
    }
    v
}

#[test]
fn roundtrip_boundary_sizes() {
    for level in 1..10 {
        for len in [0usize, 1, 15, 16, 270] {
            let data = pattern(len, 251);
            roundtrip(&data, level);
        }
    }
}

#[test]
fn s1_small_pattern_all_levels() {
    let mut data: Vec<u8> = Vec::new();
    for i in 0..1024 {
        data.push((i & 0x0f) as u8);
    }
    for level in 1..10 {
        let packed = roundtrip(&data, level);
        assert!(packed.len() < data.len(), "level {level}: {} bytes", packed.len());
    }
}

#[test]
fn header_checksum_matches_xxhash() {
    let h = build_frame_header();
    assert_eq!(h.len(), 7);
    assert_eq!(read_vec_u32_le(&h, 0), 0x184d2204);
    assert_eq!(h[4], 0x60);
    assert_eq!(h[5], 0x70);
    let mut hash = XXHash32::new(0);
    let digest = hash.update(&h, 4, 2).unwrap();
    assert_eq!(h[6], ((digest >> 8) & 0xff) as u8);
    assert_eq!(parse_frame_header(&h), Ok(false));
}

#[test]
fn s5_content_checksum_tolerated() {
    // flag byte 0x64: version 1, independent blocks, content checksum set
    let mut frame = header_with(0x64, 0x70);
    assert_eq!(parse_frame_header(&frame), Ok(true));
    frame.extend_from_slice(&[0, 0, 0, 0]);
    let out = decompress_frame(&frame).unwrap();
    assert_eq!(out.len(), 0);
}

#[test]
fn s6_block_dependence_rejected() {
    let mut frame = header_with(0x40, 0x70);
    frame.extend_from_slice(&[0, 0, 0, 0]);
    assert_eq!(decompress_frame(&frame), Err(Lz4Error::UnsupportedBlockDependence));
    assert_eq!(
        Lz4Error::UnsupportedBlockDependence.message(),
        "Unsupported block dependence"
    );
}

#[test]
fn header_errors() {
    // wrong magic
    let mut bad_magic = header_with(0x60, 0x70);
    bad_magic[0] = 0x05;
    assert_eq!(parse_frame_header(&bad_magic), Err(Lz4Error::IncorrectMagic));
    // version 2
    assert_eq!(parse_frame_header(&header_with(0xa0, 0x70)), Err(Lz4Error::UnsupportedVersion));
    // block checksum flag
    assert_eq!(
        parse_frame_header(&header_with(0x70, 0x70)),
        Err(Lz4Error::UnsupportedBlockChecksumFlag)
    );
    // content size flag
    assert_eq!(
        parse_frame_header(&header_with(0x68, 0x70)),
        Err(Lz4Error::UnsupportedContentSizeFlag)
    );
    // reserved bit
    assert_eq!(parse_frame_header(&header_with(0x62, 0x70)), Err(Lz4Error::UnsupportedReserved));
    // dictionary bit
    assert_eq!(parse_frame_header(&header_with(0x61, 0x70)), Err(Lz4Error::UnsupportedDictFlag));
    // block max size code 3
    assert_eq!(
        parse_frame_header(&header_with(0x60, 0x30)),
        Err(Lz4Error::UnsupportedBlockMaxSize)
    );
    // bad checksum byte
    let mut bad_cs = header_with(0x60, 0x70);
    bad_cs[6] = bad_cs[6].wrapping_add(1);
    assert_eq!(parse_frame_header(&bad_cs), Err(Lz4Error::HeaderChecksumMismatch));
    assert_eq!(Lz4Error::HeaderChecksumMismatch.message(), "Header checksum mismatch");
}

#[test]
fn oversized_block_rejected() {
    let mut frame = header_with(0x60, 0x70);
    let mut prefix: Vec<u8> = Vec::new();
    prefix.resize(4, 0);
    write_vec_u32_le(&mut prefix, 0, 0x400001);
    frame.extend_from_slice(&prefix);
    assert_eq!(decompress_frame(&frame), Err(Lz4Error::UnsupportedBlockSize));
    assert_eq!(Lz4Error::UnsupportedBlockSize.message(), "Unsupported block size");
}

#[test]
fn truncated_frame_rejected() {
    let frame = header_with(0x60, 0x70);
    // no block prefix at all
    assert_eq!(decompress_frame(&frame), Err(Lz4Error::InputBufferTooSmall));
    let short: Vec<u8> = vec![0x04, 0x22];
    assert_eq!(decompress_frame(&short), Err(Lz4Error::InputBufferTooSmall));
}

#[test]
fn block_prefix_classification() {
    assert_eq!(parse_block_prefix(0), Ok(BlockPrefix::End));
    assert_eq!(parse_block_prefix(100), Ok(BlockPrefix::Compressed(100)));
    assert_eq!(parse_block_prefix(0x8000_0000 + 77), Ok(BlockPrefix::Stored(77)));
    assert_eq!(parse_block_prefix(0x400001), Err(Lz4Error::UnsupportedBlockSize));
    assert_eq!(parse_block_prefix(0x8040_0001), Err(Lz4Error::UnsupportedBlockSize));
}

#[test]
fn stored_frame_roundtrip() {
    // a hand-built frame with one stored block
    let mut frame = header_with(0x60, 0x70);
    let payload: Vec<u8> = vec![9, 8, 7, 6, 5];
    let mut prefix: Vec<u8> = Vec::new();
    prefix.resize(4, 0);
    write_vec_u32_le(&mut prefix, 0, 0x8000_0000 + payload.len() as u32);
    frame.extend_from_slice(&prefix);
    frame.extend_from_slice(&payload);
    frame.extend_from_slice(&[0, 0, 0, 0]);
    assert_eq!(decompress_frame(&frame).unwrap(), payload);
}

#[test]
fn s2_zeros_4mib_level1() {
    let data: Vec<u8> = vec![0; 4 * 1024 * 1024];
    let packed = roundtrip(&data, 1);
    assert!(packed.len() < 20000, "{} bytes", packed.len());
}

#[test]
fn s2_zeros_4mib_level5() {
    let data: Vec<u8> = vec![0; 4 * 1024 * 1024];
    let packed = roundtrip(&data, 5);
    assert!(packed.len() < 20000, "{} bytes", packed.len());
}

#[test]
fn s2_zeros_small_level9() {
    let data: Vec<u8> = vec![0; 2048];
    let packed = roundtrip(&data, 9);
    assert!(packed.len() < 128, "{} bytes", packed.len());
}

#[test]
fn s3_random_4mib_level1() {
    let data = pseudo_random(4 * 1024 * 1024);
    let packed = roundtrip(&data, 1);
    // incompressible data must stay within the stored-block overhead
    assert!(packed.len() <= data.len() + 64, "{} bytes", packed.len());
    // the first block is either stored (top bit set) or decodes equal,
    // which the round trip above already confirmed
    let prefix = read_vec_u32_le(&packed, 7);
    assert!(prefix != 0);
}

#[test]
fn s3_random_4mib_level8() {
    let data = pseudo_random(4 * 1024 * 1024);
    let packed = roundtrip(&data, 8);
    assert!(packed.len() <= data.len() + 64, "{} bytes", packed.len());
}

#[test]
fn s3_random_small_level9() {
    let data = pseudo_random(256 * 1024);
    let packed = roundtrip(&data, 9);
    assert!(packed.len() <= data.len() + 64, "{} bytes", packed.len());
}

#[test]
fn s4_multi_block_roundtrip() {
    // three blocks and a tail: crosses the 4 MiB block boundary
    let data = pattern(9 * 1024 * 1024 + 13, 257);
    roundtrip(&data, 1);
}

#[test]
fn s4_levels_compared() {
    let data = pattern(8 * 1024, 257);
    let packed1 = roundtrip(&data, 1);
    let packed9 = roundtrip(&data, 9);
    assert!(packed9.len() <= packed1.len(), "{} vs {}", packed9.len(), packed1.len());
}

#[test]
fn boundary_4mib_sizes_level1() {
    for len in [4 * 1024 * 1024 - 1, 4 * 1024 * 1024, 4 * 1024 * 1024 + 1] {
        let data = pattern(len, 253);
        roundtrip(&data, 1);
    }
}
