use lz4_simple::compress::Compress;
use lz4_simple::decompress::decompress_block;
use lz4_simple::errors::Lz4Error;

#[test]
fn compress_decompress() {
    let mut block: Vec<u8> = Vec::new();
    block.resize(1024, 0);
    for i in 0..1024 {
        block[i] = (i & 0xf) as u8;
    }
    let mut out_block: Vec<u8> = Vec::new();
    out_block.resize(2 * 1024, 0);
    for level in 1..10 {
        let mut comp = Compress::new(1024, level);
        let end = comp.compress_block(&block, block.len(), &mut out_block, 0).unwrap();
        let mut test_block: Vec<u8> = Vec::new();
        test_block.resize(1024, 0);
        let test_end = decompress_block(&out_block, end, &mut test_block, 0).unwrap();
        assert_eq!(test_end, 1024, "level {level}");
        for i in 0..1024 {
            assert_eq!(test_block[i], block[i], "at {i}");
        }
    }
}

#[test]
fn run_length_fill() {
    // one literal 0xAB, then a match at offset 1 of minimum length 4:
    // the prefix byte repeats as a run-length fill of five bytes in all
    let payload: Vec<u8> = vec![0x10, 0xab, 0x01, 0x00, 0x00, 0x00];
    let mut out: Vec<u8> = Vec::new();
    out.resize(16, 0);
    let end = decompress_block(&payload, 6, &mut out, 0).unwrap();
    assert_eq!(end, 5);
    for i in 0..5 {
        assert_eq!(out[i], 0xab);
    }
}

#[test]
fn degenerate_tail() {
    // the block ends right after the offset bytes: the decoder stops
    // positionally and the trailing match is never expanded
    let payload: Vec<u8> = vec![0x10, 0xab, 0x01, 0x00];
    let mut out: Vec<u8> = Vec::new();
    out.resize(16, 0);
    let end = decompress_block(&payload, 4, &mut out, 0).unwrap();
    assert_eq!(end, 1);
    assert_eq!(out[0], 0xab);
}

#[test]
fn offset_zero_rejected() {
    let payload: Vec<u8> = vec![0x10, 0xab, 0x00, 0x00, 0x00, 0x00];
    let mut out: Vec<u8> = Vec::new();
    out.resize(16, 0);
    assert_eq!(decompress_block(&payload, 6, &mut out, 0), Err(Lz4Error::OffsetZero));
    assert_eq!(Lz4Error::OffsetZero.message(), "Offset 0");
}

#[test]
fn offset_too_large_rejected() {
    let payload: Vec<u8> = vec![0x10, 0xab, 0x05, 0x00, 0x00, 0x00];
    let mut out: Vec<u8> = Vec::new();
    out.resize(16, 0);
    assert_eq!(decompress_block(&payload, 6, &mut out, 0), Err(Lz4Error::OffsetTooLarge));
    assert_eq!(Lz4Error::OffsetTooLarge.message(), "Offset too large");
}

#[test]
fn truncated_input_rejected() {
    let empty: Vec<u8> = Vec::new();
    let mut out: Vec<u8> = Vec::new();
    out.resize(16, 0);
    // a declared length beyond the buffer
    assert_eq!(decompress_block(&empty, 5, &mut out, 0), Err(Lz4Error::InputBufferTooSmall));
    // a literal run that overruns the payload
    let short: Vec<u8> = vec![0x50];
    assert_eq!(decompress_block(&short, 1, &mut out, 0), Err(Lz4Error::InputBufferTooSmall));
    assert_eq!(Lz4Error::InputBufferTooSmall.message(), "Input buffer too small");
}

#[test]
fn output_too_small_rejected() {
    let payload: Vec<u8> = vec![0x40, 1, 2, 3, 4];
    let mut out: Vec<u8> = Vec::new();
    out.resize(2, 0);
    assert_eq!(decompress_block(&payload, 5, &mut out, 0), Err(Lz4Error::OutputBufferTooSmall));
}

#[test]
fn compress_sizing_errors() {
    let data: Vec<u8> = vec![0; 32];
    let mut out: Vec<u8> = Vec::new();
    out.resize(256, 0);
    let mut comp = Compress::new(16, 2);
    // more bytes declared than the input buffer holds
    assert_eq!(
        comp.compress_block(&data, 64, &mut out, 0),
        Err(Lz4Error::InputBufferTooSmall)
    );
    // more bytes than the compressor's tables were sized for
    assert_eq!(
        comp.compress_block(&data, 32, &mut out, 0),
        Err(Lz4Error::TemporaryBufferTooSmall)
    );
    assert_eq!(Lz4Error::TemporaryBufferTooSmall.message(), "Temporary buffer too small");
    // an output buffer below the worst-case compressed size
    let mut tiny: Vec<u8> = Vec::new();
    tiny.resize(8, 0);
    let mut comp2 = Compress::new(64, 1);
    assert_eq!(
        comp2.compress_block(&data, 32, &mut tiny, 0),
        Err(Lz4Error::OutputBufferTooSmall)
    );
}

#[test]
fn match_laws_in_emitted_stream() {
    // walk the token stream of a compressed block and check the format's
    // match laws: offsets in [1, 65535] and within the bytes already
    // emitted, match length at least 4, the last match ending at least
    // 5 bytes before the block end, and a literal-only final sequence
    let mut block: Vec<u8> = Vec::new();
    for i in 0..4096 {
        block.push((i % 31) as u8);
    }
    let mut out_block: Vec<u8> = Vec::new();
    out_block.resize(8 * 1024, 0);
    for level in 1..10 {
        let mut comp = Compress::new(4096, level);
        let end = comp.compress_block(&block, block.len(), &mut out_block, 0).unwrap();
        let pay = &out_block[0..end];
        let mut p: usize = 0;
        let mut emitted: usize = 0;
        let mut saw_final = false;
        while !saw_final {
            let tag = pay[p];
            p += 1;
            let mut lit = (tag >> 4) as usize;
            if lit == 15 {
                loop {
                    let x = pay[p] as usize;
                    p += 1;
                    lit += x;
                    if x != 255 {
                        break;
                    }
                }
            }
            emitted += lit;
            p += lit;
            if p >= pay.len() - 1 {
                // the trailing sequence carries only literals
                assert_eq!(tag & 0x0f, 0, "level {level}: final sequence has a match nibble");
                assert_eq!(p, pay.len(), "level {level}: trailing offset bytes");
                saw_final = true;
                continue;
            }
            let offset = pay[p] as usize + 256 * pay[p + 1] as usize;
            p += 2;
            assert!(offset >= 1 && offset <= 65535, "level {level}: offset {offset}");
            assert!(offset <= emitted, "level {level}: offset {offset} > {emitted}");
            let mut run = (tag & 0x0f) as usize;
            if run == 15 {
                loop {
                    let x = pay[p] as usize;
                    p += 1;
                    run += x;
                    if x != 255 {
                        break;
                    }
                }
            }
            run += 4;
            assert!(run >= 4, "level {level}");
            emitted += run;
            assert!(emitted + 5 <= block.len(), "level {level}: match ends {emitted}");
        }
        assert_eq!(emitted, block.len(), "level {level}");
    }
}
