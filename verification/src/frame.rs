//! The LZ4 frame: the 7-byte header, block prefixes, and the whole-frame
//! encoder and decoder.
//!
//! `frame_decode` is the specification of the frame format as this crate
//! supports it: magic `0x184D2204`, version 1, independent blocks of at most
//! 4 MiB, no block checksums, no content size, no dictionary; a set content
//! checksum flag is tolerated and ignored.  `decompress_frame` is proved to
//! return exactly what `frame_decode` says, and `compress_frame` to produce
//! a frame that `frame_decode` maps back to the input.

use vstd::prelude::*;

use crate::bytes::le32;
use crate::bytes::read_vec_u32_le;
use crate::bytes::write_vec_u32_le;
use crate::compress::Compress;
use crate::decompress::decode_from;
use crate::decompress::decompress_block;
use crate::errors::Lz4Error;
use crate::xxhash32::xxh32;
use crate::xxhash32::XXHash32;

verus! {

/// The largest block a frame may carry: 4 MiB.
pub const MAX_BLOCK: usize = 0x400000;

/// Validates the 7 header bytes, in the order the decoder checks them.
pub open spec fn check_header(h: Seq<u8>) -> Result<(), Lz4Error> {
    let magic = le32(h, 0);
    let flags = h[4] as int;
    let bd = h[5] as int;
    if magic != 0x184D2204 {
        Err(Lz4Error::IncorrectMagic)
    } else if flags / 64 != 1 {
        Err(Lz4Error::UnsupportedVersion)
    } else if (flags / 32) % 2 != 1 {
        Err(Lz4Error::UnsupportedBlockDependence)
    } else if (flags / 16) % 2 == 1 {
        Err(Lz4Error::UnsupportedBlockChecksumFlag)
    } else if (flags / 8) % 2 == 1 {
        Err(Lz4Error::UnsupportedContentSizeFlag)
    } else if (flags / 2) % 2 != 0 {
        Err(Lz4Error::UnsupportedReserved)
    } else if flags % 2 == 1 {
        Err(Lz4Error::UnsupportedDictFlag)
    } else if (bd / 16) % 8 < 4 || (bd / 16) % 8 > 7 {
        Err(Lz4Error::UnsupportedBlockMaxSize)
    } else if (xxh32(0, h.subrange(4, 6)) as int / 256) % 256 != h[6] as int {
        Err(Lz4Error::HeaderChecksumMismatch)
    } else {
        Ok(())
    }
}

/// Whether the header declares a content checksum (tolerated, ignored).
pub open spec fn content_checksum_flag(h: Seq<u8>) -> bool {
    (h[4] as int / 4) % 2 == 1
}

/// The block sequence of a frame: each block is introduced by a 4-byte
/// little-endian prefix — zero ends the frame, a set top bit marks a stored
/// block — and contributes its raw bytes to the output.
pub open spec fn frame_blocks(data: Seq<u8>, p: int, acc: Seq<u8>) -> Result<Seq<u8>, Lz4Error>
    decreases data.len() - p,
{
    if p < 0 || p + 4 > data.len() {
        Err(Lz4Error::InputBufferTooSmall)
    } else {
        let x = le32(data, p);
        if x == 0 {
            Ok(acc)
        } else {
            let bs = x % 0x8000_0000;
            if bs > MAX_BLOCK {
                Err(Lz4Error::UnsupportedBlockSize)
            } else if p + 4 + bs > data.len() {
                Err(Lz4Error::InputBufferTooSmall)
            } else if x >= 0x8000_0000 {
                frame_blocks(data, p + 4 + bs, acc + data.subrange(p + 4, p + 4 + bs))
            } else {
                match decode_from(
                    data.subrange(p + 4, p + 4 + bs),
                    0,
                    Seq::empty(),
                    MAX_BLOCK as int,
                ) {
                    Ok(s) => frame_blocks(data, p + 4 + bs, acc + s),
                    Err(e) => Err(e),
                }
            }
        }
    }
}

/// The meaning of a whole frame.
pub open spec fn frame_decode(data: Seq<u8>) -> Result<Seq<u8>, Lz4Error> {
    if data.len() < 7 {
        Err(Lz4Error::InputBufferTooSmall)
    } else {
        match check_header(data.subrange(0, 7)) {
            Err(e) => Err(e),
            Ok(_) => frame_blocks(data, 7, Seq::empty()),
        }
    }
}

proof fn lemma_u8_bits(f: u8)
    ensures
        (f >> 6) as int == f as int / 64,
        ((f >> 5) & 1) as int == (f as int / 32) % 2,
        ((f >> 4) & 1) as int == (f as int / 16) % 2,
        ((f >> 3) & 1) as int == (f as int / 8) % 2,
        ((f >> 2) & 1) as int == (f as int / 4) % 2,
        ((f >> 1) & 1) as int == (f as int / 2) % 2,
        (f & 1) as int == f as int % 2,
        ((f >> 4) & 0x7) as int == (f as int / 16) % 8,
{
    assert(f >> 6 == f / 64) by (bit_vector);
    assert((f >> 5) & 1 == (f / 32) % 2) by (bit_vector);
    assert((f >> 4) & 1 == (f / 16) % 2) by (bit_vector);
    assert((f >> 3) & 1 == (f / 8) % 2) by (bit_vector);
    assert((f >> 2) & 1 == (f / 4) % 2) by (bit_vector);
    assert((f >> 1) & 1 == (f / 2) % 2) by (bit_vector);
    assert(f & 1 == f % 2) by (bit_vector);
    assert((f >> 4) & 0x7 == (f / 16) % 8) by (bit_vector);
}

proof fn lemma_u32_hi(x: u32)
    ensures
        ((x >> 8) & 0xff) as int == (x as int / 256) % 256,
        (x & 0x7fffffff) as int == x as int % 0x8000_0000,
{
    assert((x >> 8) & 0xff == (x / 256) % 256) by (bit_vector);
    assert(x & 0x7fffffff == x % 0x80000000) by (bit_vector);
}

/// Reads and validates the 7-byte frame header; returns whether the frame
/// declares a content checksum.  The checks and their order are exactly
/// those of `check_header`.
pub fn parse_frame_header(header: &Vec<u8>) -> (r: Result<bool, Lz4Error>)
    requires
        header.len() >= 7,
    ensures
        match r {
            Ok(cc) => check_header(header@.subrange(0, 7)) == Ok::<(), Lz4Error>(()) && cc
                == content_checksum_flag(header@.subrange(0, 7)),
            Err(e) => check_header(header@.subrange(0, 7)) == Err::<(), Lz4Error>(e),
        },
{
    let ghost h = header@.subrange(0, 7);
    let magic = read_vec_u32_le(header, 0);
    proof {
        assert(le32(h, 0) == le32(header@, 0));
    }
    if magic != 0x184D2204 {
        return Err(Lz4Error::IncorrectMagic);
    }
    let flags = header[4];
    proof {
        lemma_u8_bits(flags);
        assert(h[4] == header@[4]);
        assert(h[5] == header@[5]);
        assert(h[6] == header@[6]);
    }
    let version = flags >> 6;
    if version != 1 {
        return Err(Lz4Error::UnsupportedVersion);
    }
    if (flags >> 5) & 1 != 1 {
        return Err(Lz4Error::UnsupportedBlockDependence);
    }
    if (flags >> 4) & 1 == 1 {
        return Err(Lz4Error::UnsupportedBlockChecksumFlag);
    }
    if (flags >> 3) & 1 == 1 {
        return Err(Lz4Error::UnsupportedContentSizeFlag);
    }
    let content_checksum = (flags >> 2) & 1 == 1;
    if (flags >> 1) & 1 != 0 {
        return Err(Lz4Error::UnsupportedReserved);
    }
    if flags & 1 == 1 {
        return Err(Lz4Error::UnsupportedDictFlag);
    }
    let bd = header[5];
    let block_max_size = (bd >> 4) & 0x7;
    proof {
        lemma_u8_bits(bd);
    }
    if block_max_size < 4 || block_max_size > 7 {
        return Err(Lz4Error::UnsupportedBlockMaxSize);
    }
    let mut hash = XXHash32::new(0);
    let xxhash = match hash.update(header, 4, 2) {
        Ok(v) => v,
        Err(e) => {
            proof {
                assert(false);
            }
            return Err(e);
        },
    };
    proof {
        assert(header@.subrange(4, 6) =~= h.subrange(4, 6));
        lemma_u32_hi(xxhash);
    }
    let check = (xxhash >> 8) & 0xff;
    if check != header[6] as u32 {
        return Err(Lz4Error::HeaderChecksumMismatch);
    }
    Ok(content_checksum)
}

/// Expands a whole frame held in memory.
///
/// Returns exactly what `frame_decode` yields on these bytes: the
/// concatenated raw blocks, or the first error the format check hits.
#[verifier::loop_isolation(false)]
#[verifier::rlimit(100)]
#[verifier::spinoff_prover]
pub fn decompress_frame(input: &Vec<u8>) -> (r: Result<Vec<u8>, Lz4Error>)
    ensures
        match r {
            Ok(v) => frame_decode(input@) == Ok::<Seq<u8>, Lz4Error>(v@),
            Err(e) => frame_decode(input@) == Err::<Seq<u8>, Lz4Error>(e),
        },
{
    if input.len() < 7 {
        return Err(Lz4Error::InputBufferTooSmall);
    }
    match parse_frame_header(input) {
        Ok(_) => (),
        Err(e) => {
            return Err(e);
        },
    }
    let mut result: Vec<u8> = Vec::new();
    let mut in_block: Vec<u8> = Vec::new();
    in_block.resize(MAX_BLOCK, 0);
    let mut out_block: Vec<u8> = Vec::new();
    out_block.resize(MAX_BLOCK, 0);
    let mut p: usize = 7;
    loop
        invariant
            7 <= p <= input.len(),
            in_block@.len() == MAX_BLOCK,
            out_block@.len() == MAX_BLOCK,
            frame_blocks(input@, 7, Seq::empty()) == frame_blocks(input@, p as int, result@),
        decreases input.len() - p,
    {
        if input.len() - p < 4 {
            return Err(Lz4Error::InputBufferTooSmall);
        }
        let x = read_vec_u32_le(input, p);
        if x == 0 {
            return Ok(result);
        }
        proof {
            lemma_u32_hi(x);
        }
        let bs = (x & 0x7fffffff) as usize;
        if bs > MAX_BLOCK {
            return Err(Lz4Error::UnsupportedBlockSize);
        }
        if input.len() - p - 4 < bs {
            return Err(Lz4Error::InputBufferTooSmall);
        }
        let ghost r0 = result@;
        if x >= 0x8000_0000 {
            // stored block: copy the payload through
            let mut i: usize = 0;
            while i < bs
                invariant
                    i <= bs,
                    p + 4 + bs <= input.len(),
                    result@ == r0 + input@.subrange(p + 4, p + 4 + i),
                decreases bs - i,
            {
                let b = input[p + 4 + i];
                result.push(b);
                proof {
                    assert(result@ =~= r0 + input@.subrange(p + 4, p + 4 + i + 1));
                }
                i = i + 1;
            }
            proof {
                assert(frame_blocks(input@, p as int, r0) == frame_blocks(
                    input@,
                    p + 4 + bs,
                    r0 + input@.subrange(p + 4, p + 4 + bs),
                ));
            }
            p = p + 4 + bs;
        } else {
            // compressed block
            let mut i: usize = 0;
            while i < bs
                invariant
                    i <= bs,
                    p + 4 + bs <= input.len(),
                    bs <= MAX_BLOCK,
                    in_block@.len() == MAX_BLOCK,
                    forall|j: int| 0 <= j < i ==> in_block@[j] == #[trigger] input@[p + 4 + j],
                decreases bs - i,
            {
                let b = input[p + 4 + i];
                in_block[i] = b;
                i = i + 1;
            }
            proof {
                assert forall|k: int| 0 <= k < bs implies in_block@.take(bs as int)[k]
                    == input@.subrange(p + 4, p + 4 + bs)[k] by {
                    assert(in_block@[k] == input@[p + 4 + k]);
                    assert(input@.subrange(p + 4, p + 4 + bs)[k] == input@[p + 4 + k]);
                }
                assert(in_block@.take(bs as int) =~= input@.subrange(p + 4, p + 4 + bs));
            }
            let size = match decompress_block(&in_block, bs, &mut out_block, 0) {
                Ok(size) => size,
                Err(e) => {
                    return Err(e);
                },
            };
            proof {
                assert(out_block@.take(0) =~= Seq::<u8>::empty());
            }
            let ghost dec = out_block@.take(size as int);
            let mut i: usize = 0;
            while i < size
                invariant
                    i <= size,
                    size <= out_block@.len(),
                    result@ == r0 + out_block@.take(i as int),
                decreases size - i,
            {
                let b = out_block[i];
                result.push(b);
                proof {
                    assert(result@ =~= r0 + out_block@.take(i + 1));
                }
                i = i + 1;
            }
            proof {
                assert(frame_blocks(input@, p as int, r0) == frame_blocks(
                    input@,
                    p + 4 + bs,
                    r0 + dec,
                ));
            }
            p = p + 4 + bs;
        }
    }
}

/// One encoded frame block: a non-zero prefix whose payload either is the
/// raw bytes (stored) or decodes to them.
pub open spec fn frame_chunk_ok(cb: Seq<u8>, raw: Seq<u8>) -> bool {
    &&& cb.len() >= 5
    &&& raw.len() <= MAX_BLOCK
    &&& cb.len() - 4 <= MAX_BLOCK
    &&& le32(cb, 0) != 0
    &&& (le32(cb, 0) >= 0x8000_0000 ==> le32(cb, 0) % 0x8000_0000 == cb.len() - 4 && cb.subrange(
        4,
        cb.len() as int,
    ) == raw)
    &&& (le32(cb, 0) < 0x8000_0000 ==> le32(cb, 0) == cb.len() - 4 && decode_from(
        cb.subrange(4, cb.len() as int),
        0,
        Seq::empty(),
        MAX_BLOCK as int,
    ) == Ok::<Seq<u8>, Lz4Error>(raw))
}

/// Reading one encoded block moves the cursor past it and appends its raw
/// bytes: the step the frame writer relies on.
proof fn lemma_frame_step(full: Seq<u8>, p: int, acc: Seq<u8>, cb: Seq<u8>, raw: Seq<u8>)
    requires
        frame_chunk_ok(cb, raw),
        0 <= p,
        p + cb.len() <= full.len(),
        full.subrange(p, p + cb.len() as int) == cb,
    ensures
        frame_blocks(full, p, acc) == frame_blocks(full, p + cb.len() as int, acc + raw),
{
    let n = cb.len() as int;
    assert(full.subrange(p, p + n)[0] == full[p + 0]);
    assert(full.subrange(p, p + n)[1] == full[p + 1]);
    assert(full.subrange(p, p + n)[2] == full[p + 2]);
    assert(full.subrange(p, p + n)[3] == full[p + 3]);
    let x = le32(full, p);
    assert(x == le32(cb, 0));
    let bs = x % 0x8000_0000;
    assert(bs == n - 4);
    assert forall|k: int| 0 <= k < bs implies full.subrange(p + 4, p + 4 + bs)[k] == cb.subrange(
        4,
        n,
    )[k] by {
        assert(full.subrange(p, p + n)[4 + k] == full[p + (4 + k)]);
        assert(full.subrange(p + 4, p + 4 + bs)[k] == full[p + 4 + k]);
        assert(cb.subrange(4, n)[k] == cb[4 + k]);
    }
    assert(full.subrange(p + 4, p + 4 + bs) =~= cb.subrange(4, n));
}

fn append_range(dst: &mut Vec<u8>, src: &Vec<u8>, from: usize, count: usize)
    requires
        from + count <= src.len(),
    ensures
        final(dst)@ == old(dst)@ + src@.subrange(from as int, from + count),
{
    let ghost d0 = dst@;
    let mut i: usize = 0;
    while i < count
        invariant
            i <= count,
            from + count <= src.len(),
            dst@ == d0 + src@.subrange(from as int, from + i),
        decreases count - i,
    {
        let b = src[from + i];
        dst.push(b);
        proof {
            assert(dst@ =~= d0 + src@.subrange(from as int, from + i + 1));
        }
        i = i + 1;
    }
}

/// Builds the fixed 7-byte frame header: magic, flags declaring version 1
/// and independent blocks, the 4 MiB block-size code, and the one-byte
/// header checksum derived from the XXHash32 of the two descriptor bytes.
pub fn build_frame_header() -> (h: Vec<u8>)
    ensures
        h@.len() == 7,
        check_header(h@) == Ok::<(), Lz4Error>(()),
        le32(h@, 0) == 0x184D2204,
        h@[4] == 0x60u8,
        h@[5] == 0x70u8,
        h@[6] as int == (xxh32(0, h@.subrange(4, 6)) as int / 256) % 256,
{
    let mut h: Vec<u8> = Vec::new();
    h.resize(7, 0);
    write_vec_u32_le(&mut h, 0, 0x184D2204);
    h[4] = 0x60;
    h[5] = 0x70;
    let mut hash = XXHash32::new(0);
    let xxhash = match hash.update(&h, 4, 2) {
        Ok(v) => v,
        Err(_) => {
            proof {
                assert(false);
            }
            0
        },
    };
    proof {
        lemma_u32_hi(xxhash);
    }
    let b6 = ((xxhash >> 8) & 0xff) as u8;
    let ghost h_before = h@;
    h[6] = b6;
    proof {
        assert(h@.subrange(4, 6) =~= h_before.subrange(4, 6));
        assert(le32(h@, 0) == 0x184D2204);
    }
    h
}

/// Encodes one raw chunk as a frame block into `out_block[0 .. n]`:
/// the compressor runs first, and a stored block is written instead when
/// compression does not shrink the chunk.
pub fn encode_frame_chunk(
    comp: &mut Compress,
    in_block: &Vec<u8>,
    read: usize,
    out_block: &mut Vec<u8>,
) -> (n: usize)
    requires
        old(comp).wf(),
        1 <= read,
        read <= in_block.len(),
        read <= old(comp).spec_len(),
        read <= MAX_BLOCK,
        4 + read + read / 255 + 16 <= old(out_block).len(),
    ensures
        final(comp).wf(),
        final(comp).spec_len() == old(comp).spec_len(),
        final(comp).spec_level() == old(comp).spec_level(),
        final(out_block)@.len() == old(out_block)@.len(),
        4 <= n <= final(out_block)@.len(),
        255 * (n - 4) <= 256 * read + 495,
        // a block is kept compressed only when that made it strictly smaller,
        // and a stored block is exactly the chunk behind its prefix
        le32(final(out_block)@.take(n as int), 0) < 0x8000_0000 ==> n - 4 < read,
        le32(final(out_block)@.take(n as int), 0) >= 0x8000_0000 ==> n == 4 + read,
        frame_chunk_ok(final(out_block)@.take(n as int), in_block@.take(read as int)),
{
    let end = match comp.compress_block(in_block, read, out_block, 4) {
        Ok(end) => end,
        Err(_) => {
            proof {
                assert(false);
            }
            4
        },
    };
    let ghost raw = in_block@.take(read as int);
    if end >= read {
        // the block did not shrink: store it verbatim
        let v: u32 = (read as u32) + 0x8000_0000u32;
        write_vec_u32_le(out_block, 0, v);
        let ghost before = out_block@;
        let mut i: usize = 0;
        while i < read
            invariant
                i <= read,
                4 + read <= out_block.len(),
                out_block.len() == out_block@.len(),
                read <= in_block.len(),
                out_block@.len() == before.len(),
                forall|j: int| 0 <= j < 4 ==> out_block@[j] == before[j],
                forall|j: int| 0 <= j < i ==> out_block@[4 + j] == #[trigger] in_block@[j],
            decreases read - i,
        {
            let b = in_block[i];
            out_block[4 + i] = b;
            i = i + 1;
        }
        let n = 4 + read;
        proof {
            let cb = out_block@.take(n as int);
            assert(cb[0] == out_block@[0] && cb[1] == out_block@[1] && cb[2] == out_block@[2]
                && cb[3] == out_block@[3]);
            assert(le32(cb, 0) == le32(out_block@, 0));
            assert(le32(out_block@, 0) == v);
            assert(v as int % 0x8000_0000 == read) by {
                assert(v == 0x8000_0000 + read);
            }
            assert forall|k: int| 0 <= k < read implies cb.subrange(4, n as int)[k] == raw[k] by {
                assert(out_block@[4 + k] == in_block@[k]);
                assert(cb.subrange(4, n as int)[k] == cb[4 + k]);
                assert(cb[4 + k] == out_block@[4 + k]);
            }
            assert(cb.subrange(4, n as int) =~= raw);
        }
        n
    } else {
        // keep the compressed payload already at offset 4
        let ghost before = out_block@;
        write_vec_u32_le(out_block, 0, (end - 4) as u32);
        let n = end;
        proof {
            let cb = out_block@.take(n as int);
            assert(out_block@.subrange(4, end as int) =~= before.subrange(4, end as int));
            assert(decode_from(
                before.subrange(4, end as int),
                0,
                Seq::empty(),
                MAX_BLOCK as int,
            ) == Ok::<Seq<u8>, Lz4Error>(raw));
            // a successful encoding is never empty
            assert(end > 4) by {
                if end == 4 {
                    assert(before.subrange(4, 4) =~= Seq::<u8>::empty());
                    assert(decode_from(Seq::empty(), 0, Seq::empty(), MAX_BLOCK as int)
                        == Err::<Seq<u8>, Lz4Error>(Lz4Error::InputBufferTooSmall));
                }
            }
            assert(cb[0] == out_block@[0] && cb[1] == out_block@[1] && cb[2] == out_block@[2]
                && cb[3] == out_block@[3]);
            assert(le32(cb, 0) == le32(out_block@, 0));
            assert(le32(cb, 0) == end - 4);
            assert forall|k: int| 0 <= k < end - 4 implies cb.subrange(4, n as int)[k]
                == before.subrange(4, end as int)[k] by {
                assert(cb.subrange(4, n as int)[k] == cb[4 + k]);
                assert(cb[4 + k] == out_block@[4 + k]);
                assert(before.subrange(4, end as int)[k] == before[4 + k]);
            }
            assert(cb.subrange(4, n as int) =~= before.subrange(4, end as int));
        }
        n
    }
}

/// Appending one encoded block extends the frame writer's invariant.
#[verifier::rlimit(100)]
#[verifier::spinoff_prover]
proof fn lemma_frame_extend(
    r_old: Seq<u8>,
    cb: Seq<u8>,
    raw: Seq<u8>,
    input: Seq<u8>,
    start: int,
    chunk: int,
    result: Seq<u8>,
)
    requires
        result == r_old + cb,
        frame_chunk_ok(cb, raw),
        raw == input.subrange(start, start + chunk),
        0 <= start,
        0 <= chunk,
        start + chunk <= input.len(),
        forall|s: Seq<u8>| #[trigger] frame_blocks(r_old + s, 7, Seq::empty()) == frame_blocks(
            r_old + s,
            r_old.len() as int,
            input.take(start),
        ),
    ensures
        forall|s: Seq<u8>| #[trigger] frame_blocks(result + s, 7, Seq::empty()) == frame_blocks(
            result + s,
            result.len() as int,
            input.take(start + chunk),
        ),
{
    assert forall|s2: Seq<u8>| #[trigger] frame_blocks(result + s2, 7, Seq::empty())
        == frame_blocks(result + s2, result.len() as int, input.take(start + chunk)) by {
        let full = result + s2;
        assert(r_old + (cb + s2) =~= full);
        assert(frame_blocks(r_old + (cb + s2), 7, Seq::empty()) == frame_blocks(
            r_old + (cb + s2),
            r_old.len() as int,
            input.take(start),
        ));
        assert forall|k: int| 0 <= k < cb.len() implies full.subrange(
            r_old.len() as int,
            (r_old.len() + cb.len()) as int,
        )[k] == cb[k] by {
            assert(full[r_old.len() + k] == cb[k]);
            assert(full.subrange(r_old.len() as int, (r_old.len() + cb.len()) as int)[k] == full[
                r_old.len() + k]);
        }
        assert(full.subrange(r_old.len() as int, (r_old.len() + cb.len()) as int) =~= cb);
        lemma_frame_step(full, r_old.len() as int, input.take(start), cb, raw);
        assert(input.take(start) + raw =~= input.take(start + chunk));
    }
}

proof fn lemma_div_sum_255(a: int, b: int)
    requires
        a >= 0,
        b >= 0,
    ensures
        a / 255 + b / 255 <= (a + b) / 255,
{
    assert(a / 255 + b / 255 <= (a + b) / 255) by (nonlinear_arith)
        requires
            a >= 0,
            b >= 0,
    ;
}

proof fn lemma_div_near_255(c: int)
    requires
        c >= 0,
    ensures
        255 * (c / 255) >= c - 254,
{
    assert(255 * (c / 255) >= c - 254) by (nonlinear_arith)
        requires
            c >= 0,
    ;
}

proof fn lemma_chunk_count(start: int, nch: int, len: int)
    requires
        start == nch * 0x400000,
        0 <= start <= len,
    ensures
        nch <= len / 0x400000,
        (start + 0x400000) / 0x400000 == nch + 1,
{
    assert(nch == start / 0x400000 && (start + 0x400000) / 0x400000 == nch + 1 && start / 0x400000
        <= len / 0x400000) by (nonlinear_arith)
        requires
            start == nch * 0x400000,
            0 <= start <= len,
    ;
}

/// Compresses a whole buffer into one LZ4 frame at the given level.
///
/// The produced frame always decodes back to the exact input, carries the
/// fixed header (flags 0x60, block-size code 7, the XXHash32 checksum byte),
/// is self-delimiting — whatever bytes follow it, the block walk still
/// yields exactly the input — and stays within the worst-case size bound.
#[verifier::loop_isolation(false)]
#[verifier::rlimit(100)]
#[verifier::spinoff_prover]
pub fn compress_frame(input: &Vec<u8>, level: usize) -> (r: Result<Vec<u8>, Lz4Error>)
    requires
        1 <= level <= 9,
    ensures
        r matches Ok(v) && frame_decode(v@) == Ok::<Seq<u8>, Lz4Error>(input@),
        r matches Ok(v) && ({
            &&& v@.len() >= 11
            &&& le32(v@, 0) == 0x184D2204
            &&& v@[4] == 0x60u8
            &&& v@[5] == 0x70u8
            &&& v@[6] as int == (xxh32(0, v@.subrange(4, 6)) as int / 256) % 256
            &&& le32(v@, v@.len() - 4) == 0
            &&& v@.len() <= 11 + input@.len() + input@.len() / 255 + 6 * (input@.len() / 0x400000
                + 1)
            &&& forall|s: Seq<u8>| #[trigger] frame_blocks(v@ + s, 7, Seq::empty()) == Ok::<
                Seq<u8>,
                Lz4Error,
            >(input@)
        }),
{
    let hdr = build_frame_header();
    let mut result: Vec<u8> = Vec::new();
    append_range(&mut result, &hdr, 0, 7);
    proof {
        assert(result@ =~= hdr@);
    }
    let mut comp = Compress::new(0x500000, level);
    let mut in_block: Vec<u8> = Vec::new();
    in_block.resize(MAX_BLOCK, 0);
    let mut out_block: Vec<u8> = Vec::new();
    out_block.resize(0x500000, 0);
    let mut start: usize = 0;
    let ghost mut nch: int = 0;
    proof {
        assert forall|s: Seq<u8>| #[trigger] frame_blocks(result@ + s, 7, Seq::empty())
            == frame_blocks(result@ + s, result@.len() as int, input@.take(start as int)) by {
            assert(input@.take(0) =~= Seq::<u8>::empty());
        }
    }
    while start < input.len()
        invariant
            start <= input.len(),
            result@.len() >= 7,
            result@.subrange(0, 7) == hdr@,
            in_block@.len() == MAX_BLOCK,
            out_block@.len() == 0x500000,
            comp.wf(),
            comp.spec_len() == 0x500000,
            0 <= nch,
            result@.len() <= 7 + start + start as int / 255 + 6 * nch,
            start == nch * 0x400000 || (start == input@.len() && nch <= input@.len() / 0x400000
                + 1),
            forall|s: Seq<u8>| #[trigger] frame_blocks(result@ + s, 7, Seq::empty())
                == frame_blocks(result@ + s, result@.len() as int, input@.take(start as int)),
        decreases input.len() - start,
    {
        let chunk = if input.len() - start > MAX_BLOCK {
            MAX_BLOCK
        } else {
            input.len() - start
        };
        let mut i: usize = 0;
        while i < chunk
            invariant
                i <= chunk,
                start + chunk <= input.len(),
                chunk <= MAX_BLOCK,
                in_block@.len() == MAX_BLOCK,
                forall|j: int| 0 <= j < i ==> in_block@[j] == #[trigger] input@[start + j],
            decreases chunk - i,
        {
            let b = input[start + i];
            in_block[i] = b;
            i = i + 1;
        }
        proof {
            assert forall|k: int| 0 <= k < chunk implies in_block@.take(chunk as int)[k]
                == input@.subrange(start as int, start + chunk)[k] by {
                assert(in_block@[k] == input@[start + k]);
                assert(input@.subrange(start as int, start + chunk)[k] == input@[start + k]);
            }
            assert(in_block@.take(chunk as int) =~= input@.subrange(start as int, start + chunk));
        }
        let n = encode_frame_chunk(&mut comp, &in_block, chunk, &mut out_block);
        let ghost cb = out_block@.take(n as int);
        let ghost r_old = result@;
        append_range(&mut result, &out_block, 0, n);
        proof {
            assert(out_block@.subrange(0, n as int) =~= cb);
            assert(result@.subrange(0, 7) =~= hdr@);
            lemma_frame_extend(
                r_old,
                cb,
                input@.subrange(start as int, start + chunk),
                input@,
                start as int,
                chunk as int,
                result@,
            );
            // size bookkeeping: this block costs at most 6 + chunk + chunk/255
            lemma_div_near_255(chunk as int);
            assert(n <= 6 + chunk + chunk as int / 255);
            lemma_div_sum_255(start as int, chunk as int);
            lemma_chunk_count(start as int, nch, input@.len() as int);
            nch = nch + 1;
        }
        start = start + chunk;
    }
    let ghost r_last = result@;
    let term_pos = result.len();
    result.push(0);
    result.push(0);
    result.push(0);
    result.push(0);
    proof {
        let term = seq![0u8, 0u8, 0u8, 0u8];
        assert(result@ =~= r_last + term);
        assert(frame_blocks(r_last + term, 7, Seq::empty()) == frame_blocks(
            r_last + term,
            r_last.len() as int,
            input@.take(input.len() as int),
        ));
        assert(input@.take(input.len() as int) =~= input@);
        assert(le32(result@, term_pos as int) == 0) by {
            assert(result@[term_pos as int] == 0);
            assert(result@[term_pos + 1] == 0);
            assert(result@[term_pos + 2] == 0);
            assert(result@[term_pos + 3] == 0);
        }
        assert(frame_blocks(result@, r_last.len() as int, input@) == Ok::<Seq<u8>, Lz4Error>(
            input@,
        ));
        assert(result@.subrange(0, 7) =~= r_last.subrange(0, 7));
        assert(check_header(result@.subrange(0, 7)) == Ok::<(), Lz4Error>(()));
        assert(frame_decode(result@) == Ok::<Seq<u8>, Lz4Error>(input@));
        // the frame is self-delimiting: bytes after the terminator are never read
        assert forall|s2: Seq<u8>| #[trigger] frame_blocks(result@ + s2, 7, Seq::empty()) == Ok::<
            Seq<u8>,
            Lz4Error,
        >(input@) by {
            assert(r_last + (term + s2) =~= result@ + s2);
            assert(frame_blocks(r_last + (term + s2), 7, Seq::empty()) == frame_blocks(
                r_last + (term + s2),
                r_last.len() as int,
                input@.take(input.len() as int),
            ));
            assert((result@ + s2)[term_pos as int] == 0);
            assert((result@ + s2)[term_pos + 1] == 0);
            assert((result@ + s2)[term_pos + 2] == 0);
            assert((result@ + s2)[term_pos + 3] == 0);
            assert(le32(result@ + s2, term_pos as int) == 0);
        }
        // the emitted header bytes are the canonical ones
        assert(le32(result@, 0) == le32(hdr@, 0)) by {
            assert(result@[0] == result@.subrange(0, 7)[0]);
            assert(result@[1] == result@.subrange(0, 7)[1]);
            assert(result@[2] == result@.subrange(0, 7)[2]);
            assert(result@[3] == result@.subrange(0, 7)[3]);
        }
        assert(result@[4] == hdr@[4] && result@[5] == hdr@[5] && result@[6] == hdr@[6]) by {
            assert(result@[4] == result@.subrange(0, 7)[4]);
            assert(result@[5] == result@.subrange(0, 7)[5]);
            assert(result@[6] == result@.subrange(0, 7)[6]);
        }
        assert(result@.subrange(4, 6) =~= hdr@.subrange(4, 6));
        // the size bound over all blocks
        assert(start == input@.len());
        assert(nch <= input@.len() / 0x400000 + 1) by {
            if start == nch * 0x400000 {
                lemma_chunk_count(start as int, nch, input@.len() as int);
            }
        }
        assert(result@.len() <= 11 + input@.len() + input@.len() / 255 + 6 * (input@.len()
            / 0x400000 + 1));
    }
    Ok(result)
}


/// What a 4-byte block prefix announces.
#[derive(Clone, Copy, Debug, PartialEq, Eq, Structural)]
pub enum BlockPrefix {
    /// The zero terminator: the frame ends here.
    End,
    /// A verbatim block of the given payload length.
    Stored(u32),
    /// A compressed block of the given payload length.
    Compressed(u32),
}

/// Classifies a block prefix: zero ends the frame, the top bit marks a
/// stored block, and the low 31 bits give the payload length, which may not
/// exceed 4 MiB.
pub fn parse_block_prefix(x: u32) -> (r: Result<BlockPrefix, Lz4Error>)
    ensures
        ({
            let bs = x as int % 0x8000_0000;
            if x == 0 {
                r == Ok::<BlockPrefix, Lz4Error>(BlockPrefix::End)
            } else if bs > MAX_BLOCK {
                r == Err::<BlockPrefix, Lz4Error>(Lz4Error::UnsupportedBlockSize)
            } else if x >= 0x8000_0000 {
                r == Ok::<BlockPrefix, Lz4Error>(BlockPrefix::Stored(bs as u32))
            } else {
                r == Ok::<BlockPrefix, Lz4Error>(BlockPrefix::Compressed(bs as u32))
            }
        }),
{
    if x == 0 {
        return Ok(BlockPrefix::End);
    }
    proof {
        lemma_u32_hi(x);
    }
    let bs = x & 0x7fffffff;
    if bs > MAX_BLOCK as u32 {
        return Err(Lz4Error::UnsupportedBlockSize);
    }
    if x >= 0x8000_0000 {
        Ok(BlockPrefix::Stored(bs))
    } else {
        Ok(BlockPrefix::Compressed(bs))
    }
}

} // verus!
