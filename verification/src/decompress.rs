//! The LZ4 block decoder and its mathematical model.
//!
//! `decode_from` is the specification of the block token stream: it walks a
//! compressed payload sequence by sequence and either produces the decoded
//! bytes or the exact error the decoder reports.  The executable
//! `decompress_block` is proved to return precisely what `decode_from` says,
//! for every input.

use vstd::prelude::*;

use crate::bytes::le16;
use crate::errors::Lz4Error;

verus! {

/// Sums a varint extra-byte chain: bytes are added to `acc` until a byte
/// below `0xff` ends the chain.  Running past the end of `pay` is an input
/// error; reaching `cap` with the sum yields `cap_err` (the decoder stops
/// early when a length can no longer fit its target buffer).
pub open spec fn extra_len_sum(
    pay: Seq<u8>,
    p: int,
    acc: int,
    cap: int,
    cap_err: Lz4Error,
) -> Result<(int, int), Lz4Error>
    decreases pay.len() - p,
{
    if p < 0 || p >= pay.len() {
        Err(Lz4Error::InputBufferTooSmall)
    } else {
        let x = pay[p] as int;
        if acc + x >= cap {
            Err(cap_err)
        } else if x != 0xff {
            Ok((acc + x, p + 1))
        } else {
            extra_len_sum(pay, p + 1, acc + x, cap, cap_err)
        }
    }
}

pub proof fn lemma_extra_len_sum_range(pay: Seq<u8>, p: int, acc: int, cap: int, cap_err: Lz4Error)
    ensures
        match extra_len_sum(pay, p, acc, cap, cap_err) {
            Ok((v, p2)) => p < p2 <= pay.len() && acc <= v < cap,
            Err(_) => true,
        },
    decreases pay.len() - p,
{
    if 0 <= p < pay.len() {
        let x = pay[p] as int;
        if acc + x < cap && x == 0xff {
            lemma_extra_len_sum_range(pay, p + 1, acc + x, cap, cap_err);
        }
    }
}

/// A forward byte-by-byte overlapping copy: appends `run` bytes to `out`,
/// each read `offset` positions behind the write position.  With
/// `offset < run` the source overlaps the destination, so the copied prefix
/// repeats as a run-length fill.
pub open spec fn copy_run(out: Seq<u8>, offset: int, run: int) -> Seq<u8>
    decreases run,
{
    if run <= 0 || offset <= 0 || offset > out.len() {
        out
    } else {
        copy_run(out.push(out[out.len() - offset]), offset, run - 1)
    }
}

pub proof fn lemma_copy_run_len(out: Seq<u8>, offset: int, run: int)
    requires
        0 < offset <= out.len(),
        0 <= run,
    ensures
        copy_run(out, offset, run).len() == out.len() + run,
    decreases run,
{
    if run > 0 {
        lemma_copy_run_len(out.push(out[out.len() - offset]), offset, run - 1);
    }
}

/// One step of the copy: extending the run by one pushes the byte `offset`
/// positions behind the current end.
pub proof fn lemma_copy_run_step(out: Seq<u8>, offset: int, i: int)
    requires
        0 < offset <= out.len(),
        0 <= i,
    ensures
        copy_run(out, offset, i + 1) == copy_run(out, offset, i).push(
            copy_run(out, offset, i)[out.len() + i - offset],
        ),
    decreases i,
{
    lemma_copy_run_len(out, offset, i);
    if i == 0 {
        assert(copy_run(out, offset, 1) == copy_run(out.push(out[out.len() - offset]), offset, 0));
    } else {
        let out1 = out.push(out[out.len() - offset]);
        lemma_copy_run_step(out1, offset, i - 1);
        lemma_copy_run_len(out1, offset, i - 1);
    }
}

/// The run-length law: a copy at offset 1 repeats the last byte already
/// produced, so a match of length `k` over a one-byte prefix yields `k`
/// copies of that byte.
pub proof fn lemma_run_fill(out: Seq<u8>, k: int)
    requires
        out.len() >= 1,
        0 <= k,
    ensures
        copy_run(out, 1, k) == out + Seq::new(k as nat, |i: int| out.last()),
    decreases k,
{
    if k == 0 {
        assert(out + Seq::new(0, (|i: int| out.last())) =~= out);
    } else {
        let b = out.last();
        assert(out[out.len() - 1] == b);
        lemma_run_fill(out.push(b), k - 1);
        assert(out.push(b).last() == b);
        assert(out.push(b) + Seq::new((k - 1) as nat, (|i: int| out.push(b).last())) =~= out
            + Seq::new(k as nat, (|i: int| out.last())));
    }
}

/// The meaning of an LZ4 compressed block, read from position `p` with the
/// bytes `out` already produced, into a target of capacity `cap`.
///
/// Each step reads a token whose high nibble starts a literal run and whose
/// low nibble a back-reference; the block ends positionally, when fewer than
/// two payload bytes remain after the literals or after the offset.
pub open spec fn decode_from(pay: Seq<u8>, p: int, out: Seq<u8>, cap: int) -> Result<
    Seq<u8>,
    Lz4Error,
>
    decreases pay.len() - p,
    via decode_from_dec
{
    if p < 0 || p >= pay.len() {
        Err(Lz4Error::InputBufferTooSmall)
    } else {
        let tag = pay[p];
        let lit0 = (tag >> 4) as int;
        let lr = if lit0 == 0xf {
            extra_len_sum(pay, p + 1, 0xf, pay.len() as int, Lz4Error::InputBufferTooSmall)
        } else {
            Ok((lit0, p + 1))
        };
        match lr {
            Err(e) => Err(e),
            Ok((lit, p2)) => {
                if lit > pay.len() - p2 {
                    Err(Lz4Error::InputBufferTooSmall)
                } else if lit > cap - out.len() {
                    Err(Lz4Error::OutputBufferTooSmall)
                } else {
                    let out2 = out + pay.subrange(p2, p2 + lit);
                    let p3 = p2 + lit;
                    if p3 + 1 >= pay.len() {
                        Ok(out2)
                    } else {
                        let offset = le16(pay, p3);
                        if offset == 0 {
                            Err(Lz4Error::OffsetZero)
                        } else if offset > out2.len() {
                            Err(Lz4Error::OffsetTooLarge)
                        } else {
                            let p4 = p3 + 2;
                            if p4 + 1 >= pay.len() {
                                Ok(out2)
                            } else {
                                let m0 = (tag & 0xf) as int;
                                let mr = if m0 == 0xf {
                                    extra_len_sum(pay, p4, 0xf, cap, Lz4Error::OutputBufferTooSmall)
                                } else {
                                    Ok((m0, p4))
                                };
                                match mr {
                                    Err(e) => Err(e),
                                    Ok((m, p5)) => {
                                        if m + 4 > cap - out2.len() {
                                            Err(Lz4Error::OutputBufferTooSmall)
                                        } else {
                                            decode_from(pay, p5, copy_run(out2, offset, m + 4), cap)
                                        }
                                    },
                                }
                            }
                        }
                    }
                }
            },
        }
    }
}

#[via_fn]
proof fn decode_from_dec(pay: Seq<u8>, p: int, out: Seq<u8>, cap: int) {
    if 0 <= p < pay.len() {
        let tag = pay[p];
        let lit0 = (tag >> 4) as int;
        lemma_extra_len_sum_range(
            pay,
            p + 1,
            0xf,
            pay.len() as int,
            Lz4Error::InputBufferTooSmall,
        );
        let lr = if lit0 == 0xf {
            extra_len_sum(pay, p + 1, 0xf, pay.len() as int, Lz4Error::InputBufferTooSmall)
        } else {
            Ok((lit0, p + 1))
        };
        match lr {
            Ok((lit, p2)) => {
                lemma_extra_len_sum_range(
                    pay,
                    p2 + lit + 2,
                    0xf,
                    cap,
                    Lz4Error::OutputBufferTooSmall,
                );
            },
            Err(_) => {},
        }
    }
}

/// The bytes already produced at the moment decoding stops: on success the
/// whole result, on an error everything decoded before the fault — the
/// faulty sequence's own literals included, since literals are copied
/// before the offset and match length are examined.
pub open spec fn decode_partial(pay: Seq<u8>, p: int, out: Seq<u8>, cap: int) -> Seq<u8>
    decreases pay.len() - p,
    via decode_partial_dec
{
    if p < 0 || p >= pay.len() {
        out
    } else {
        let tag = pay[p];
        let lit0 = (tag >> 4) as int;
        let lr = if lit0 == 0xf {
            extra_len_sum(pay, p + 1, 0xf, pay.len() as int, Lz4Error::InputBufferTooSmall)
        } else {
            Ok((lit0, p + 1))
        };
        match lr {
            Err(e) => out,
            Ok((lit, p2)) => {
                if lit > pay.len() - p2 {
                    out
                } else if lit > cap - out.len() {
                    out
                } else {
                    let out2 = out + pay.subrange(p2, p2 + lit);
                    let p3 = p2 + lit;
                    if p3 + 1 >= pay.len() {
                        out2
                    } else {
                        let offset = le16(pay, p3);
                        if offset == 0 {
                            out2
                        } else if offset > out2.len() {
                            out2
                        } else {
                            let p4 = p3 + 2;
                            if p4 + 1 >= pay.len() {
                                out2
                            } else {
                                let m0 = (tag & 0xf) as int;
                                let mr = if m0 == 0xf {
                                    extra_len_sum(pay, p4, 0xf, cap, Lz4Error::OutputBufferTooSmall)
                                } else {
                                    Ok((m0, p4))
                                };
                                match mr {
                                    Err(e) => out2,
                                    Ok((m, p5)) => {
                                        if m + 4 > cap - out2.len() {
                                            out2
                                        } else {
                                            decode_partial(
                                                pay,
                                                p5,
                                                copy_run(out2, offset, m + 4),
                                                cap,
                                            )
                                        }
                                    },
                                }
                            }
                        }
                    }
                }
            },
        }
    }
}

#[via_fn]
proof fn decode_partial_dec(pay: Seq<u8>, p: int, out: Seq<u8>, cap: int) {
    if 0 <= p < pay.len() {
        let tag = pay[p];
        let lit0 = (tag >> 4) as int;
        lemma_extra_len_sum_range(
            pay,
            p + 1,
            0xf,
            pay.len() as int,
            Lz4Error::InputBufferTooSmall,
        );
        let lr = if lit0 == 0xf {
            extra_len_sum(pay, p + 1, 0xf, pay.len() as int, Lz4Error::InputBufferTooSmall)
        } else {
            Ok((lit0, p + 1))
        };
        match lr {
            Ok((lit, p2)) => {
                lemma_extra_len_sum_range(
                    pay,
                    p2 + lit + 2,
                    0xf,
                    cap,
                    Lz4Error::OutputBufferTooSmall,
                );
            },
            Err(_) => {},
        }
    }
}

/// Expands one compressed block.
///
/// `in_data[0 .. in_len]` is the compressed payload; decoded bytes are
/// written into `out_data` starting at `o`, and the final write position is
/// returned.  The result is exactly what the `decode_from` model yields on
/// this payload, with `out_data`'s length as the capacity.
#[verifier::loop_isolation(false)]
#[verifier::rlimit(100)]
pub fn decompress_block(
    in_data: &Vec<u8>,
    in_len: usize,
    out_data: &mut Vec<u8>,
    o: usize,
) -> (r: Result<usize, Lz4Error>)
    requires
        o <= old(out_data).len(),
    ensures
        final(out_data)@.len() == old(out_data)@.len(),
        forall|i: int| 0 <= i < o ==> final(out_data)@[i] == old(out_data)@[i],
        match r {
            Ok(end) => o <= end <= final(out_data)@.len() && in_len <= in_data@.len()
                && decode_from(
                in_data@.take(in_len as int),
                0,
                old(out_data)@.take(o as int),
                old(out_data)@.len() as int,
            ) == Ok::<Seq<u8>, Lz4Error>(final(out_data)@.take(end as int)) && (forall|i: int|
                end <= i < final(out_data)@.len() ==> final(out_data)@[i] == old(out_data)@[i]),
            Err(e) => (in_len > in_data@.len() && e == Lz4Error::InputBufferTooSmall
                && final(out_data)@ == old(out_data)@) || (in_len <= in_data@.len()
                && decode_from(
                in_data@.take(in_len as int),
                0,
                old(out_data)@.take(o as int),
                old(out_data)@.len() as int,
            ) == Err::<Seq<u8>, Lz4Error>(e) && ({
                // the buffer holds everything decoded before the fault
                let part = decode_partial(
                    in_data@.take(in_len as int),
                    0,
                    old(out_data)@.take(o as int),
                    old(out_data)@.len() as int,
                );
                &&& o <= part.len() <= final(out_data)@.len()
                &&& final(out_data)@.take(part.len() as int) == part
                &&& forall|i: int|
                    part.len() <= i < final(out_data)@.len() ==> final(out_data)@[i] == old(
                        out_data,
                    )@[i]
            })),
        },
{
    if in_len > in_data.len() {
        return Err(Lz4Error::InputBufferTooSmall);
    }
    let ghost pay = in_data@.take(in_len as int);
    let ghost out0 = out_data@.take(o as int);
    let ghost old_out = out_data@;
    let ghost cap = out_data@.len() as int;
    let out_cap = out_data.len();
    let mut out_pos: usize = o;
    let mut p: usize = 0;
    loop
        invariant
            in_len <= in_data.len(),
            pay == in_data@.take(in_len as int),
            o <= out_pos <= out_data@.len(),
            p <= in_len,
            out_data@.len() == old_out.len(),
            cap == old_out.len() as int,
            out_cap == out_data@.len(),
            out0 == old_out.take(o as int),
            forall|i: int| 0 <= i < o ==> out_data@[i] == old_out[i],
            forall|i: int| out_pos <= i < out_data@.len() ==> out_data@[i] == old_out[i],
            decode_from(pay, 0, out0, cap) == decode_from(
                pay,
                p as int,
                out_data@.take(out_pos as int),
                cap,
            ),
            decode_partial(pay, 0, out0, cap) == decode_partial(
                pay,
                p as int,
                out_data@.take(out_pos as int),
                cap,
            ),
        decreases in_len - p,
    {
        let ghost cur = out_data@.take(out_pos as int);
        let ghost p_tok = p as int;
        if p >= in_len {
            return Err(Lz4Error::InputBufferTooSmall);
        }
        let tag = in_data[p];
        p = p + 1;
        let mut literal_len: usize = (tag >> 4) as usize;
        if literal_len == 0xf {
            let mut more = true;
            while more
                invariant
                    p_tok < p <= in_len,
                    literal_len == 0xf || literal_len < in_len,
                    more ==> extra_len_sum(
                        pay,
                        p_tok + 1,
                        0xf,
                        in_len as int,
                        Lz4Error::InputBufferTooSmall,
                    ) == extra_len_sum(
                        pay,
                        p as int,
                        literal_len as int,
                        in_len as int,
                        Lz4Error::InputBufferTooSmall,
                    ),
                    !more ==> literal_len < in_len && extra_len_sum(
                        pay,
                        p_tok + 1,
                        0xf,
                        in_len as int,
                        Lz4Error::InputBufferTooSmall,
                    ) == Ok::<(int, int), Lz4Error>((literal_len as int, p as int)),
                decreases in_len - p,
            {
                if p >= in_len {
                    return Err(Lz4Error::InputBufferTooSmall);
                }
                let x = in_data[p];
                if literal_len >= in_len || x as usize >= in_len - literal_len {
                    return Err(Lz4Error::InputBufferTooSmall);
                }
                p = p + 1;
                literal_len = literal_len + x as usize;
                if x != 0xff {
                    more = false;
                }
            }
        }
        let ghost p2 = p as int;
        let ghost lit = literal_len as int;
        // literal copy
        if literal_len > in_len - p {
            return Err(Lz4Error::InputBufferTooSmall);
        }
        if literal_len > out_cap - out_pos {
            return Err(Lz4Error::OutputBufferTooSmall);
        }
        let ghost cur2 = cur + pay.subrange(p2, p2 + lit);
        proof {
            assert(cur2.len() == out_pos + literal_len);
            assert(out_data@.take(out_pos as int) =~= cur2.take(out_pos as int));
        }
        let mut i: usize = 0;
        while i < literal_len
            invariant
                i <= literal_len,
                out_data@.len() == old_out.len(),
                out_data@.take((out_pos + i) as int) == cur2.take((out_pos + i) as int),
                forall|j: int| 0 <= j < o ==> out_data@[j] == old_out[j],
                forall|j: int| out_pos + i <= j < out_data@.len() ==> out_data@[j] == old_out[j],
            decreases literal_len - i,
        {
            let x = in_data[p + i];
            out_data[out_pos + i] = x;
            proof {
                assert(cur2[(out_pos + i) as int] == pay[p2 + i]);
                assert(out_data@.take((out_pos + i + 1) as int) =~= cur2.take(
                    (out_pos + i + 1) as int,
                ));
            }
            i = i + 1;
        }
        proof {
            assert(out_data@.take((out_pos + literal_len) as int) =~= cur2);
        }
        out_pos = out_pos + literal_len;
        p = p + literal_len;
        let ghost p3 = p as int;
        if p >= in_len - 1 {
            proof {
                assert(decode_from(pay, p_tok, cur, cap) == Ok::<Seq<u8>, Lz4Error>(cur2));
            }
            return Ok(out_pos);
        }
        // offset
        let offset = (in_data[p] as usize) + 0x100 * (in_data[p + 1] as usize);
        proof {
            assert(offset as int == le16(pay, p3));
        }
        if offset == 0 {
            return Err(Lz4Error::OffsetZero);
        }
        if offset > out_pos {
            return Err(Lz4Error::OffsetTooLarge);
        }
        p = p + 2;
        if p >= in_len - 1 {
            proof {
                assert(decode_from(pay, p_tok, cur, cap) == Ok::<Seq<u8>, Lz4Error>(cur2));
            }
            return Ok(out_pos);
        }
        let ghost p4 = p as int;
        let mut run_len: usize = (tag & 0xf) as usize;
        if run_len == 0xf {
            let mut more = true;
            while more
                invariant
                    p4 <= p <= in_len,
                    run_len == 0xf || run_len < out_cap,
                    more ==> extra_len_sum(pay, p4, 0xf, cap, Lz4Error::OutputBufferTooSmall)
                        == extra_len_sum(
                        pay,
                        p as int,
                        run_len as int,
                        cap,
                        Lz4Error::OutputBufferTooSmall,
                    ),
                    !more ==> run_len < out_cap && extra_len_sum(
                        pay,
                        p4,
                        0xf,
                        cap,
                        Lz4Error::OutputBufferTooSmall,
                    ) == Ok::<(int, int), Lz4Error>((run_len as int, p as int)),
                decreases in_len - p,
            {
                if p >= in_len {
                    return Err(Lz4Error::InputBufferTooSmall);
                }
                let x = in_data[p];
                if run_len >= out_cap || x as usize >= out_cap - run_len {
                    return Err(Lz4Error::OutputBufferTooSmall);
                }
                p = p + 1;
                run_len = run_len + x as usize;
                if x != 0xff {
                    more = false;
                }
            }
        }
        let ghost m = run_len as int;
        let ghost p5 = p as int;
        // match copy
        if out_cap - out_pos < 4 || run_len > out_cap - out_pos - 4 {
            return Err(Lz4Error::OutputBufferTooSmall);
        }
        run_len = run_len + 4;
        let ghost cur3 = copy_run(cur2, offset as int, run_len as int);
        proof {
            lemma_copy_run_len(cur2, offset as int, run_len as int);
        }
        let mut i: usize = 0;
        while i < run_len
            invariant
                i <= run_len,
                0 < offset <= out_pos,
                out_pos + run_len <= out_data@.len(),
                out_data@.len() == old_out.len(),
                cur2 == out_data@.take(out_pos as int),
                cur2.len() == out_pos as int,
                out_data@.take((out_pos + i) as int) == copy_run(cur2, offset as int, i as int),
                forall|j: int| 0 <= j < o ==> out_data@[j] == old_out[j],
                forall|j: int| out_pos + i <= j < out_data@.len() ==> out_data@[j] == old_out[j],
            decreases run_len - i,
        {
            proof {
                lemma_copy_run_len(cur2, offset as int, i as int);
                lemma_copy_run_step(cur2, offset as int, i as int);
            }
            let x = out_data[out_pos + i - offset];
            out_data[out_pos + i] = x;
            proof {
                assert(out_data@.take((out_pos + i + 1) as int) =~= copy_run(
                    cur2,
                    offset as int,
                    i as int,
                ).push(copy_run(cur2, offset as int, i as int)[cur2.len() + i - offset]));
            }
            i = i + 1;
        }
        out_pos = out_pos + run_len;
        proof {
            assert(out_data@.take(out_pos as int) == cur3);
            assert(decode_from(pay, p_tok, cur, cap) == decode_from(pay, p as int, cur3, cap));
        }
    }
}

} // verus!
