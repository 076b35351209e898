//! The LZ4 match engine and block encoders.
//!
//! A compressed block is modelled as a list of tokens — (literal run,
//! match) decisions — followed by a literal-only trailer.  `valid_toks`
//! states the format's match laws: length at least 4, offset between 1 and
//! 65535 and no further back than the bytes already emitted, every match
//! ending at least 5 bytes before the block end.  The central lemma
//! `lemma_decode_encoded` proves that the encoding of any valid token list
//! decodes back to the exact input, and each of the three strategies is
//! proved to emit such an encoding.

use vstd::assert_multisets_equal;
use vstd::prelude::*;

use crate::bytes::le16;
use crate::bytes::le32;
use crate::bytes::le64;
use crate::bytes::read_u64_le;
use crate::bytes::read_vec_u32_le;
use crate::decompress::copy_run;
use crate::decompress::decode_from;
use crate::decompress::extra_len_sum;
use crate::errors::Lz4Error;

verus! {

/// One decision of the match engine: `lit` literal bytes, then a match of
/// `mlen` bytes at distance `off`.
pub ghost struct Tok {
    pub lit: int,
    pub off: int,
    pub mlen: int,
}

/// The varint extension of a length `v` beyond a 15-valued nibble:
/// `0xff` bytes as long as 255 more can be taken, then the residual.
pub open spec fn extras_bytes(v: int) -> Seq<u8>
    decreases v,
{
    if v < 15 {
        Seq::empty()
    } else if v - 15 >= 255 {
        seq![0xffu8] + extras_bytes(v - 255)
    } else {
        seq![(v - 15) as u8]
    }
}

/// The token byte: literal-length nibble high, match-length nibble low.
pub open spec fn token_byte(lit: int, mlen: int, last: bool) -> u8 {
    (((if lit >= 15 {
        15int
    } else {
        lit
    }) * 16 + (if last {
        0int
    } else if mlen - 4 >= 15 {
        15int
    } else {
        mlen - 4
    })) as u8)
}

/// The bytes of one non-final sequence: token, literal-length extras, the
/// literals themselves, the 2-byte offset, match-length extras.
pub open spec fn seq_bytes(inn: Seq<u8>, pos: int, t: Tok) -> Seq<u8> {
    seq![token_byte(t.lit, t.mlen, false)] + extras_bytes(t.lit) + inn.subrange(pos, pos + t.lit)
        + seq![(t.off % 256) as u8, (t.off / 256) as u8] + extras_bytes(t.mlen - 4)
}

/// The bytes of the final, literal-only sequence.
pub open spec fn final_bytes(inn: Seq<u8>, pos: int, lit: int) -> Seq<u8> {
    seq![token_byte(lit, 4, true)] + extras_bytes(lit) + inn.subrange(pos, pos + lit)
}

/// The match laws of the format, for one token placed at `pos`:
/// a match is at least 4 bytes, its offset lies in the 65535-byte window and
/// reaches only already-emitted bytes, it ends at least 5 bytes before the
/// block end, and it repeats bytes the input really holds.
pub open spec fn valid_tok(inn: Seq<u8>, pos: int, t: Tok) -> bool {
    &&& 0 <= pos
    &&& t.lit >= 0
    &&& t.mlen >= 4
    &&& 1 <= t.off <= 0xffff
    &&& t.off <= pos + t.lit
    &&& pos + t.lit + t.mlen + 5 <= inn.len()
    &&& forall|i: int|
        0 <= i < t.mlen ==> #[trigger] inn[pos + t.lit + i] == inn[pos + t.lit - t.off + i]
}

/// The input bytes a token list consumes.
pub open spec fn toks_len(toks: Seq<Tok>) -> int
    decreases toks.len(),
{
    if toks.len() == 0 {
        0
    } else {
        toks[0].lit + toks[0].mlen + toks_len(toks.drop_first())
    }
}

/// Every token of the list obeys the match laws at its own position.
pub open spec fn valid_toks(inn: Seq<u8>, pos: int, toks: Seq<Tok>) -> bool
    decreases toks.len(),
{
    if toks.len() == 0 {
        true
    } else {
        valid_tok(inn, pos, toks[0]) && valid_toks(
            inn,
            pos + toks[0].lit + toks[0].mlen,
            toks.drop_first(),
        )
    }
}

/// The concatenated encoding of a token list.
pub open spec fn enc_toks(inn: Seq<u8>, pos: int, toks: Seq<Tok>) -> Seq<u8>
    decreases toks.len(),
{
    if toks.len() == 0 {
        Seq::empty()
    } else {
        seq_bytes(inn, pos, toks[0]) + enc_toks(
            inn,
            pos + toks[0].lit + toks[0].mlen,
            toks.drop_first(),
        )
    }
}

/// Appending a token extends the encoding, the consumed length and the
/// validity in the expected way.
pub proof fn lemma_toks_push(inn: Seq<u8>, pos: int, toks: Seq<Tok>, t: Tok)
    requires
        valid_toks(inn, pos, toks),
        valid_tok(inn, pos + toks_len(toks), t),
    ensures
        valid_toks(inn, pos, toks.push(t)),
        toks_len(toks.push(t)) == toks_len(toks) + t.lit + t.mlen,
        enc_toks(inn, pos, toks.push(t)) == enc_toks(inn, pos, toks) + seq_bytes(
            inn,
            pos + toks_len(toks),
            t,
        ),
    decreases toks.len(),
{
    if toks.len() == 0 {
        let pt = toks.push(t);
        assert(pt.drop_first() =~= Seq::<Tok>::empty());
        assert(pt[0] == t);
        assert(toks_len(pt.drop_first()) == 0);
        assert(valid_toks(inn, pos + t.lit + t.mlen, pt.drop_first()));
        assert(enc_toks(inn, pos + t.lit + t.mlen, pt.drop_first()) =~= Seq::<u8>::empty());
        assert(enc_toks(inn, pos, pt) =~= seq_bytes(inn, pos, t) + Seq::<u8>::empty());
        assert(enc_toks(inn, pos, pt) =~= enc_toks(inn, pos, toks) + seq_bytes(inn, pos, t));
        assert(toks_len(toks) == 0);
        assert(valid_tok(inn, pos + toks_len(toks), t));
        assert(valid_toks(inn, pos, pt));
    } else {
        let rest = toks.drop_first();
        assert(toks.push(t).drop_first() =~= rest.push(t));
        assert(toks.push(t)[0] == toks[0]);
        lemma_toks_push(inn, pos + toks[0].lit + toks[0].mlen, rest, t);
        assert(enc_toks(inn, pos, toks.push(t)) =~= enc_toks(inn, pos, toks) + seq_bytes(
            inn,
            pos + toks_len(toks),
            t,
        ));
    }
}

pub proof fn lemma_extras_bytes_len(v: int)
    ensures
        v < 15 ==> extras_bytes(v).len() == 0,
        v >= 15 ==> extras_bytes(v).len() == 1 + (v - 15) / 255,
    decreases v,
{
    if v >= 15 && v - 15 >= 255 {
        lemma_extras_bytes_len(v - 255);
    }
}

/// A window of a sequence suffix equals the matching window of what the
/// suffix is known to be.
proof fn lemma_sub_of_suffix(pay: Seq<u8>, p: int, a: Seq<u8>, i: int, j: int)
    requires
        0 <= p <= pay.len(),
        pay.subrange(p, pay.len() as int) == a,
        0 <= i <= j <= a.len(),
    ensures
        pay.subrange(p + i, p + j) == a.subrange(i, j),
{
    assert forall|k: int| 0 <= k < j - i implies pay.subrange(p + i, p + j)[k] == a.subrange(
        i,
        j,
    )[k] by {
        assert(pay.subrange(p, pay.len() as int)[i + k] == pay[p + (i + k)]);
        assert(a.subrange(i, j)[k] == a[i + k]);
        assert(pay.subrange(p + i, p + j)[k] == pay[p + i + k]);
    }
    assert(pay.subrange(p + i, p + j) =~= a.subrange(i, j));
}

/// A window inside the left part of a concatenation.
proof fn lemma_sub_concat_left(x: Seq<u8>, y: Seq<u8>, i: int, j: int)
    requires
        0 <= i <= j <= x.len(),
    ensures
        (x + y).subrange(i, j) == x.subrange(i, j),
{
    assert((x + y).subrange(i, j) =~= x.subrange(i, j));
}

/// The whole right part of a concatenation, as a window.
proof fn lemma_sub_concat_right(x: Seq<u8>, y: Seq<u8>)
    ensures
        (x + y).subrange(x.len() as int, (x + y).len() as int) == y,
{
    assert((x + y).subrange(x.len() as int, (x + y).len() as int) =~= y);
}

/// The parts of one encoded sequence, read back from its bytes.
proof fn lemma_seq_parts(T: Seq<u8>, L: Seq<u8>, I: Seq<u8>, O: Seq<u8>, M: Seq<u8>, s: Seq<u8>)
    requires
        s == T + L + I + O + M,
    ensures
        s.len() == T.len() + L.len() + I.len() + O.len() + M.len(),
        s.subrange(T.len() as int, (T.len() + L.len()) as int) == L,
        s.subrange((T.len() + L.len()) as int, (T.len() + L.len() + I.len()) as int) == I,
        s.subrange(
            (T.len() + L.len() + I.len()) as int,
            (T.len() + L.len() + I.len() + O.len()) as int,
        ) == O,
        s.subrange((T.len() + L.len() + I.len() + O.len()) as int, s.len() as int) == M,
{
    let tl = T + L;
    let tli = T + L + I;
    let tlio = T + L + I + O;
    lemma_sub_concat_right(tlio, M);
    lemma_sub_concat_left(tlio, M, tli.len() as int, tlio.len() as int);
    lemma_sub_concat_right(tli, O);
    lemma_sub_concat_left(tlio, M, tl.len() as int, tli.len() as int);
    lemma_sub_concat_left(tli, O, tl.len() as int, tli.len() as int);
    lemma_sub_concat_right(tl, I);
    lemma_sub_concat_left(tlio, M, T.len() as int, tl.len() as int);
    lemma_sub_concat_left(tli, O, T.len() as int, tl.len() as int);
    lemma_sub_concat_left(tl, I, T.len() as int, tl.len() as int);
    lemma_sub_concat_right(T, L);
}

/// Decoding a varint extension recovers the encoded value.
proof fn lemma_extras_roundtrip(
    pay: Seq<u8>,
    p: int,
    v: int,
    acc: int,
    cap: int,
    cap_err: Lz4Error,
)
    requires
        v >= 15,
        0 <= acc,
        acc + v - 15 < cap,
        0 <= p,
        p + extras_bytes(v).len() <= pay.len(),
        pay.subrange(p, p + extras_bytes(v).len() as int) == extras_bytes(v),
    ensures
        extra_len_sum(pay, p, acc, cap, cap_err) == Ok::<(int, int), Lz4Error>(
            (acc + v - 15, p + extras_bytes(v).len()),
        ),
    decreases v,
{
    let eb = extras_bytes(v);
    assert(pay.subrange(p, p + eb.len() as int)[0] == pay[p]);
    assert(pay[p] == eb[0]);
    if v - 15 >= 255 {
        assert(eb[0] == 0xff);
        let eb2 = extras_bytes(v - 255);
        assert(eb =~= seq![0xffu8] + eb2);
        assert(eb2.len() == eb.len() - 1);
        assert forall|k: int| 0 <= k < eb2.len() implies #[trigger] pay.subrange(
            p + 1,
            p + 1 + eb2.len() as int,
        )[k] == eb2[k] by {
            assert(pay.subrange(p, p + eb.len() as int)[1 + k] == pay[p + (1 + k)]);
            assert(eb[1 + k] == eb2[k]);
            assert(pay.subrange(p + 1, p + 1 + eb2.len() as int)[k] == pay[p + 1 + k]);
        }
        assert(pay.subrange(p + 1, p + 1 + eb2.len() as int) =~= eb2);
        lemma_extras_roundtrip(pay, p + 1, v - 255, acc + 255, cap, cap_err);
    } else {
        assert(eb[0] == v - 15);
        assert(eb[0] != 0xff);
    }
}

proof fn lemma_nibbles(t: u8)
    ensures
        (t >> 4) as int == t as int / 16,
        (t & 0xf) as int == t as int % 16,
{
    assert(t >> 4 == t / 16) by (bit_vector);
    assert(t & 0xf == t % 16) by (bit_vector);
}

/// A valid match, copied forward from `offset` behind, reproduces the input.
proof fn lemma_copy_run_match(inn: Seq<u8>, q: int, off: int, mlen: int)
    requires
        1 <= off <= q,
        0 <= mlen,
        q + mlen <= inn.len(),
        forall|i: int| 0 <= i < mlen ==> #[trigger] inn[q + i] == inn[q - off + i],
    ensures
        copy_run(inn.take(q), off, mlen) == inn.take(q + mlen),
    decreases mlen,
{
    if mlen == 0 {
        assert(copy_run(inn.take(q), off, 0) == inn.take(q));
    } else {
        let cur = inn.take(q);
        assert(inn[q + 0] == inn[q - off + 0]);
        assert(cur[q - off] == inn[q - off]);
        assert(cur.push(cur[q - off]) =~= inn.take(q + 1));
        assert(copy_run(cur, off, mlen) == copy_run(inn.take(q + 1), off, mlen - 1));
        assert forall|i: int| 0 <= i < mlen - 1 implies #[trigger] inn[(q + 1) + i] == inn[(q + 1)
            - off + i] by {
            assert(inn[q + (i + 1)] == inn[q - off + (i + 1)]);
        }
        lemma_copy_run_match(inn, q + 1, off, mlen - 1);
    }
}

/// The literal trailer alone decodes to the last `tail_lit` input bytes.
proof fn proof_decode_trailer(inn: Seq<u8>, pos: int, tail_lit: int, pay: Seq<u8>, p: int, cap: int)
    requires
        0 <= pos,
        tail_lit >= 0,
        pos + tail_lit == inn.len(),
        0 <= p <= pay.len(),
        pay.subrange(p, pay.len() as int) == final_bytes(inn, pos, tail_lit),
        cap >= inn.len(),
    ensures
        decode_from(pay, p, inn.take(pos), cap) == Ok::<Seq<u8>, Lz4Error>(inn),
{
    let out = inn.take(pos);
    let fb = final_bytes(inn, pos, tail_lit);
    let tok = token_byte(tail_lit, 4, true);
    let eb = extras_bytes(tail_lit);
    let lits = inn.subrange(pos, pos + tail_lit);
    lemma_nibbles(tok);
    lemma_extras_bytes_len(tail_lit);
    assert(fb == seq![tok] + eb + lits);
    lemma_seq_parts(seq![tok], eb, lits, Seq::empty(), Seq::empty(), fb);
    assert(fb.subrange(1, (1 + eb.len()) as int) == eb);
    assert(fb.subrange((1 + eb.len()) as int, 1 + eb.len() + tail_lit) == lits);
    assert(pay.len() - p == fb.len());
    assert(pay.subrange(p, pay.len() as int)[0] == pay[p]);
    assert(fb[0] == tok);
    let p2 = p + 1 + eb.len();
    if tail_lit >= 15 {
        assert(tok as int == 15 * 16);
        assert((tok >> 4) as int == 15);
        lemma_sub_of_suffix(pay, p, fb, 1, (1 + eb.len()) as int);
        assert(pay.subrange(p + 1, p + 1 + eb.len() as int) == eb);
        assert(tail_lit < pay.len()) by {
            assert(pay.len() - p == 1 + eb.len() + tail_lit);
        }
        lemma_extras_roundtrip(
            pay,
            p + 1,
            tail_lit,
            0xf,
            pay.len() as int,
            Lz4Error::InputBufferTooSmall,
        );
    } else {
        assert(tok as int == tail_lit * 16);
        assert((tok >> 4) as int == tail_lit);
        assert(eb.len() == 0);
    }
    lemma_sub_of_suffix(pay, p, fb, (1 + eb.len()) as int, 1 + eb.len() + tail_lit);
    assert(pay.subrange(p2, p2 + tail_lit) == lits);
    assert(p2 + tail_lit == pay.len());
    assert(out.len() + tail_lit <= cap);
    assert(out + lits =~= inn);
}

/// One decoding step over an encoded non-final sequence, then induction.
#[verifier::spinoff_prover]
#[verifier::rlimit(100)]
proof fn proof_decode_one(
    inn: Seq<u8>,
    pos: int,
    t: Tok,
    rest: Seq<Tok>,
    tail_lit: int,
    pay: Seq<u8>,
    p: int,
    cap: int,
    suffix: Seq<u8>,
)
    requires
        valid_tok(inn, pos, t),
        valid_toks(inn, pos + t.lit + t.mlen, rest),
        tail_lit >= 0,
        0 <= pos,
        pos + t.lit + t.mlen + toks_len(rest) + tail_lit == inn.len(),
        0 <= p <= pay.len(),
        suffix == enc_toks(inn, pos + t.lit + t.mlen, rest) + final_bytes(
            inn,
            pos + t.lit + t.mlen + toks_len(rest),
            tail_lit,
        ),
        pay.subrange(p, pay.len() as int) == seq_bytes(inn, pos, t) + suffix,
        cap >= inn.len(),
    ensures
        decode_from(pay, p, inn.take(pos), cap) == Ok::<Seq<u8>, Lz4Error>(inn),
    decreases rest.len(), 1int,
{
    let out = inn.take(pos);
    let sb = seq_bytes(inn, pos, t);
    let tok = token_byte(t.lit, t.mlen, false);
    let ebl = extras_bytes(t.lit);
    let ebm = extras_bytes(t.mlen - 4);
    let lits = inn.subrange(pos, pos + t.lit);
    let offb = seq![(t.off % 256) as u8, (t.off / 256) as u8];
    lemma_nibbles(tok);
    lemma_extras_bytes_len(t.lit);
    lemma_extras_bytes_len(t.mlen - 4);
    assert(sb == seq![tok] + ebl + lits + offb + ebm);
    lemma_seq_parts(seq![tok], ebl, lits, offb, ebm, sb);
    let m_nib: int = if t.mlen - 4 >= 15 {
        15
    } else {
        t.mlen - 4
    };
    // the trailer and remaining tokens hold the >= 5 bytes this match must
    // leave before the block end
    lemma_toks_len_rest_nonneg(inn, pos + t.lit + t.mlen, rest);
    assert(tail_lit + toks_len(rest) >= 5);
    lemma_enc_toks_len(inn, pos + t.lit + t.mlen, rest);
    lemma_extras_bytes_len(tail_lit);
    assert(suffix.len() >= 2) by {
        if rest.len() == 0 {
            assert(toks_len(rest) == 0);
            assert(tail_lit >= 5);
            assert(final_bytes(inn, pos + t.lit + t.mlen + toks_len(rest), tail_lit).len() >= 1
                + tail_lit);
        }
    }
    let a = sb + suffix;
    assert(a.len() == sb.len() + suffix.len());
    assert(pay.subrange(p, pay.len() as int).len() == pay.len() - p);
    assert(pay.len() - p == sb.len() + suffix.len());
    assert(pay.subrange(p, pay.len() as int)[0] == pay[p]);
    assert(a[0] == sb[0]);
    assert(sb[0] == tok);
    let p2 = p + 1 + ebl.len();
    if t.lit >= 15 {
        assert(tok as int == 15 * 16 + m_nib);
        assert((tok >> 4) as int == 15);
        assert((tok & 0xf) as int == m_nib);
        lemma_sub_concat_left(sb, suffix, 1, (1 + ebl.len()) as int);
        lemma_sub_of_suffix(pay, p, a, 1, (1 + ebl.len()) as int);
        assert(pay.subrange(p + 1, p + 1 + ebl.len() as int) == ebl);
        assert(t.lit < pay.len()) by {
            assert(pay.len() - p >= sb.len());
            assert(sb.len() >= 1 + ebl.len() + t.lit + 2);
        }
        lemma_extras_roundtrip(
            pay,
            p + 1,
            t.lit,
            0xf,
            pay.len() as int,
            Lz4Error::InputBufferTooSmall,
        );
    } else {
        assert(tok as int == t.lit * 16 + m_nib);
        assert((tok >> 4) as int == t.lit);
        assert((tok & 0xf) as int == m_nib);
        assert(ebl.len() == 0);
    }
    // literals
    assert(p2 + t.lit + 2 + ebm.len() + suffix.len() == pay.len());
    assert(out.len() + t.lit <= cap);
    lemma_sub_concat_left(sb, suffix, (1 + ebl.len()) as int, 1 + ebl.len() + t.lit);
    lemma_sub_of_suffix(pay, p, a, (1 + ebl.len()) as int, 1 + ebl.len() + t.lit);
    assert(pay.subrange(p2, p2 + t.lit) == lits);
    let out2 = out + lits;
    assert(out2 =~= inn.take(pos + t.lit));
    let p3 = p2 + t.lit;
    // not the positional end: the offset and at least two more bytes follow
    assert(p3 + 1 < pay.len());
    // offset bytes
    lemma_sub_concat_left(sb, suffix, 1 + ebl.len() + t.lit, 1 + ebl.len() + t.lit + 2);
    lemma_sub_of_suffix(pay, p, a, 1 + ebl.len() + t.lit, 1 + ebl.len() + t.lit + 2);
    assert(pay.subrange(p3, p3 + 2) == offb);
    assert(pay[p3] == (t.off % 256) as u8) by {
        assert(pay.subrange(p3, p3 + 2)[0] == pay[p3]);
        assert(offb[0] == (t.off % 256) as u8);
    }
    assert(pay[p3 + 1] == (t.off / 256) as u8) by {
        assert(pay.subrange(p3, p3 + 2)[1] == pay[p3 + 1]);
        assert(offb[1] == (t.off / 256) as u8);
    }
    assert(le16(pay, p3) == t.off) by {
        assert(t.off % 256 + 0x100 * (t.off / 256) == t.off);
    }
    assert(t.off <= out2.len());
    let p4 = p3 + 2;
    assert(p4 + 1 < pay.len()) by {
        assert(pay.len() - p4 == ebm.len() + suffix.len());
    }
    let p5 = p4 + ebm.len();
    if t.mlen - 4 >= 15 {
        lemma_sub_concat_left(sb, suffix, 1 + ebl.len() + t.lit + 2, sb.len() as int);
        lemma_sub_of_suffix(pay, p, a, 1 + ebl.len() + t.lit + 2, sb.len() as int);
        assert(pay.subrange(p4, p4 + ebm.len() as int) == ebm);
        assert(t.mlen - 4 < cap) by {
            assert(pos + t.lit + t.mlen + 5 <= inn.len());
        }
        lemma_extras_roundtrip(pay, p4, t.mlen - 4, 0xf, cap, Lz4Error::OutputBufferTooSmall);
    } else {
        assert(ebm.len() == 0);
    }
    // the match fits the capacity and reproduces the input
    assert(out2.len() + t.mlen <= cap);
    lemma_copy_run_match(inn, pos + t.lit, t.off, t.mlen);
    assert(inn.take(pos + t.lit) == out2);
    assert(copy_run(out2, t.off, t.mlen) == inn.take(pos + t.lit + t.mlen));
    // what remains is the encoding of the remaining tokens
    lemma_sub_of_suffix(pay, p, a, sb.len() as int, a.len() as int);
    lemma_sub_concat_right(sb, suffix);
    assert(pay.subrange(p5, pay.len() as int) == suffix);
    lemma_decode_encoded(inn, pos + t.lit + t.mlen, rest, tail_lit, pay, p5, cap);
}

/// The encoding of a valid token list plus its literal trailer decodes to
/// the exact input: the round-trip law of the block format.
pub proof fn lemma_decode_encoded(
    inn: Seq<u8>,
    pos: int,
    toks: Seq<Tok>,
    tail_lit: int,
    pay: Seq<u8>,
    p: int,
    cap: int,
)
    requires
        valid_toks(inn, pos, toks),
        0 <= pos,
        tail_lit >= 0,
        pos + toks_len(toks) + tail_lit == inn.len(),
        0 <= p <= pay.len(),
        pay.subrange(p, pay.len() as int) == enc_toks(inn, pos, toks) + final_bytes(
            inn,
            pos + toks_len(toks),
            tail_lit,
        ),
        cap >= inn.len(),
    ensures
        decode_from(pay, p, inn.take(pos), cap) == Ok::<Seq<u8>, Lz4Error>(inn),
    decreases toks.len(), 0int,
{
    if toks.len() == 0 {
        assert(enc_toks(inn, pos, toks) + final_bytes(inn, pos + toks_len(toks), tail_lit)
            =~= final_bytes(inn, pos, tail_lit));
        proof_decode_trailer(inn, pos, tail_lit, pay, p, cap);
    } else {
        let t = toks[0];
        let rest = toks.drop_first();
        let suffix = enc_toks(inn, pos + t.lit + t.mlen, rest) + final_bytes(
            inn,
            pos + t.lit + t.mlen + toks_len(rest),
            tail_lit,
        );
        assert(toks_len(toks) == t.lit + t.mlen + toks_len(rest));
        assert(enc_toks(inn, pos, toks) + final_bytes(inn, pos + toks_len(toks), tail_lit)
            =~= seq_bytes(inn, pos, t) + suffix);
        proof_decode_one(inn, pos, t, rest, tail_lit, pay, p, cap, suffix);
    }
}

proof fn lemma_toks_len_rest_nonneg(inn: Seq<u8>, pos: int, toks: Seq<Tok>)
    requires
        valid_toks(inn, pos, toks),
    ensures
        toks_len(toks) >= 0,
        toks.len() > 0 ==> toks_len(toks) >= 4,
    decreases toks.len(),
{
    if toks.len() > 0 {
        lemma_toks_len_rest_nonneg(inn, pos + toks[0].lit + toks[0].mlen, toks.drop_first());
    }
}

proof fn lemma_enc_toks_len(inn: Seq<u8>, pos: int, toks: Seq<Tok>)
    requires
        valid_toks(inn, pos, toks),
    ensures
        toks.len() > 0 ==> enc_toks(inn, pos, toks).len() >= 3,
    decreases toks.len(),
{
    if toks.len() > 0 {
        assert(seq_bytes(inn, pos, toks[0]).len() >= 3);
    }
}

/// The bytes one encoded sequence occupies.
pub open spec fn seq_space(lit: int, mlen: int, last: bool) -> int {
    1 + extras_bytes(lit).len() + lit + (if last {
        0int
    } else {
        (2 + extras_bytes(mlen - 4).len()) as int
    })
}

/// The 64-bit xor-shift and multiply mix that spreads a 4-byte fingerprint.
pub open spec fn spec_hash64(x: u64) -> u64 {
    let a = vstd::wrapping::u64_specs::wrapping_mul(x ^ (x >> 33), 0xff51afd7ed558ccd);
    let b = vstd::wrapping::u64_specs::wrapping_mul(a ^ (a >> 33), 0xc4ceb9fe1a85ec53);
    b ^ (b >> 33)
}

fn hash64(x: u64) -> (r: u64)
    ensures
        r == spec_hash64(x),
{
    let a = (x ^ (x >> 33)).wrapping_mul(0xff51afd7ed558ccd);
    let b = (a ^ (a >> 33)).wrapping_mul(0xc4ceb9fe1a85ec53);
    b ^ (b >> 33)
}

/// Hash bucket of the 4 bytes at `pos`, masked to the table size.
fn hash(data: &Vec<u8>, pos: usize, mask: usize) -> (r: usize)
    requires
        pos + 4 <= data.len(),
    ensures
        r == (spec_hash64(le32(data@, pos as int) as u64) as usize) & mask,
        r <= mask,
{
    let x = read_vec_u32_le(data, pos);
    let h = hash64(x as u64);
    let hu = #[verifier::truncate] (h as usize);
    proof {
        assert(hu & mask <= mask) by (bit_vector);
    }
    hu & mask
}

/// Hash bucket of the 5 bytes at `pos`, for the 4096-entry fast table: a
/// 5-byte product hash (the shift by 24 discards the top 3 of the 8 bytes
/// read).
fn hash5(data: &Vec<u8>, pos: usize) -> (r: usize)
    requires
        pos + 8 <= data.len(),
    ensures
        r == (vstd::wrapping::u64_specs::wrapping_mul(
            (le64(data@, pos as int) as u64) << 24,
            889523592379,
        ) >> 52) as usize,
        r < 4096,
{
    let x: u64 = read_u64_le(data, pos);
    let prime5bytes: u64 = 889523592379;
    let h = (x << 24).wrapping_mul(prime5bytes) >> 52;
    proof {
        let y = (x << 24).wrapping_mul(prime5bytes);
        assert(y >> 52 < 4096) by (bit_vector);
    }
    #[verifier::truncate] (h as usize)
}

/// The length of the common prefix of the runs at `ai` and `bi`, capped at
/// `limit`: the first position where they differ, or `limit` if they match
/// throughout.
pub open spec fn first_diff(a: Seq<u8>, ai: int, bi: int, limit: int) -> int
    decreases limit,
{
    if limit <= 0 {
        0
    } else if a[ai] != a[bi] {
        0
    } else {
        1 + first_diff(a, ai + 1, bi + 1, limit - 1)
    }
}

/// The cap every match scan observes: a match never extends into the last
/// 16 bytes before `a_len`.
pub open spec fn run_cap(a_len: int, ai: int) -> int {
    if a_len - ai >= 16 {
        a_len - ai - 16
    } else {
        0
    }
}

proof fn lemma_first_diff_is(a: Seq<u8>, ai: int, bi: int, limit: int, r: int)
    requires
        0 <= r <= limit,
        forall|t: int| 0 <= t < r ==> #[trigger] a[ai + t] == a[bi + t],
        r == limit || a[ai + r] != a[bi + r],
    ensures
        first_diff(a, ai, bi, limit) == r,
    decreases r,
{
    if r > 0 {
        assert(a[ai + 0] == a[bi + 0]);
        assert forall|t: int| 0 <= t < r - 1 implies #[trigger] a[(ai + 1) + t] == a[(bi + 1)
            + t] by {
            assert(a[ai + (t + 1)] == a[bi + (t + 1)]);
        }
        if r < limit {
            assert(a[(ai + 1) + (r - 1)] != a[(bi + 1) + (r - 1)]) by {
                assert(a[ai + r] != a[bi + r]);
            }
        }
        lemma_first_diff_is(a, ai + 1, bi + 1, limit - 1, r - 1);
    }
}

proof fn lemma_first_diff_le(a: Seq<u8>, ai: int, bi: int, limit: int, k: int)
    requires
        0 <= k < limit,
        a[ai + k] != a[bi + k],
    ensures
        first_diff(a, ai, bi, limit) <= k,
    decreases k,
{
    if k > 0 && a[ai + 0] == a[bi + 0] {
        assert(a[(ai + 1) + (k - 1)] != a[(bi + 1) + (k - 1)]) by {
            assert(a[ai + k] != a[bi + k]);
        }
        lemma_first_diff_le(a, ai + 1, bi + 1, limit - 1, k - 1);
    }
}

/// Counts how far the bytes at `ai` and `bi` run equal, eight at a time,
/// stopping short of the last 16 bytes of the block.
#[verifier::loop_isolation(false)]
fn run_len_count(a: &Vec<u8>, a_len: usize, ai: usize, bi: usize) -> (r: usize)
    requires
        bi < ai <= a_len,
        a_len <= a.len(),
    ensures
        r == first_diff(a@, ai as int, bi as int, run_cap(a_len as int, ai as int)),
        forall|t: int| 0 <= t < r ==> #[trigger] a@[ai + t] == a@[bi + t],
        r == 0 || ai + r + 16 <= a_len,
{
    let ghost cap = run_cap(a_len as int, ai as int);
    let mut run_len: usize = 0;
    while a_len - ai >= 25 && run_len < a_len - ai - 24
        invariant
            bi < ai <= a_len,
            a_len <= a.len(),
            run_len as int <= cap,
            forall|t: int| 0 <= t < run_len ==> #[trigger] a@[ai + t] == a@[bi + t],
            run_len == 0 || ai + run_len + 16 <= a_len,
        decreases a_len - run_len,
    {
        let mut m: usize = 0;
        while m < 8
            invariant
                m <= 8,
                bi < ai <= a_len,
                a_len <= a.len(),
                ai + run_len + 24 < a_len,
                forall|t: int| 0 <= t < run_len + m ==> #[trigger] a@[ai + t] == a@[bi + t],
                run_len == 0 || ai + run_len + 16 <= a_len,
            decreases 8 - m,
        {
            if a[ai + run_len + m] != a[bi + run_len + m] {
                proof {
                    lemma_first_diff_is(a@, ai as int, bi as int, cap, run_len + m);
                }
                return run_len + m;
            }
            m = m + 1;
        }
        run_len = run_len + 8;
    }
    while a_len - ai >= 17 && run_len < a_len - ai - 16 && a[ai + run_len] == a[bi + run_len]
        invariant
            bi < ai <= a_len,
            a_len <= a.len(),
            run_len as int <= cap,
            forall|t: int| 0 <= t < run_len ==> #[trigger] a@[ai + t] == a@[bi + t],
            run_len == 0 || ai + run_len + 16 <= a_len,
        decreases a_len - run_len,
    {
        run_len = run_len + 1;
    }
    proof {
        lemma_first_diff_is(a@, ai as int, bi as int, cap, run_len as int);
    }
    run_len
}

/// Evaluates a candidate against the current best run: checks the byte one
/// past the best first, confirms the whole prefix backwards, then extends
/// forward.  Near the block end it falls back to the plain count; otherwise
/// it returns 0 unless the candidate strictly beats `min_run`, and then the
/// exact capped common-run length.
#[verifier::loop_isolation(false)]
fn run_len_backwards(a: &Vec<u8>, a_len: usize, ai: usize, bi: usize, min_run: usize) -> (r: usize)
    requires
        bi < ai <= a_len,
        a_len <= a.len(),
    ensures
        ({
            let fd = first_diff(a@, ai as int, bi as int, run_cap(a_len as int, ai as int));
            if a_len - ai < 34 || min_run >= a_len - ai - 33 {
                r == fd
            } else if fd < min_run + 2 {
                r == 0
            } else {
                r == fd && r > min_run
            }
        }),
        forall|t: int| 0 <= t < r ==> #[trigger] a@[ai + t] == a@[bi + t],
        r == 0 || ai + r + 16 <= a_len,
{
    let ghost cap = run_cap(a_len as int, ai as int);
    if a_len - ai < 34 || min_run >= a_len - ai - 33 {
        return run_len_count(a, a_len, ai, bi);
    }
    proof {
        assert(min_run + 17 < cap);
    }
    let mut k: usize = min_run + 1;
    while k != 0
        invariant
            k <= min_run + 1,
            forall|t: int| k < t <= min_run + 1 ==> #[trigger] a@[ai + t] == a@[bi + t],
        decreases k,
    {
        if a[ai + k] != a[bi + k] {
            proof {
                lemma_first_diff_le(a@, ai as int, bi as int, cap, k as int);
            }
            return 0;
        }
        k = k - 1;
    }
    if a[ai] != a[bi] {
        proof {
            lemma_first_diff_le(a@, ai as int, bi as int, cap, 0);
        }
        return 0;
    }
    proof {
        assert forall|t: int| 0 <= t < min_run + 2 implies #[trigger] a@[ai + t] == a@[bi
            + t] by {
            if t > 0 {
                assert(a@[ai + t] == a@[bi + t]);
            } else {
                assert(a@[ai as int] == a@[bi as int]);
            }
        }
    }
    let mut run_len: usize = min_run + 1;
    while a_len - ai >= 17 && run_len < a_len - ai - 16 && a[ai + run_len] == a[bi + run_len]
        invariant
            run_len >= min_run + 1,
            run_len as int <= cap,
            forall|t: int| 0 <= t < run_len ==> #[trigger] a@[ai + t] == a@[bi + t],
            ai + run_len + 16 <= a_len,
        decreases a_len - run_len,
    {
        run_len = run_len + 1;
    }
    proof {
        lemma_first_diff_is(a@, ai as int, bi as int, cap, run_len as int);
    }
    run_len
}

/// Reassembles one encoded sequence from the regions written into `fin`.
proof fn lemma_assemble(
    fin: Seq<u8>,
    start: int,
    end: int,
    tag: u8,
    L: Seq<u8>,
    I: Seq<u8>,
    O: Seq<u8>,
    M: Seq<u8>,
    sL: int,
    sI: int,
    sO: int,
    sM: int,
)
    requires
        0 <= start,
        sL == start + 1,
        sI == sL + L.len(),
        sO == sI + I.len(),
        sM == sO + O.len(),
        end == sM + M.len(),
        end <= fin.len(),
        fin[start] == tag,
        forall|j: int| 0 <= j < L.len() ==> #[trigger] fin[sL + j] == L[j],
        forall|j: int| 0 <= j < I.len() ==> #[trigger] fin[sI + j] == I[j],
        forall|j: int| 0 <= j < O.len() ==> #[trigger] fin[sO + j] == O[j],
        forall|j: int| 0 <= j < M.len() ==> #[trigger] fin[sM + j] == M[j],
    ensures
        fin.subrange(start, end) == seq![tag] + L + I + O + M,
{
    let target = seq![tag] + L + I + O + M;
    lemma_seq_parts(seq![tag], L, I, O, M, target);
    assert(target.len() == end - start);
    assert forall|k: int| 0 <= k < end - start implies fin.subrange(start, end)[k]
        == target[k] by {
        assert(fin.subrange(start, end)[k] == fin[start + k]);
        if k == 0 {
            assert(target[0] == tag);
        } else if k < 1 + L.len() {
            let j = k - 1;
            assert(fin[sL + j] == L[j]);
            assert(target.subrange(1, (1 + L.len()) as int)[j] == target[1 + j]);
            assert(L[j] == target[1 + j]);
        } else if k < 1 + L.len() + I.len() {
            let j = k - 1 - L.len();
            assert(fin[sI + j] == I[j]);
            assert(target.subrange((1 + L.len()) as int, (1 + L.len() + I.len()) as int)[j]
                == target[1 + L.len() + j]);
            assert(I[j] == target[1 + L.len() + j]);
        } else if k < 1 + L.len() + I.len() + O.len() {
            let j = k - 1 - L.len() - I.len();
            assert(fin[sO + j] == O[j]);
            assert(target.subrange(
                (1 + L.len() + I.len()) as int,
                (1 + L.len() + I.len() + O.len()) as int,
            )[j] == target[1 + L.len() + I.len() + j]);
            assert(O[j] == target[1 + L.len() + I.len() + j]);
        } else {
            let j = k - 1 - L.len() - I.len() - O.len();
            assert(fin[sM + j] == M[j]);
            assert(target.subrange(
                (1 + L.len() + I.len() + O.len()) as int,
                target.len() as int,
            )[j] == target[1 + L.len() + I.len() + O.len() + j]);
            assert(M[j] == target[1 + L.len() + I.len() + O.len() + j]);
        }
    }
    assert(fin.subrange(start, end) =~= target);
}

/// Serializes one sequence into `out_data` at `out_pos`: the token byte,
/// literal-length extras, the literals from `in_data`, and — unless it is
/// the trailer — the offset and match-length extras.  Returns the position
/// after the sequence, whose bytes are exactly the sequence's encoding.
#[verifier::loop_isolation(false)]
#[verifier::rlimit(100)]
fn emit_sequence(
    out_data: &mut Vec<u8>,
    out_pos: usize,
    in_data: &Vec<u8>,
    in_len: usize,
    lit_start: usize,
    literal_len: usize,
    offset: usize,
    run_len: usize,
    last: bool,
) -> (r: usize)
    requires
        in_len <= in_data.len(),
        lit_start + literal_len <= in_len,
        last ==> lit_start + literal_len == in_len,
        !last ==> valid_tok(
            in_data@.take(in_len as int),
            lit_start as int,
            Tok { lit: literal_len as int, off: offset as int, mlen: run_len as int },
        ),
        out_pos + seq_space(literal_len as int, run_len as int, last) <= old(out_data).len(),
    ensures
        final(out_data)@.len() == old(out_data)@.len(),
        forall|j: int| 0 <= j < out_pos ==> final(out_data)@[j] == old(out_data)@[j],
        forall|j: int|
            r <= j < final(out_data)@.len() ==> final(out_data)@[j] == old(out_data)@[j],
        r == out_pos + seq_space(literal_len as int, run_len as int, last),
        final(out_data)@.subrange(out_pos as int, r as int) == (if last {
            final_bytes(in_data@.take(in_len as int), lit_start as int, literal_len as int)
        } else {
            seq_bytes(
                in_data@.take(in_len as int),
                lit_start as int,
                Tok { lit: literal_len as int, off: offset as int, mlen: run_len as int },
            )
        }),
{
    let ghost inn = in_data@.take(in_len as int);
    let ghost old_out = out_data@;
    let ghost ebl = extras_bytes(literal_len as int);
    proof {
        lemma_extras_bytes_len(literal_len as int);
        lemma_extras_bytes_len(run_len as int - 4);
    }
    let tag_pos = out_pos;
    let mut op = out_pos + 1;
    let mut ll = literal_len;
    let ghost ext_start = op as int;
    if literal_len >= 15 {
        while ll - 15 >= 255
            invariant
                15 <= ll <= literal_len,
                ext_start <= op as int,
                op - ext_start == ebl.len() - extras_bytes(ll as int).len(),
                out_data@.len() == old_out.len(),
                ebl == out_data@.subrange(ext_start, op as int) + extras_bytes(ll as int),
                forall|j: int| 0 <= j < ext_start ==> out_data@[j] == old_out[j],
                forall|j: int|
                    ext_start + ebl.len() - extras_bytes(ll as int).len() <= j < out_data@.len()
                        ==> out_data@[j] == old_out[j],
            decreases ll,
        {
            proof {
                lemma_extras_bytes_len(ll as int);
                lemma_extras_bytes_len(ll as int - 255);
            }
            out_data[op] = 0xff;
            proof {
                assert(extras_bytes(ll as int) =~= seq![0xffu8] + extras_bytes(ll as int - 255));
                assert(ebl =~= out_data@.subrange(ext_start, op + 1) + extras_bytes(
                    ll as int - 255,
                ));
            }
            op = op + 1;
            ll = ll - 255;
        }
        proof {
            lemma_extras_bytes_len(ll as int);
            assert(extras_bytes(ll as int) =~= seq![(ll - 15) as u8]);
        }
        out_data[op] = (ll - 15) as u8;
        proof {
            assert(ebl =~= out_data@.subrange(ext_start, op + 1));
        }
        op = op + 1;
        ll = 15;
    }
    let ghost out1 = out_data@;
    let ghost lit_phase = op as int;
    proof {
        assert(out1.subrange(ext_start, lit_phase) == ebl);
        assert(lit_phase == out_pos + 1 + ebl.len());
    }
    // the literals
    let mut i: usize = 0;
    while i < literal_len
        invariant
            i <= literal_len,
            out_data@.len() == old_out.len(),
            forall|j: int| 0 <= j < lit_phase ==> out_data@[j] == out1[j],
            forall|j: int| 0 <= j < i ==> #[trigger] out_data@[lit_phase + j] == inn[lit_start + j],
            forall|j: int| lit_phase + i <= j < out_data@.len() ==> out_data@[j] == old_out[j],
        decreases literal_len - i,
    {
        let x = in_data[lit_start + i];
        out_data[op + i] = x;
        i = i + 1;
    }
    op = op + literal_len;
    let ghost out2 = out_data@;
    let ghost off_phase = op as int;
    let ghost lits = inn.subrange(lit_start as int, lit_start + literal_len);
    proof {
        assert forall|j: int| 0 <= j < ebl.len() implies #[trigger] out2[out_pos + 1 + j]
            == ebl[j] by {
            assert(out2[ext_start + j] == out1[ext_start + j]);
            assert(out1.subrange(ext_start, lit_phase)[j] == out1[ext_start + j]);
        }
        assert forall|j: int| 0 <= j < literal_len implies #[trigger] out2[out_pos + 1 + ebl.len()
            + j] == lits[j] by {
            assert(out2[lit_phase + j] == inn[lit_start + j]);
        }
    }
    let nib_l = ll;
    if !last {
        let ghost t = Tok { lit: literal_len as int, off: offset as int, mlen: run_len as int };
        let ghost ebm = extras_bytes(run_len as int - 4);
        let ghost offb = seq![(offset % 256) as u8, (offset / 256) as u8];
        out_data[op] = #[verifier::truncate] ((offset % 256) as u8);
        out_data[op + 1] = ((offset / 256) as u8);
        op = op + 2;
        let ghost out3 = out_data@;
        let ghost mext_start = op as int;
        let mut rl = run_len - 4;
        let nib_m: usize;
        if rl >= 15 {
            while rl - 15 >= 255
                invariant
                    15 <= rl <= run_len - 4,
                    mext_start <= op as int,
                    op - mext_start == ebm.len() - extras_bytes(rl as int).len(),
                    out_data@.len() == old_out.len(),
                    ebm == out_data@.subrange(mext_start, op as int) + extras_bytes(rl as int),
                    forall|j: int| 0 <= j < mext_start ==> out_data@[j] == out3[j],
                    forall|j: int|
                        mext_start + ebm.len() - extras_bytes(rl as int).len() <= j
                            < out_data@.len() ==> out_data@[j] == old_out[j],
                decreases rl,
            {
                proof {
                    lemma_extras_bytes_len(rl as int);
                    lemma_extras_bytes_len(rl as int - 255);
                }
                out_data[op] = 0xff;
                proof {
                    assert(extras_bytes(rl as int) =~= seq![0xffu8] + extras_bytes(
                        rl as int - 255,
                    ));
                    assert(ebm =~= out_data@.subrange(mext_start, op + 1) + extras_bytes(
                        rl as int - 255,
                    ));
                }
                op = op + 1;
                rl = rl - 255;
            }
            proof {
                lemma_extras_bytes_len(rl as int);
                assert(extras_bytes(rl as int) =~= seq![(rl - 15) as u8]);
            }
            out_data[op] = (rl - 15) as u8;
            proof {
                assert(ebm =~= out_data@.subrange(mext_start, op + 1));
            }
            op = op + 1;
            nib_m = 15;
        } else {
            proof {
                assert(ebm =~= Seq::<u8>::empty());
            }
            nib_m = rl;
        }
        let ghost out4 = out_data@;
        proof {
            assert(out4.subrange(mext_start, op as int) == ebm);
        }
        let tag: u8 = ((nib_l * 16 + nib_m) as u8);
        out_data[tag_pos] = tag;
        proof {
            let fin = out_data@;
            assert(tag == token_byte(literal_len as int, run_len as int, false));
            assert(fin[out_pos as int] == tag);
            assert forall|j: int| 0 <= j < ebl.len() implies #[trigger] fin[out_pos + 1 + j]
                == ebl[j] by {
                assert(out4[out_pos + 1 + j] == out3[out_pos + 1 + j]);
                assert(out3[out_pos + 1 + j] == out2[out_pos + 1 + j]);
            }
            assert forall|j: int| 0 <= j < literal_len implies #[trigger] fin[out_pos + 1
                + ebl.len() + j] == lits[j] by {
                assert(out4[out_pos + 1 + ebl.len() + j] == out3[out_pos + 1 + ebl.len() + j]);
                assert(out3[out_pos + 1 + ebl.len() + j] == out2[out_pos + 1 + ebl.len() + j]);
            }
            assert forall|j: int| 0 <= j < 2 implies #[trigger] fin[off_phase + j] == offb[j] by {
                assert(out4[off_phase + j] == out3[off_phase + j]);
            }
            assert forall|j: int| 0 <= j < ebm.len() implies #[trigger] fin[mext_start + j]
                == ebm[j] by {
                assert(out4.subrange(mext_start, op as int)[j] == out4[mext_start + j]);
            }
            lemma_assemble(
                fin,
                out_pos as int,
                op as int,
                tag,
                ebl,
                lits,
                offb,
                ebm,
                out_pos + 1,
                out_pos + 1 + ebl.len() as int,
                off_phase,
                mext_start,
            );
            assert(fin.subrange(out_pos as int, op as int) == seq_bytes(
                inn,
                lit_start as int,
                t,
            )) by {
                assert(seq_bytes(inn, lit_start as int, t) == seq![tag] + ebl + lits + offb + ebm);
            }
            assert forall|j: int| 0 <= j < out_pos implies fin[j] == old_out[j] by {
                assert(out4[j] == out3[j]);
                assert(out3[j] == out2[j]);
                assert(out2[j] == out1[j]);
                assert(out1[j] == old_out[j]);
            }
            assert forall|j: int| op <= j < fin.len() implies fin[j] == old_out[j] by {
                assert(out4[j] == old_out[j]);
            }
        }
        op
    } else {
        let tag: u8 = ((nib_l * 16) as u8);
        out_data[tag_pos] = tag;
        proof {
            let fin = out_data@;
            assert(tag == token_byte(literal_len as int, 4, true));
            assert(fin[out_pos as int] == tag);
            assert forall|j: int| 0 <= j < ebl.len() implies #[trigger] fin[out_pos + 1 + j]
                == ebl[j] by {
                assert(fin[out_pos + 1 + j] == out2[out_pos + 1 + j]);
            }
            assert forall|j: int| 0 <= j < literal_len implies #[trigger] fin[out_pos + 1
                + ebl.len() + j] == lits[j] by {
                assert(fin[out_pos + 1 + ebl.len() + j] == out2[out_pos + 1 + ebl.len() + j]);
            }
            lemma_assemble(
                fin,
                out_pos as int,
                op as int,
                tag,
                ebl,
                lits,
                Seq::empty(),
                Seq::empty(),
                out_pos + 1,
                out_pos + 1 + ebl.len() as int,
                op as int,
                op as int,
            );
            assert(fin.subrange(out_pos as int, op as int) == final_bytes(
                inn,
                lit_start as int,
                literal_len as int,
            )) by {
                assert(final_bytes(inn, lit_start as int, literal_len as int) =~= seq![tag] + ebl
                    + lits + Seq::<u8>::empty() + Seq::<u8>::empty());
            }
            assert forall|j: int| 0 <= j < out_pos implies fin[j] == old_out[j] by {
                assert(out2[j] == out1[j]);
                assert(out1[j] == old_out[j]);
            }
            assert forall|j: int| op <= j < fin.len() implies fin[j] == old_out[j] by {
                assert(out2[j] == old_out[j]);
            }
        }
        op
    }
}

proof fn lemma_space_cost(lit: int, mlen: int)
    requires
        lit >= 0,
        mlen >= 4,
    ensures
        255 * seq_space(lit, mlen, false) <= 256 * (lit + mlen),
{
    lemma_extras_bytes_len(lit);
    lemma_extras_bytes_len(mlen - 4);
    if lit >= 15 {
        assert(255 * ((lit - 15) / 255) <= lit - 15) by (nonlinear_arith)
            requires
                lit >= 15,
        ;
    }
    if mlen - 4 >= 15 {
        assert(255 * ((mlen - 19) / 255) <= mlen - 19) by (nonlinear_arith)
            requires
                mlen >= 19,
        ;
    }
}

proof fn lemma_final_space_cost(lit: int)
    requires
        lit >= 0,
    ensures
        255 * seq_space(lit, 4, true) <= 256 * lit + 495,
{
    lemma_extras_bytes_len(lit);
    if lit >= 15 {
        assert(255 * ((lit - 15) / 255) <= lit - 15) by (nonlinear_arith)
            requires
                lit >= 15,
        ;
    }
}

proof fn lemma_capacity(o: int, in_len: int, cap: int)
    requires
        in_len >= 0,
        cap >= o + in_len + in_len / 255 + 16,
    ensures
        255 * (cap - o) >= 256 * in_len + 3826,
{
    assert(255 * (in_len / 255) >= in_len - 254) by (nonlinear_arith)
        requires
            in_len >= 0,
    ;
}

/// The payload emitted so far, together with the ghost token list it
/// encodes, stays decodable: the working invariant of every encoder.
pub open spec fn enc_state(
    inn: Seq<u8>,
    toks: Seq<Tok>,
    out: Seq<u8>,
    o: int,
    out_pos: int,
    emitted: int,
) -> bool {
    &&& valid_toks(inn, 0, toks)
    &&& toks_len(toks) == emitted
    &&& 0 <= o <= out_pos <= out.len()
    &&& out.subrange(o, out_pos) == enc_toks(inn, 0, toks)
    &&& 255 * (out_pos - o) <= 256 * emitted
}


/// The order the suffix sort uses: the suffixes at `a` and `b` compared
/// bytewise over at most 100000 bytes (and no further than the data runs),
/// the first differing byte deciding; ties go to the smaller position.
pub open spec fn spec_compare_at(data: Seq<u8>, a: int, b: int) -> core::cmp::Ordering {
    let m0: int = if data.len() - a < 100000 {
        data.len() - a
    } else {
        100000
    };
    let cap: int = if data.len() - b < m0 {
        data.len() - b
    } else {
        m0
    };
    let d = first_diff(data, a, b, cap);
    if d < cap {
        if data[a + d] < data[b + d] {
            core::cmp::Ordering::Less
        } else {
            core::cmp::Ordering::Greater
        }
    } else if a < b {
        core::cmp::Ordering::Less
    } else if a > b {
        core::cmp::Ordering::Greater
    } else {
        core::cmp::Ordering::Equal
    }
}

/// Lexicographic comparison of the suffixes at `a` and `b`, capped at
/// 100000 bytes and tie-broken by position.
#[verifier::loop_isolation(false)]
fn compare_at(data: &Vec<u8>, a: usize, b: usize) -> (r: core::cmp::Ordering)
    requires
        a < data.len(),
        b < data.len(),
    ensures
        r == spec_compare_at(data@, a as int, b as int),
        r == core::cmp::Ordering::Equal ==> a == b,
{
    let mut max: usize = 100000;
    if data.len() - a < max {
        max = data.len() - a;
    }
    if data.len() - b < max {
        max = data.len() - b;
    }
    let ghost cap = max as int;
    let mut i: usize = 0;
    while i < max
        invariant
            i <= max,
            forall|t: int| 0 <= t < i ==> #[trigger] data@[a + t] == data@[b + t],
        decreases max - i,
    {
        if data[a + i] < data[b + i] {
            proof {
                lemma_first_diff_is(data@, a as int, b as int, cap, i as int);
            }
            return core::cmp::Ordering::Less;
        }
        if data[a + i] > data[b + i] {
            proof {
                lemma_first_diff_is(data@, a as int, b as int, cap, i as int);
            }
            return core::cmp::Ordering::Greater;
        }
        i = i + 1;
    }
    proof {
        lemma_first_diff_is(data@, a as int, b as int, cap, cap);
    }
    if a < b {
        core::cmp::Ordering::Less
    } else if a > b {
        core::cmp::Ordering::Greater
    } else {
        core::cmp::Ordering::Equal
    }
}

/// Sorts a set of suffix positions by `compare_at`: the result is a
/// permutation of the input with every entry still below `bound`.  The
/// comparator's order is a search heuristic; the sort is not proved sorted,
/// only a permutation.
#[verifier::loop_isolation(false)]
fn sort_indexes(data: &Vec<u8>, v: Vec<usize>, bound: usize) -> (r: Vec<usize>)
    requires
        bound <= data.len(),
        forall|k: int| 0 <= k < v@.len() ==> v@[k] < bound,
    ensures
        r@.len() == v@.len(),
        r@.to_multiset() == v@.to_multiset(),
        forall|k: int| 0 <= k < r@.len() ==> r@[k] < bound,
    decreases v@.len(),
{
    if v.len() <= 1 {
        return v;
    }
    let ghost v0 = v@;
    let mid = v.len() / 2;
    let mut left = v;
    let right = left.split_off(mid);
    proof {
        assert(v0 =~= left@ + right@);
        vstd::seq_lib::lemma_multiset_commutative(left@, right@);
    }
    let ls = sort_indexes(data, left, bound);
    let rs = sort_indexes(data, right, bound);
    let mut merged: Vec<usize> = Vec::new();
    let mut i: usize = 0;
    let mut j: usize = 0;
    proof {
        assert(ls@.subrange(0, 0) =~= Seq::<usize>::empty());
        assert(rs@.subrange(0, 0) =~= Seq::<usize>::empty());
        Seq::<usize>::empty().to_multiset_ensures();
        assert(Seq::<usize>::empty().to_multiset() =~= vstd::multiset::Multiset::<usize>::empty());
        assert(merged@.to_multiset() =~= ls@.subrange(0, 0).to_multiset().add(
            rs@.subrange(0, 0).to_multiset(),
        ));
    }
    while i < ls.len() || j < rs.len()
        invariant
            i <= ls.len(),
            j <= rs.len(),
            merged@.len() == i + j,
            merged@.to_multiset() == ls@.subrange(0, i as int).to_multiset().add(
                rs@.subrange(0, j as int).to_multiset(),
            ),
            forall|k: int| 0 <= k < merged@.len() ==> merged@[k] < bound,
        decreases ls.len() + rs.len() - i - j,
    {
        if i < ls.len() && (j >= rs.len() || !matches!(
            compare_at(data, rs[j], ls[i]),
            core::cmp::Ordering::Less
        )) {
            let ghost before = merged@;
            let x = ls[i];
            merged.push(x);
            proof {
                before.to_multiset_ensures();
                assert(ls@.subrange(0, i + 1) =~= ls@.subrange(0, i as int).push(ls@[i as int]));
                ls@.subrange(0, i as int).to_multiset_ensures();
                assert_multisets_equal!(
                    ls@.subrange(0, i as int).to_multiset().add(
                        rs@.subrange(0, j as int).to_multiset(),
                    ).insert(ls@[i as int]),
                    ls@.subrange(0, i as int).to_multiset().insert(ls@[i as int]).add(
                        rs@.subrange(0, j as int).to_multiset(),
                    )
                );
            }
            i = i + 1;
        } else {
            let ghost before = merged@;
            let x = rs[j];
            merged.push(x);
            proof {
                before.to_multiset_ensures();
                assert(rs@.subrange(0, j + 1) =~= rs@.subrange(0, j as int).push(rs@[j as int]));
                rs@.subrange(0, j as int).to_multiset_ensures();
                assert_multisets_equal!(
                    ls@.subrange(0, i as int).to_multiset().add(
                        rs@.subrange(0, j as int).to_multiset(),
                    ).insert(rs@[j as int]),
                    ls@.subrange(0, i as int).to_multiset().add(
                        rs@.subrange(0, j as int).to_multiset().insert(rs@[j as int]),
                    )
                );
            }
            j = j + 1;
        }
    }
    proof {
        assert(ls@.subrange(0, ls@.len() as int) =~= ls@);
        assert(rs@.subrange(0, rs@.len() as int) =~= rs@);
    }
    merged
}

/// Confirms at run time that a planned match obeys the format's match laws
/// and really repeats the input: true exactly when the offset lies in the
/// window and within the bytes already seen, the length is at least 4, the
/// match keeps clear of the last 16 bytes, and every byte really repeats.
fn match_valid(
    in_data: &Vec<u8>,
    in_len: usize,
    in_pos: usize,
    offset: usize,
    run_len: usize,
) -> (r: bool)
    requires
        in_len <= in_data.len(),
        in_pos <= in_len,
    ensures
        r <==> {
            let inn = in_data@.take(in_len as int);
            &&& 1 <= offset <= 0xffff
            &&& offset <= in_pos
            &&& run_len >= 4
            &&& in_pos + run_len + 16 <= in_len
            &&& forall|t: int|
                0 <= t < run_len ==> #[trigger] inn[in_pos + t] == inn[in_pos - offset + t]
        },
{
    if offset == 0 || offset > 0xffff || offset > in_pos || run_len < 4 {
        return false;
    }
    if in_len - in_pos < 16 || run_len > in_len - in_pos - 16 {
        return false;
    }
    let mut t: usize = 0;
    while t < run_len
        invariant
            t <= run_len,
            1 <= offset <= in_pos,
            in_pos + run_len + 16 <= in_len,
            in_len <= in_data.len(),
            forall|q: int|
                0 <= q < t ==> #[trigger] in_data@[in_pos + q] == in_data@[in_pos - offset + q],
        decreases run_len - t,
    {
        if in_data[in_pos + t] != in_data[in_pos - offset + t] {
            proof {
                let inn = in_data@.take(in_len as int);
                assert(inn[in_pos + t] != inn[in_pos - offset + t]);
            }
            return false;
        }
        t = t + 1;
    }
    proof {
        let inn = in_data@.take(in_len as int);
        assert forall|q: int| 0 <= q < run_len implies #[trigger] inn[in_pos + q] == inn[in_pos
            - offset + q] by {
            assert(in_data@[in_pos + q] == in_data@[in_pos - offset + q]);
        }
    }
    true
}

/// The match engine: hash table and collision chain sized for one block,
/// with the level's search parameters.
pub struct Compress {
    hash_tab: Vec<u32>,
    chain: Vec<u32>,
    len: usize,
    stop_at_match_len: usize,
    max_search: usize,
    mask: usize,
    step: usize,
    level: usize,
}

impl Compress {
    pub closed spec fn wf(self) -> bool {
        &&& 1 <= self.level <= 9
        &&& self.hash_tab@.len() == self.mask + 1
        &&& self.mask >= 4095
        &&& self.chain@.len() == self.len
        &&& 1 <= self.step <= 4
        &&& self.max_search >= 1
    }

    pub closed spec fn spec_len(self) -> usize {
        self.len
    }

    pub closed spec fn spec_level(self) -> usize {
        self.level
    }

    /// A compressor for blocks of up to `len` bytes at the given level.
    pub fn new(len: usize, level: usize) -> (r: Compress)
        requires
            1 <= level <= 9,
        ensures
            r.wf(),
            r.spec_len() == len,
            r.spec_level() == level,
    {
        proof {
            assert(1usize << ((12 + level) as usize) >= 4096 && (1usize << (
            (12 + level) as usize)) <= 0x200000) by (bit_vector)
                requires
                    1 <= level <= 9,
            ;
        }
        let mask = (1usize << (12 + level)) - 1;
        let mut hash: Vec<u32> = Vec::new();
        hash.resize(mask + 1, u32::MAX);
        let mut chain: Vec<u32> = Vec::new();
        chain.resize(len, u32::MAX);
        let stop_at_match_len = level * 10;
        let max_search = 1usize << level;
        proof {
            assert(1usize << level >= 1) by (bit_vector)
                requires
                    1 <= level <= 9,
            ;
        }
        let step: usize = if level == 1 {
            4
        } else {
            1
        };
        Compress { hash_tab: hash, chain, len, stop_at_match_len, max_search, mask, step, level }
    }

    /// Compresses `in_data[0 .. in_len]` into `out_data` from `o` on with
    /// the fast greedy strategy: a 5-byte hash with adaptive skipping, one
    /// candidate per position, backward extension over pending literals.
    #[verifier::loop_isolation(false)]
    #[verifier::rlimit(100)]
    fn compress_block_fast(
        &mut self,
        in_data: &Vec<u8>,
        in_len: usize,
        out_data: &mut Vec<u8>,
        o: usize,
    ) -> (r: usize)
        requires
            old(self).wf(),
            in_len <= in_data.len(),
            in_len <= old(self).spec_len(),
            o + in_len + in_len / 255 + 16 <= old(out_data).len(),
        ensures
            final(self).wf(),
            final(self).spec_len() == old(self).spec_len(),
            final(self).spec_level() == old(self).spec_level(),
            final(out_data)@.len() == old(out_data)@.len(),
            forall|j: int| 0 <= j < o ==> final(out_data)@[j] == old(out_data)@[j],
            o <= r <= final(out_data)@.len(),
            255 * (r - o) <= 256 * in_len + 495,
            exists|toks: Seq<Tok>, tail: int|
                {
                    &&& valid_toks(in_data@.take(in_len as int), 0, toks)
                    &&& tail >= 0
                    &&& toks_len(toks) + tail == in_len
                    &&& final(out_data)@.subrange(o as int, r as int) == enc_toks(
                        in_data@.take(in_len as int),
                        0,
                        toks,
                    ) + final_bytes(in_data@.take(in_len as int), toks_len(toks), tail)
                },
    {
        let ghost inn = in_data@.take(in_len as int);
        let ghost old_out = out_data@;
        let ghost cap = out_data@.len() as int;
        proof {
            lemma_capacity(o as int, in_len as int, cap);
        }
        let mut out_pos = o;
        let mut literal_len: usize = 0;
        let mut in_pos: usize = 0;
        let mut search_match: usize = 64;
        let ghost mut toks: Seq<Tok> = Seq::empty();
        proof {
            assert(out_data@.subrange(o as int, o as int) =~= enc_toks(inn, 0, toks));
        }
        loop
            invariant
                literal_len <= in_pos <= in_len,
                search_match >= 64,
                out_data@.len() == old_out.len(),
                forall|j: int| 0 <= j < o ==> out_data@[j] == old_out[j],
                self.wf(),
                self.len == old(self).spec_len(),
                self.level == old(self).spec_level(),
                self.chain@.len() == old(self).chain@.len(),
                enc_state(inn, toks, out_data@, o as int, out_pos as int, in_pos - literal_len),
            decreases in_len - in_pos,
        {
            let ghost emitted = in_pos - literal_len;
            if in_len - in_pos > 16 {
                let h = hash5(in_data, in_pos);
                let candidate_pos_u = self.hash_tab[h];
                let candidate_pos = candidate_pos_u as usize;
                self.hash_tab[h] = #[verifier::truncate] (in_pos as u32);
                let miss: bool;
                let mut run_len: usize = 0;
                if candidate_pos >= in_pos || in_pos - candidate_pos > 0xffff {
                    miss = true;
                } else {
                    run_len = run_len_count(in_data, in_len, in_pos, candidate_pos);
                    miss = run_len < 4;
                }
                if miss {
                    let step = search_match >> 6;
                    proof {
                        assert(search_match >> 6 >= 1) by (bit_vector)
                            requires
                                search_match >= 64,
                        ;
                    }
                    let adv = if step > in_len - in_pos {
                        in_len - in_pos
                    } else {
                        step
                    };
                    literal_len = literal_len + adv;
                    in_pos = in_pos + adv;
                    if search_match < 0x4000_0000 {
                        search_match = search_match + 1;
                    }
                    continue ;
                }
                // record a second hash entry near the end of the match
                let p = in_pos + run_len - 2;
                let h2 = hash5(in_data, p);
                self.hash_tab[h2] = #[verifier::truncate] (p as u32);
                // extend the match backwards over pending literals
                let mut candidate_pos = candidate_pos;
                let ghost sum0 = in_pos + run_len;
                let ghost off0 = in_pos - candidate_pos;
                while candidate_pos > 0 && literal_len > 0 && in_pos > 0 && in_data[in_pos - 1]
                    == in_data[candidate_pos - 1]
                    invariant
                        candidate_pos < in_pos,
                        literal_len <= in_pos,
                        in_pos + run_len == sum0,
                        in_pos - candidate_pos == off0,
                        run_len >= 4,
                        in_pos - literal_len == emitted,
                        forall|t: int|
                            0 <= t < run_len ==> #[trigger] inn[in_pos + t] == inn[candidate_pos
                                + t],
                    decreases literal_len,
                {
                    proof {
                        assert(inn[(in_pos - 1) as int] == in_data@[(in_pos - 1) as int]);
                        assert(inn[(candidate_pos - 1) as int] == in_data@[(candidate_pos
                            - 1) as int]);
                        assert forall|t: int| 0 <= t < run_len + 1 implies #[trigger] inn[(in_pos
                            - 1) + t] == inn[(candidate_pos - 1) + t] by {
                            if t > 0 {
                                assert(inn[in_pos + (t - 1)] == inn[candidate_pos + (t - 1)]);
                            }
                        }
                    }
                    run_len = run_len + 1;
                    in_pos = in_pos - 1;
                    literal_len = literal_len - 1;
                    candidate_pos = candidate_pos - 1;
                }
                let offset = in_pos - candidate_pos;
                let ghost t = Tok {
                    lit: literal_len as int,
                    off: offset as int,
                    mlen: run_len as int,
                };
                proof {
                    assert(valid_tok(inn, emitted, t));
                    lemma_space_cost(literal_len as int, run_len as int);
                    assert(out_pos + seq_space(literal_len as int, run_len as int, false) <= cap);
                }
                let new_out_pos = emit_sequence(
                    out_data,
                    out_pos,
                    in_data,
                    in_len,
                    in_pos - literal_len,
                    literal_len,
                    offset,
                    run_len,
                    false,
                );
                proof {
                    lemma_toks_push(inn, 0, toks, t);
                    assert(out_data@.subrange(o as int, new_out_pos as int) =~= out_data@.subrange(
                        o as int,
                        out_pos as int,
                    ) + out_data@.subrange(out_pos as int, new_out_pos as int));
                    assert(out_data@.subrange(o as int, out_pos as int) == enc_toks(inn, 0, toks));
                    toks = toks.push(t);
                }
                out_pos = new_out_pos;
                in_pos = in_pos + run_len;
                literal_len = 0;
                search_match = 64;
            } else {
                let tail = literal_len + (in_len - in_pos);
                proof {
                    lemma_final_space_cost(tail as int);
                    assert(out_pos + seq_space(tail as int, 4, true) <= cap);
                }
                let new_out_pos = emit_sequence(
                    out_data,
                    out_pos,
                    in_data,
                    in_len,
                    in_pos - literal_len,
                    tail,
                    0,
                    4,
                    true,
                );
                proof {
                    assert(out_data@.subrange(o as int, new_out_pos as int) =~= out_data@.subrange(
                        o as int,
                        out_pos as int,
                    ) + out_data@.subrange(out_pos as int, new_out_pos as int));
                    assert(out_data@.subrange(o as int, new_out_pos as int) == enc_toks(inn, 0, toks)
                        + final_bytes(inn, toks_len(toks), tail as int));
                }
                return new_out_pos;
            }
        }
    }

    /// Compresses with the chained search: each position is linked into a
    /// collision chain, and up to `max_search` previous occurrences are
    /// evaluated for the longest match before one is accepted.
    #[verifier::loop_isolation(false)]
    #[verifier::rlimit(100)]
    fn compress_block_slow(
        &mut self,
        in_data: &Vec<u8>,
        in_len: usize,
        out_data: &mut Vec<u8>,
        o: usize,
    ) -> (r: usize)
        requires
            old(self).wf(),
            in_len <= in_data.len(),
            in_len <= old(self).spec_len(),
            o + in_len + in_len / 255 + 16 <= old(out_data).len(),
        ensures
            final(self).wf(),
            final(self).spec_len() == old(self).spec_len(),
            final(self).spec_level() == old(self).spec_level(),
            final(out_data)@.len() == old(out_data)@.len(),
            forall|j: int| 0 <= j < o ==> final(out_data)@[j] == old(out_data)@[j],
            o <= r <= final(out_data)@.len(),
            255 * (r - o) <= 256 * in_len + 495,
            exists|toks: Seq<Tok>, tail: int|
                {
                    &&& valid_toks(in_data@.take(in_len as int), 0, toks)
                    &&& tail >= 0
                    &&& toks_len(toks) + tail == in_len
                    &&& final(out_data)@.subrange(o as int, r as int) == enc_toks(
                        in_data@.take(in_len as int),
                        0,
                        toks,
                    ) + final_bytes(in_data@.take(in_len as int), toks_len(toks), tail)
                },
    {
        let ghost inn = in_data@.take(in_len as int);
        let ghost old_out = out_data@;
        let ghost cap = out_data@.len() as int;
        proof {
            lemma_capacity(o as int, in_len as int, cap);
        }
        let mut out_pos = o;
        let mut literal_len: usize = 0;
        let mut in_pos: usize = 0;
        let ghost mut toks: Seq<Tok> = Seq::empty();
        proof {
            assert(out_data@.subrange(o as int, o as int) =~= enc_toks(inn, 0, toks));
        }
        loop
            invariant
                literal_len <= in_pos <= in_len,
                out_data@.len() == old_out.len(),
                forall|j: int| 0 <= j < o ==> out_data@[j] == old_out[j],
                self.wf(),
                self.len == old(self).spec_len(),
                self.level == old(self).spec_level(),
                enc_state(inn, toks, out_data@, o as int, out_pos as int, in_pos - literal_len),
            decreases in_len - in_pos,
        {
            let ghost emitted = in_pos - literal_len;
            if in_len - in_pos > 16 {
                let h = hash(in_data, in_pos, self.mask);
                let first_candidate = self.hash_tab[h];
                self.chain[in_pos] = first_candidate;
                self.hash_tab[h] = #[verifier::truncate] (in_pos as u32);
                let mut candidate_pos = first_candidate as usize;
                let mut best_candidate: usize = 0;
                let mut best_run_len: usize = 0;
                let mut searching = true;
                let mut i: usize = 0;
                while searching && i < self.max_search
                    invariant
                        i <= self.max_search,
                        in_pos < in_len,
                        best_run_len == 0 || {
                            &&& best_candidate < in_pos
                            &&& in_pos - best_candidate <= 0xffff
                            &&& in_pos + best_run_len + 16 <= in_len
                            &&& forall|t: int|
                                0 <= t < best_run_len ==> #[trigger] inn[in_pos + t] == inn[
                                    best_candidate + t]
                        },
                    decreases self.max_search - i,
                {
                    if candidate_pos >= in_pos || in_pos - candidate_pos > 0xffff {
                        searching = false;
                    } else {
                        let run_len = run_len_backwards(
                            in_data,
                            in_len,
                            in_pos,
                            candidate_pos,
                            best_run_len,
                        );
                        if run_len > best_run_len {
                            best_run_len = run_len;
                            best_candidate = candidate_pos;
                            if run_len > self.stop_at_match_len {
                                searching = false;
                            }
                        }
                        if searching {
                            candidate_pos = self.chain[candidate_pos] as usize;
                        }
                    }
                    i = i + 1;
                }
                let mut candidate_pos = best_candidate;
                let mut run_len = best_run_len;
                if run_len < 4 {
                    literal_len = literal_len + 1;
                    in_pos = in_pos + 1;
                    continue ;
                }
                // link the positions the match covers into the chain
                let mut ii: usize = 1;
                while ii < run_len
                    invariant
                        1 <= ii,
                        in_pos + run_len + 16 <= in_len,
                        self.wf(),
                        self.len == old(self).spec_len(),
                        self.level == old(self).spec_level(),
                    decreases run_len + 4 - ii,
                {
                    let p = in_pos + ii;
                    let h2 = hash(in_data, p, self.mask);
                    let c = self.hash_tab[h2];
                    self.chain[p] = c;
                    self.hash_tab[h2] = #[verifier::truncate] (p as u32);
                    ii = ii + self.step;
                }
                // extend the match backwards over pending literals
                let ghost sum0 = in_pos + run_len;
                let ghost off0 = in_pos - candidate_pos;
                while candidate_pos > 0 && literal_len > 0 && in_pos > 0 && in_data[in_pos - 1]
                    == in_data[candidate_pos - 1]
                    invariant
                        candidate_pos < in_pos,
                        literal_len <= in_pos,
                        in_pos + run_len == sum0,
                        in_pos - candidate_pos == off0,
                        run_len >= 4,
                        in_pos - literal_len == emitted,
                        forall|t: int|
                            0 <= t < run_len ==> #[trigger] inn[in_pos + t] == inn[candidate_pos
                                + t],
                    decreases literal_len,
                {
                    proof {
                        assert(inn[(in_pos - 1) as int] == in_data@[(in_pos - 1) as int]);
                        assert(inn[(candidate_pos - 1) as int] == in_data@[(candidate_pos
                            - 1) as int]);
                        assert forall|t: int| 0 <= t < run_len + 1 implies #[trigger] inn[(in_pos
                            - 1) + t] == inn[(candidate_pos - 1) + t] by {
                            if t > 0 {
                                assert(inn[in_pos + (t - 1)] == inn[candidate_pos + (t - 1)]);
                            }
                        }
                    }
                    run_len = run_len + 1;
                    in_pos = in_pos - 1;
                    literal_len = literal_len - 1;
                    candidate_pos = candidate_pos - 1;
                }
                let offset = in_pos - candidate_pos;
                let ghost t = Tok {
                    lit: literal_len as int,
                    off: offset as int,
                    mlen: run_len as int,
                };
                proof {
                    assert(valid_tok(inn, emitted, t));
                    lemma_space_cost(literal_len as int, run_len as int);
                    assert(out_pos + seq_space(literal_len as int, run_len as int, false) <= cap);
                }
                let new_out_pos = emit_sequence(
                    out_data,
                    out_pos,
                    in_data,
                    in_len,
                    in_pos - literal_len,
                    literal_len,
                    offset,
                    run_len,
                    false,
                );
                proof {
                    lemma_toks_push(inn, 0, toks, t);
                    assert(out_data@.subrange(o as int, new_out_pos as int) =~= out_data@.subrange(
                        o as int,
                        out_pos as int,
                    ) + out_data@.subrange(out_pos as int, new_out_pos as int));
                    assert(out_data@.subrange(o as int, out_pos as int) == enc_toks(inn, 0, toks));
                    toks = toks.push(t);
                }
                out_pos = new_out_pos;
                in_pos = in_pos + run_len;
                literal_len = 0;
            } else {
                let tail = literal_len + (in_len - in_pos);
                proof {
                    lemma_final_space_cost(tail as int);
                    assert(out_pos + seq_space(tail as int, 4, true) <= cap);
                }
                let new_out_pos = emit_sequence(
                    out_data,
                    out_pos,
                    in_data,
                    in_len,
                    in_pos - literal_len,
                    tail,
                    0,
                    4,
                    true,
                );
                proof {
                    assert(out_data@.subrange(o as int, new_out_pos as int) =~= out_data@.subrange(
                        o as int,
                        out_pos as int,
                    ) + out_data@.subrange(out_pos as int, new_out_pos as int));
                    assert(out_data@.subrange(o as int, new_out_pos as int) == enc_toks(inn, 0, toks)
                        + final_bytes(inn, toks_len(toks), tail as int));
                }
                return new_out_pos;
            }
        }
    }

    /// Compresses with the optimal parse: suffix-sorted neighbour search
    /// gathers a best match per position, a backward cost minimisation
    /// chooses the lengths, and a forward walk emits the plan.  Every
    /// planned match is re-validated against the input before it is used.
    #[verifier::loop_isolation(false)]
    #[verifier::rlimit(100)]
    fn compress_block_very_slow(
        &mut self,
        in_data: &Vec<u8>,
        in_len: usize,
        out_data: &mut Vec<u8>,
        o: usize,
    ) -> (r: usize)
        requires
            old(self).wf(),
            in_len <= in_data.len(),
            in_len <= old(self).spec_len(),
            o + in_len + in_len / 255 + 16 <= old(out_data).len(),
        ensures
            final(self).wf(),
            final(self).spec_len() == old(self).spec_len(),
            final(self).spec_level() == old(self).spec_level(),
            final(out_data)@.len() == old(out_data)@.len(),
            forall|j: int| 0 <= j < o ==> final(out_data)@[j] == old(out_data)@[j],
            o <= r <= final(out_data)@.len(),
            255 * (r - o) <= 256 * in_len + 495,
            exists|toks: Seq<Tok>, tail: int|
                {
                    &&& valid_toks(in_data@.take(in_len as int), 0, toks)
                    &&& tail >= 0
                    &&& toks_len(toks) + tail == in_len
                    // the plan always leads with literals: the first min(4, in_len)
                    // bytes are never inside a match
                    &&& toks.len() > 0 ==> toks[0].lit >= 4
                    &&& final(out_data)@.subrange(o as int, r as int) == enc_toks(
                        in_data@.take(in_len as int),
                        0,
                        toks,
                    ) + final_bytes(in_data@.take(in_len as int), toks_len(toks), tail)
                },
    {
        let ghost inn = in_data@.take(in_len as int);
        let ghost old_out = out_data@;
        let ghost cap = out_data@.len() as int;
        proof {
            lemma_capacity(o as int, in_len as int, cap);
        }
        let mut match_offsets: Vec<u32> = Vec::new();
        match_offsets.resize(in_len, 0);
        let mut match_lens: Vec<u32> = Vec::new();
        match_lens.resize(in_len, 0);
        if in_len > 20 {
            // candidate gathering over suffix-sorted windows
            let mut block_start: usize = 0;
            while block_start < in_len
                invariant
                    match_offsets@.len() == in_len,
                    match_lens@.len() == in_len,
                    in_len <= in_data.len(),
                    forall|j: int|
                        0 <= j < in_len ==> (#[trigger] match_lens@[j] == 0 || j + match_lens@[j]
                            + 16 <= in_len),
                decreases in_len - block_start,
            {
                let block_end = if in_len - block_start > 0x20000 {
                    block_start + 0x20000
                } else {
                    in_len
                };
                let mut seg: Vec<usize> = Vec::new();
                let mut i: usize = block_start;
                while i < block_end
                    invariant
                        block_start <= i <= block_end,
                        block_end <= in_len,
                        seg@.len() == i - block_start,
                        forall|k: int| 0 <= k < seg@.len() ==> seg@[k] < in_len,
                    decreases block_end - i,
                {
                    seg.push(i);
                    i = i + 1;
                }
                let seg = sort_indexes(in_data, seg, in_len);
                let update_start = if block_start == 0 {
                    0
                } else {
                    block_start + 0x10000
                };
                let mut x: usize = 0;
                while x < seg.len()
                    invariant
                        match_offsets@.len() == in_len,
                        match_lens@.len() == in_len,
                        in_len <= in_data.len(),
                        block_end <= in_len,
                        forall|k: int| 0 <= k < seg@.len() ==> seg@[k] < in_len,
                        forall|j: int|
                            0 <= j < in_len ==> (#[trigger] match_lens@[j] == 0 || j
                                + match_lens@[j] + 16 <= in_len),
                    decreases seg@.len() - x,
                {
                    let a = seg[x];
                    if a >= update_start && a < block_end {
                        let mut i: usize = 1;
                        while i < 1000
                            invariant
                                1 <= i,
                                x < seg@.len(),
                                a == seg@[x as int],
                                a < in_len,
                                match_offsets@.len() == in_len,
                                match_lens@.len() == in_len,
                                in_len <= in_data.len(),
                                forall|k: int| 0 <= k < seg@.len() ==> seg@[k] < in_len,
                                forall|j: int|
                                    0 <= j < in_len ==> (#[trigger] match_lens@[j] == 0 || j
                                        + match_lens@[j] + 16 <= in_len),
                            decreases 1000 - i,
                        {
                            if x >= i {
                                let b1 = seg[x - i];
                                if a > b1 && a - b1 < 0xffff {
                                    let run_len = run_len_count(in_data, in_len, a, b1);
                                    if run_len >= 4 && run_len <= 0xffff_ffff && run_len
                                        > match_lens[a] as usize {
                                        match_lens[a] = run_len as u32;
                                        match_offsets[a] = (a - b1) as u32;
                                    }
                                    break ;
                                }
                            }
                            i = i + 1;
                        }
                        let mut i: usize = 1;
                        while i < 1000
                            invariant
                                1 <= i,
                                x < seg@.len(),
                                a == seg@[x as int],
                                a < in_len,
                                match_offsets@.len() == in_len,
                                match_lens@.len() == in_len,
                                in_len <= in_data.len(),
                                forall|k: int| 0 <= k < seg@.len() ==> seg@[k] < in_len,
                                forall|j: int|
                                    0 <= j < in_len ==> (#[trigger] match_lens@[j] == 0 || j
                                        + match_lens@[j] + 16 <= in_len),
                            decreases 1000 - i,
                        {
                            if seg.len() - x > i {
                                let b2 = seg[x + i];
                                if a > b2 && a - b2 < 0xffff {
                                    let run_len = run_len_count(in_data, in_len, a, b2);
                                    if run_len >= 4 && run_len <= 0xffff_ffff && run_len
                                        > match_lens[a] as usize {
                                        match_lens[a] = run_len as u32;
                                        match_offsets[a] = (a - b2) as u32;
                                    }
                                    break ;
                                }
                            }
                            i = i + 1;
                        }
                    }
                    x = x + 1;
                }
                if in_len - block_start <= 0x10000 {
                    block_start = in_len;
                } else {
                    block_start = block_start + 0x10000;
                }
            }
            // backward cost minimisation over the gathered candidates
            let mut costs: Vec<u64> = Vec::new();
            costs.resize(in_len, 0);
            let mut literal_count: usize = 0;
            let mut i: usize = in_len - 12;
            while i < in_len
                invariant
                    in_len - 12 <= i <= in_len,
                    costs@.len() == in_len,
                    literal_count == i - (in_len - 12),
                    forall|j: int| 0 <= j < in_len ==> #[trigger] costs@[j] <= 0x1_0000_0000_0000,
                decreases in_len - i,
            {
                costs[i] = (literal_count + 1) as u64;
                literal_count = literal_count + 1;
                i = i + 1;
            }
            let mut in_pos: usize = in_len - 12;
            while in_pos > 0
                invariant
                    in_pos <= in_len - 12,
                    costs@.len() == in_len,
                    match_offsets@.len() == in_len,
                    match_lens@.len() == in_len,
                    literal_count <= in_len - in_pos,
                    in_len <= in_data.len(),
                    forall|j: int| 0 <= j < in_len ==> #[trigger] costs@[j] <= 0x1_0000_0000_0000,
                    forall|j: int|
                        0 <= j < in_len ==> (#[trigger] match_lens@[j] == 0 || match_lens@[j] < 4
                            || j + match_lens@[j] + 16 <= in_len),
                decreases in_pos,
            {
                literal_count = literal_count + 1;
                let mut best_len: usize = 1;
                let mut cost: u64 = costs[in_pos + 1] + 1;
                if literal_count >= 15 {
                    if literal_count == 15 || ((literal_count - 15) % 255 == 0) {
                        cost = cost + 1;
                    }
                }
                let run_len = match_lens[in_pos] as usize;
                let offset = match_offsets[in_pos] as usize;
                if run_len >= 4 && offset != 0 {
                    if offset == 1 {
                        best_len = run_len;
                        cost = costs[in_pos + run_len] + 3;
                    } else {
                        let mut run_len_cost: u64 = 3;
                        let mut next_cost_increase: u64 = 18;
                        let mut i: usize = 4;
                        while i < run_len + 1
                            invariant
                                4 <= i <= run_len + 1,
                                in_pos + run_len + 16 <= in_len,
                                costs@.len() == in_len,
                                1 <= best_len <= run_len,
                                next_cost_increase == 18 + 255 * (run_len_cost - 3),
                                3 <= run_len_cost,
                                i as u64 <= next_cost_increase,
                                next_cost_increase <= i + 255,
                                cost <= 0x1_0000_0000_0000 + 4,
                                forall|j: int|
                                    0 <= j < in_len ==> #[trigger] costs@[j]
                                        <= 0x1_0000_0000_0000,
                            decreases run_len + 1 - i,
                        {
                            let cost2 = costs[in_pos + i] + run_len_cost;
                            if cost2 <= cost {
                                cost = cost2;
                                best_len = i;
                            }
                            if (i as u64) == next_cost_increase {
                                run_len_cost = run_len_cost + 1;
                                next_cost_increase = next_cost_increase + 255;
                            }
                            i = i + 1;
                        }
                    }
                }
                if cost > 0x1_0000_0000_0000 {
                    cost = 0x1_0000_0000_0000;
                }
                costs[in_pos] = cost;
                match_lens[in_pos] = best_len as u32;
                if best_len >= 4 {
                    literal_count = 0;
                }
                in_pos = in_pos - 1;
            }
        }
        // emission of the chosen plan
        let mut out_pos = o;
        let mut literal_len: usize = if in_len < 4 {
            in_len
        } else {
            4
        };
        let mut in_pos: usize = literal_len;
        let ghost mut toks: Seq<Tok> = Seq::empty();
        proof {
            assert(out_data@.subrange(o as int, o as int) =~= enc_toks(inn, 0, toks));
        }
        loop
            invariant
                literal_len <= in_pos <= in_len,
                out_data@.len() == old_out.len(),
                forall|j: int| 0 <= j < o ==> out_data@[j] == old_out[j],
                match_offsets@.len() == in_len,
                match_lens@.len() == in_len,
                in_len <= in_data.len(),
                self.wf(),
                self.len == old(self).spec_len(),
                self.level == old(self).spec_level(),
                toks.len() == 0 ==> literal_len >= 4 || literal_len == in_len,
                toks.len() > 0 ==> toks[0].lit >= 4,
                enc_state(inn, toks, out_data@, o as int, out_pos as int, in_pos - literal_len),
            decreases in_len - in_pos,
        {
            let ghost emitted = in_pos - literal_len;
            if in_len - in_pos > 16 {
                let run_len = match_lens[in_pos] as usize;
                let offset = match_offsets[in_pos] as usize;
                if run_len >= 4 && match_valid(in_data, in_len, in_pos, offset, run_len) {
                    let ghost t = Tok {
                        lit: literal_len as int,
                        off: offset as int,
                        mlen: run_len as int,
                    };
                    proof {
                        assert(valid_tok(inn, emitted, t));
                        lemma_space_cost(literal_len as int, run_len as int);
                        assert(out_pos + seq_space(literal_len as int, run_len as int, false)
                            <= cap);
                    }
                    let new_out_pos = emit_sequence(
                        out_data,
                        out_pos,
                        in_data,
                        in_len,
                        in_pos - literal_len,
                        literal_len,
                        offset,
                        run_len,
                        false,
                    );
                    proof {
                        lemma_toks_push(inn, 0, toks, t);
                        assert(out_data@.subrange(o as int, new_out_pos as int)
                            =~= out_data@.subrange(o as int, out_pos as int) + out_data@.subrange(
                            out_pos as int,
                            new_out_pos as int,
                        ));
                        assert(out_data@.subrange(o as int, out_pos as int) == enc_toks(
                            inn,
                            0,
                            toks,
                        ));
                        toks = toks.push(t);
                        assert(toks[0].lit >= 4);
                    }
                    out_pos = new_out_pos;
                    in_pos = in_pos + run_len;
                    literal_len = 0;
                } else {
                    literal_len = literal_len + 1;
                    in_pos = in_pos + 1;
                }
            } else {
                let tail = literal_len + (in_len - in_pos);
                proof {
                    lemma_final_space_cost(tail as int);
                    assert(out_pos + seq_space(tail as int, 4, true) <= cap);
                }
                let new_out_pos = emit_sequence(
                    out_data,
                    out_pos,
                    in_data,
                    in_len,
                    in_pos - literal_len,
                    tail,
                    0,
                    4,
                    true,
                );
                proof {
                    assert(out_data@.subrange(o as int, new_out_pos as int) =~= out_data@.subrange(
                        o as int,
                        out_pos as int,
                    ) + out_data@.subrange(out_pos as int, new_out_pos as int));
                    assert(out_data@.subrange(o as int, new_out_pos as int) == enc_toks(inn, 0, toks)
                        + final_bytes(inn, toks_len(toks), tail as int));
                }
                return new_out_pos;
            }
        }
    }

    /// Compresses `in_data[0 .. in_len]` into an LZ4 block at `out_data[o ..]`
    /// and returns the end position, dispatching on the level: fast greedy
    /// at level 1, chained search at 2..8, optimal parse at 9.
    ///
    /// On success the written payload decodes back to the exact input under
    /// any capacity that can hold it, and is the encoding of a token list
    /// obeying the format's match laws.  Each error names exactly the entry
    /// check that failed: the payload prefix, the table size, or an output
    /// buffer smaller than the worst-case compressed size.
    pub fn compress_block(
        &mut self,
        in_data: &Vec<u8>,
        in_len: usize,
        out_data: &mut Vec<u8>,
        o: usize,
    ) -> (r: Result<usize, Lz4Error>)
        requires
            old(self).wf(),
        ensures
            final(self).wf(),
            final(self).spec_len() == old(self).spec_len(),
            final(self).spec_level() == old(self).spec_level(),
            final(out_data)@.len() == old(out_data)@.len(),
            forall|j: int| 0 <= j < o ==> final(out_data)@[j] == old(out_data)@[j],
            match r {
                Ok(end) => {
                    &&& in_len <= in_data@.len()
                    &&& in_len <= old(self).spec_len()
                    &&& o + in_len + in_len / 255 + 16 <= old(out_data)@.len()
                    &&& o <= end <= final(out_data)@.len()
                    &&& 255 * (end - o) <= 256 * in_len + 495
                    &&& forall|c: int|
                        c >= in_len ==> decode_from(
                            final(out_data)@.subrange(o as int, end as int),
                            0,
                            Seq::empty(),
                            c,
                        ) == Ok::<Seq<u8>, Lz4Error>(in_data@.take(in_len as int))
                    &&& exists|toks: Seq<Tok>, tail: int|
                        {
                            &&& valid_toks(in_data@.take(in_len as int), 0, toks)
                            &&& tail >= 0
                            &&& toks_len(toks) + tail == in_len
                            &&& final(out_data)@.subrange(o as int, end as int) == enc_toks(
                                in_data@.take(in_len as int),
                                0,
                                toks,
                            ) + final_bytes(in_data@.take(in_len as int), toks_len(toks), tail)
                        }
                },
                Err(e) => ({
                    &&& final(out_data)@ == old(out_data)@
                    &&& *final(self) == *old(self)
                    &&& if in_len > in_data@.len() {
                        e == Lz4Error::InputBufferTooSmall
                    } else if in_len > old(self).spec_len() {
                        e == Lz4Error::TemporaryBufferTooSmall
                    } else {
                        e == Lz4Error::OutputBufferTooSmall && o + in_len + in_len / 255 + 16
                            > old(out_data)@.len()
                    }
                }),
            },
    {
        if in_len > in_data.len() {
            return Err(Lz4Error::InputBufferTooSmall);
        }
        if in_len > self.len {
            return Err(Lz4Error::TemporaryBufferTooSmall);
        }
        let cap = out_data.len();
        if cap < o || cap - o < 16 || cap - o - 16 < in_len || cap - o - 16 - in_len < in_len
            / 255 {
            return Err(Lz4Error::OutputBufferTooSmall);
        }
        let end = if self.level >= 9 {
            self.compress_block_very_slow(in_data, in_len, out_data, o)
        } else if self.level > 1 {
            self.compress_block_slow(in_data, in_len, out_data, o)
        } else {
            self.compress_block_fast(in_data, in_len, out_data, o)
        };
        proof {
            let inn = in_data@.take(in_len as int);
            let (toks, tail): (Seq<Tok>, int) = choose|toks: Seq<Tok>, tail: int|
                {
                    &&& valid_toks(inn, 0, toks)
                    &&& tail >= 0
                    &&& toks_len(toks) + tail == in_len
                    &&& out_data@.subrange(o as int, end as int) == enc_toks(inn, 0, toks)
                        + final_bytes(inn, toks_len(toks), tail)
                };
            let pay = out_data@.subrange(o as int, end as int);
            assert forall|c: int| c >= in_len implies decode_from(pay, 0, Seq::empty(), c) == Ok::<
                Seq<u8>,
                Lz4Error,
            >(inn) by {
                assert(pay.subrange(0, pay.len() as int) =~= pay);
                assert(inn.take(0) =~= Seq::<u8>::empty());
                lemma_decode_encoded(inn, 0, toks, tail, pay, 0, c);
                assert(decode_from(pay, 0, inn.take(0), c) == Ok::<Seq<u8>, Lz4Error>(inn));
            }
        }
        Ok(end)
    }
}

} // verus!
