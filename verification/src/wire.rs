//! The wire format.
//!
//! A compressed stream is a sequence of blocks: one flag byte, then up
//! to eight token encodings. Flag bit `k`, counted from the most
//! significant bit, is set when token `k` of the block is a literal.
//! A literal is its one raw byte; a match is two bytes: high nibble of
//! the first byte holds `len - 3`, its low nibble and the whole second
//! byte hold the 12-bit `dist - 1`.
//!
//! `decode_rest` is the meaning of a stream suffix to the decoder;
//! `encode_tokens` is the stream the encoder produces. The lemmas here
//! prove that decoding an encoded token sequence yields exactly the
//! bytes the tokens produce.

use vstd::prelude::*;
use crate::token::Token;
use crate::token::is_lit;
use crate::token::tok_ok;
use crate::token::tokens_ok;
use crate::token::copy_append;
use crate::token::apply_token;
use crate::token::apply_tokens;
use crate::token::lemma_apply_token_len;
use crate::token::lemma_apply_tokens_len;
use crate::token::lemma_apply_tokens_concat;
use crate::token::lemma_tokens_ok_split;

verus! {

/// Why a decode fails: the stream ended inside a token, or a
/// back-reference reached behind the start of the output produced so
/// far.
#[derive(Clone, Copy, Debug, PartialEq, Eq, Structural)]
pub enum ExpandError {
    Truncated,
    BadDistance,
}

/// Bit `k` of a flag byte, counted from the most significant bit.
pub open spec fn flag_bit(f: u8, k: int) -> bool {
    f & (0x80u8 >> (k as u8)) != 0
}

/// The flag byte for the tokens of one block: bit `k` set exactly when
/// token `k` is a literal; unused low bits stay clear.
pub open spec fn flag_of(ts: Seq<Token>) -> u8
    decreases ts.len(),
{
    if ts.len() == 0 {
        0
    } else if is_lit(ts.last()) {
        flag_of(ts.drop_last()) | (0x80u8 >> ((ts.len() - 1) as u8))
    } else {
        flag_of(ts.drop_last())
    }
}

/// The payload bytes of one token.
pub open spec fn encode_token(t: Token) -> Seq<u8> {
    match t {
        Token::Lit(b) => seq![b],
        Token::Match { dist, len } => seq![
            ((len - 3) * 16 + (dist - 1) / 256) as u8,
            ((dist - 1) % 256) as u8,
        ],
    }
}

/// The payload bytes of a sequence of tokens, in order.
pub open spec fn cat_tokens(ts: Seq<Token>) -> Seq<u8>
    decreases ts.len(),
{
    if ts.len() == 0 {
        Seq::empty()
    } else {
        encode_token(ts[0]) + cat_tokens(ts.drop_first())
    }
}

/// One block: the flag byte, then the payloads of at most 8 tokens.
pub open spec fn encode_block(ts: Seq<Token>) -> Seq<u8> {
    seq![flag_of(ts)] + cat_tokens(ts)
}

/// The whole stream: blocks of 8 tokens, the last possibly shorter.
pub open spec fn encode_tokens(ts: Seq<Token>) -> Seq<u8>
    decreases ts.len(),
{
    if ts.len() == 0 {
        Seq::empty()
    } else if ts.len() <= 8 {
        encode_block(ts)
    } else {
        encode_block(ts.take(8)) + encode_tokens(ts.skip(8))
    }
}

/// The decoder over the remaining stream `s`: `f` is the current flag
/// byte, `n` the in-block position of the token processed last (7
/// forces a fresh flag byte first), `out` the output so far.
pub open spec fn decode_rest(s: Seq<u8>, f: u8, n: int, out: Seq<u8>) -> Result<Seq<u8>, ExpandError>
    decreases s.len(),
{
    if s.len() == 0 {
        Ok(out)
    } else {
        let f2 = if n + 1 >= 8 { s[0] } else { f };
        let s2 = if n + 1 >= 8 { s.drop_first() } else { s };
        let n2 = if n + 1 >= 8 { 0 } else { n + 1 };
        if flag_bit(f2, n2) {
            if s2.len() >= 1 {
                decode_rest(s2.drop_first(), f2, n2, out.push(s2[0]))
            } else {
                Err(ExpandError::Truncated)
            }
        } else {
            if s2.len() >= 2 {
                let len = s2[0] as int / 16 + 3;
                let dist = (s2[0] as int % 16) * 256 + s2[1] as int + 1;
                if dist <= out.len() {
                    decode_rest(s2.skip(2), f2, n2, copy_append(out, len, dist))
                } else {
                    Err(ExpandError::BadDistance)
                }
            } else {
                Err(ExpandError::Truncated)
            }
        }
    }
}

/// What a compressed stream means: the bytes it decodes to, or the
/// error the decoder must report.
pub open spec fn spec_expand(s: Seq<u8>) -> Result<Seq<u8>, ExpandError> {
    decode_rest(s, 0, 7, Seq::empty())
}

/// The flag byte of a block tags each of its tokens correctly: bit `k`
/// is set exactly when token `k` is a literal, and unused bits stay
/// clear.
pub proof fn lemma_flag_of_bits(ts: Seq<Token>)
    requires
        ts.len() <= 8,
    ensures
        forall|k: int| 0 <= k < ts.len() ==> flag_bit(flag_of(ts), k) == is_lit(ts[k]),
        forall|k: int| ts.len() <= k < 8 ==> !flag_bit(flag_of(ts), k),
    decreases ts.len(),
{
    if ts.len() == 0 {
        assert forall|k: int| 0 <= k < 8 implies !flag_bit(0u8, k) by {
            let ku = k as u8;
            assert(ku < 8 ==> 0u8 & (0x80u8 >> ku) == 0) by (bit_vector);
        }
    } else {
        let p = ts.len() - 1;
        let pu = p as u8;
        lemma_flag_of_bits(ts.drop_last());
        let g = flag_of(ts.drop_last());
        assert(forall|k: int| 0 <= k < p ==> ts.drop_last()[k] == ts[k]);
        if is_lit(ts.last()) {
            let h = g | (0x80u8 >> pu);
            assert(flag_of(ts) == h);
            assert(pu < 8 ==> (g | (0x80u8 >> pu)) & (0x80u8 >> pu) != 0) by (bit_vector);
            assert forall|k: int| 0 <= k < 8 && k != p implies flag_bit(h, k) == flag_bit(g, k) by {
                let ku = k as u8;
                assert(ku != pu && ku < 8 && pu < 8 ==> (((g | (0x80u8 >> pu)) & (0x80u8 >> ku)
                    != 0) == ((g & (0x80u8 >> ku)) != 0))) by (bit_vector);
            }
        } else {
            assert(flag_of(ts) == g);
            assert(!flag_bit(g, p));
        }
    }
}

/// Each token encodes to one or two bytes, never zero.
pub proof fn lemma_cat_tokens_len(ts: Seq<Token>)
    ensures
        cat_tokens(ts).len() >= ts.len(),
    decreases ts.len(),
{
    if ts.len() > 0 {
        lemma_cat_tokens_len(ts.drop_first());
    }
}

/// The decoder consumes one encoded token, in the middle of a block,
/// exactly as `apply_token` says.
proof fn lemma_decode_step(t: Token, p: int, f: u8, rest: Seq<u8>, out: Seq<u8>)
    requires
        0 <= p < 8,
        tok_ok(t, out.len() as int),
        flag_bit(f, p) == is_lit(t),
    ensures
        decode_rest(encode_token(t) + rest, f, p - 1, out) == decode_rest(
            rest,
            f,
            p,
            apply_token(out, t),
        ),
{
    let s = encode_token(t) + rest;
    match t {
        Token::Lit(b) => {
            assert(s[0] == b);
            assert(s.drop_first() =~= rest);
        },
        Token::Match { dist, len } => {
            let x = dist - 1;
            let a = len - 3;
            vstd::arithmetic::div_mod::lemma_fundamental_div_mod(x, 256);
            let q = x / 256;
            let r = x % 256;
            assert(0 <= r < 256 && 0 <= q <= 15) by (nonlinear_arith)
                requires
                    0 <= x <= 4095,
                    q == x / 256,
                    r == x % 256,
            ;
            let v = a * 16 + q;
            assert(0 <= v <= 255);
            let b0 = v as u8;
            let b1 = r as u8;
            assert(s[0] == b0 && s[1] == b1);
            assert(s.skip(2) =~= rest);
            vstd::arithmetic::div_mod::lemma_fundamental_div_mod_converse(v, 16, a, q);
            assert(b0 as int / 16 + 3 == len);
            assert((b0 as int % 16) * 256 + b1 as int + 1 == dist);
        },
    }
}

/// The decoder consumes a run of encoded tokens inside one block,
/// starting at in-block position `p`, exactly as `apply_tokens` says.
proof fn lemma_decode_run(bts: Seq<Token>, p: int, f: u8, rest: Seq<u8>, out: Seq<u8>)
    requires
        0 <= p,
        p + bts.len() <= 8,
        tokens_ok(bts, out.len() as int),
        forall|k: int| 0 <= k < bts.len() ==> flag_bit(f, p + k) == is_lit(bts[k]),
    ensures
        decode_rest(cat_tokens(bts) + rest, f, p - 1, out) == decode_rest(
            rest,
            f,
            p + bts.len() - 1,
            apply_tokens(out, bts),
        ),
    decreases bts.len(),
{
    if bts.len() == 0 {
        assert(cat_tokens(bts) + rest =~= rest);
    } else {
        let t = bts[0];
        let tail = cat_tokens(bts.drop_first()) + rest;
        assert(cat_tokens(bts) + rest =~= encode_token(t) + tail);
        assert(flag_bit(f, p) == is_lit(t));
        lemma_decode_step(t, p, f, tail, out);
        lemma_apply_token_len(out, t);
        assert forall|k: int| 0 <= k < bts.drop_first().len() implies flag_bit(f, p + 1 + k)
            == is_lit(bts.drop_first()[k]) by {
            assert(bts.drop_first()[k] == bts[k + 1]);
            assert(flag_bit(f, p + (k + 1)) == is_lit(bts[k + 1]));
        }
        lemma_decode_run(bts.drop_first(), p + 1, f, rest, apply_token(out, t));
    }
}

/// Reading a flag byte leaves the decoder at in-block position -1 of
/// that byte's block.
proof fn lemma_flag_read(fl: u8, tail: Seq<u8>, f0: u8, n: int, out: Seq<u8>)
    requires
        n + 1 >= 8,
        tail.len() >= 1,
    ensures
        decode_rest(seq![fl] + tail, f0, n, out) == decode_rest(tail, fl, -1, out),
{
    let s = seq![fl] + tail;
    assert(s.len() == 1 + tail.len());
    assert(s[0] == fl);
    assert(s.drop_first() =~= tail);
    assert(s.drop_first().drop_first() =~= tail.drop_first());
    assert(s.drop_first().skip(2) =~= tail.skip(2));
}

/// Decoding an encoded token sequence from any block boundary yields
/// exactly the bytes the tokens produce.
pub proof fn lemma_decode_encode(ts: Seq<Token>, f: u8, out: Seq<u8>)
    requires
        tokens_ok(ts, out.len() as int),
    ensures
        decode_rest(encode_tokens(ts), f, 7, out) == Ok::<Seq<u8>, ExpandError>(
            apply_tokens(out, ts),
        ),
    decreases ts.len(),
{
    if ts.len() == 0 {
    } else if ts.len() <= 8 {
        lemma_flag_of_bits(ts);
        lemma_cat_tokens_len(ts);
        assert(encode_tokens(ts) == seq![flag_of(ts)] + cat_tokens(ts));
        lemma_flag_read(flag_of(ts), cat_tokens(ts), f, 7, out);
        assert(cat_tokens(ts) + Seq::<u8>::empty() =~= cat_tokens(ts));
        lemma_decode_run(ts, 0, flag_of(ts), Seq::empty(), out);
    } else {
        let a = ts.take(8);
        let b = ts.skip(8);
        lemma_tokens_ok_split(ts, 8, out.len() as int);
        lemma_flag_of_bits(a);
        lemma_cat_tokens_len(a);
        let tail = cat_tokens(a) + encode_tokens(b);
        assert(encode_tokens(ts) == encode_block(a) + encode_tokens(b));
        assert(encode_block(a) + encode_tokens(b) =~= seq![flag_of(a)] + tail);
        lemma_flag_read(flag_of(a), tail, f, 7, out);
        lemma_decode_run(a, 0, flag_of(a), encode_tokens(b), out);
        lemma_apply_tokens_len(out, a);
        lemma_decode_encode(b, flag_of(a), apply_tokens(out, a));
        lemma_apply_tokens_concat(out, a, b);
        assert(a + b =~= ts);
    }
}

/// Appending a token to a partial block appends its payload bytes.
pub proof fn lemma_cat_tokens_snoc(ts: Seq<Token>, t: Token)
    ensures
        cat_tokens(ts.push(t)) == cat_tokens(ts) + encode_token(t),
    decreases ts.len(),
{
    if ts.len() == 0 {
        assert(ts.push(t)[0] == t);
        assert(ts.push(t).drop_first() =~= Seq::<Token>::empty());
        assert(cat_tokens(Seq::<Token>::empty()) == Seq::<u8>::empty());
        assert(cat_tokens(ts.push(t)) == encode_token(t) + Seq::<u8>::empty());
        assert(cat_tokens(ts.push(t)) =~= cat_tokens(ts) + encode_token(t));
    } else {
        assert(ts.push(t)[0] == ts[0]);
        assert(ts.push(t).drop_first() =~= ts.drop_first().push(t));
        lemma_cat_tokens_snoc(ts.drop_first(), t);
        assert(cat_tokens(ts.push(t)) =~= cat_tokens(ts) + encode_token(t));
    }
}

/// How many tokens of a sequence are literals.
pub open spec fn lit_count(ts: Seq<Token>) -> int
    decreases ts.len(),
{
    if ts.len() == 0 {
        0
    } else {
        (if is_lit(ts[0]) {
            1int
        } else {
            0int
        }) + lit_count(ts.drop_first())
    }
}

/// How many tokens of a sequence are matches.
pub open spec fn match_count(ts: Seq<Token>) -> int
    decreases ts.len(),
{
    if ts.len() == 0 {
        0
    } else {
        (if is_lit(ts[0]) {
            0int
        } else {
            1int
        }) + match_count(ts.drop_first())
    }
}

proof fn lemma_cat_tokens_count(ts: Seq<Token>)
    ensures
        cat_tokens(ts).len() == lit_count(ts) + 2 * match_count(ts),
        lit_count(ts) >= 0,
        match_count(ts) >= 0,
    decreases ts.len(),
{
    if ts.len() > 0 {
        lemma_cat_tokens_count(ts.drop_first());
    }
}

proof fn lemma_count_split(ts: Seq<Token>, k: int)
    requires
        0 <= k <= ts.len(),
    ensures
        lit_count(ts) == lit_count(ts.take(k)) + lit_count(ts.skip(k)),
        match_count(ts) == match_count(ts.take(k)) + match_count(ts.skip(k)),
    decreases k,
{
    if k == 0 {
        assert(ts.take(0) =~= Seq::<Token>::empty());
        assert(ts.skip(0) =~= ts);
    } else {
        assert(ts.take(k)[0] == ts[0]);
        assert(ts.take(k).drop_first() =~= ts.drop_first().take(k - 1));
        assert(ts.skip(k) =~= ts.drop_first().skip(k - 1));
        lemma_count_split(ts.drop_first(), k - 1);
    }
}

/// Block framing: a stream of T tokens holds exactly ceil(T / 8) flag
/// bytes; its length is that plus one byte per literal and two per
/// match. (That each flag byte tags its block's tokens correctly is
/// `lemma_flag_of_bits`.)
pub proof fn lemma_block_framing(ts: Seq<Token>)
    ensures
        encode_tokens(ts).len() == (ts.len() + 7) / 8 + lit_count(ts) + 2 * match_count(ts),
    decreases ts.len(),
{
    let n = ts.len() as int;
    if n == 0 {
    } else if n <= 8 {
        lemma_cat_tokens_count(ts);
        vstd::arithmetic::div_mod::lemma_fundamental_div_mod_converse(n + 7, 8, 1, n - 1);
    } else {
        lemma_cat_tokens_count(ts.take(8));
        lemma_count_split(ts, 8);
        lemma_block_framing(ts.skip(8));
        let y = n - 1;
        vstd::arithmetic::div_mod::lemma_fundamental_div_mod(y, 8);
        vstd::arithmetic::div_mod::lemma_fundamental_div_mod_converse(
            y + 8,
            8,
            y / 8 + 1,
            y % 8,
        );
    }
}

/// Appending one full or final block to completed blocks extends the
/// stream by exactly that block's encoding.
pub proof fn lemma_encode_snoc_block(done: Seq<Token>, b: Seq<Token>)
    requires
        done.len() % 8 == 0,
        1 <= b.len() <= 8,
    ensures
        encode_tokens(done + b) == encode_tokens(done) + encode_block(b),
    decreases done.len(),
{
    if done.len() == 0 {
        assert(done + b =~= b);
        assert(encode_tokens(done) + encode_block(b) =~= encode_block(b));
    } else {
        let ts = done + b;
        assert(done.len() >= 8);
        assert(ts.take(8) =~= done.take(8));
        assert(ts.skip(8) =~= done.skip(8) + b);
        lemma_encode_snoc_block(done.skip(8), b);
        if done.len() == 8 {
            assert(done.skip(8) =~= Seq::<Token>::empty());
            assert(done.skip(8) + b =~= b);
            assert(done.take(8) =~= done);
            assert(encode_tokens(ts) =~= encode_tokens(done) + encode_block(b));
        } else {
            assert(done.take(8).len() == 8);
            assert(encode_tokens(done) == encode_block(done.take(8)) + encode_tokens(
                done.skip(8),
            ));
            assert(encode_tokens(ts) =~= encode_tokens(done) + encode_block(b));
        }
    }
}

} // verus!
