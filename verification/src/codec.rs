//! The encoder and the decoder.
//!
//! `compress` scans the buffer greedily, asking the match finder at
//! each position, and packs the resulting tokens into flag-prefixed
//! blocks; its output is pinned down exactly by `spec_compress`.
//! `expand` reads such a stream back, reporting truncation or an
//! out-of-range back-reference instead of misreading. `lemma_round_trip`
//! is the round-trip law: decoding a compressed stream always yields
//! the original bytes.

use vstd::prelude::*;
use crate::token::Token;
use crate::token::tok_bounds;
use crate::token::tokens_ok;
use crate::token::copy_append;
use crate::token::apply_tokens;
use crate::token::lemma_tokens_ok_bounds;
use crate::wire::ExpandError;
use crate::wire::flag_bit;
use crate::wire::flag_of;
use crate::wire::encode_token;
use crate::wire::cat_tokens;
use crate::wire::encode_tokens;
use crate::wire::decode_rest;
use crate::wire::spec_expand;
use crate::wire::lemma_decode_encode;
use crate::wire::lemma_cat_tokens_snoc;
use crate::wire::lemma_encode_snoc_block;
use crate::index::link_seq;
use crate::index::spec_best_match;
use crate::index::good_match;
use crate::index::prefix_len;
use crate::index::lemma_best_match_good;
use crate::index::lemma_literal_fallback;
use crate::index::link_matches;
use crate::index::best_match;

verus! {

/// The tokens the greedy encoder emits from scan position `j` on: a
/// match token where the finder reports a length over 2, else one
/// literal.
pub open spec fn spec_tokens(data: Seq<u8>, links: Seq<usize>, j: int) -> Seq<Token>
    decreases data.len() - j,
    via spec_tokens_decreases
{
    if j < 0 || j >= data.len() {
        Seq::empty()
    } else {
        let r = spec_best_match(data, links, j);
        if r.1 > 2 {
            seq![Token::Match { dist: r.0, len: r.1 }] + spec_tokens(data, links, j + r.1)
        } else {
            seq![Token::Lit(data[j])] + spec_tokens(data, links, j + 1)
        }
    }
}

#[via_fn]
proof fn spec_tokens_decreases(data: Seq<u8>, links: Seq<usize>, j: int) {
    lemma_best_match_good(data, links, j);
}

/// The token stream of a whole buffer, over its own backward links.
pub open spec fn all_tokens(data: Seq<u8>) -> Seq<Token> {
    spec_tokens(data, link_seq(data), 0)
}

/// The compressed stream of a buffer.
pub open spec fn spec_compress(data: Seq<u8>) -> Seq<u8> {
    encode_tokens(all_tokens(data))
}

/// Copying `n` bytes one at a time from `d` back, starting with `m`
/// bytes of `data` produced, keeps reproducing `data` as long as every
/// byte in the copied range equals the byte `d` before it: the
/// overlapping-copy argument.
proof fn lemma_copy_run(data: Seq<u8>, j: int, d: int, m: int, n: int)
    requires
        0 <= n,
        1 <= d <= j,
        j <= m,
        m + n <= data.len(),
        forall|p: int| j <= p < m + n ==> data[p - d] == #[trigger] data[p],
    ensures
        copy_append(data.take(m), n, d) == data.take(m + n),
    decreases n,
{
    if n == 0 {
        assert(data.take(m) =~= data.take(m + n));
    } else {
        let out = data.take(m);
        assert(out[m - d] == data[m - d]);
        assert(data[m - d] == data[m]);
        assert(out.push(data[m]) =~= data.take(m + 1));
        lemma_copy_run(data, j, d, m + 1, n - 1);
    }
}

/// From any scan position, the emitted tokens are well formed for the
/// output produced so far and expand to exactly the rest of the
/// buffer.
pub proof fn lemma_tokens_reproduce(data: Seq<u8>, links: Seq<usize>, j: int)
    requires
        0 <= j <= data.len(),
    ensures
        tokens_ok(spec_tokens(data, links, j), j),
        apply_tokens(data.take(j), spec_tokens(data, links, j)) == data,
    decreases data.len() - j,
{
    let ts = spec_tokens(data, links, j);
    if j >= data.len() {
        assert(data.take(j) =~= data);
    } else {
        lemma_best_match_good(data, links, j);
        let r = spec_best_match(data, links, j);
        if r.1 > 2 {
            let t = Token::Match { dist: r.0, len: r.1 };
            let rest = spec_tokens(data, links, j + r.1);
            assert(ts[0] == t);
            assert(ts.drop_first() =~= rest);
            assert(good_match(data, j, r.0, r.1));
            assert forall|p: int| j <= p < j + r.1 implies data[p - r.0] == #[trigger] data[p] by {
                assert(data[j - r.0 + (p - j)] == data[j + (p - j)]);
            }
            lemma_copy_run(data, j, r.0, j, r.1);
            lemma_tokens_reproduce(data, links, j + r.1);
        } else {
            let t = Token::Lit(data[j]);
            let rest = spec_tokens(data, links, j + 1);
            assert(ts[0] == t);
            assert(ts.drop_first() =~= rest);
            assert(data.take(j).push(data[j]) =~= data.take(j + 1));
            lemma_tokens_reproduce(data, links, j + 1);
        }
    }
}

/// The round-trip law: for every buffer, decoding the compressed
/// stream yields exactly the original bytes, never an error.
pub proof fn lemma_round_trip(data: Seq<u8>)
    ensures
        spec_expand(spec_compress(data)) == Ok::<Seq<u8>, ExpandError>(data),
{
    let ts = all_tokens(data);
    lemma_tokens_reproduce(data, link_seq(data), 0);
    assert(data.take(0) =~= Seq::<u8>::empty());
    lemma_decode_encode(ts, 0, Seq::empty());
}

/// Emptiness: an empty buffer compresses to an empty stream, and an
/// empty stream expands to an empty buffer.
pub proof fn lemma_empty()
    ensures
        spec_compress(Seq::empty()) == Seq::<u8>::empty(),
        spec_expand(Seq::empty()) == Ok::<Seq<u8>, ExpandError>(Seq::<u8>::empty()),
{
    assert(all_tokens(Seq::empty()) == Seq::<Token>::empty());
}

/// Match bounds: every match token the encoder ever emits has a length
/// in [3, 18] and a distance in [1, 4096].
pub proof fn lemma_match_bounds(data: Seq<u8>)
    ensures
        forall|k: int| 0 <= k < all_tokens(data).len() ==> tok_bounds(#[trigger] all_tokens(data)[k]),
{
    lemma_tokens_reproduce(data, link_seq(data), 0);
    lemma_tokens_ok_bounds(all_tokens(data), 0);
}

/// Literal fallback at the encoder: when no candidate in the window
/// shares more than two bytes with position `j` — in particular for a
/// 2-byte sequence with no repeat in the previous 4096 bytes, or a run
/// of length exactly 2 — the token emitted at `j` is a literal.
pub proof fn lemma_literal_token(data: Seq<u8>, links: Seq<usize>, j: int)
    requires
        0 <= j < data.len(),
        forall|c: int| 0 <= c < j && j - c <= 4096 ==> prefix_len(data, c, j) <= 2,
    ensures
        spec_tokens(data, links, j)[0] == Token::Lit(data[j]),
{
    lemma_literal_fallback(data, links, j);
    let rest = spec_tokens(data, links, j + 1);
    assert(spec_tokens(data, links, j) == seq![Token::Lit(data[j])] + rest);
}

/// Compress `data`: greedy left-to-right scan, one token per step,
/// packed into blocks of eight tokens behind a flag byte; a final
/// partial block is flushed as-is. The output is exactly
/// `spec_compress(data@)`, and decoding it yields `data` again.
pub fn compress(data: &[u8]) -> (r: Vec<u8>)
    ensures
        r@ == spec_compress(data@),
        spec_expand(r@) == Ok::<Seq<u8>, ExpandError>(data@),
        data@.len() == 0 ==> r@.len() == 0,
{
    let offsets = link_matches(data);
    let mut compressed: Vec<u8> = Vec::new();
    let mut flag: u8 = 0;
    let mut payload: Vec<u8> = Vec::new();
    let mut blk_n: usize = 0;
    let mut j: usize = 0;
    let ghost mut done: Seq<Token> = Seq::empty();
    let ghost mut cur: Seq<Token> = Seq::empty();
    proof {
        assert(Seq::<Token>::empty() + Seq::<Token>::empty() + spec_tokens(
            data@,
            offsets@,
            0,
        ) =~= all_tokens(data@));
    }
    while j < data.len()
        invariant
            offsets@ == link_seq(data@),
            j <= data.len(),
            blk_n == cur.len(),
            blk_n < 8,
            done.len() % 8 == 0,
            compressed@ == encode_tokens(done),
            payload@ == cat_tokens(cur),
            flag == flag_of(cur),
            all_tokens(data@) == done + cur + spec_tokens(data@, offsets@, j as int),
        decreases data.len() - j,
    {
        let (d, l) = best_match(data, offsets.as_slice(), j);
        let ghost t: Token;
        let ghost rest: Seq<Token>;
        if l > 2 {
            proof {
                t = Token::Match { dist: d as int, len: l as int };
                rest = spec_tokens(data@, offsets@, j as int + l as int);
                assert(spec_tokens(data@, offsets@, j as int) == seq![t] + rest);
                assert(good_match(data@, j as int, d as int, l as int));
                lemma_cat_tokens_snoc(cur, t);
            }
            let b0: u8 = (((l - 3) * 16) + (d - 1) / 256) as u8;
            let b1: u8 = ((d - 1) % 256) as u8;
            proof {
                assert(encode_token(t) =~= seq![b0, b1]);
            }
            payload.push(b0);
            payload.push(b1);
            j += l;
        } else {
            proof {
                t = Token::Lit(data@[j as int]);
                rest = spec_tokens(data@, offsets@, j as int + 1);
                assert(spec_tokens(data@, offsets@, j as int) == seq![t] + rest);
                lemma_cat_tokens_snoc(cur, t);
                assert(encode_token(t) =~= seq![data@[j as int]]);
            }
            flag = flag | (0x80u8 >> (blk_n as u8));
            payload.push(data[j]);
            j += 1;
        }
        proof {
            let cur2 = cur.push(t);
            assert(cur2.drop_last() =~= cur);
            assert(cur2.last() == t);
            assert(payload@ == cat_tokens(cur2));
            assert(flag == flag_of(cur2));
            assert(done + cur2 + rest =~= done + cur + (seq![t] + rest));
            cur = cur2;
        }
        blk_n += 1;
        if blk_n == 8 {
            compressed.push(flag);
            compressed.append(&mut payload);
            proof {
                lemma_encode_snoc_block(done, cur);
                assert(compressed@ =~= encode_tokens(done) + (seq![flag_of(cur)] + cat_tokens(
                    cur,
                )));
                done = done + cur;
                cur = Seq::empty();
                assert(compressed@ == encode_tokens(done));
                assert(done + cur + spec_tokens(data@, offsets@, j as int) =~= done + spec_tokens(
                    data@,
                    offsets@,
                    j as int,
                ));
            }
            flag = 0;
            blk_n = 0;
        }
    }
    proof {
        assert(spec_tokens(data@, offsets@, j as int) == Seq::<Token>::empty());
    }
    if blk_n > 0 {
        compressed.push(flag);
        compressed.append(&mut payload);
        proof {
            lemma_encode_snoc_block(done, cur);
            assert(compressed@ =~= encode_tokens(done) + (seq![flag_of(cur)] + cat_tokens(cur)));
            assert(done + cur =~= done + cur + spec_tokens(data@, offsets@, j as int));
            assert(compressed@ == encode_tokens(all_tokens(data@)));
        }
    } else {
        proof {
            assert(cur =~= Seq::<Token>::empty());
            assert(done =~= done + cur + spec_tokens(data@, offsets@, j as int));
        }
    }
    proof {
        lemma_round_trip(data@);
    }
    compressed
}

/// Expand a compressed stream, reading flag bytes and re-applying each
/// token; a match is copied one byte at a time, so an overlapping copy
/// repeats the pattern just produced. Returns exactly what
/// `spec_expand(data@)` says: the decoded bytes, `Truncated` when the
/// stream ends inside a token, or `BadDistance` when a back-reference
/// reaches behind the start of the output.
pub fn expand(data: &[u8]) -> (r: Result<Vec<u8>, ExpandError>)
    ensures
        match r {
            Ok(v) => spec_expand(data@) == Ok::<Seq<u8>, ExpandError>(v@),
            Err(e) => spec_expand(data@) == Err::<Seq<u8>, ExpandError>(e),
        },
{
    let mut out: Vec<u8> = Vec::new();
    let mut flag: u8 = 0;
    let mut pos: u8 = 7;
    let mut j: usize = 0;
    proof {
        assert(data@.skip(0) =~= data@);
    }
    while j < data.len()
        invariant
            j <= data.len(),
            pos <= 7,
            decode_rest(data@.skip(j as int), flag, pos as int, out@) == spec_expand(data@),
        decreases data.len() - j,
    {
        let ghost s0 = data@.skip(j as int);
        let ghost f0 = flag;
        let ghost p0 = pos as int;
        let ghost o0 = out@;
        assert(s0.len() > 0);
        if pos >= 7 {
            flag = data[j];
            proof {
                assert(s0[0] == data@[j as int]);
                assert(s0.drop_first() =~= data@.skip(j as int + 1));
            }
            j += 1;
            pos = 0;
        } else {
            pos += 1;
        }
        let ghost s2 = data@.skip(j as int);
        proof {
            assert(flag == (if p0 + 1 >= 8 { s0[0] } else { f0 }));
            assert(s2 =~= (if p0 + 1 >= 8 { s0.drop_first() } else { s0 }));
            assert(pos as int == (if p0 + 1 >= 8 { 0int } else { p0 + 1 }));
        }
        if flag & (0x80u8 >> pos) != 0 {
            proof {
                assert(flag_bit(flag, pos as int));
            }
            if j < data.len() {
                proof {
                    assert(s2[0] == data@[j as int]);
                    assert(s2.drop_first() =~= data@.skip(j as int + 1));
                }
                out.push(data[j]);
                j += 1;
            } else {
                proof {
                    assert(s2.len() == 0);
                }
                return Err(ExpandError::Truncated);
            }
        } else {
            proof {
                assert(!flag_bit(flag, pos as int));
            }
            if data.len() - j >= 2 {
                let b0 = data[j];
                let b1 = data[j + 1];
                let l: usize = (b0 / 16) as usize + 3;
                let d: usize = (b0 % 16) as usize * 256 + b1 as usize + 1;
                proof {
                    assert(s2[0] == b0 && s2[1] == b1);
                    assert(l as int == s2[0] as int / 16 + 3);
                    assert(d as int == (s2[0] as int % 16) * 256 + s2[1] as int + 1);
                    assert(s2.skip(2) =~= data@.skip(j as int + 2));
                }
                if d <= out.len() {
                    j += 2;
                    let ghost outb = out@;
                    let mut c: usize = 0;
                    while c < l
                        invariant
                            c <= l,
                            1 <= d,
                            d <= outb.len(),
                            out@.len() == outb.len() + c,
                            copy_append(out@, l - c, d as int) == copy_append(
                                outb,
                                l as int,
                                d as int,
                            ),
                        decreases l - c,
                    {
                        let b = out[out.len() - d];
                        out.push(b);
                        c += 1;
                    }
                    proof {
                        assert(out@ == copy_append(outb, l as int, d as int));
                    }
                } else {
                    return Err(ExpandError::BadDistance);
                }
            } else {
                proof {
                    assert(s2.len() < 2);
                }
                return Err(ExpandError::Truncated);
            }
        }
    }
    proof {
        assert(data@.skip(j as int) =~= Seq::<u8>::empty());
    }
    Ok(out)
}

} // verus!
