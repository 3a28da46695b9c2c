//! The token model of the compressed stream.
//!
//! A compressed stream is, conceptually, a sequence of tokens: a token
//! is either one literal byte, or a back-reference that copies `len`
//! bytes starting `dist` bytes behind the current end of the decoded
//! output. These spec types and functions give tokens their meaning;
//! the wire format lives in `wire`.

use vstd::prelude::*;

verus! {

/// A token: one literal byte, or a back-reference of `len` bytes read
/// `dist` bytes behind the current end of the decoded output.
pub ghost enum Token {
    Lit(u8),
    Match { dist: int, len: int },
}

pub open spec fn is_lit(t: Token) -> bool {
    t is Lit
}

/// How many output bytes a token produces.
pub open spec fn tok_out_len(t: Token) -> int {
    match t {
        Token::Lit(_) => 1,
        Token::Match { dist: _, len } => len,
    }
}

/// A token within the format's bounds, applicable to an output that
/// already holds `out_len` bytes.
pub open spec fn tok_ok(t: Token, out_len: int) -> bool {
    match t {
        Token::Lit(_) => true,
        Token::Match { dist, len } => 3 <= len <= 18 && 1 <= dist <= 4096 && dist <= out_len,
    }
}

/// Append `n` bytes to `out`, each read `d` back from the current end.
/// Because the output grows one byte at a time, `d < n` yields a
/// repeating pattern (an overlapping self-copy).
pub open spec fn copy_append(out: Seq<u8>, n: int, d: int) -> Seq<u8>
    decreases n,
{
    if n <= 0 {
        out
    } else {
        copy_append(out.push(out[out.len() - d]), n - 1, d)
    }
}

/// The output after one token.
pub open spec fn apply_token(out: Seq<u8>, t: Token) -> Seq<u8> {
    match t {
        Token::Lit(b) => out.push(b),
        Token::Match { dist, len } => copy_append(out, len, dist),
    }
}

/// The output after a sequence of tokens, applied left to right.
pub open spec fn apply_tokens(out: Seq<u8>, ts: Seq<Token>) -> Seq<u8>
    decreases ts.len(),
{
    if ts.len() == 0 {
        out
    } else {
        apply_tokens(apply_token(out, ts[0]), ts.drop_first())
    }
}

/// Every token is within bounds, and no back-reference reaches behind
/// the start of the output it is applied to (`out_len` bytes when the
/// first token runs).
pub open spec fn tokens_ok(ts: Seq<Token>, out_len: int) -> bool
    decreases ts.len(),
{
    if ts.len() == 0 {
        true
    } else {
        tok_ok(ts[0], out_len) && tokens_ok(ts.drop_first(), out_len + tok_out_len(ts[0]))
    }
}

/// Total number of output bytes a token sequence produces.
pub open spec fn toks_out_len(ts: Seq<Token>) -> int
    decreases ts.len(),
{
    if ts.len() == 0 {
        0
    } else {
        tok_out_len(ts[0]) + toks_out_len(ts.drop_first())
    }
}

/// A token within the format's bounds alone, regardless of how much
/// output precedes it.
pub open spec fn tok_bounds(t: Token) -> bool {
    match t {
        Token::Lit(_) => true,
        Token::Match { dist, len } => 3 <= len <= 18 && 1 <= dist <= 4096,
    }
}

/// Sequential well-formedness bounds every single token.
pub proof fn lemma_tokens_ok_bounds(ts: Seq<Token>, out_len: int)
    requires
        tokens_ok(ts, out_len),
    ensures
        forall|k: int| 0 <= k < ts.len() ==> tok_bounds(#[trigger] ts[k]),
    decreases ts.len(),
{
    if ts.len() > 0 {
        lemma_tokens_ok_bounds(ts.drop_first(), out_len + tok_out_len(ts[0]));
        assert forall|k: int| 0 <= k < ts.len() implies tok_bounds(#[trigger] ts[k]) by {
            if k > 0 {
                assert(ts.drop_first()[k - 1] == ts[k]);
                assert(tok_bounds(ts.drop_first()[k - 1]));
            }
        }
    }
}

pub proof fn lemma_copy_append_len(out: Seq<u8>, n: int, d: int)
    requires
        n >= 0,
    ensures
        copy_append(out, n, d).len() == out.len() + n,
    decreases n,
{
    if n > 0 {
        lemma_copy_append_len(out.push(out[out.len() - d]), n - 1, d);
    }
}

pub proof fn lemma_apply_token_len(out: Seq<u8>, t: Token)
    requires
        tok_ok(t, out.len() as int),
    ensures
        apply_token(out, t).len() == out.len() + tok_out_len(t),
        tok_out_len(t) >= 1,
{
    if let Token::Match { dist, len } = t {
        lemma_copy_append_len(out, len, dist);
    }
}

pub proof fn lemma_apply_tokens_len(out: Seq<u8>, ts: Seq<Token>)
    requires
        tokens_ok(ts, out.len() as int),
    ensures
        apply_tokens(out, ts).len() == out.len() + toks_out_len(ts),
        toks_out_len(ts) >= 0,
    decreases ts.len(),
{
    if ts.len() > 0 {
        lemma_apply_token_len(out, ts[0]);
        lemma_apply_tokens_len(apply_token(out, ts[0]), ts.drop_first());
    }
}

pub proof fn lemma_apply_tokens_concat(out: Seq<u8>, a: Seq<Token>, b: Seq<Token>)
    ensures
        apply_tokens(out, a + b) == apply_tokens(apply_tokens(out, a), b),
    decreases a.len(),
{
    if a.len() == 0 {
        assert(a + b == b);
    } else {
        assert((a + b)[0] == a[0]);
        assert((a + b).drop_first() == a.drop_first() + b);
        lemma_apply_tokens_concat(apply_token(out, a[0]), a.drop_first(), b);
    }
}

/// A well-formed sequence splits at any point into two well-formed
/// parts, the second applicable after the first has produced its bytes.
pub proof fn lemma_tokens_ok_split(ts: Seq<Token>, k: int, out_len: int)
    requires
        tokens_ok(ts, out_len),
        0 <= k <= ts.len(),
    ensures
        tokens_ok(ts.take(k), out_len),
        tokens_ok(ts.skip(k), out_len + toks_out_len(ts.take(k))),
    decreases k,
{
    if k == 0 {
        assert(ts.skip(0) == ts);
    } else {
        assert(ts.take(k)[0] == ts[0]);
        assert(ts.take(k).drop_first() == ts.drop_first().take(k - 1));
        assert(ts.skip(k) == ts.drop_first().skip(k - 1));
        lemma_tokens_ok_split(ts.drop_first(), k - 1, out_len + tok_out_len(ts[0]));
    }
}

} // verus!
