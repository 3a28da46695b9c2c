//! The hash-chain index and the match finder.
//!
//! `link_matches` builds, in one forward pass, a backward-link array:
//! `link[j]` is the distance back to the nearest earlier position with
//! the same 2-byte prefix as `j`, or 0 when there is none. Following
//! `i -= link[i]` walks all such earlier positions, nearest first.
//! A predecessor at position 0 is stored as 0 and so reads as "none";
//! this quirk of the scheme is kept deliberately, so that the output
//! stays byte-identical to streams produced by earlier encoders.
//!
//! `best_match` walks that chain from a position `j`, bounded by the
//! 4096-byte window, and returns the longest match found, the nearest
//! candidate winning ties.

use vstd::prelude::*;

verus! {

/// Positions `p` and `j` start with the same two bytes.
pub open spec fn same_pair(data: Seq<u8>, p: int, j: int) -> bool {
    data[p] == data[j] && data[p + 1] == data[j + 1]
}

/// The 16-bit bucket a position's 2-byte prefix falls into.
pub open spec fn pair_hash(data: Seq<u8>, p: int) -> int {
    data[p] * 256 + data[p + 1]
}

/// The largest `p` in `[1, b)` with the same 2-byte prefix as `j`, or 0
/// when there is none. Position 0 is never reported: a stored position
/// of 0 is the same as "none" (the preserved quirk).
pub open spec fn nearest_pair(data: Seq<u8>, j: int, b: int) -> int
    decreases b,
{
    if b <= 1 {
        0
    } else if same_pair(data, b - 1, j) {
        b - 1
    } else {
        nearest_pair(data, j, b - 1)
    }
}

/// The backward link of position `j`: distance back to the nearest
/// earlier position (other than 0) with the same 2-byte prefix, or 0.
/// The last position has no 2-byte prefix and always links to 0.
pub open spec fn link_value(data: Seq<u8>, j: int) -> int {
    if 0 <= j < data.len() - 1 {
        let m = nearest_pair(data, j, j);
        if m == 0 {
            0
        } else {
            j - m
        }
    } else {
        0
    }
}

/// The whole backward-link array for a buffer.
pub open spec fn link_seq(data: Seq<u8>) -> Seq<usize> {
    Seq::new(data.len(), |j: int| link_value(data, j) as usize)
}

/// One step of the common-prefix scan between positions `i` and `j`,
/// already `n` bytes in: stops at 18 bytes, at the end of the buffer,
/// or at the first difference.
pub open spec fn prefix_len_from(data: Seq<u8>, i: int, j: int, n: int) -> int
    decreases 18 - n,
{
    if n < 0 || n >= 18 || j + n >= data.len() || data[i + n] != data[j + n] {
        n
    } else {
        prefix_len_from(data, i, j, n + 1)
    }
}

/// The common-prefix length of `data[i..]` and `data[j..]`, capped at
/// 18 and at the bytes remaining after `j`.
pub open spec fn prefix_len(data: Seq<u8>, i: int, j: int) -> int {
    prefix_len_from(data, i, j, 0)
}

/// The chain walk of the match finder: from candidate `i`, with the
/// best (distance, length) so far, following links until a link of 0
/// or the 4096-byte window boundary. Strict improvement is required,
/// so the nearest candidate attaining a length wins ties.
pub open spec fn walk_best(
    data: Seq<u8>,
    links: Seq<usize>,
    j: int,
    i: int,
    bd: int,
    bl: int,
) -> (int, int)
    decreases i,
{
    if !(0 <= i < j) {
        (bd, bl)
    } else if j - i > 4096 {
        (bd, bl)
    } else {
        let n = prefix_len(data, i, j);
        let bd2 = if n > bl {
            j - i
        } else {
            bd
        };
        let bl2 = if n > bl {
            n
        } else {
            bl
        };
        if links[i] as int == 0 || links[i] as int > i {
            (bd2, bl2)
        } else {
            walk_best(data, links, j, i - links[i] as int, bd2, bl2)
        }
    }
}

/// The match the finder returns at position `j`: (0, 0) when the chain
/// is empty, else the walk's best.
pub open spec fn spec_best_match(data: Seq<u8>, links: Seq<usize>, j: int) -> (int, int) {
    if 0 <= j < links.len() && links[j] as int != 0 {
        walk_best(data, links, j, j - links[j] as int, 0, 0)
    } else {
        (0, 0)
    }
}

/// A usable match at position `j`: within the window and length
/// bounds, reaching only into `data[..j]`, and actually matching the
/// bytes at `j` (so an overlapping copy of it reproduces them).
pub open spec fn good_match(data: Seq<u8>, j: int, d: int, l: int) -> bool {
    &&& 1 <= d <= 4096
    &&& d <= j
    &&& 1 <= l <= 18
    &&& j + l <= data.len()
    &&& forall|k: int| 0 <= k < l ==> data[j - d + k] == #[trigger] data[j + k]
}

proof fn lemma_prefix_from_props(data: Seq<u8>, i: int, j: int, n0: int)
    requires
        0 <= n0 <= 18,
    ensures
        ({
            let n = prefix_len_from(data, i, j, n0);
            &&& n0 <= n <= 18
            &&& (n > n0 ==> j + n <= data.len())
            &&& forall|k: int| n0 <= k < n ==> data[i + k] == #[trigger] data[j + k]
        }),
    decreases 18 - n0,
{
    if !(n0 < 0 || n0 >= 18 || j + n0 >= data.len() || data[i + n0] != data[j + n0]) {
        lemma_prefix_from_props(data, i, j, n0 + 1);
    }
}

pub proof fn lemma_prefix_len_props(data: Seq<u8>, i: int, j: int)
    ensures
        ({
            let n = prefix_len(data, i, j);
            &&& 0 <= n <= 18
            &&& (n >= 1 ==> j + n <= data.len())
            &&& forall|k: int| 0 <= k < n ==> data[i + k] == #[trigger] data[j + k]
        }),
{
    lemma_prefix_from_props(data, i, j, 0);
}

/// Whatever the links hold, the walk only ever returns its starting
/// best or a usable match, never a worse length; and any improvement
/// is the prefix length of some candidate inside the window.
pub proof fn lemma_walk_best_props(
    data: Seq<u8>,
    links: Seq<usize>,
    j: int,
    i: int,
    bd: int,
    bl: int,
)
    requires
        (bd == 0 && bl == 0) || good_match(data, j, bd, bl),
    ensures
        ({
            let r = walk_best(data, links, j, i, bd, bl);
            &&& (r.0 == bd && r.1 == bl) || good_match(data, j, r.0, r.1)
            &&& r.1 >= bl
            &&& (r.1 == bl ==> r.0 == bd)
            &&& (r.1 > bl ==> exists|c: int|
                0 <= c < j && j - c <= 4096 && r.1 == prefix_len(data, c, j) && r.0 == j - c)
        }),
    decreases i,
{
    if 0 <= i < j && j - i <= 4096 {
        lemma_prefix_len_props(data, i, j);
        let n = prefix_len(data, i, j);
        let bd2 = if n > bl {
            j - i
        } else {
            bd
        };
        let bl2 = if n > bl {
            n
        } else {
            bl
        };
        if n > bl {
            assert(good_match(data, j, bd2, bl2));
            assert(0 <= i < j && j - i <= 4096 && bl2 == prefix_len(data, i, j) && bd2 == j - i);
        }
        let r = walk_best(data, links, j, i, bd, bl);
        if links[i] as int == 0 || links[i] as int > i {
            assert(r == (bd2, bl2));
        } else {
            lemma_walk_best_props(data, links, j, i - links[i] as int, bd2, bl2);
            assert(r == walk_best(data, links, j, i - links[i] as int, bd2, bl2));
        }
        if r.1 > bl && r.1 == bl2 && n > bl {
            assert(r.0 == bd2 == j - i && r.1 == prefix_len(data, i, j));
        }
    }
}

/// The finder's result is (0, 0) or a usable match.
pub proof fn lemma_best_match_good(data: Seq<u8>, links: Seq<usize>, j: int)
    ensures
        ({
            let r = spec_best_match(data, links, j);
            (r.0 == 0 && r.1 == 0) || good_match(data, j, r.0, r.1)
        }),
{
    if 0 <= j < links.len() && links[j] as int != 0 {
        lemma_walk_best_props(data, links, j, j - links[j] as int, 0, 0);
    }
}

/// Literal fallback: when no candidate in the window shares more than
/// two bytes with position `j`, the finder reports no usable match and
/// the encoder falls back to a literal.
pub proof fn lemma_literal_fallback(data: Seq<u8>, links: Seq<usize>, j: int)
    requires
        forall|c: int| 0 <= c < j && j - c <= 4096 ==> prefix_len(data, c, j) <= 2,
    ensures
        spec_best_match(data, links, j).1 <= 2,
{
    if 0 <= j < links.len() && links[j] as int != 0 {
        lemma_walk_best_props(data, links, j, j - links[j] as int, 0, 0);
    }
}

proof fn lemma_nearest_pair_props(data: Seq<u8>, j: int, b: int)
    ensures
        ({
            let m = nearest_pair(data, j, b);
            &&& 0 <= m
            &&& (m != 0 ==> 1 <= m < b && same_pair(data, m, j))
            &&& forall|p: int| 1 <= p < b && m < p ==> !same_pair(data, p, j)
        }),
    decreases b,
{
    if b > 1 && !same_pair(data, b - 1, j) {
        lemma_nearest_pair_props(data, j, b - 1);
    }
}

/// The links never reach back before position 0, so every chain walk
/// stays inside the buffer.
pub proof fn lemma_link_seq_wf(data: Seq<u8>)
    requires
        data.len() <= usize::MAX,
    ensures
        link_seq(data).len() == data.len(),
        forall|j: int|
            0 <= j < data.len() ==> link_seq(data)[j] as int == link_value(data, j) && 0
                <= link_value(data, j) <= j,
{
    assert forall|j: int| 0 <= j < data.len() implies link_seq(data)[j] as int == link_value(
        data,
        j,
    ) && 0 <= link_value(data, j) <= j by {
        lemma_nearest_pair_props(data, j, j);
    }
}

/// A value known to be the nearest same-prefix predecessor is what
/// `nearest_pair` computes.
proof fn lemma_nearest_pair_determined(data: Seq<u8>, j: int, b: int, m: int)
    requires
        0 <= m,
        m < b || m == 0,
        m >= 1 ==> same_pair(data, m, j),
        forall|p: int| 1 <= p < b && m < p ==> !same_pair(data, p, j),
    ensures
        nearest_pair(data, j, b) == m,
    decreases b,
{
    if b <= 1 {
    } else if same_pair(data, b - 1, j) {
        assert(m == b - 1);
    } else {
        assert(m != b - 1);
        lemma_nearest_pair_determined(data, j, b - 1, m);
    }
}

/// The bucket of a position determines its 2-byte prefix: the bucket
/// index is built injectively from the two raw byte values.
proof fn lemma_pair_hash_same(data: Seq<u8>, p: int, j: int)
    ensures
        same_pair(data, p, j) <==> pair_hash(data, p) == pair_hash(data, j),
{
}

/// What one bucket of the scratch table holds after the positions
/// before `j` have been recorded: the latest position in `[1, j)` that
/// hashes to `h`, or 0 when there is none (position 0 collapses into
/// "none").
pub open spec fn bucket_ok(data: Seq<u8>, p: int, h: int, j: int) -> bool {
    if p == 0 {
        forall|q: int| 1 <= q < j ==> pair_hash(data, q) != h
    } else {
        &&& 1 <= p < j
        &&& pair_hash(data, p) == h
        &&& forall|q: int| p < q < j ==> pair_hash(data, q) != h
    }
}

/// Build the backward-link array for `data` in one forward pass, using
/// a 65536-bucket table from 2-byte prefix to the latest position seen.
pub fn link_matches(data: &[u8]) -> (r: Vec<usize>)
    ensures
        r@ == link_seq(data@),
{
    let n = data.len();
    let mut offsets: Vec<usize> = Vec::new();
    let mut k: usize = 0;
    while k < n
        invariant
            offsets.len() == k,
            k <= n,
            forall|q: int| 0 <= q < k ==> offsets@[q] == 0usize,
        decreases n - k,
    {
        offsets.push(0);
        k += 1;
    }
    if n == 0 {
        assert(offsets@ =~= link_seq(data@));
        return offsets;
    }
    let mut prev: Vec<usize> = Vec::new();
    let mut k: usize = 0;
    while k < 65536
        invariant
            prev.len() == k,
            k <= 65536,
            forall|h: int| 0 <= h < k ==> prev@[h] == 0usize,
        decreases 65536 - k,
    {
        prev.push(0);
        k += 1;
    }
    let mut j: usize = 0;
    while j + 1 < n
        invariant
            n == data.len(),
            1 <= n,
            j < n,
            offsets.len() == n,
            prev.len() == 65536,
            forall|h: int| 0 <= h < 65536 ==> bucket_ok(data@, prev@[h] as int, h, j as int),
            forall|q: int| 0 <= q < j ==> offsets@[q] as int == link_value(data@, q),
            forall|q: int| j <= q < n ==> offsets@[q] == 0usize,
        decreases n - j,
    {
        let h: usize = (data[j] as usize) * 256 + (data[j + 1] as usize);
        assert(h as int == pair_hash(data@, j as int));
        let p = prev[h];
        proof {
            assert(bucket_ok(data@, p as int, h as int, j as int));
            assert forall|q: int| 1 <= q < j && (if p == 0 {
                0int
            } else {
                p as int
            }) < q implies !same_pair(data@, q, j as int) by {
                lemma_pair_hash_same(data@, q, j as int);
            }
            if p != 0 {
                lemma_pair_hash_same(data@, p as int, j as int);
            }
            lemma_nearest_pair_determined(data@, j as int, j as int, p as int);
        }
        if p != 0 {
            offsets.set(j, j - p);
        }
        prev.set(h, j);
        assert forall|hh: int| 0 <= hh < 65536 implies bucket_ok(
            data@,
            prev@[hh] as int,
            hh,
            j as int + 1,
        ) by {
            if hh != h as int {
                assert(pair_hash(data@, j as int) != hh);
            }
        }
        j += 1;
    }
    proof {
        assert(j == n - 1);
        assert(offsets@ =~= link_seq(data@));
    }
    offsets
}

/// The common-prefix length of `data[i..]` and `data[j..]`, capped at
/// 18 bytes and at the end of the buffer.
pub fn match_length(data: &[u8], i: usize, j: usize) -> (n: usize)
    requires
        i < j,
        j <= data.len(),
    ensures
        n as int == prefix_len(data@, i as int, j as int),
        n <= 18,
{
    let mut n: usize = 0;
    while n < 18 && n < data.len() - j && data[i + n] == data[j + n]
        invariant
            i < j,
            j <= data.len(),
            n <= 18,
            prefix_len(data@, i as int, j as int) == prefix_len_from(
                data@,
                i as int,
                j as int,
                n as int,
            ),
        decreases 18 - n,
    {
        n += 1;
    }
    n
}

/// The longest match for position `j` among the chain's candidates
/// within the window, nearest candidate winning ties; (0, 0) when none
/// is usable.
pub fn best_match(data: &[u8], offsets: &[usize], j: usize) -> (r: (usize, usize))
    requires
        offsets@ == link_seq(data@),
        j < data.len(),
    ensures
        r.0 as int == spec_best_match(data@, offsets@, j as int).0,
        r.1 as int == spec_best_match(data@, offsets@, j as int).1,
        (r.0 == 0 && r.1 == 0) || good_match(data@, j as int, r.0 as int, r.1 as int),
    {
    proof {
        lemma_best_match_good(data@, offsets@, j as int);
        lemma_link_seq_wf(data@);
    }
    let ghost goal = spec_best_match(data@, offsets@, j as int);
    if offsets[j] == 0 {
        (0, 0)
    } else {
        let mut i: usize = j - offsets[j];
        let mut bd: usize = 0;
        let mut bl: usize = 0;
        let mut stop: bool = false;
        while !stop && j - i <= 4096
            invariant
                offsets@ == link_seq(data@),
                j < data.len(),
                i < j,
                bl <= 18,
                bd <= j,
                if stop {
                    goal == (bd as int, bl as int)
                } else {
                    goal == walk_best(data@, offsets@, j as int, i as int, bd as int, bl as int)
                },
            decreases (if stop { 0int } else { 1int }) + i,
        {
            let n = match_length(data, i, j);
            if n > bl {
                bd = j - i;
                bl = n;
            }
            if offsets[i] == 0 {
                stop = true;
            } else {
                proof {
                    lemma_link_seq_wf(data@);
                    assert(offsets@[i as int] as int <= i as int);
                }
                i = i - offsets[i];
            }
        }
        (bd, bl)
    }
}

} // verus!
