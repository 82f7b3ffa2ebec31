//! What the training queue counts: for every pair of tokens that the
//! training starts with, the count the queue holds is the weighted number
//! of places where the pair stands in the pieces as they are after the
//! merges made so far (wrapping at 2^32, as the counts do).

use vstd::prelude::*;

use crate::token_type::TokenType;
use crate::tokenizer::arena_list::{in_order, rank_in};
use crate::tokenizer::pair_queue::{lowered_in, TokenPair};
use crate::tokenizer::train::{
    decremented, fused, ids, key_of, lemma_key_of_injective, lowered_by, merge_all, merge_step,
    next_of, pair_of, prev_of, queue_of, queue_top, recorded, recorded_all, start_state,
    state_entries, train_run, train_step, weight, wrap_add, MergeState, PieceState, TrainState,
    distinct_chunks, fresh_piece, learned_merges, start_pieces, start_scales,
};
use crate::prepare::{chunks_spec, normalize_spec};
use crate::tokenizer::encode_ids;

verus! {

/// The tokens at `i` and `i + 1` of `v` are the pair `p`.
pub open spec fn pair_at_is<T: TokenType>(v: Seq<T>, i: int, p: TokenPair) -> bool {
    ids((v[i], v[i + 1])) == p
}

/// How many of the places `lo..hi` of `v` hold the pair `p`.
pub open spec fn count_between<T: TokenType>(v: Seq<T>, p: TokenPair, lo: int, hi: int) -> nat
    decreases hi - lo,
{
    if hi <= lo {
        0
    } else {
        count_between(v, p, lo, hi - 1) + (if pair_at_is(v, hi - 1, p) {
            1nat
        } else {
            0nat
        })
    }
}

/// How many times `p` stands as two neighbouring tokens of `v`.
pub open spec fn occurrences_in<T: TokenType>(v: Seq<T>, p: TokenPair) -> nat {
    count_between(v, p, 0, v.len() - 1)
}

/// The occurrences of `p` in the first `n` pieces, each piece counted as
/// many times as its scale says.
pub open spec fn weighted_count<T: TokenType>(
    pieces: Seq<PieceState<T>>,
    scales: Seq<u32>,
    p: TokenPair,
    n: int,
) -> int
    decreases n,
{
    if n <= 0 {
        0
    } else {
        weighted_count(pieces, scales, p, n - 1) + scales[n - 1] * occurrences_in(
            pieces[n - 1].1,
            p,
        )
    }
}

/// How often the pair `p` stands in the pieces: its occurrences in each
/// piece times how often the piece occurs in the text.
pub open spec fn pair_frequency<T: TokenType>(
    pieces: Seq<PieceState<T>>,
    scales: Seq<u32>,
    p: TokenPair,
) -> int {
    weighted_count(pieces, scales, p, pieces.len() as int)
}

/// A piece whose slots are listed in increasing order, one token each.
pub open spec fn piece_ok<T>(ps: PieceState<T>) -> bool {
    &&& ps.0.len() == ps.1.len()
    &&& forall|a: int, b: int| 0 <= a < b < ps.0.len() ==> ps.0[a] < ps.0[b]
}

/// Every piece is as `piece_ok` says.
pub open spec fn pieces_ok<T>(pieces: Seq<PieceState<T>>) -> bool {
    forall|i: int| 0 <= i < pieces.len() ==> piece_ok(#[trigger] pieces[i])
}

proof fn lemma_count_split<T: TokenType>(v: Seq<T>, p: TokenPair, lo: int, mid: int, hi: int)
    requires
        lo <= mid <= hi,
    ensures
        count_between(v, p, lo, hi) == count_between(v, p, lo, mid) + count_between(v, p, mid, hi),
    decreases hi - mid,
{
    if hi > mid {
        lemma_count_split(v, p, lo, mid, hi - 1);
    }
}

proof fn lemma_count_shift<T: TokenType>(v: Seq<T>, w: Seq<T>, p: TokenPair, lo: int, hi: int, d: int)
    requires
        forall|i: int| lo <= i < hi ==> pair_at_is(v, i, p) == pair_at_is(w, i + d, p),
    ensures
        count_between(v, p, lo, hi) == count_between(w, p, lo + d, hi + d),
    decreases hi - lo,
{
    if hi > lo {
        lemma_count_shift(v, w, p, lo, hi - 1, d);
        assert(pair_at_is(v, hi - 1, p) == pair_at_is(w, hi - 1 + d, p));
        assert(count_between(w, p, lo + d, hi + d) == count_between(w, p, lo + d, hi + d - 1) + (
        if pair_at_is(w, hi + d - 1, p) {
            1nat
        } else {
            0nat
        }));
    }
}

/// Fusing the tokens at `r` and `r + 1` (a pair other than `p`) into a new
/// token that `p` does not hold loses the occurrences of `p` just before
/// and just after them, and no others.
proof fn lemma_fuse_occurrences<T: TokenType>(v: Seq<T>, r: int, tok: T, p: TokenPair)
    requires
        0 <= r,
        r + 1 < v.len(),
        !pair_at_is(v, r, p),
        p.0 != tok.index_view() as usize,
        p.1 != tok.index_view() as usize,
    ensures
        occurrences_in(v, p) == occurrences_in(v.update(r, tok).remove(r + 1), p) + (if r >= 1
            && pair_at_is(v, r - 1, p) {
            1nat
        } else {
            0nat
        }) + (if r + 2 < v.len() && pair_at_is(v, r + 1, p) {
            1nat
        } else {
            0nat
        }),
{
    reveal_with_fuel(count_between, 2);
    let n = v.len() as int;
    let w = v.update(r, tok).remove(r + 1);
    assert(w.len() == n - 1);
    assert forall|i: int| 0 <= i < r implies w[i] == v[i] by {}
    assert forall|i: int| r + 1 <= i < n - 1 implies w[i] == v[i + 1] by {}
    assert(w[r] == tok);
    let prev: nat = if r >= 1 && pair_at_is(v, r - 1, p) {
        1
    } else {
        0
    };
    let next: nat = if r + 2 < n && pair_at_is(v, r + 1, p) {
        1
    } else {
        0
    };
    // the places before the fused tokens, and the one just before them
    let front = if r >= 1 {
        r - 1
    } else {
        0
    };
    assert forall|i: int| 0 <= i < front implies pair_at_is(v, i, p) == pair_at_is(w, i + 0, p) by {}
    lemma_count_shift(v, w, p, 0, front, 0);
    lemma_count_split(v, p, 0, front, n - 1);
    lemma_count_split(w, p, 0, front, n - 2);
    if r >= 1 {
        lemma_count_split(v, p, r - 1, r, n - 1);
        assert(count_between(v, p, r - 1, r) == prev);
        assert(!pair_at_is(w, r - 1, p));
        lemma_count_split(w, p, r - 1, r, n - 2);
        assert(count_between(w, p, r - 1, r) == 0);
    }
    // the fused place
    lemma_count_split(v, p, r, r + 1, n - 1);
    assert(count_between(v, p, r, r + 1) == 0);
    // the places after
    if r + 2 < n {
        lemma_count_split(v, p, r + 1, r + 2, n - 1);
        assert(count_between(v, p, r + 1, r + 2) == next);
        assert(!pair_at_is(w, r, p));
        lemma_count_split(w, p, r, r + 1, n - 2);
        assert(count_between(w, p, r, r + 1) == 0);
        assert forall|i: int| r + 1 <= i < n - 2 implies pair_at_is(w, i, p) == pair_at_is(
            v,
            i + 1,
            p,
        ) by {}
        lemma_count_shift(w, v, p, r + 1, n - 2, 1);
        assert(count_between(v, p, r + 1, n - 1) == next + count_between(v, p, r + 2, n - 1));
        assert(count_between(w, p, r, n - 2) == count_between(w, p, r + 1, n - 2));
    } else {
        assert(count_between(v, p, r + 1, n - 1) == 0);
        assert(count_between(w, p, r, n - 2) == 0);
    }
    assert(occurrences_in(v, p) == count_between(v, p, 0, n - 1));
    assert(occurrences_in(w, p) == count_between(w, p, 0, n - 2));
}

/// Replacing piece `j` changes the weighted count by what that piece's
/// count changes, times its scale.
proof fn lemma_weighted_update<T: TokenType>(
    pieces: Seq<PieceState<T>>,
    scales: Seq<u32>,
    p: TokenPair,
    j: int,
    x: PieceState<T>,
    n: int,
)
    requires
        0 <= j < pieces.len(),
        n <= pieces.len(),
    ensures
        weighted_count(pieces.update(j, x), scales, p, n) == weighted_count(pieces, scales, p, n)
            + (if j < n {
            scales[j] * occurrences_in(x.1, p) - scales[j] * occurrences_in(pieces[j].1, p)
        } else {
            0
        }),
    decreases n,
{
    if n > 0 {
        lemma_weighted_update(pieces, scales, p, j, x, n - 1);
    }
}

/// The amount that a map of counts to lower holds for `p` (none: zero).
pub open spec fn lowered_amount(d: Map<u128, (TokenPair, u32)>, p: TokenPair) -> int {
    if d.contains_key(key_of(p) as u128) {
        d[key_of(p) as u128].1 as int
    } else {
        0
    }
}

/// Every entry sits under the key of its pair, and that pair holds the id
/// `t`.
pub open spec fn keyed_with<V>(m: Map<u128, (TokenPair, V)>, t: usize) -> bool {
    forall|k: u128|
        #[trigger] m.contains_key(k) ==> k == key_of(m[k].0) && (m[k].0.0 == t || m[k].0.1 == t)
}

/// Two pairs under one key are one pair.
proof fn lemma_key_cast_injective(p: TokenPair, q: TokenPair)
    requires
        key_of(p) as u128 == key_of(q) as u128,
    ensures
        p == q,
{
    assert(0 <= key_of(p) < 0x1_0000_0000_0000_0000_0000_0000_0000_0000) by (nonlinear_arith)
        requires
            0 <= p.0 < 0x1_0000_0000_0000_0000,
            0 <= p.1 < 0x1_0000_0000_0000_0000,
            key_of(p) == p.0 * 0x1_0000_0000_0000_0000 + p.1,
    ;
    assert(0 <= key_of(q) < 0x1_0000_0000_0000_0000_0000_0000_0000_0000) by (nonlinear_arith)
        requires
            0 <= q.0 < 0x1_0000_0000_0000_0000,
            0 <= q.1 < 0x1_0000_0000_0000_0000,
            key_of(q) == q.0 * 0x1_0000_0000_0000_0000 + q.1,
    ;
    lemma_key_of_injective(p, q);
}

/// A map keyed by pairs that hold `t` has no entry for a pair that does not.
proof fn lemma_fresh_absent<V>(m: Map<u128, (TokenPair, V)>, t: usize, p: TokenPair)
    requires
        keyed_with(m, t),
        p.0 != t,
        p.1 != t,
    ensures
        !m.contains_key(key_of(p) as u128),
{
    let k = key_of(p) as u128;
    if m.contains_key(k) {
        let q = m[k].0;
        assert(k == key_of(q));
        assert(key_of(q) as u128 == k);
        lemma_key_cast_injective(p, q);
    }
}

/// Recording a pair that holds `t` keeps the map keyed by such pairs.
proof fn lemma_recorded_fresh(
    m: Map<u128, (TokenPair, Seq<(usize, usize)>)>,
    q: TokenPair,
    at: (usize, usize),
    t: usize,
)
    requires
        keyed_with(m, t),
        q.0 == t || q.1 == t,
    ensures
        keyed_with(recorded(m, q, at), t),
{
    let r = recorded(m, q, at);
    let kq = key_of(q) as u128;
    assert(0 <= key_of(q) < 0x1_0000_0000_0000_0000_0000_0000_0000_0000) by (nonlinear_arith)
        requires
            0 <= q.0 < 0x1_0000_0000_0000_0000,
            0 <= q.1 < 0x1_0000_0000_0000_0000,
            key_of(q) == q.0 * 0x1_0000_0000_0000_0000 + q.1,
    ;
    assert forall|k: u128| #[trigger] r.contains_key(k) implies k == key_of(r[k].0) && (r[k].0.0
        == t || r[k].0.1 == t) by {
        if k != kq {
            assert(m.contains_key(k));
            assert(r[k] == m[k]);
        } else if m.contains_key(kq) {
            assert(r[k].0 == m[k].0);
        } else {
            assert(r[k].0 == q);
        }
    }
}

/// Adding to the count to lower of `q` adds, wrapping, to what is held for
/// `p` exactly when `q` is `p`.
proof fn lemma_decremented_amount(m: Map<u128, (TokenPair, u32)>, q: TokenPair, by: u32, p: TokenPair)
    ensures
        lowered_amount(decremented(m, q, by), p) == if q == p {
            (lowered_amount(m, p) + by) % 0x1_0000_0000
        } else {
            lowered_amount(m, p)
        },
{
    let kp = key_of(p) as u128;
    let kq = key_of(q) as u128;
    let a = lowered_amount(m, p);
    assert(0 <= a < 0x1_0000_0000);
    if q == p {
        if m.contains_key(kq) {
            let x = m[kq].1;
            assert(wrap_add(x, by) == (x + by) % 0x1_0000_0000);
        } else {
            assert((by as int) % 0x1_0000_0000 == by as int);
        }
    } else {
        if kq == kp {
            lemma_key_cast_injective(p, q);
        }
    }
}

/// What one merge step does to the count of a pair `p` that is neither the
/// merged pair nor holds the new token: the occurrences it loses in the
/// pieces are the amount it adds to the counts to lower.
proof fn lemma_merge_step_counts<T: TokenType>(
    st: MergeState<T>,
    scales: Seq<u32>,
    at: (usize, usize),
    pair: TokenPair,
    token: T,
    p: TokenPair,
)
    requires
        pieces_ok(st.0),
        st.0.len() <= scales.len(),
        keyed_with(st.2, token.index_view() as usize),
        p.0 != token.index_view() as usize,
        p.1 != token.index_view() as usize,
        p != pair,
    ensures
        ({
            let nx = merge_step(st, scales, at, pair, token);
            &&& pieces_ok(nx.0)
            &&& nx.0.len() == st.0.len()
            &&& keyed_with(nx.2, token.index_view() as usize)
            &&& (pair_frequency(nx.0, scales, p) + lowered_amount(nx.1, p)) % 0x1_0000_0000 == (
            pair_frequency(st.0, scales, p) + lowered_amount(st.1, p)) % 0x1_0000_0000
        }),
{
    let t = token.index_view() as usize;
    let pieces = st.0;
    let pid = at.0 as int;
    let pos = at.1 as int;
    let nx = merge_step(st, scales, at, pair, token);
    if pid < pieces.len() && pid < scales.len() {
        let ps = pieces[pid];
        if let Some(found) = pair_of(ps, pos) {
            if ids(found) == pair {
                assert(piece_ok(ps));
                let order = ps.0;
                let v = ps.1;
                let r = rank_in(order, pos);
                assert(in_order(order, pos));
                assert(0 <= r < order.len() && order[r] == pos);
                assert(r + 1 < v.len());
                assert(found == (v[r], v[r + 1]));
                assert(!pair_at_is(v, r, p));
                let scale = scales[pid];
                let ps2 = fused(ps, pos, token);
                let w = ps2.1;
                assert(w == v.update(r, token).remove(r + 1));
                lemma_fuse_occurrences(v, r, token, p);
                let prev: nat = if r >= 1 && pair_at_is(v, r - 1, p) {
                    1
                } else {
                    0
                };
                let next: nat = if r + 2 < v.len() && pair_at_is(v, r + 1, p) {
                    1
                } else {
                    0
                };
                let ov = occurrences_in(v, p);
                let ow = occurrences_in(w, p);
                assert(scale * ov == scale * ow + scale * prev + scale * next) by (nonlinear_arith)
                    requires
                        ov == ow + prev + next,
                ;
                lemma_weighted_update(pieces, scales, p, pid, ps2, pieces.len() as int);
                // the counts to lower
                let d0 = lowered_amount(st.1, p);
                let dec1 = match prev_of(ps, pos) {
                    Some((xa, _)) => decremented(st.1, ids(xa), scale),
                    None => st.1,
                };
                let dec2 = match next_of(ps, pos) {
                    Some((by, _)) => decremented(dec1, ids(by), scale),
                    None => dec1,
                };
                assert(0 <= d0 < 0x1_0000_0000);
                let d1 = lowered_amount(dec1, p);
                match prev_of(ps, pos) {
                    Some((xa, _)) => {
                        assert(r > 0 && xa == (v[r - 1], v[r]));
                        lemma_decremented_amount(st.1, ids(xa), scale, p);
                    },
                    None => {},
                }
                assert(d1 == (d0 + scale * prev) % 0x1_0000_0000);
                assert(0 <= d1 < 0x1_0000_0000);
                let d2 = lowered_amount(dec2, p);
                match next_of(ps, pos) {
                    Some((by, _)) => {
                        assert(r + 2 < order.len() && by == (v[r + 1], v[r + 2]));
                        lemma_decremented_amount(dec1, ids(by), scale, p);
                    },
                    None => {},
                }
                assert(d2 == (d1 + scale * next) % 0x1_0000_0000);
                let f0 = pair_frequency(pieces, scales, p);
                let f1 = pair_frequency(pieces.update(pid, ps2), scales, p);
                assert(f0 == f1 + scale * prev + scale * next);
                vstd::arithmetic::div_mod::lemma_add_mod_noop_right(
                    f1,
                    d1 + scale * next,
                    0x1_0000_0000,
                );
                vstd::arithmetic::div_mod::lemma_add_mod_noop_right(
                    f1 + scale * next,
                    d0 + scale * prev,
                    0x1_0000_0000,
                );
                assert(f1 + (d1 + scale * next) == (f1 + scale * next) + d1);
                assert((f1 + d2) % 0x1_0000_0000 == (f0 + d0) % 0x1_0000_0000);
                // the new piece is still in order
                let order2 = ps2.0;
                assert(order2 == order.remove(r + 1));
                assert forall|a: int, b: int| 0 <= a < b < order2.len() implies order2[a]
                    < order2[b] by {
                    let a1 = if a < r + 1 {
                        a
                    } else {
                        a + 1
                    };
                    let b1 = if b < r + 1 {
                        b
                    } else {
                        b + 1
                    };
                    assert(order2[a] == order[a1]);
                    assert(order2[b] == order[b1]);
                }
                assert(piece_ok(ps2));
                let pieces2 = pieces.update(pid, ps2);
                assert forall|i: int| 0 <= i < pieces2.len() implies piece_ok(#[trigger] pieces2[i]) by {
                    if i != pid {
                        assert(pieces2[i] == pieces[i]);
                    }
                }
                // the pairs made hold the new token
                assert(order2[r] == pos);
                assert(in_order(order2, pos));
                let r2 = rank_in(order2, pos);
                assert(0 <= r2 < order2.len() && order2[r2] == pos);
                if r2 != r {
                    if r2 < r {
                        assert(order2[r2] < order2[r]);
                    } else {
                        assert(order2[r] < order2[r2]);
                    }
                }
                assert(w[r] == token);
                let add1 = match prev_of(ps2, pos) {
                    Some((xt, xt_pos)) => recorded(st.2, ids(xt), (at.0, xt_pos)),
                    None => st.2,
                };
                match prev_of(ps2, pos) {
                    Some((xt, xt_pos)) => {
                        assert(xt == (w[r - 1], w[r]));
                        lemma_recorded_fresh(st.2, ids(xt), (at.0, xt_pos), t);
                    },
                    None => {},
                }
                match pair_of(ps2, pos) {
                    Some(ty) => {
                        assert(ty == (w[r], w[r + 1]));
                        lemma_recorded_fresh(add1, ids(ty), at, t);
                    },
                    None => {},
                }
            }
        }
    }
}

/// What a whole merge does to the count of such a pair.
proof fn lemma_merge_all_counts<T: TokenType>(
    st: MergeState<T>,
    scales: Seq<u32>,
    positions: Seq<(usize, usize)>,
    pair: TokenPair,
    token: T,
    p: TokenPair,
)
    requires
        pieces_ok(st.0),
        st.0.len() <= scales.len(),
        keyed_with(st.2, token.index_view() as usize),
        p.0 != token.index_view() as usize,
        p.1 != token.index_view() as usize,
        p != pair,
    ensures
        ({
            let m = merge_all(st, scales, positions, pair, token);
            &&& pieces_ok(m.0)
            &&& m.0.len() == st.0.len()
            &&& keyed_with(m.2, token.index_view() as usize)
            &&& (pair_frequency(m.0, scales, p) + lowered_amount(m.1, p)) % 0x1_0000_0000 == (
            pair_frequency(st.0, scales, p) + lowered_amount(st.1, p)) % 0x1_0000_0000
        }),
    decreases positions.len(),
{
    if positions.len() > 0 {
        lemma_merge_all_counts(st, scales, positions.drop_last(), pair, token, p);
        let m0 = merge_all(st, scales, positions.drop_last(), pair, token);
        lemma_merge_step_counts(m0, scales, positions.last(), pair, token, p);
    }
}

/// For every pair of ids below `base` that the queue of `st` holds, the
/// count it holds is how often the pair stands in the pieces of `st`
/// (wrapping at 2^32).
pub open spec fn counts_current<T: TokenType>(st: TrainState<T>, scales: Seq<u32>, base: int) -> bool {
    forall|p: TokenPair|
        p.0 < base && p.1 < base && #[trigger] st.2.contains_key(p) ==> st.2[p].0 as int
            == pair_frequency(st.0, scales, p) % 0x1_0000_0000
}

/// The pieces of `st` are in order and each has a scale.
pub open spec fn state_ok<T: TokenType>(st: TrainState<T>, scales: Seq<u32>) -> bool {
    pieces_ok(st.0) && st.0.len() <= scales.len()
}

/// One merge keeps the counts current.
proof fn lemma_train_step_counts<T: TokenType>(
    st: TrainState<T>,
    scales: Seq<u32>,
    len: int,
    base: int,
)
    requires
        state_ok(st, scales),
        counts_current(st, scales, base),
        base <= len <= T::index_limit(),
        len <= usize::MAX,
        queue_top(st.2).0 < len,
        queue_top(st.2).1 < len,
    ensures
        state_ok(train_step(st, scales, len), scales),
        counts_current(train_step(st, scales, len), scales, base),
{
    let token = T::token_of(len);
    T::lemma_token_of(len);
    let t = token.index_view() as usize;
    assert(t == len);
    let pair = queue_top(st.2);
    let k = key_of(pair) as u128;
    let positions = if st.1.contains_key(k) {
        st.1[k].1
    } else {
        Seq::empty()
    };
    let m0: MergeState<T> = (st.0, Map::empty(), Map::empty());
    let m = merge_all(m0, scales, positions, pair, token);
    let nx = train_step(st, scales, len);
    let c1 = st.2.remove(pair);
    assert(nx.2 == lowered_by(c1, m.1).union_prefer_right(queue_of(m.2, scales)));
    assert(keyed_with(m0.2, t));
    // the pieces: any pair will do for what the merge does to them
    let a: usize = if t == 0 {
        1
    } else {
        0
    };
    let b: usize = if a + 1 != t {
        (a + 1) as usize
    } else {
        (a + 2) as usize
    };
    let other: TokenPair = if pair == (a, a) {
        (a, b)
    } else {
        (a, a)
    };
    assert(other != pair && other.0 != t && other.1 != t);
    lemma_merge_all_counts(m0, scales, positions, pair, token, other);
    assert forall|p: TokenPair| p.0 < base && p.1 < base && #[trigger] nx.2.contains_key(p) implies nx.2[
        p].0 as int == pair_frequency(nx.0, scales, p) % 0x1_0000_0000 by {
        lemma_fresh_absent(m.2, t, p);
        assert(!queue_of(m.2, scales).contains_key(p));
        assert(c1.contains_key(p));
        assert(p != pair);
        lemma_merge_all_counts(m0, scales, positions, pair, token, p);
        assert(st.2.contains_key(p));
        let f0 = pair_frequency(st.0, scales, p);
        let f1 = pair_frequency(m.0, scales, p);
        let d = lowered_amount(m.1, p);
        assert(lowered_amount(m0.1, p) == 0);
        let c0 = st.2[p].0 as int;
        assert(c0 == f0 % 0x1_0000_0000);
        assert((f1 + d) % 0x1_0000_0000 == c0);
        assert(0 <= d < 0x1_0000_0000);
        vstd::arithmetic::div_mod::lemma_add_mod_noop(f1, d, 0x1_0000_0000);
        let x = f1 % 0x1_0000_0000;
        assert(0 <= x < 0x1_0000_0000);
        assert((x + d) % 0x1_0000_0000 == c0) by {
            vstd::arithmetic::div_mod::lemma_small_mod(d as nat, 0x1_0000_0000);
        }
        let nc = nx.2[p].0 as int;
        assert(nx.2[p] == lowered_by(c1, m.1)[p]);
        if m.1.contains_key(key_of(p) as u128) {
            assert(nx.2[p] == lowered_in(c1, p, m.1[key_of(p) as u128].1)[p]);
            if x + d < 0x1_0000_0000 {
                vstd::arithmetic::div_mod::lemma_small_mod((x + d) as nat, 0x1_0000_0000);
            } else {
                vstd::arithmetic::div_mod::lemma_mod_sub_multiples_vanish(x + d, 0x1_0000_0000);
                vstd::arithmetic::div_mod::lemma_small_mod(
                    (x + d - 0x1_0000_0000) as nat,
                    0x1_0000_0000,
                );
            }
            assert(nc == x);
        } else {
            assert(d == 0);
            assert(nx.2[p] == c1[p]);
            vstd::arithmetic::div_mod::lemma_small_mod(x as nat, 0x1_0000_0000);
            assert(nc == x);
        }
    }
}

/// The state of training after `k` merges from `st` with `len` entries.
pub open spec fn state_after<T: TokenType>(st: TrainState<T>, scales: Seq<u32>, len: int, k: nat) -> TrainState<
    T,
>
    decreases k,
{
    if k == 0 {
        st
    } else {
        state_after(train_step(st, scales, len), scales, len + 1, (k - 1) as nat)
    }
}

/// Along a run of training, the counts stay current, and each merge learned
/// is the top pair of the queue at its turn.
proof fn lemma_run_counts<T: TokenType>(
    st: TrainState<T>,
    scales: Seq<u32>,
    len: int,
    limit: int,
    base: int,
    k: nat,
)
    requires
        state_ok(st, scales),
        counts_current(st, scales, base),
        base <= len,
        k <= train_run(st, scales, len, limit).len(),
        len + k <= usize::MAX + 1,
    ensures
        state_ok(state_after(st, scales, len, k), scales),
        counts_current(state_after(st, scales, len, k), scales, base),
        k < train_run(st, scales, len, limit).len() ==> train_run(st, scales, len, limit)[k as int]
            == queue_top(state_after(st, scales, len, k).2),
    decreases k,
{
    if k > 0 {
        let run = train_run(st, scales, len, limit);
        assert(run.len() > 0);
        let pair = queue_top(st.2);
        assert(!(len >= limit || len > T::index_limit() || st.2 == Map::<TokenPair, (u32, TokenPair)>::empty()));
        assert(!(pair.0 >= len || pair.1 >= len));
        lemma_train_step_counts(st, scales, len, base);
        let nst = train_step(st, scales, len);
        assert(run == seq![pair] + train_run(nst, scales, len + 1, limit));
        lemma_run_counts(nst, scales, len + 1, limit, base, (k - 1) as nat);
        if k < run.len() {
            assert(run[k as int] == train_run(nst, scales, len + 1, limit)[k - 1]);
        }
    }
}

/// The weight of the entries of `e` that hold `p`: the scale of each one's
/// piece.
pub open spec fn entries_weight(
    e: Seq<(TokenPair, (usize, usize))>,
    scales: Seq<u32>,
    p: TokenPair,
) -> int
    decreases e.len(),
{
    if e.len() == 0 {
        0
    } else {
        entries_weight(e.drop_last(), scales, p) + (if e.last().0 == p && e.last().1.0 < scales.len() {
            scales[e.last().1.0 as int] as int
        } else {
            0
        })
    }
}

/// Recording entries one by one gives each pair the weight of its entries
/// (wrapping), and no entry to a pair that has none.
proof fn lemma_recorded_weight(e: Seq<(TokenPair, (usize, usize))>, scales: Seq<u32>, p: TokenPair)
    ensures
        ({
            let m = recorded_all(Map::empty(), e);
            let k = key_of(p) as u128;
            &&& m.contains_key(k) ==> weight(m[k].1, scales) as int == entries_weight(e, scales, p)
                % 0x1_0000_0000
            &&& !m.contains_key(k) ==> entries_weight(e, scales, p) == 0
        }),
    decreases e.len(),
{
    if e.len() > 0 {
        let e0 = e.drop_last();
        lemma_recorded_weight(e0, scales, p);
        let m0 = recorded_all(Map::empty(), e0);
        let q = e.last().0;
        let at = e.last().1;
        let m = recorded(m0, q, at);
        assert(m == recorded_all(Map::empty(), e));
        let kp = key_of(p) as u128;
        let kq = key_of(q) as u128;
        let ew0 = entries_weight(e0, scales, p);
        let s: int = if at.0 < scales.len() {
            scales[at.0 as int] as int
        } else {
            0
        };
        if q == p {
            assert(entries_weight(e, scales, p) == ew0 + s);
            assert(0 <= s < 0x1_0000_0000);
            let list = if m0.contains_key(kp) {
                m0[kp].1
            } else {
                Seq::empty()
            };
            let w0: int = if m0.contains_key(kp) {
                weight(m0[kp].1, scales) as int
            } else {
                0
            };
            assert(m[kp].1 == list.push(at));
            assert(list.push(at).drop_last() == list);
            assert(weight(Seq::<(usize, usize)>::empty(), scales) == 0);
            assert(weight(list, scales) as int == w0);
            assert(w0 == ew0 % 0x1_0000_0000);
            if at.0 < scales.len() {
                let x = weight(list, scales);
                let y = scales[at.0 as int];
                assert(weight(list.push(at), scales) == wrap_add(x, y));
                assert(wrap_add(x, y) as int == (x + y) % 0x1_0000_0000);
                vstd::arithmetic::div_mod::lemma_add_mod_noop(ew0, s, 0x1_0000_0000);
                vstd::arithmetic::div_mod::lemma_small_mod(s as nat, 0x1_0000_0000);
            } else {
                assert(weight(list.push(at), scales) == weight(list, scales));
            }
        } else {
            if kq == kp {
                lemma_key_cast_injective(p, q);
            }
            assert(entries_weight(e, scales, p) == ew0);
            assert(m.contains_key(kp) == m0.contains_key(kp));
            if m0.contains_key(kp) {
                assert(m[kp] == m0[kp]);
            }
        }
    }
}

proof fn lemma_entries_weight_append(
    a: Seq<(TokenPair, (usize, usize))>,
    b: Seq<(TokenPair, (usize, usize))>,
    scales: Seq<u32>,
    p: TokenPair,
)
    ensures
        entries_weight(a + b, scales, p) == entries_weight(a, scales, p) + entries_weight(b, scales, p),
    decreases b.len(),
{
    if b.len() == 0 {
        assert(a + b =~= a);
    } else {
        lemma_entries_weight_append(a, b.drop_last(), scales, p);
        assert((a + b).drop_last() =~= a + b.drop_last());
        assert((a + b).last() == b.last());
    }
}

/// The entries of one piece weigh its scale times its occurrences.
proof fn lemma_piece_entries_weight<T: TokenType>(v: Seq<T>, j: int, l: nat, scales: Seq<u32>, p: TokenPair)
    requires
        0 <= j < scales.len(),
        j <= usize::MAX,
        l < v.len(),
    ensures
        entries_weight(
            Seq::new(l, |i: int| (ids((v[i], v[i + 1])), (j as usize, i as usize))),
            scales,
            p,
        ) == scales[j] * count_between(v, p, 0, l as int),
    decreases l,
{
    let e = Seq::new(l, |i: int| (ids((v[i], v[i + 1])), (j as usize, i as usize)));
    if l > 0 {
        let e0 = Seq::new((l - 1) as nat, |i: int| (ids((v[i], v[i + 1])), (j as usize, i as usize)));
        assert(e.drop_last() =~= e0);
        lemma_piece_entries_weight(v, j, (l - 1) as nat, scales, p);
        let c0 = count_between(v, p, 0, l - 1);
        let x: int = if pair_at_is(v, l - 1, p) {
            1
        } else {
            0
        };
        assert(count_between(v, p, 0, l as int) == c0 + x);
        assert(scales[j] * (c0 + x) == scales[j] * c0 + scales[j] * x) by (nonlinear_arith);
        assert(e.last() == (ids((v[l - 1], v[l - 1 + 1])), (j as usize, (l - 1) as usize)));
        assert((j as usize) as int == j);
        assert(e.last().0 == p <==> pair_at_is(v, l - 1, p));
        if x == 1 {
            assert(scales[j] * x == scales[j]);
        } else {
            assert(scales[j] * x == 0);
        }
        assert(entries_weight(e, scales, p) == entries_weight(e0, scales, p) + scales[j] * x);
    } else {
        assert(count_between(v, p, 0, 0) == 0);
        assert(scales[j] * 0 == 0);
    }
}

/// The entries of the first `n` pieces weigh the weighted count.
proof fn lemma_state_entries_weight<T: TokenType>(
    ps: Seq<PieceState<T>>,
    scales: Seq<u32>,
    p: TokenPair,
    n: int,
)
    requires
        0 <= n <= ps.len(),
        ps.len() <= scales.len(),
        ps.len() <= usize::MAX,
        forall|i: int| 0 <= i < ps.len() ==> (#[trigger] ps[i]).1.len() > 0,
    ensures
        entries_weight(state_entries(ps, n), scales, p) == weighted_count(ps, scales, p, n),
    decreases n,
{
    if n > 0 {
        lemma_state_entries_weight(ps, scales, p, n - 1);
        let v = ps[n - 1].1;
        assert(v.len() > 0);
        let l = (v.len() - 1) as nat;
        let tail = Seq::new(l, |i: int| (ids((v[i], v[i + 1])), ((n - 1) as usize, i as usize)));
        assert(state_entries(ps, n) == state_entries(ps, n - 1) + tail);
        lemma_entries_weight_append(state_entries(ps, n - 1), tail, scales, p);
        lemma_piece_entries_weight(v, n - 1, l, scales, p);
    }
}

/// The queue that training starts with holds every pair with how often it
/// stands in the pieces.
proof fn lemma_start_counts<T: TokenType>(pieces: Seq<PieceState<T>>, scales: Seq<u32>, base: int)
    requires
        pieces.len() <= scales.len(),
        pieces.len() <= usize::MAX,
        forall|i: int| 0 <= i < pieces.len() ==> (#[trigger] pieces[i]).1.len() > 0,
    ensures
        counts_current(start_state(pieces, scales), scales, base),
{
    let st = start_state(pieces, scales);
    let e = state_entries(pieces, pieces.len() as int);
    assert forall|p: TokenPair| p.0 < base && p.1 < base && #[trigger] st.2.contains_key(p) implies st.2[
        p].0 as int == pair_frequency(st.0, scales, p) % 0x1_0000_0000 by {
        lemma_recorded_weight(e, scales, p);
        lemma_state_entries_weight(pieces, scales, p, pieces.len() as int);
    }
}

/// Training counts pairs as they stand: from pieces whose slots are in
/// order, after each number `k` of merges that training makes, the queue
/// holds every pair of ids below `len` (the entries that training starts
/// from) with how often that pair stands as two neighbouring tokens in the
/// pieces as the `k` merges left them, each piece counted as often as its
/// scale says (wrapping at 2^32, as the counts do); and merge `k` is the top
/// pair of that queue. So no merge is chosen on a count that earlier merges
/// have made stale: a pair that a merge breaks up loses its count with it.
pub proof fn lemma_training_counts_current<T: TokenType>(
    pieces: Seq<PieceState<T>>,
    scales: Seq<u32>,
    len: int,
    limit: int,
    k: nat,
)
    requires
        pieces_ok(pieces),
        forall|i: int| 0 <= i < pieces.len() ==> (#[trigger] pieces[i]).1.len() > 0,
        pieces.len() <= scales.len(),
        pieces.len() <= usize::MAX,
        0 <= len,
        k <= train_run(start_state(pieces, scales), scales, len, limit).len(),
        len + k <= usize::MAX + 1,
    ensures
        ({
            let st = state_after(start_state(pieces, scales), scales, len, k);
            let run = train_run(start_state(pieces, scales), scales, len, limit);
            &&& forall|p: TokenPair|
                p.0 < len && p.1 < len && #[trigger] st.2.contains_key(p) ==> st.2[p].0 as int
                    == pair_frequency(st.0, scales, p) % 0x1_0000_0000
            &&& k < run.len() ==> run[k as int] == queue_top(st.2)
        }),
{
    lemma_start_counts(pieces, scales, len);
    lemma_run_counts(start_state(pieces, scales), scales, len, limit, len, k);
}

/// Every chunk that training keeps has at least one token.
proof fn lemma_distinct_chunks_nonempty(vocab: Seq<Seq<char>>, cs: Seq<Seq<char>>)
    ensures
        forall|i: int|
            0 <= i < distinct_chunks(vocab, cs).len() ==> encode_ids(
                vocab,
                #[trigger] distinct_chunks(vocab, cs)[i],
            ).len() > 0,
    decreases cs.len(),
{
    if cs.len() > 0 {
        lemma_distinct_chunks_nonempty(vocab, cs.drop_last());
        let d0 = distinct_chunks(vocab, cs.drop_last());
        let d = distinct_chunks(vocab, cs);
        let c = cs.last();
        assert forall|i: int| 0 <= i < d.len() implies encode_ids(vocab, #[trigger] d[i]).len() > 0 by {
            if i < d0.len() {
                assert(d[i] == d0[i]);
            } else {
                assert(d[i] == c);
            }
        }
    }
}

/// The merges that training learns on a text are chosen on current counts:
/// at each merge `k`, the queue holds every pair of entries of the starting
/// vocabulary with how often it stands in the chunks of the text as the
/// earlier merges left them (each chunk counted as often as it occurs), and
/// merge `k` is the top pair of that queue.
pub proof fn lemma_learned_merges_count_current<T: TokenType>(
    vocab: Seq<Seq<char>>,
    s: Seq<char>,
    limit: int,
    k: nat,
)
    requires
        distinct_chunks(vocab, chunks_spec(normalize_spec(s))).len() <= usize::MAX,
        forall|i: int|
            0 <= i < distinct_chunks(vocab, chunks_spec(normalize_spec(s))).len() ==> encode_ids(
                vocab,
                #[trigger] distinct_chunks(vocab, chunks_spec(normalize_spec(s)))[i],
            ).len() <= usize::MAX,
        k <= learned_merges::<T>(vocab, s, limit).len(),
        vocab.len() + k <= usize::MAX + 1,
    ensures
        ({
            let cs = chunks_spec(normalize_spec(s));
            let scales = start_scales(vocab, cs);
            let st = state_after(
                start_state(start_pieces::<T>(vocab, cs), scales),
                scales,
                vocab.len() as int,
                k,
            );
            &&& forall|p: TokenPair|
                p.0 < vocab.len() && p.1 < vocab.len() && #[trigger] st.2.contains_key(p) ==> st.2[
                    p].0 as int == pair_frequency(st.0, scales, p) % 0x1_0000_0000
            &&& k < learned_merges::<T>(vocab, s, limit).len() ==> learned_merges::<T>(
                vocab,
                s,
                limit,
            )[k as int] == queue_top(st.2)
        }),
{
    let cs = chunks_spec(normalize_spec(s));
    let d = distinct_chunks(vocab, cs);
    let pieces = start_pieces::<T>(vocab, cs);
    let scales = start_scales(vocab, cs);
    lemma_distinct_chunks_nonempty(vocab, cs);
    assert forall|i: int| 0 <= i < pieces.len() implies piece_ok(#[trigger] pieces[i]) && pieces[i].1.len()
        > 0 by {
        let ids = encode_ids(vocab, d[i]);
        assert(pieces[i] == fresh_piece::<T>(ids));
        assert(ids.len() > 0);
        assert(ids.len() <= usize::MAX);
        let o = pieces[i].0;
        assert forall|a: int, b: int| 0 <= a < b < o.len() implies o[a] < o[b] by {
            assert(o[a] == a as usize);
            assert(o[b] == b as usize);
        }
    }
    lemma_training_counts_current(pieces, scales, vocab.len() as int, limit, k);
}

} // verus!
