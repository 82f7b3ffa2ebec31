//! Training: the vocabulary of a text, then byte-pair merges of its most
//! frequent neighbouring tokens.
//!
//! The maps of training are std `HashMap`s keyed by integers (a pair's
//! `key_of`, a chunk's `text_hash`), because vstd specifies those; what
//! training learns does not depend on the order in which they are walked
//! (`lemma_queued_closed`, `lemma_lowered_all`, `lemma_inserted_all`).

use vstd::prelude::*;

use std::collections::HashMap;

use vstd::std_specs::iter::IteratorSpec;

use crate::error::TokenizerError;
use crate::prepare::{chunks, chunks_spec, normalize, normalize_spec, str_chars, string_push};
use crate::token_type::TokenType;
use crate::tokenizer::alphabet::{extension_of, multibyte_chars};
use crate::tokenizer::arena_list::{in_order, rank_in, ArenaList};
use crate::tokenizer::pair_ordering::ranks_below;
use crate::tokenizer::utils::{expand, proto_wf, ProtoToken};
use crate::tokenizer::{
    base_ok, base_strings, base_vocabulary, encode_ids, patterns_of, size_message, views_of,
};
use crate::tokenizer::automaton::ac_builds;
use crate::tokenizer::pair_queue::{
    lowered_in, queue_contents, queue_lower, queue_new, queue_pop, queue_push, PairPriority, PairQueue, TokenPair,
};
use crate::tokenizer::Tokenizer;

verus! {

broadcast use vstd::std_specs::hash::group_hash_axioms;

/// Where a pair occurs: (piece, slot of its first token).
pub type Positions = Vec<(usize, usize)>;

/// A map from pairs (by `pair_key`) to the pair and its positions.
pub type PositionMap = HashMap<u128, (TokenPair, Positions)>;

/// The key of a pair: its first id in the high half, its second in the
/// low half.
pub open spec fn key_of(p: TokenPair) -> int {
    p.0 * 0x1_0000_0000_0000_0000 + p.1
}

/// A position map with each list of positions taken as a sequence.
pub open spec fn pos_view(m: Map<u128, (TokenPair, Positions)>) -> Map<
    u128,
    (TokenPair, Seq<(usize, usize)>),
> {
    m.map_values(|v: (TokenPair, Positions)| (v.0, v.1@))
}

/// `m` with `at` appended to the positions of `pair` (a new entry when the
/// pair has none yet).
pub open spec fn recorded(
    m: Map<u128, (TokenPair, Seq<(usize, usize)>)>,
    pair: TokenPair,
    at: (usize, usize),
) -> Map<u128, (TokenPair, Seq<(usize, usize)>)> {
    let k = key_of(pair) as u128;
    if m.contains_key(k) {
        m.insert(k, (m[k].0, m[k].1.push(at)))
    } else {
        m.insert(k, (pair, seq![at]))
    }
}

/// `a + b` wrapping around at 2^32.
pub open spec fn wrap_add(a: u32, b: u32) -> u32 {
    if a + b > u32::MAX {
        (a + b - 0x1_0000_0000) as u32
    } else {
        (a + b) as u32
    }
}

/// `m` with `by` added (wrapping) to the count of `pair` (a new entry with
/// count `by` when the pair has none yet).
pub open spec fn decremented(m: Map<u128, (TokenPair, u32)>, pair: TokenPair, by: u32) -> Map<
    u128,
    (TokenPair, u32),
> {
    let k = key_of(pair) as u128;
    if m.contains_key(k) {
        m.insert(k, (m[k].0, wrap_add(m[k].1, by)))
    } else {
        m.insert(k, (pair, by))
    }
}

/// The total weight of the pieces at `positions`, wrapping at 2^32;
/// positions of no piece weigh nothing.
pub open spec fn weight(positions: Seq<(usize, usize)>, scales: Seq<u32>) -> u32
    decreases positions.len(),
{
    if positions.len() == 0 {
        0
    } else {
        let w = weight(positions.drop_last(), scales);
        let piece_id = positions.last().0;
        if piece_id < scales.len() {
            wrap_add(w, scales[piece_id as int])
        } else {
            w
        }
    }
}

/// Each entry of `m` sits under the key of its pair.
pub open spec fn keyed<V>(m: Map<u128, (TokenPair, V)>) -> bool {
    forall|k: u128| #[trigger] m.contains_key(k) ==> k == key_of(m[k].0)
}

/// Two pairs with one key are one pair.
pub(crate) proof fn lemma_key_of_injective(p: TokenPair, q: TokenPair)
    requires
        key_of(p) == key_of(q),
    ensures
        p == q,
{
    let (a, b) = (p.0 as int, p.1 as int);
    let (c, d) = (q.0 as int, q.1 as int);
    assert(b < 0x1_0000_0000_0000_0000 && d < 0x1_0000_0000_0000_0000);
    assert(a == c && b == d) by (nonlinear_arith)
        requires
            a * 0x1_0000_0000_0000_0000 + b == c * 0x1_0000_0000_0000_0000 + d,
            0 <= b < 0x1_0000_0000_0000_0000,
            0 <= d < 0x1_0000_0000_0000_0000,
            0 <= a,
            0 <= c,
    ;
}

/// The queue that holds each pair of a keyed position map with its
/// weight.
pub open spec fn queue_of(m: Map<u128, (TokenPair, Seq<(usize, usize)>)>, scales: Seq<u32>) -> Map<
    TokenPair,
    PairPriority,
> {
    Map::new(
        |p: TokenPair| m.contains_key(key_of(p) as u128),
        |p: TokenPair| (weight(m[key_of(p) as u128].1, scales), p),
    )
}

/// The queue `c` with the count of each of its pairs lowered (wrapping) by
/// the amount that the keyed map `d` holds for it.
pub open spec fn lowered_by(c: Map<TokenPair, PairPriority>, d: Map<u128, (TokenPair, u32)>) -> Map<
    TokenPair,
    PairPriority,
> {
    Map::new(
        |p: TokenPair| c.contains_key(p),
        |p: TokenPair|
            if d.contains_key(key_of(p) as u128) {
                lowered_in(c, p, d[key_of(p) as u128].1)[p]
            } else {
                c[p]
            },
    )
}

/// One number for a pair of ids, for keying maps.
pub fn pair_key(p: TokenPair) -> (r: u128)
    ensures
        r == key_of(p),
{
    (p.0 as u128) * 0x1_0000_0000_0000_0000u128 + (p.1 as u128)
}

/// Records that `pair` occurs at `at`.
fn record_position(m: &mut PositionMap, pair: TokenPair, at: (usize, usize))
    ensures
        pos_view(final(m)@) == recorded(pos_view(old(m)@), pair, at),
{
    let key = pair_key(pair);
    let ghost old_m = m@;
    match m.remove(&key) {
        Some(entry) => {
            let (p, mut v) = entry;
            v.push(at);
            m.insert(key, (p, v));
            proof {
                assert(pos_view(m@) =~= recorded(pos_view(old_m), pair, at));
            }
        },
        None => {
            let mut v: Positions = Vec::new();
            v.push(at);
            m.insert(key, (pair, v));
            proof {
                assert(v@ =~= seq![at]);
                assert(pos_view(m@) =~= recorded(pos_view(old_m), pair, at));
            }
        },
    }
}

/// The total weight of the pieces at `positions` (a count of occurrences),
/// adding with wrapping as `+` does in a release build.
fn weight_of(positions: &Positions, scales: &Vec<u32>) -> (r: u32)
    ensures
        r == weight(positions@, scales@),
{
    let mut acc: u32 = 0;
    let n = positions.len();
    let mut i: usize = 0;
    while i < n
        invariant
            n == positions@.len(),
            i <= n,
            acc == weight(positions@.subrange(0, i as int), scales@),
        decreases n - i,
    {
        let piece_id = positions[i].0;
        proof {
            let sub = positions@.subrange(0, i + 1);
            assert(sub.drop_last() =~= positions@.subrange(0, i as int));
            assert(sub.last() == positions@[i as int]);
        }
        if piece_id < scales.len() {
            acc = acc.wrapping_add(scales[piece_id]);
        }
        i = i + 1;
    }
    proof {
        assert(positions@.subrange(0, n as int) =~= positions@);
    }
    acc
}

/// The ids of the values in slots `i` and `i + 1` of a piece.
pub open spec fn slot_pair<T: TokenType>(piece: ArenaList<T>, i: int) -> TokenPair {
    (piece.slot_value(i).index_view() as usize, piece.slot_value(i + 1).index_view() as usize)
}

/// `m` with each pair of `entries` recorded at its position, in order.
pub open spec fn recorded_all(
    m: Map<u128, (TokenPair, Seq<(usize, usize)>)>,
    entries: Seq<(TokenPair, (usize, usize))>,
) -> Map<u128, (TokenPair, Seq<(usize, usize)>)>
    decreases entries.len(),
{
    if entries.len() == 0 {
        m
    } else {
        recorded(recorded_all(m, entries.drop_last()), entries.last().0, entries.last().1)
    }
}

/// The pairs of neighbouring slots of piece `j`, each at (piece, first
/// slot), for the first `n` slot pairs.
pub open spec fn slot_entries<T: TokenType>(piece: ArenaList<T>, j: int, n: int) -> Seq<
    (TokenPair, (usize, usize)),
> {
    Seq::new(n as nat, |i: int| (slot_pair(piece, i), (j as usize, i as usize)))
}

/// The slot pairs of the first `n` pieces, piece by piece.
pub open spec fn piece_entries<T: TokenType>(pieces: Seq<ArenaList<T>>, n: int) -> Seq<
    (TokenPair, (usize, usize)),
>
    decreases n,
{
    if n <= 0 {
        Seq::empty()
    } else {
        piece_entries(pieces, n - 1) + slot_entries(
            pieces[n - 1],
            n - 1,
            pieces[n - 1].slots() - 1,
        )
    }
}

/// Every neighbouring pair of every piece, with where it occurs: each pair
/// of neighbouring slots of each piece, in piece and slot order.
fn count_positions<T: TokenType>(pieces: &Vec<ArenaList<T>>) -> (r: PositionMap)
    requires
        forall|j: int| 0 <= j < pieces@.len() ==> (#[trigger] pieces@[j]).wf(),
    ensures
        pos_view(r@) == recorded_all(Map::empty(), piece_entries(pieces@, pieces@.len() as int)),
{
    let mut m: PositionMap = HashMap::new();
    proof {
        assert(pos_view(m@) =~= Map::empty());
    }
    let n = pieces.len();
    let mut j: usize = 0;
    while j < n
        invariant
            n == pieces@.len(),
            j <= n,
            forall|k: int| 0 <= k < pieces@.len() ==> (#[trigger] pieces@[k]).wf(),
            pos_view(m@) == recorded_all(Map::empty(), piece_entries(pieces@, j as int)),
        decreases n - j,
    {
        let pairs = pieces[j].raw_pairs();
        let np = pairs.len();
        let ghost before = piece_entries(pieces@, j as int);
        let mut i: usize = 0;
        proof {
            assert(before + slot_entries(pieces@[j as int], j as int, 0) =~= before);
        }
        while i < np
            invariant
                np == pairs@.len(),
                i <= np,
                j < n,
                n == pieces@.len(),
                pairs@ == Seq::new(
                    (pieces@[j as int].slots() - 1) as nat,
                    |q: int| (pieces@[j as int].slot_value(q), pieces@[j as int].slot_value(q + 1)),
                ),
                before == piece_entries(pieces@, j as int),
                pos_view(m@) == recorded_all(
                    Map::empty(),
                    before + slot_entries(pieces@[j as int], j as int, i as int),
                ),
            decreases np - i,
        {
            let (a, b) = pairs[i];
            let pair = (a.to_index(), b.to_index());
            record_position(&mut m, pair, (j, i));
            proof {
                let e0 = before + slot_entries(pieces@[j as int], j as int, i as int);
                let e1 = before + slot_entries(pieces@[j as int], j as int, i + 1);
                assert(pair == slot_pair(pieces@[j as int], i as int));
                assert(e1.drop_last() =~= e0);
                assert(e1.last() == (pair, (j, i)));
            }
            i = i + 1;
        }
        proof {
            assert(piece_entries(pieces@, j + 1) =~= before + slot_entries(
                pieces@[j as int],
                j as int,
                np as int,
            ));
        }
        j = j + 1;
    }
    m
}

/// Position-map entries, each pair with its positions.
pub open spec fn entries_of(kvs: Seq<(u128, (TokenPair, Positions))>) -> Seq<
    (TokenPair, Seq<(usize, usize)>),
> {
    kvs.map_values(|e: (u128, (TokenPair, Positions))| (e.1.0, e.1.1@))
}

/// The entries of `m`, in the order its iterator yields them.
pub open spec fn map_entries(m: &PositionMap) -> Seq<(TokenPair, Seq<(usize, usize)>)> {
    entries_of(vstd::std_specs::hash::into_iter(vstd::std_specs::hash::spec_hash_map_iter(m)))
}

/// The queue `c` with each pair of `entries` pushed, in order, with its
/// weight.
pub open spec fn queued_all(
    c: Map<TokenPair, PairPriority>,
    entries: Seq<(TokenPair, Seq<(usize, usize)>)>,
    scales: Seq<u32>,
) -> Map<TokenPair, PairPriority>
    decreases entries.len(),
{
    if entries.len() == 0 {
        c
    } else {
        let e = entries.last();
        queued_all(c, entries.drop_last(), scales).insert(e.0, (weight(e.1, scales), e.0))
    }
}

/// Pushing entries with distinct pairs: each pair gets its own weight, and
/// the rest of the queue stays.
proof fn lemma_queued_all(
    c: Map<TokenPair, PairPriority>,
    kvs: Seq<(u128, (TokenPair, Positions))>,
    scales: Seq<u32>,
)
    requires
        forall|i: int, j: int| 0 <= i < j < kvs.len() ==> kvs[i].1.0 != kvs[j].1.0,
    ensures
        forall|p: TokenPair|
            #[trigger] queued_all(c, entries_of(kvs), scales).contains_key(p) <==> (c.contains_key(p)
                || exists|i: int| 0 <= i < kvs.len() && kvs[i].1.0 == p),
        forall|i: int|
            0 <= i < kvs.len() ==> queued_all(c, entries_of(kvs), scales)[#[trigger] kvs[i].1.0] == (
                weight(kvs[i].1.1@, scales),
                kvs[i].1.0,
            ),
        forall|p: TokenPair|
            (forall|i: int| 0 <= i < kvs.len() ==> kvs[i].1.0 != p) ==> #[trigger] queued_all(
                c,
                entries_of(kvs),
                scales,
            )[p] == c[p],
    decreases kvs.len(),
{
    if kvs.len() > 0 {
        let front = kvs.drop_last();
        let n = kvs.len() - 1;
        assert(entries_of(kvs).drop_last() =~= entries_of(front));
        assert(entries_of(kvs).last() == (kvs[n].1.0, kvs[n].1.1@));
        lemma_queued_all(c, front, scales);
        let r = queued_all(c, entries_of(kvs), scales);
        let r0 = queued_all(c, entries_of(front), scales);
        assert(r == r0.insert(kvs[n].1.0, (weight(kvs[n].1.1@, scales), kvs[n].1.0)));
        assert forall|p: TokenPair| #[trigger] r.contains_key(p) <==> (c.contains_key(p) || exists|
            i: int,
        | 0 <= i < kvs.len() && kvs[i].1.0 == p) by {
            if exists|i: int| 0 <= i < kvs.len() && kvs[i].1.0 == p {
                let i = choose|i: int| 0 <= i < kvs.len() && kvs[i].1.0 == p;
                if i < n {
                    assert(front[i].1.0 == p);
                }
            }
            if exists|i: int| 0 <= i < front.len() && front[i].1.0 == p {
                let i = choose|i: int| 0 <= i < front.len() && front[i].1.0 == p;
                assert(kvs[i].1.0 == p);
            }
        }
        assert forall|i: int| 0 <= i < kvs.len() implies r[#[trigger] kvs[i].1.0] == (
            weight(kvs[i].1.1@, scales),
            kvs[i].1.0,
        ) by {
            if i < n {
                assert(front[i] == kvs[i]);
                assert(kvs[i].1.0 != kvs[n].1.0);
            }
        }
        assert forall|p: TokenPair|
            (forall|i: int| 0 <= i < kvs.len() ==> kvs[i].1.0 != p) implies #[trigger] r[p]
            == c[p] by {
            assert(kvs[n].1.0 != p);
            assert forall|i: int| 0 <= i < front.len() implies front[i].1.0 != p by {
                assert(front[i] == kvs[i]);
            }
        }
    }
}

/// `kvs` lists the entries of `m`: each once, each an entry of the map,
/// every entry of the map among them.
pub open spec fn lists_entries<V>(m: Map<u128, (TokenPair, V)>, kvs: Seq<(u128, (TokenPair, V))>) -> bool {
    &&& kvs.no_duplicates()
    &&& forall|i: int|
        0 <= i < kvs.len() ==> m.contains_key(#[trigger] kvs[i].0) && m[kvs[i].0] == kvs[i].1
    &&& forall|k: u128| #[trigger] m.contains_key(k) ==> exists|i: int|
        0 <= i < kvs.len() && kvs[i] == (k, m[k])
}

/// The entries of a keyed map name distinct pairs.
proof fn lemma_distinct_pairs<V>(m: Map<u128, (TokenPair, V)>, kvs: Seq<(u128, (TokenPair, V))>)
    requires
        keyed(m),
        lists_entries(m, kvs),
    ensures
        forall|i: int, j: int| 0 <= i < j < kvs.len() ==> kvs[i].1.0 != kvs[j].1.0,
{
    assert forall|i: int, j: int| 0 <= i < j < kvs.len() implies kvs[i].1.0 != kvs[j].1.0 by {
        if kvs[i].1.0 == kvs[j].1.0 {
            assert(m.contains_key(kvs[i].0));
            assert(m.contains_key(kvs[j].0));
            assert(kvs[i].0 == key_of(m[kvs[i].0].0));
            assert(kvs[j].0 == key_of(m[kvs[j].0].0));
            assert(kvs[i] == kvs[j]);
        }
    }
}

/// Pushing the entries of a keyed position map onto a queue puts each of
/// its pairs there with its weight, whatever the order.
proof fn lemma_queued_closed(
    c: Map<TokenPair, PairPriority>,
    m: &PositionMap,
    scales: Seq<u32>,
)
    requires
        keyed(m@),
        lists_entries(
            m@,
            vstd::std_specs::hash::into_iter(vstd::std_specs::hash::spec_hash_map_iter(m)),
        ),
    ensures
        queued_all(c, map_entries(m), scales) == c.union_prefer_right(
            queue_of(pos_view(m@), scales),
        ),
{
    let kvs = vstd::std_specs::hash::into_iter(vstd::std_specs::hash::spec_hash_map_iter(m));
    lemma_distinct_pairs(m@, kvs);
    lemma_queued_all(c, kvs, scales);
    let r = queued_all(c, map_entries(m), scales);
    let q = queue_of(pos_view(m@), scales);
    assert forall|p: TokenPair| q.contains_key(p) <==> (exists|i: int|
        0 <= i < kvs.len() && kvs[i].1.0 == p) by {
        let k = key_of(p) as u128;
        if m@.contains_key(k) {
            let i = choose|i: int| 0 <= i < kvs.len() && kvs[i] == (k, m@[k]);
            assert(k == key_of(m@[k].0));
            lemma_key_of_injective(p, m@[k].0);
            assert(kvs[i].1.0 == p);
        }
        if exists|i: int| 0 <= i < kvs.len() && kvs[i].1.0 == p {
            let i = choose|i: int| 0 <= i < kvs.len() && kvs[i].1.0 == p;
            assert(m@.contains_key(kvs[i].0));
            assert(kvs[i].0 == key_of(m@[kvs[i].0].0));
        }
    }
    assert forall|p: TokenPair| #[trigger] r.contains_key(p) implies r[p]
        == c.union_prefer_right(q)[p] by {
        if exists|i: int| 0 <= i < kvs.len() && kvs[i].1.0 == p {
            let i = choose|i: int| 0 <= i < kvs.len() && kvs[i].1.0 == p;
            assert(r[kvs[i].1.0] == (weight(kvs[i].1.1@, scales), kvs[i].1.0));
            assert(kvs[i].0 == key_of(m@[kvs[i].0].0));
            assert(q.contains_key(p));
        } else {
            assert(!q.contains_key(p));
        }
    }
    assert(r =~= c.union_prefer_right(q));
}

/// A queue holding every pair of `positions` with its weight.
fn fill_queue(positions: &PositionMap, scales: &Vec<u32>) -> (r: PairQueue)
    ensures
        queue_contents(r) == queued_all(Map::empty(), map_entries(positions), scales@),
        keyed(positions@) ==> queue_contents(r) == queue_of(pos_view(positions@), scales@),
{
    let mut q = queue_new(positions.len());
    let ghost all = map_entries(positions);
    for entry in it: positions.iter()
        invariant
            all == map_entries(positions),
            entries_of(it.seq().unref()) == all,
            queue_contents(q) == queued_all(
                Map::empty(),
                all.subrange(0, it.index()),
                scales@,
            ),
    {
        let (_key, (pair, at)) = entry;
        let w = weight_of(at, scales);
        queue_push(&mut q, *pair, (w, *pair));
        proof {
            let k = it.index();
            assert(all.subrange(0, k + 1).drop_last() =~= all.subrange(0, k));
            assert(all[k] == (*pair, at@));
        }
    }
    proof {
        assert(all.subrange(0, all.len() as int) =~= all);
        broadcast use vstd::std_specs::hash::axiom_spec_hash_map_iter;
        let kvs_all = vstd::std_specs::hash::into_iter(
            vstd::std_specs::hash::spec_hash_map_iter(positions),
        );
        assert forall|k: u128| #[trigger] positions@.contains_key(k) implies exists|q: int|
            0 <= q < kvs_all.len() && kvs_all[q] == (k, positions@[k]) by {
            let v = vstd::std_specs::hash::spec_hash_map_iter(positions).remaining();
            assert(v.contains((&k, &positions@[k])));
            let q = choose|q: int| 0 <= q < v.len() && v[q] == (&k, &positions@[k]);
            assert(kvs_all[q] == (k, positions@[k]));
        }
        assert(lists_entries(positions@, kvs_all));
        if keyed(positions@) {
            lemma_queued_closed(Map::empty(), positions, scales@);
            assert(Map::<TokenPair, PairPriority>::empty().union_prefer_right(
                queue_of(pos_view(positions@), scales@),
            ) =~= queue_of(pos_view(positions@), scales@));
        }
    }
    q
}


/// Adds `by` to the count kept for `pair`, with wrapping as `+=` does in a
/// release build.
fn record_decrement(m: &mut HashMap<u128, (TokenPair, u32)>, pair: TokenPair, by: u32)
    ensures
        final(m)@ == decremented(old(m)@, pair, by),
{
    let key = pair_key(pair);
    let ghost old_m = m@;
    match m.remove(&key) {
        Some(entry) => {
            let (p, count) = entry;
            m.insert(key, (p, count.wrapping_add(by)));
            proof {
                assert(m@ =~= decremented(old_m, pair, by));
            }
        },
        None => {
            m.insert(key, (pair, by));
            proof {
                assert(m@ =~= decremented(old_m, pair, by));
            }
        },
    }
}

/// A piece as the slots of its list, in order, and their values.
pub type PieceState<T> = (Seq<usize>, Seq<T>);

/// The pieces, the counts to lower and the pairs made, as a merge goes.
pub type MergeState<T> = (
    Seq<PieceState<T>>,
    Map<u128, (TokenPair, u32)>,
    Map<u128, (TokenPair, Seq<(usize, usize)>)>,
);

/// The state of a piece.
pub open spec fn piece_state<T: TokenType>(p: ArenaList<T>) -> PieceState<T> {
    (p.order(), p.view())
}

/// The states of the pieces.
pub open spec fn piece_states<T: TokenType>(ps: Seq<ArenaList<T>>) -> Seq<PieceState<T>> {
    ps.map_values(|p: ArenaList<T>| piece_state(p))
}

/// The ids of a pair of tokens.
pub open spec fn ids<T: TokenType>(p: (T, T)) -> TokenPair {
    (p.0.index_view() as usize, p.1.index_view() as usize)
}

/// The pair that starts at slot `first`, if it is in the list and has a
/// successor.
pub open spec fn pair_of<T>(st: PieceState<T>, first: int) -> Option<(T, T)> {
    let r = rank_in(st.0, first);
    if in_order(st.0, first) && r + 1 < st.0.len() {
        Some((st.1[r], st.1[r + 1]))
    } else {
        None
    }
}

/// The pair that ends at slot `second`, with the slot where it starts.
pub open spec fn prev_of<T>(st: PieceState<T>, second: int) -> Option<((T, T), usize)> {
    let r = rank_in(st.0, second);
    if in_order(st.0, second) && r > 0 {
        Some(((st.1[r - 1], st.1[r]), st.0[r - 1]))
    } else {
        None
    }
}

/// The pair that follows slot `proto`, with the slot where it starts.
pub open spec fn next_of<T>(st: PieceState<T>, proto: int) -> Option<((T, T), usize)> {
    let r = rank_in(st.0, proto);
    if in_order(st.0, proto) && r + 2 < st.0.len() {
        Some(((st.1[r + 1], st.1[r + 2]), st.0[r + 1]))
    } else {
        None
    }
}

/// The piece with the pair at slot `first` fused into one slot holding
/// `tok`.
pub open spec fn fused<T>(st: PieceState<T>, first: int, tok: T) -> PieceState<T> {
    let r = rank_in(st.0, first);
    (st.0.remove(r + 1), st.1.update(r, tok).remove(r + 1))
}

/// One position of a merge: when piece `at.0` still holds `pair` at slot
/// `at.1`, the pairs before and after it are counted down by the weight of
/// the piece, the pair is fused into `token`, and the pairs that the new
/// token makes with its neighbours are recorded.
pub open spec fn merge_step<T: TokenType>(
    st: MergeState<T>,
    scales: Seq<u32>,
    at: (usize, usize),
    pair: TokenPair,
    token: T,
) -> MergeState<T> {
    let pieces = st.0;
    let pid = at.0 as int;
    let pos = at.1 as int;
    if pid < pieces.len() && pid < scales.len() {
        let ps = pieces[pid];
        match pair_of(ps, pos) {
            Some(found) => if ids(found) == pair {
                let scale = scales[pid];
                let dec1 = match prev_of(ps, pos) {
                    Some((xa, _)) => decremented(st.1, ids(xa), scale),
                    None => st.1,
                };
                let dec2 = match next_of(ps, pos) {
                    Some((by, _)) => decremented(dec1, ids(by), scale),
                    None => dec1,
                };
                let ps2 = fused(ps, pos, token);
                let add1 = match prev_of(ps2, pos) {
                    Some((xt, xt_pos)) => recorded(st.2, ids(xt), (at.0, xt_pos)),
                    None => st.2,
                };
                let add2 = match pair_of(ps2, pos) {
                    Some(ty) => recorded(add1, ids(ty), at),
                    None => add1,
                };
                (pieces.update(pid, ps2), dec2, add2)
            } else {
                st
            },
            None => st,
        }
    } else {
        st
    }
}

/// The merge steps of `positions`, in order.
pub open spec fn merge_all<T: TokenType>(
    st: MergeState<T>,
    scales: Seq<u32>,
    positions: Seq<(usize, usize)>,
    pair: TokenPair,
    token: T,
) -> MergeState<T>
    decreases positions.len(),
{
    if positions.len() == 0 {
        st
    } else {
        merge_step(
            merge_all(st, scales, positions.drop_last(), pair, token),
            scales,
            positions.last(),
            pair,
            token,
        )
    }
}

/// Fuses every occurrence of `pair` listed in `positions` that is still
/// there into `token`, noting the pairs this destroys (`decrements`, by the
/// weight of their piece) and the pairs it makes (`addons`).
fn merge_occurrences<T: TokenType>(
    pieces: &mut Vec<ArenaList<T>>,
    scales: &Vec<u32>,
    positions: &Positions,
    pair: TokenPair,
    token: T,
    decrements: &mut HashMap<u128, (TokenPair, u32)>,
    addons: &mut PositionMap,
)
    requires
        forall|j: int| 0 <= j < old(pieces)@.len() ==> (#[trigger] old(pieces)@[j]).wf(),
    ensures
        final(pieces)@.len() == old(pieces)@.len(),
        forall|j: int| 0 <= j < final(pieces)@.len() ==> (#[trigger] final(pieces)@[j]).wf(),
        (piece_states(final(pieces)@), final(decrements)@, pos_view(final(addons)@)) == merge_all(
            (piece_states(old(pieces)@), old(decrements)@, pos_view(old(addons)@)),
            scales@,
            positions@,
            pair,
            token,
        ),
{
    let n = positions.len();
    let mut i: usize = 0;
    while i < n
        invariant
            n == positions@.len(),
            i <= n,
            pieces@.len() == old(pieces)@.len(),
            forall|j: int| 0 <= j < pieces@.len() ==> (#[trigger] pieces@[j]).wf(),
            (piece_states(pieces@), decrements@, pos_view(addons@)) == merge_all(
                (piece_states(old(pieces)@), old(decrements)@, pos_view(old(addons)@)),
                scales@,
                positions@.subrange(0, i as int),
                pair,
                token,
            ),
        decreases n - i,
    {
        let (piece_id, ab_pos) = positions[i];
        proof {
            let sub = positions@.subrange(0, i + 1);
            assert(sub.drop_last() =~= positions@.subrange(0, i as int));
            assert(sub.last() == (piece_id, ab_pos));
        }
        if piece_id < pieces.len() && piece_id < scales.len() {
            match pieces[piece_id].pair_at(ab_pos) {
                Some(found) => {
                    if found.0.to_index() == pair.0 && found.1.to_index() == pair.1 {
                        let scale = scales[piece_id];
                        match pieces[piece_id].prev_pair_pos(ab_pos) {
                            Some((xa, _)) => {
                                record_decrement(decrements, (xa.0.to_index(), xa.1.to_index()), scale);
                            },
                            None => {},
                        }
                        match pieces[piece_id].next_pair_pos(ab_pos) {
                            Some((by, _)) => {
                                record_decrement(decrements, (by.0.to_index(), by.1.to_index()), scale);
                            },
                            None => {},
                        }
                        let (xt_opt, ty_opt) = pieces[piece_id].fuse_into(ab_pos, token);
                        match xt_opt {
                            Some((xt, xt_pos)) => {
                                record_position(
                                    addons,
                                    (xt.0.to_index(), xt.1.to_index()),
                                    (piece_id, xt_pos),
                                );
                            },
                            None => {},
                        }
                        match ty_opt {
                            Some((ty, ty_pos)) => {
                                record_position(
                                    addons,
                                    (ty.0.to_index(), ty.1.to_index()),
                                    (piece_id, ty_pos),
                                );
                            },
                            None => {},
                        }
                    }
                },
                None => {},
            }
        }
        i = i + 1;
    }
    proof {
        assert(positions@.subrange(0, n as int) =~= positions@);
    }
}


/// The queue `c` with the count of each pair of `entries` lowered, in
/// order, by its amount.
pub open spec fn lowered_all(
    c: Map<TokenPair, PairPriority>,
    entries: Seq<(u128, (TokenPair, u32))>,
) -> Map<TokenPair, PairPriority>
    decreases entries.len(),
{
    if entries.len() == 0 {
        c
    } else {
        let e = entries.last();
        lowered_in(lowered_all(c, entries.drop_last()), e.1.0, e.1.1)
    }
}

/// Lowering entries with distinct pairs: each pair of the queue is lowered
/// by the amount of its entry, if it has one.
proof fn lemma_lowered_all(c: Map<TokenPair, PairPriority>, kvs: Seq<(u128, (TokenPair, u32))>)
    requires
        forall|i: int, j: int| 0 <= i < j < kvs.len() ==> kvs[i].1.0 != kvs[j].1.0,
    ensures
        lowered_all(c, kvs).dom() == c.dom(),
        forall|i: int|
            0 <= i < kvs.len() && c.contains_key(kvs[i].1.0) ==> lowered_all(c, kvs)[
                #[trigger] kvs[i].1.0] == lowered_in(c, kvs[i].1.0, kvs[i].1.1)[kvs[i].1.0],
        forall|p: TokenPair|
            (forall|i: int| 0 <= i < kvs.len() ==> kvs[i].1.0 != p) ==> #[trigger] lowered_all(
                c,
                kvs,
            )[p] == c[p],
    decreases kvs.len(),
{
    if kvs.len() > 0 {
        let front = kvs.drop_last();
        let n = kvs.len() - 1;
        lemma_lowered_all(c, front);
        let r0 = lowered_all(c, front);
        let r = lowered_all(c, kvs);
        assert(r == lowered_in(r0, kvs[n].1.0, kvs[n].1.1));
        assert(r.dom() =~= c.dom());
        assert forall|p: TokenPair| (forall|i: int| 0 <= i < front.len() ==> front[i].1.0 != p)
            implies r0[p] == c[p] by {}
        assert(r0[kvs[n].1.0] == c[kvs[n].1.0]) by {
            assert forall|i: int| 0 <= i < front.len() implies front[i].1.0 != kvs[n].1.0 by {
                assert(front[i] == kvs[i]);
            }
        }
        assert forall|i: int|
            0 <= i < kvs.len() && c.contains_key(kvs[i].1.0) implies r[#[trigger] kvs[i].1.0]
            == lowered_in(c, kvs[i].1.0, kvs[i].1.1)[kvs[i].1.0] by {
            if i < n {
                assert(front[i] == kvs[i]);
                assert(kvs[i].1.0 != kvs[n].1.0);
            }
        }
        assert forall|p: TokenPair|
            (forall|i: int| 0 <= i < kvs.len() ==> kvs[i].1.0 != p) implies #[trigger] r[p]
            == c[p] by {
            assert(kvs[n].1.0 != p);
            assert forall|i: int| 0 <= i < front.len() implies front[i].1.0 != p by {
                assert(front[i] == kvs[i]);
            }
        }
    }
}

/// Lowers in the queue the count of every pair in `decrements`.
fn apply_decrements(q: &mut PairQueue, decrements: &HashMap<u128, (TokenPair, u32)>)
    ensures
        queue_contents(*final(q)) == lowered_all(
            queue_contents(*old(q)),
            vstd::std_specs::hash::into_iter(vstd::std_specs::hash::spec_hash_map_iter(decrements)),
        ),
        keyed(decrements@) ==> queue_contents(*final(q)) == lowered_by(
            queue_contents(*old(q)),
            decrements@,
        ),
{
    let ghost all = vstd::std_specs::hash::into_iter(
        vstd::std_specs::hash::spec_hash_map_iter(decrements),
    );
    let ghost start = queue_contents(*q);
    for entry in it: decrements.iter()
        invariant
            all == vstd::std_specs::hash::into_iter(
                vstd::std_specs::hash::spec_hash_map_iter(decrements),
            ),
            it.seq().unref() == all,
            queue_contents(*q) == lowered_all(start, all.subrange(0, it.index())),
    {
        let (_key, (pair, by)) = entry;
        queue_lower(q, pair, *by);
        proof {
            let k = it.index();
            assert(all.subrange(0, k + 1).drop_last() =~= all.subrange(0, k));
            assert(all[k].1 == (*pair, *by));
        }
    }
    proof {
        assert(all.subrange(0, all.len() as int) =~= all);
        broadcast use vstd::std_specs::hash::axiom_spec_hash_map_iter;
        let kvs_all = vstd::std_specs::hash::into_iter(
            vstd::std_specs::hash::spec_hash_map_iter(decrements),
        );
        assert forall|k: u128| #[trigger] decrements@.contains_key(k) implies exists|q: int|
            0 <= q < kvs_all.len() && kvs_all[q] == (k, decrements@[k]) by {
            let v = vstd::std_specs::hash::spec_hash_map_iter(decrements).remaining();
            assert(v.contains((&k, &decrements@[k])));
            let q = choose|q: int| 0 <= q < v.len() && v[q] == (&k, &decrements@[k]);
            assert(kvs_all[q] == (k, decrements@[k]));
        }
        assert(lists_entries(decrements@, kvs_all));
        if keyed(decrements@) {
            lemma_distinct_pairs(decrements@, kvs_all);
            lemma_lowered_all(start, kvs_all);
            let r = queue_contents(*q);
            let d = decrements@;
            assert forall|p: TokenPair| #[trigger] start.contains_key(p) implies r[p] == lowered_by(
                start,
                d,
            )[p] by {
                let k = key_of(p) as u128;
                if d.contains_key(k) {
                    let i = choose|i: int| 0 <= i < kvs_all.len() && kvs_all[i] == (k, d[k]);
                    assert(k == key_of(d[k].0));
                    lemma_key_of_injective(p, d[k].0);
                    assert(kvs_all[i].1.0 == p);
                } else {
                    assert forall|i: int| 0 <= i < kvs_all.len() implies kvs_all[i].1.0 != p by {
                        assert(d.contains_key(kvs_all[i].0));
                        assert(kvs_all[i].0 == key_of(d[kvs_all[i].0].0));
                    }
                }
            }
            assert(r =~= lowered_by(start, d));
        }
    }
}

/// A copy of a list of positions.
fn copy_positions(v: &Positions) -> (r: Positions)
    ensures
        r@ == v@,
{
    let mut r: Positions = Vec::new();
    let n = v.len();
    let mut i: usize = 0;
    while i < n
        invariant
            n == v@.len(),
            i <= n,
            r@ == v@.subrange(0, i as int),
        decreases n - i,
    {
        r.push(v[i]);
        i = i + 1;
        proof {
            assert(r@ =~= v@.subrange(0, i as int));
        }
    }
    proof {
        assert(v@.subrange(0, n as int) =~= v@);
    }
    r
}

/// `m` with each entry of `kvs` put in, in order (its positions as a
/// sequence).
pub open spec fn inserted_all(
    m: Map<u128, (TokenPair, Seq<(usize, usize)>)>,
    kvs: Seq<(u128, (TokenPair, Positions))>,
) -> Map<u128, (TokenPair, Seq<(usize, usize)>)>
    decreases kvs.len(),
{
    if kvs.len() == 0 {
        m
    } else {
        let e = kvs.last();
        inserted_all(m, kvs.drop_last()).insert(e.0, (e.1.0, e.1.1@))
    }
}

/// Putting in the entries of a map, each key once: the map's entries take
/// their keys, the rest stays.
proof fn lemma_inserted_all(
    m0: Map<u128, (TokenPair, Seq<(usize, usize)>)>,
    kvs: Seq<(u128, (TokenPair, Positions))>,
)
    requires
        forall|i: int, j: int| 0 <= i < j < kvs.len() ==> kvs[i].0 != kvs[j].0,
    ensures
        forall|k: u128|
            #[trigger] inserted_all(m0, kvs).contains_key(k) <==> (m0.contains_key(k) || exists|
                i: int,
            | 0 <= i < kvs.len() && kvs[i].0 == k),
        forall|i: int|
            0 <= i < kvs.len() ==> inserted_all(m0, kvs)[#[trigger] kvs[i].0] == (
                kvs[i].1.0,
                kvs[i].1.1@,
            ),
        forall|k: u128|
            m0.contains_key(k) && (forall|i: int| 0 <= i < kvs.len() ==> kvs[i].0 != k) ==> #[trigger] inserted_all(
                m0,
                kvs,
            )[k] == m0[k],
    decreases kvs.len(),
{
    if kvs.len() > 0 {
        let front = kvs.drop_last();
        let n = kvs.len() - 1;
        lemma_inserted_all(m0, front);
        let r = inserted_all(m0, kvs);
        let r0 = inserted_all(m0, front);
        assert(r == r0.insert(kvs[n].0, (kvs[n].1.0, kvs[n].1.1@)));
        assert forall|k: u128| #[trigger] r.contains_key(k) <==> (m0.contains_key(k) || exists|
            i: int,
        | 0 <= i < kvs.len() && kvs[i].0 == k) by {
            if exists|i: int| 0 <= i < kvs.len() && kvs[i].0 == k {
                let i = choose|i: int| 0 <= i < kvs.len() && kvs[i].0 == k;
                if i < n {
                    assert(front[i].0 == k);
                }
            }
            if exists|i: int| 0 <= i < front.len() && front[i].0 == k {
                let i = choose|i: int| 0 <= i < front.len() && front[i].0 == k;
                assert(kvs[i].0 == k);
            }
        }
        assert forall|i: int| 0 <= i < kvs.len() implies r[#[trigger] kvs[i].0] == (
            kvs[i].1.0,
            kvs[i].1.1@,
        ) by {
            if i < n {
                assert(front[i] == kvs[i]);
            }
        }
        assert forall|k: u128| m0.contains_key(k) && (forall|i: int| 0 <= i < kvs.len() ==> kvs[i].0 != k) implies #[trigger] r[k]
            == m0[k] by {
            assert(kvs[n].0 != k);
            assert forall|i: int| 0 <= i < front.len() implies front[i].0 != k by {
                assert(front[i] == kvs[i]);
            }
        }
    }
}

/// Queues every pair in `addons` with its weight, and records where it
/// occurs.
fn apply_addons(
    q: &mut PairQueue,
    pair_positions: &mut PositionMap,
    addons: &PositionMap,
    scales: &Vec<u32>,
)
    ensures
        queue_contents(*final(q)) == queued_all(
            queue_contents(*old(q)),
            map_entries(addons),
            scales@,
        ),
        pos_view(final(pair_positions)@) == inserted_all(
            pos_view(old(pair_positions)@),
            vstd::std_specs::hash::into_iter(vstd::std_specs::hash::spec_hash_map_iter(addons)),
        ),
        pos_view(final(pair_positions)@) == pos_view(old(pair_positions)@).union_prefer_right(
            pos_view(addons@),
        ),
        keyed(addons@) ==> queue_contents(*final(q)) == queue_contents(*old(q)).union_prefer_right(
            queue_of(pos_view(addons@), scales@),
        ),
{
    let ghost kvs = vstd::std_specs::hash::into_iter(
        vstd::std_specs::hash::spec_hash_map_iter(addons),
    );
    let ghost all = map_entries(addons);
    let ghost q0 = queue_contents(*q);
    let ghost m0 = pos_view(pair_positions@);
    for entry in it: addons.iter()
        invariant
            kvs == vstd::std_specs::hash::into_iter(
                vstd::std_specs::hash::spec_hash_map_iter(addons),
            ),
            all == entries_of(kvs),
            it.seq().unref() == kvs,
            queue_contents(*q) == queued_all(q0, all.subrange(0, it.index()), scales@),
            pos_view(pair_positions@) == inserted_all(m0, kvs.subrange(0, it.index())),
    {
        let (key, (pair, at)) = entry;
        let w = weight_of(at, scales);
        queue_push(q, *pair, (w, *pair));
        let ghost before = pos_view(pair_positions@);
        let copied = copy_positions(at);
        pair_positions.insert(*key, (*pair, copied));
        proof {
            let k = it.index();
            assert(all.subrange(0, k + 1).drop_last() =~= all.subrange(0, k));
            assert(kvs.subrange(0, k + 1).drop_last() =~= kvs.subrange(0, k));
            assert(kvs[k] == (*key, (*pair, *at)));
            assert(all[k] == (*pair, at@));
            assert(copied@ == at@);
            assert(pos_view(pair_positions@) =~= before.insert(*key, (*pair, at@)));
        }
    }
    proof {
        assert(all.subrange(0, all.len() as int) =~= all);
        assert(kvs.subrange(0, kvs.len() as int) =~= kvs);
        broadcast use vstd::std_specs::hash::axiom_spec_hash_map_iter;
        let kvs_all = vstd::std_specs::hash::into_iter(
            vstd::std_specs::hash::spec_hash_map_iter(addons),
        );
        assert forall|k: u128| #[trigger] addons@.contains_key(k) implies exists|q: int|
            0 <= q < kvs_all.len() && kvs_all[q] == (k, addons@[k]) by {
            let v = vstd::std_specs::hash::spec_hash_map_iter(addons).remaining();
            assert(v.contains((&k, &addons@[k])));
            let q = choose|q: int| 0 <= q < v.len() && v[q] == (&k, &addons@[k]);
            assert(kvs_all[q] == (k, addons@[k]));
        }
        assert(lists_entries(addons@, kvs_all));
        assert forall|i: int, j: int| 0 <= i < j < kvs.len() implies kvs[i].0 != kvs[j].0 by {
            if kvs[i].0 == kvs[j].0 {
                assert(kvs[i] == kvs[j]);
            }
        }
        lemma_inserted_all(m0, kvs);
        let u = m0.union_prefer_right(pos_view(addons@));
        let r = pos_view(pair_positions@);
        assert forall|k: u128| #[trigger] r.contains_key(k) <==> u.contains_key(k) by {
            if addons@.contains_key(k) {
                let i = choose|i: int| 0 <= i < kvs.len() && kvs[i] == (k, addons@[k]);
            }
        }
        assert forall|k: u128| #[trigger] r.contains_key(k) implies r[k] == u[k] by {
            if addons@.contains_key(k) {
                let i = choose|i: int| 0 <= i < kvs.len() && kvs[i] == (k, addons@[k]);
                assert(r[kvs[i].0] == (kvs[i].1.0, kvs[i].1.1@));
            } else {
                assert forall|i: int| 0 <= i < kvs.len() implies kvs[i].0 != k by {
                    assert(addons@.contains_key(kvs[i].0));
                }
            }
        }
        assert(r =~= u);
        if keyed(addons@) {
            lemma_queued_closed(q0, addons, scales@);
        }
    }
}

/// The positions below `base_len` hold the base tokens, each its own id;
/// every later one merges two earlier positions.
pub open spec fn stack_ok<T: TokenType>(ps: Seq<ProtoToken<T>>, base_len: nat) -> bool {
    &&& base_len <= ps.len()
    &&& forall|i: int|
        #![trigger ps[i]]
        0 <= i < ps.len() ==> match ps[i] {
            ProtoToken::Token(t) => i < base_len && t.index_view() == i,
            ProtoToken::Pair(a, b) => base_len <= i && a < i && b < i,
        }
}

/// The text of a position does not depend on the strings past `base_len`.
proof fn lemma_expand_base<T: TokenType>(
    ps: Seq<ProtoToken<T>>,
    t1: Seq<Seq<char>>,
    t2: Seq<Seq<char>>,
    base_len: nat,
    j: int,
)
    requires
        stack_ok(ps, base_len),
        base_len <= t1.len(),
        base_len <= t2.len(),
        forall|i: int| 0 <= i < base_len ==> t1[i] == t2[i],
    ensures
        expand(ps, t1, j) == expand(ps, t2, j),
    decreases j,
{
    if 0 <= j < ps.len() {
        match ps[j] {
            ProtoToken::Pair(a, b) => {
                lemma_expand_base(ps, t1, t2, base_len, a as int);
                lemma_expand_base(ps, t1, t2, base_len, b as int);
            },
            ProtoToken::Token(t) => {},
        }
    }
}

/// Entry `j` is two earlier entries put together.
pub open spec fn is_merge(vocab: Seq<Seq<char>>, j: int) -> bool {
    exists|a: int, b: int|
        #![trigger vocab[a], vocab[b]]
        0 <= a < j && 0 <= b < j && vocab[j] == vocab[a] + vocab[b]
}

/// Every entry from `base_len` on is two earlier entries put together.
pub open spec fn merges_ok(vocab: Seq<Seq<char>>, base_len: nat) -> bool {
    forall|j: int| base_len <= j < vocab.len() ==> #[trigger] is_merge(vocab, j)
}

proof fn lemma_merges_spelled<T: TokenType>(
    ps: Seq<ProtoToken<T>>,
    views: Seq<Seq<char>>,
    base_len: nat,
)
    requires
        stack_ok(ps, base_len),
        views.len() == ps.len(),
        forall|j: int| 0 <= j < views.len() ==> expand(ps, views, j) == #[trigger] views[j],
    ensures
        merges_ok(views, base_len),
{
    assert forall|j: int| base_len <= j < views.len() implies #[trigger] is_merge(views, j) by {
        match ps[j] {
            ProtoToken::Pair(a, b) => {
                assert(expand(ps, views, j) == expand(ps, views, a as int) + expand(
                    ps,
                    views,
                    b as int,
                ));
                assert(views[j] == views[a as int] + views[b as int]);
            },
            ProtoToken::Token(_) => {},
        }
    }
    assert(merges_ok(views, base_len));
}

/// Spells out every merge of the stack after the base tokens.
fn spell_merges<T: TokenType>(token2str: &mut Vec<String>, protostack: &Vec<ProtoToken<T>>)
    requires
        stack_ok(protostack@, old(token2str)@.len()),
        protostack@.len() <= T::index_limit() + 1,
    ensures
        final(token2str)@.len() == protostack@.len(),
        forall|i: int|
            0 <= i < old(token2str)@.len() ==> final(token2str)@[i] == old(token2str)@[i],
        merges_ok(views_of(final(token2str)@), old(token2str)@.len()),
        forall|j: int|
            0 <= j < protostack@.len() ==> #[trigger] views_of(final(token2str)@)[j] == expand(
                protostack@,
                views_of(old(token2str)@),
                j,
            ),
{
    let ghost start = views_of(token2str@);
    let base_len = token2str.len();
    let n = protostack.len();
    let mut i = base_len;
    proof {
        let views = views_of(token2str@);
        assert forall|j: int| 0 <= j < i implies expand(protostack@, views, j) == views[j] by {
            assert(protostack@[j] is Token);
        }
    }
    while i < n
        invariant
            stack_ok(protostack@, base_len as nat),
            n == protostack@.len(),
            n <= T::index_limit() + 1,
            base_len <= i <= n,
            token2str@.len() == i,
            forall|j: int| 0 <= j < base_len ==> token2str@[j] == old(token2str)@[j],
            forall|j: int|
                0 <= j < i ==> expand(protostack@, views_of(token2str@), j) == #[trigger] views_of(
                    token2str@,
                )[j],
        decreases n - i,
    {
        let ghost old_views = views_of(token2str@);
        proof {
            assert(proto_wf(protostack@, token2str@.len())) by {
                assert forall|k: int| #![trigger protostack@[k]] 0 <= k < protostack@.len() implies match protostack@[k] {
                    ProtoToken::Pair(a, b) => a < k && b < k,
                    ProtoToken::Token(t) => 0 <= t.index_view() < token2str@.len(),
                } by {}
            }
            assert(protostack@[i as int] is Pair);
            match protostack@[i as int] {
                ProtoToken::Pair(a, b) => {
                    let tv = token2str@.map_values(|s: String| s@);
                    crate::tokenizer::utils::lemma_expand_wf(protostack@, tv, a as int);
                    crate::tokenizer::utils::lemma_expand_wf(protostack@, tv, b as int);
                    assert(crate::tokenizer::utils::expands_within(
                        protostack@,
                        tv.len(),
                        a as int,
                        (a + 1) as nat,
                    ));
                    assert(crate::tokenizer::utils::expands_within(
                        protostack@,
                        tv.len(),
                        b as int,
                        (b + 1) as nat,
                    ));
                },
                ProtoToken::Token(_) => {},
            }
        }
        let spelled = protostack[i].pieces(T::from_index(i), token2str.as_slice(), protostack.as_slice());
        token2str.push(spelled);
        proof {
            let views = views_of(token2str@);
            assert forall|k: int| 0 <= k < base_len implies old_views[k] == views[k] by {}
            assert forall|j: int| 0 <= j < i + 1 implies expand(protostack@, views, j) == #[trigger] views[j] by {
                lemma_expand_base(protostack@, old_views, views, base_len as nat, j);
                if j == i {
                    match protostack@[j] {
                        ProtoToken::Pair(a, b) => {
                            lemma_expand_base(protostack@, old_views, views, base_len as nat, a as int);
                            lemma_expand_base(protostack@, old_views, views, base_len as nat, b as int);
                        },
                        ProtoToken::Token(_) => {},
                    }
                } else {
                    assert(views[j] == old_views[j]);
                }
            }
        }
        i = i + 1;
    }
    proof {
        lemma_merges_spelled(protostack@, views_of(token2str@), base_len as nat);
        let views = views_of(token2str@);
        assert forall|j: int| 0 <= j < protostack@.len() implies #[trigger] views[j] == expand(
            protostack@,
            start,
            j,
        ) by {
            assert forall|k: int| 0 <= k < base_len implies start[k] == views[k] by {}
            lemma_expand_base(protostack@, start, views, base_len as nat, j);
        }
    }
}


/// A one-character string.
fn char_string(c: char) -> (r: String)
    ensures
        r@ == seq![c],
{
    let mut r = String::new();
    string_push(&mut r, c);
    proof {
        assert(r@ =~= seq![c]);
    }
    r
}

/// How many codepoints of `s` the vocabulary takes in: all of them, or at
/// most `n` when `max_extra` is `Some(n)`.
pub open spec fn taken_extension(s: Seq<char>, max_extra: Option<usize>) -> int {
    let e = extension_of(s);
    match max_extra {
        Some(n) => if n < e.len() {
            n as int
        } else {
            e.len() as int
        },
        None => e.len() as int,
    }
}

/// The size of the vocabulary before any merge: the byte tokens, the
/// marker, the special tokens and the codepoints taken in.
pub open spec fn start_len(s: Seq<char>, n_special: int, max_extra: Option<usize>) -> int {
    257 + n_special + taken_extension(s, max_extra)
}

/// The stack that training builds on `start`: each entry of `start` as
/// itself, then the merges learned on `s` until `limit` entries.
pub open spec fn trained_stack<T: TokenType>(start: Seq<Seq<char>>, s: Seq<char>, limit: int) -> Seq<
    ProtoToken<T>,
> {
    Seq::new(start.len(), |i: int| ProtoToken::Token(T::token_of(i))) + learned_merges::<T>(
        start,
        s,
        limit,
    ).map_values(|p: TokenPair| ProtoToken::<T>::Pair(p.0, p.1))
}

/// The vocabulary that training gives: the text of each entry of the
/// trained stack.
pub open spec fn trained_vocab<T: TokenType>(start: Seq<Seq<char>>, s: Seq<char>, limit: int) -> Seq<
    Seq<char>,
> {
    let st = trained_stack::<T>(start, s, limit);
    Seq::new(st.len(), |i: int| expand(st, start, i))
}

/// The number of entries that merges go on to: the byte tokens and the
/// marker, the special tokens, and `n` more (capped at what a `usize`
/// counts past 257).
pub open spec fn merge_limit(n_special: int, n: usize) -> int {
    257 + (if n_special + n <= usize::MAX {
        n_special + n
    } else {
        usize::MAX as int
    })
}

/// The vocabulary that training starts from: the byte tokens and the
/// marker, the special tokens, then the multi-byte characters taken.
pub open spec fn start_vocab(s: Seq<char>, specials: Seq<Seq<char>>, max_extra: Option<usize>) -> Seq<
    Seq<char>,
> {
    base_strings() + specials + Seq::new(
        taken_extension(s, max_extra) as nat,
        |k: int| seq![extension_of(s)[k]],
    )
}

/// `vocab` is what training on `s` gives: the byte tokens and the marker,
/// then `specials`, then the codepoints taken in (multi-byte characters of
/// `s`, longest encoding first, then by codepoint); with `Some(n)`, then
/// merges, each the concatenation of two earlier entries, until the entries
/// past the marker number `n` or no pair is left; with `None`, nothing more.
pub open spec fn trained_ok(
    vocab: Seq<Seq<char>>,
    s: Seq<char>,
    specials: Seq<Seq<char>>,
    max_extra: Option<usize>,
) -> bool {
    let sp = specials.len() as int;
    let m = taken_extension(s, max_extra);
    let base_len = 257 + sp + m;
    &&& base_ok(vocab)
    &&& base_len <= vocab.len()
    &&& vocab.subrange(257, 257 + sp) == specials
    &&& forall|k: int| 0 <= k < m ==> #[trigger] vocab[257 + sp + k] == seq![extension_of(s)[k]]
    &&& match max_extra {
        None => vocab.len() == base_len,
        Some(n) => {
            &&& vocab.len() <= 257 + sp + n
            &&& merges_ok(vocab, base_len as nat)
        },
    }
}

/// A piece as it starts: its tokens, each in its own slot, in order.
pub open spec fn fresh_piece<T: TokenType>(ids: Seq<int>) -> PieceState<T> {
    (Seq::new(ids.len(), |k: int| k as usize), ids.map_values(|i: int| T::token_of(i)))
}

/// A polynomial hash of a text (base 31 over the codepoints, wrapping at
/// 2^64), by which equal chunks are found again.
pub open spec fn text_hash(s: Seq<char>) -> u64
    decreases s.len(),
{
    if s.len() == 0 {
        0
    } else {
        vstd::wrapping::u64_specs::wrapping_add(
            vstd::wrapping::u64_specs::wrapping_mul(text_hash(s.drop_last()), 31),
            s.last() as u64,
        )
    }
}

/// The hash of `s`.
fn hash_text(s: &str) -> (r: u64)
    ensures
        r == text_hash(s@),
{
    let chars = str_chars(s);
    let n = chars.len();
    let mut h: u64 = 0;
    let mut i: usize = 0;
    while i < n
        invariant
            chars@ == s@,
            n == chars@.len(),
            i <= n,
            h == text_hash(s@.subrange(0, i as int)),
        decreases n - i,
    {
        proof {
            let sub = s@.subrange(0, i + 1);
            assert(sub.drop_last() =~= s@.subrange(0, i as int));
            assert(sub.last() == chars@[i as int]);
        }
        h = h.wrapping_mul(31).wrapping_add(chars[i] as u64);
        i = i + 1;
    }
    proof {
        assert(s@.subrange(0, n as int) =~= s@);
    }
    h
}

/// The chunks of `cs` whose encoding is not empty, each once, in the order
/// they first occur.
pub open spec fn distinct_chunks(vocab: Seq<Seq<char>>, cs: Seq<Seq<char>>) -> Seq<Seq<char>>
    decreases cs.len(),
{
    if cs.len() == 0 {
        Seq::empty()
    } else {
        let d = distinct_chunks(vocab, cs.drop_last());
        let c = cs.last();
        if encode_ids(vocab, c).len() > 0 && !d.contains(c) {
            d.push(c)
        } else {
            d
        }
    }
}

/// How many times `t` occurs in `cs`, wrapping at 2^32.
pub open spec fn occurrences(cs: Seq<Seq<char>>, t: Seq<char>) -> u32
    decreases cs.len(),
{
    if cs.len() == 0 {
        0
    } else {
        let o = occurrences(cs.drop_last(), t);
        if cs.last() == t {
            wrap_add(o, 1)
        } else {
            o
        }
    }
}

/// A chunk with a non-empty encoding that is not among the distinct chunks
/// has not occurred.
proof fn lemma_absent_not_counted(vocab: Seq<Seq<char>>, cs: Seq<Seq<char>>, c: Seq<char>)
    requires
        encode_ids(vocab, c).len() > 0,
        !distinct_chunks(vocab, cs).contains(c),
    ensures
        occurrences(cs, c) == 0,
    decreases cs.len(),
{
    if cs.len() > 0 {
        let d = distinct_chunks(vocab, cs.drop_last());
        if cs.last() == c {
            if d.contains(c) {
                let k = choose|k: int| 0 <= k < d.len() && d[k] == c;
                assert(distinct_chunks(vocab, cs)[k] == c);
            } else {
                assert(distinct_chunks(vocab, cs) == d.push(c));
                assert(d.push(c)[d.len() as int] == c);
            }
        }
        if d.contains(c) {
            let k = choose|k: int| 0 <= k < d.len() && d[k] == c;
            assert(distinct_chunks(vocab, cs)[k] == c);
        }
        lemma_absent_not_counted(vocab, cs.drop_last(), c);
    }
}

/// The pairs of neighbouring tokens of the first `n` piece states, each at
/// (piece, first slot), piece by piece.
pub open spec fn state_entries<T: TokenType>(ps: Seq<PieceState<T>>, n: int) -> Seq<
    (TokenPair, (usize, usize)),
>
    decreases n,
{
    if n <= 0 {
        Seq::empty()
    } else {
        state_entries(ps, n - 1) + Seq::new(
            (ps[n - 1].1.len() - 1) as nat,
            |i: int| (ids((ps[n - 1].1[i], ps[n - 1].1[i + 1])), ((n - 1) as usize, i as usize)),
        )
    }
}

/// For pieces whose slots are all in the list in slot order, the slot pairs
/// are the pairs of neighbouring tokens.
proof fn lemma_piece_entries<T: TokenType>(pieces: Seq<ArenaList<T>>, n: int)
    requires
        0 <= n <= pieces.len(),
        forall|j: int|
            0 <= j < pieces.len() ==> (#[trigger] pieces[j]).order() == Seq::new(
                pieces[j].slots(),
                |k: int| k as usize,
            ) && 0 < pieces[j].slots() <= usize::MAX,
    ensures
        piece_entries(pieces, n) == state_entries(piece_states(pieces), n),
    decreases n,
{
    if n > 0 {
        lemma_piece_entries(pieces, n - 1);
        let p = pieces[n - 1];
        let st = piece_states(pieces)[n - 1];
        assert(st == piece_state(p));
        assert(st.1.len() == p.slots());
        assert forall|i: int| 0 <= i < p.slots() implies p.view()[i] == p.slot_value(i) by {
            assert(p.order()[i] == i as usize);
        }
        assert forall|i: int| 0 <= i < p.slots() - 1 implies slot_pair(p, i) == ids::<T>(
            (st.1[i], st.1[i + 1]),
        ) by {
            assert(p.view()[i] == p.slot_value(i));
            assert(p.view()[i + 1] == p.slot_value(i + 1));
        }
        let se = slot_entries(p, n - 1, p.slots() - 1);
        let sn = Seq::new(
            (st.1.len() - 1) as nat,
            |i: int| (ids((st.1[i], st.1[i + 1])), ((n - 1) as usize, i as usize)),
        );
        assert(st.1.len() == p.slots());
        assert(se.len() == sn.len());
        assert forall|i: int| 0 <= i < se.len() implies se[i] == sn[i] by {
            assert(se[i] == (slot_pair(p, i), ((n - 1) as usize, i as usize)));
            assert(i < p.slots() - 1);
        }
        assert(slot_entries(p, n - 1, p.slots() - 1) =~= Seq::new(
            (st.1.len() - 1) as nat,
            |i: int| (ids((st.1[i], st.1[i + 1])), ((n - 1) as usize, i as usize)),
        ));
    }
}

proof fn lemma_recorded_keyed(
    m: Map<u128, (TokenPair, Seq<(usize, usize)>)>,
    pair: TokenPair,
    at: (usize, usize),
)
    requires
        keyed(m),
    ensures
        keyed(recorded(m, pair, at)),
{
}

proof fn lemma_recorded_all_keyed(
    m: Map<u128, (TokenPair, Seq<(usize, usize)>)>,
    es: Seq<(TokenPair, (usize, usize))>,
)
    requires
        keyed(m),
    ensures
        keyed(recorded_all(m, es)),
    decreases es.len(),
{
    if es.len() > 0 {
        lemma_recorded_all_keyed(m, es.drop_last());
        lemma_recorded_keyed(recorded_all(m, es.drop_last()), es.last().0, es.last().1);
    }
}

proof fn lemma_merge_all_keyed<T: TokenType>(
    st: MergeState<T>,
    scales: Seq<u32>,
    positions: Seq<(usize, usize)>,
    pair: TokenPair,
    token: T,
)
    requires
        keyed(st.1),
        keyed(st.2),
    ensures
        keyed(merge_all(st, scales, positions, pair, token).1),
        keyed(merge_all(st, scales, positions, pair, token).2),
    decreases positions.len(),
{
    if positions.len() > 0 {
        lemma_merge_all_keyed(st, scales, positions.drop_last(), pair, token);
    }
}

proof fn lemma_keyed_pos_view(m: Map<u128, (TokenPair, Positions)>)
    ensures
        keyed(pos_view(m)) == keyed(m),
{
    assert forall|k: u128| m.contains_key(k) implies pos_view(m).contains_key(k) && pos_view(m)[k].0
        == m[k].0 by {}
}

/// The state of training between merges: the pieces, where each pair
/// occurs, and the queue of pairs with their counts.
pub type TrainState<T> = (
    Seq<PieceState<T>>,
    Map<u128, (TokenPair, Seq<(usize, usize)>)>,
    Map<TokenPair, PairPriority>,
);

/// The pair at the top of a queue: its count, then the pair, is greatest.
pub open spec fn queue_top(c: Map<TokenPair, PairPriority>) -> TokenPair {
    choose|p: TokenPair|
        c.contains_key(p) && forall|j: TokenPair| #[trigger] c.contains_key(j) ==> !ranks_below(c[p], c[j])
}

/// Every pair in the queue carries itself in its priority.
pub open spec fn self_ranked(c: Map<TokenPair, PairPriority>) -> bool {
    forall|p: TokenPair| #[trigger] c.contains_key(p) ==> c[p].1 == p
}

/// The pair that `pop` takes out of a self-ranked queue is its top pair.
proof fn lemma_queue_top(c: Map<TokenPair, PairPriority>, item: TokenPair, p: PairPriority)
    requires
        self_ranked(c),
        c.contains_key(item),
        c[item] == p,
        forall|j: TokenPair| #[trigger] c.contains_key(j) ==> !ranks_below(p, c[j]),
    ensures
        queue_top(c) == item,
{
    let t = queue_top(c);
    assert(c.contains_key(t) && forall|j: TokenPair| #[trigger] c.contains_key(j) ==> !ranks_below(
        c[t],
        c[j],
    ));
    assert(c[t].1 == t);
    assert(c[item].1 == item);
    assert(!ranks_below(c[t], c[item]));
    assert(!ranks_below(c[item], c[t]));
}

/// One merge: the top pair of the queue leaves it and becomes token `len`
/// at every position recorded for it; the counts of the pairs this breaks
/// are lowered, and the pairs it makes are queued with their weights and
/// recorded.
pub open spec fn train_step<T: TokenType>(st: TrainState<T>, scales: Seq<u32>, len: int) -> TrainState<
    T,
> {
    let pair = queue_top(st.2);
    let k = key_of(pair) as u128;
    let positions = if st.1.contains_key(k) {
        st.1[k].1
    } else {
        Seq::empty()
    };
    let m = merge_all((st.0, Map::empty(), Map::empty()), scales, positions, pair, T::token_of(len));
    (
        m.0,
        st.1.remove(k).union_prefer_right(m.2),
        lowered_by(st.2.remove(pair), m.1).union_prefer_right(queue_of(m.2, scales)),
    )
}

/// The merges of training from `st` while the stack holds `len` entries:
/// the top pair of the queue each time, until the stack holds `limit`
/// entries, the token type is full, the queue is empty, or the top pair
/// names no entry yet.
pub open spec fn train_run<T: TokenType>(st: TrainState<T>, scales: Seq<u32>, len: int, limit: int) -> Seq<
    TokenPair,
>
    decreases limit - len,
{
    if len >= limit || len > T::index_limit() || st.2 == Map::<TokenPair, PairPriority>::empty() {
        Seq::empty()
    } else {
        let pair = queue_top(st.2);
        if pair.0 >= len || pair.1 >= len {
            Seq::empty()
        } else {
            seq![pair] + train_run(train_step(st, scales, len), scales, len + 1, limit)
        }
    }
}

/// The state that training starts from: a piece for each distinct chunk,
/// the positions of every pair of neighbouring tokens, and the queue of
/// those pairs with their weights.
pub open spec fn start_state<T: TokenType>(pieces: Seq<PieceState<T>>, scales: Seq<u32>) -> TrainState<
    T,
> {
    let positions = recorded_all(Map::empty(), state_entries(pieces, pieces.len() as int));
    (pieces, positions, queue_of(positions, scales))
}

/// The pieces that training starts from.
pub open spec fn start_pieces<T: TokenType>(vocab: Seq<Seq<char>>, cs: Seq<Seq<char>>) -> Seq<
    PieceState<T>,
> {
    distinct_chunks(vocab, cs).map_values(|c: Seq<char>| fresh_piece::<T>(encode_ids(vocab, c)))
}

/// The weight of each starting piece: how often its chunk occurs.
pub open spec fn start_scales(vocab: Seq<Seq<char>>, cs: Seq<Seq<char>>) -> Seq<u32> {
    distinct_chunks(vocab, cs).map_values(|c: Seq<char>| occurrences(cs, c))
}

/// The merges that training learns on `s` on top of `vocab`, as pairs of
/// ids, until `limit` entries.
pub open spec fn learned_merges<T: TokenType>(vocab: Seq<Seq<char>>, s: Seq<char>, limit: int) -> Seq<
    TokenPair,
> {
    let cs = chunks_spec(normalize_spec(s));
    train_run(
        start_state::<T>(start_pieces::<T>(vocab, cs), start_scales(vocab, cs)),
        start_scales(vocab, cs),
        vocab.len() as int,
        limit,
    )
}

impl<T: TokenType> Tokenizer<T> {
    /// The pieces of the training text: each distinct chunk once, as the
    /// list of its tokens, with the number of times it occurs.
    fn build_pieces(&self, cks: &Vec<String>) -> (r: (Vec<ArenaList<T>>, Vec<u32>))
        requires
            self.wf(),
        ensures
            r.0@.len() == r.1@.len(),
            forall|j: int| 0 <= j < r.0@.len() ==> (#[trigger] r.0@[j]).wf(),
            ({
                let d = distinct_chunks(self.vocab(), cks.deep_view());
                &&& r.0@.len() == d.len()
                &&& forall|j: int|
                    0 <= j < d.len() ==> (#[trigger] r.0@[j]).view().map_values(
                        |t: T| t.index_view(),
                    ) == encode_ids(self.vocab(), d[j])
                &&& forall|j: int|
                    0 <= j < d.len() ==> #[trigger] r.1@[j] == occurrences(cks.deep_view(), d[j])
                &&& forall|j: int|
                    0 <= j < d.len() ==> piece_state(#[trigger] r.0@[j]) == fresh_piece::<T>(
                        encode_ids(self.vocab(), d[j]),
                    ) && r.0@[j].slots() == encode_ids(self.vocab(), d[j]).len() && 0 < r.0@[j].slots()
                        <= usize::MAX
            }),
    {
        let ghost vocab = self.vocab();
        let ghost cs = cks.deep_view();
        let mut index: HashMap<u64, Vec<usize>> = HashMap::new();
        let mut texts: Vec<String> = Vec::new();
        let mut pieces: Vec<ArenaList<T>> = Vec::new();
        let mut scales: Vec<u32> = Vec::new();
        let n = cks.len();
        let mut i: usize = 0;
        while i < n
            invariant
                self.wf(),
                vocab == self.vocab(),
                cs == cks.deep_view(),
                n == cks@.len(),
                i <= n,
                ({
                    let d = distinct_chunks(vocab, cs.subrange(0, i as int));
                    &&& pieces@.len() == d.len()
                    &&& scales@.len() == d.len()
                    &&& texts@.len() == d.len()
                    &&& forall|j: int| 0 <= j < d.len() ==> (#[trigger] texts@[j])@ == d[j]
                    &&& forall|a: int, b: int| 0 <= a < b < d.len() ==> d[a] != d[b]
                    &&& forall|j: int| 0 <= j < d.len() ==> encode_ids(vocab, #[trigger] d[j]).len() > 0
                    &&& forall|j: int|
                        0 <= j < d.len() ==> {
                            &&& (#[trigger] pieces@[j]).wf()
                            &&& pieces@[j].view().map_values(|t: T| t.index_view())
                                == encode_ids(vocab, d[j])
                            &&& piece_state(pieces@[j]) == fresh_piece::<T>(encode_ids(vocab, d[j]))
                            &&& pieces@[j].slots() == encode_ids(vocab, d[j]).len()
                            &&& pieces@[j].slots() <= usize::MAX
                        }
                    &&& forall|j: int|
                        0 <= j < d.len() ==> #[trigger] scales@[j] == occurrences(
                            cs.subrange(0, i as int),
                            d[j],
                        )
                    &&& forall|j: int|
                        0 <= j < d.len() ==> index@.contains_key(text_hash(#[trigger] d[j]))
                            && index@[text_hash(d[j])]@.contains(j as usize)
                }),
            decreases n - i,
        {
            let ghost d = distinct_chunks(vocab, cs.subrange(0, i as int));
            let chunk = &cks[i];
            let ghost c = chunk@;
            proof {
                let sub = cs.subrange(0, i + 1);
                assert(sub.drop_last() =~= cs.subrange(0, i as int));
                assert(sub.last() == c);
            }
            let h = hash_text(chunk.as_str());
            let n_texts = texts.len();
            let mut found: Option<usize> = None;
            match index.get(&h) {
                Some(ids) => {
                    let m = ids.len();
                    let mut k: usize = 0;
                    while k < m && found.is_none()
                        invariant
                            m == ids@.len(),
                            k <= m,
                            c == chunk@,
                            texts@.len() == d.len(),
                            found matches Some(id) ==> id < texts@.len() && texts@[id as int]@ == c,
                            found is None ==> forall|q: int|
                                0 <= q < k ==> !(ids@[q] < texts@.len() && texts@[ids@[q] as int]@
                                    == c),
                        decreases (m - k) + (if found is None {
                            1int
                        } else {
                            0int
                        }),
                    {
                        let id = ids[k];
                        if id < texts.len() && texts[id] == *chunk {
                            found = Some(id);
                        } else {
                            k = k + 1;
                        }
                    }
                    proof {
                        if found is None {
                            assert(k == m);
                            if d.contains(c) {
                                let j = choose|j: int| 0 <= j < d.len() && d[j] == c;
                                assert(index@.contains_key(text_hash(d[j])));
                                assert(ids@ == index@[h]@);
                                assert(ids@.contains(j as usize));
                                let q = choose|q: int| 0 <= q < ids@.len() && ids@[q] == j as usize;
                                assert(j < texts@.len());
                                assert(texts@.len() == n_texts);
                                assert(ids@[q] as int == j);
                                assert(texts@[j]@ == c);
                                assert(!(ids@[q] < texts@.len() && texts@[ids@[q] as int]@ == c));
                                assert(false);
                            }
                        }
                    }
                },
                None => {
                    proof {
                        if d.contains(c) {
                            let j = choose|j: int| 0 <= j < d.len() && d[j] == c;
                            assert(index@.contains_key(text_hash(d[j])));
                            assert(false);
                        }
                    }
                },
            }
            proof {
                if found is None {
                    assert(!d.contains(c));
                }
            }
            match found {
                Some(id) => {
                    let count = scales[id];
                    scales.set(id, count.wrapping_add(1));
                    proof {
                        assert(d[id as int] == c);
                        assert(d.contains(c));
                        assert forall|j: int| 0 <= j < d.len() implies #[trigger] scales@[j]
                            == occurrences(cs.subrange(0, i + 1), d[j]) by {
                            if j != id {
                                assert(d[j] != d[id as int]);
                            }
                        }
                    }
                },
                None => {
                    let toks = self.encode_normalized(chunk.as_str());
                    proof {
                        assert(toks@.map_values(|t: T| t.index_view()).len() == toks@.len());
                    }
                    if toks.len() > 0 {
                        let id = pieces.len();
                        pieces.push(ArenaList::from_iter(toks.as_slice()));
                        scales.push(1);
                        texts.push(chunk.clone());
                        let ghost before = index@;
                        match index.remove(&h) {
                            Some(v) => {
                                let mut v = v;
                                let ghost old_v = v@;
                                v.push(id);
                                index.insert(h, v);
                                proof {
                                    assert(before.contains_key(h));
                                    assert(index@[h]@ == old_v.push(id));
                                }
                            },
                            None => {
                                let mut v: Vec<usize> = Vec::new();
                                v.push(id);
                                index.insert(h, v);
                            },
                        }
                        proof {
                            lemma_absent_not_counted(vocab, cs.subrange(0, i as int), c);
                            let d2 = d.push(c);
                            assert(distinct_chunks(vocab, cs.subrange(0, i + 1)) == d2);
                            assert forall|j: int| 0 <= j < d2.len() implies index@.contains_key(
                                text_hash(#[trigger] d2[j]),
                            ) && index@[text_hash(d2[j])]@.contains(j as usize) by {
                                if j < d.len() {
                                    assert(d2[j] == d[j]);
                                    assert(before.contains_key(text_hash(d[j])));
                                    if text_hash(d[j]) == h {
                                        let ids0 = before[h]@;
                                        let q = choose|q: int| 0 <= q < ids0.len() && ids0[q] == j as usize;
                                        assert(index@[h]@[q] == j as usize);
                                    }
                                } else {
                                    assert(index@[h]@.last() == id);
                                }
                            }
                            assert forall|j: int| 0 <= j < d2.len() implies #[trigger] scales@[j]
                                == occurrences(cs.subrange(0, i + 1), d2[j]) by {
                                if j < d.len() {
                                    assert(d2[j] == d[j]);
                                    assert(d[j] != c);
                                }
                            }
                            assert forall|a: int, b: int| 0 <= a < b < d2.len() implies d2[a]
                                != d2[b] by {
                                if b == d.len() {
                                    assert(d.contains(d[a]));
                                }
                            }
                            assert(pieces@[id as int].view().map_values(|t: T| t.index_view())
                                =~= toks@.map_values(|t: T| t.index_view()));
                            assert(piece_state(pieces@[id as int]) =~= fresh_piece::<T>(
                                encode_ids(vocab, c),
                            ));
                        }
                    } else {
                        proof {
                            assert(distinct_chunks(vocab, cs.subrange(0, i + 1)) == d);
                            assert forall|j: int| 0 <= j < d.len() implies #[trigger] scales@[j]
                                == occurrences(cs.subrange(0, i + 1), d[j]) by {
                                assert(encode_ids(vocab, d[j]).len() > 0);
                            }
                        }
                    }
                },
            }
            i = i + 1;
        }
        proof {
            assert(cs.subrange(0, n as int) =~= cs);
        }
        (pieces, scales)
    }

    /// The merges of BPE training on `s`, on top of this vocabulary: the
    /// most frequent pair of neighbouring tokens (ties to the greater pair)
    /// becomes a new token, until `extra_tokens` entries follow the marker,
    /// the token type is full, or no pair is left.
    #[verifier::spinoff_prover]
    #[verifier::rlimit(60)]
    fn learn_merges(&self, s: &str, extra_tokens: usize) -> (r: Vec<ProtoToken<T>>)
        requires
            self.wf(),
        ensures
            stack_ok(r@, self.vocab().len()),
            r@.len() <= T::index_limit() + 1,
            r@.len() <= (if self.vocab().len() < 257 + extra_tokens {
                257 + extra_tokens
            } else {
                self.vocab().len() as int
            }),
            r@ == Seq::new(self.vocab().len(), |i: int| ProtoToken::Token(T::token_of(i)))
                + learned_merges::<T>(self.vocab(), s@, 257 + extra_tokens).map_values(
                |p: TokenPair| ProtoToken::<T>::Pair(p.0, p.1),
            ),
    {
        proof {
            self.lemma_wf_facts();
        }
        let ghost vocab = self.vocab();
        let ghost limit = 257 + extra_tokens;
        let base_len = self.token2str.len();
        let mut protostack: Vec<ProtoToken<T>> = Vec::new();
        let mut i: usize = 0;
        while i < base_len
            invariant
                self.wf(),
                base_len == self.vocab().len(),
                base_len <= T::index_limit() + 1,
                i <= base_len,
                protostack@.len() == i,
                forall|k: int|
                    #![trigger protostack@[k]]
                    0 <= k < i ==> (protostack@[k] matches ProtoToken::Token(t) && t.index_view()
                        == k),
                forall|k: int|
                    0 <= k < i ==> #[trigger] protostack@[k] == ProtoToken::Token(T::token_of(k)),
            decreases base_len - i,
        {
            protostack.push(ProtoToken::Token(T::from_index(i)));
            i = i + 1;
        }
        let ghost base_stack = protostack@;
        proof {
            assert(base_stack =~= Seq::new(
                base_len as nat,
                |i: int| ProtoToken::Token(T::token_of(i)),
            ));
        }
        let normalized = normalize(s);
        let cks = chunks(normalized.as_str());
        let ghost cs = cks.deep_view();
        let (mut pieces, scales) = self.build_pieces(&cks);
        let mut pair_positions = count_positions(&pieces);
        proof {
            let d = distinct_chunks(vocab, cs);
            assert(piece_states(pieces@) =~= start_pieces::<T>(vocab, cs));
            assert(scales@ =~= start_scales(vocab, cs));
            assert forall|j: int| 0 <= j < pieces@.len() implies (#[trigger] pieces@[j]).order()
                == Seq::new(pieces@[j].slots(), |k: int| k as usize) && 0 < pieces@[j].slots()
                <= usize::MAX by {
                assert(piece_state(pieces@[j]) == fresh_piece::<T>(encode_ids(vocab, d[j])));
            }
            lemma_piece_entries(pieces@, pieces@.len() as int);
            lemma_recorded_all_keyed(
                Map::empty(),
                state_entries(piece_states(pieces@), pieces@.len() as int),
            );
            lemma_keyed_pos_view(pair_positions@);
        }
        let mut pq = fill_queue(&pair_positions, &scales);
        let mut decrements: HashMap<u128, (TokenPair, u32)> = HashMap::new();
        let mut addons: PositionMap = HashMap::new();
        let ghost run_all = learned_merges::<T>(vocab, s@, limit);
        let ghost mut done: Seq<TokenPair> = Seq::empty();
        proof {
            assert(pos_view(addons@) =~= Map::empty());
            let st0: TrainState<T> = (
                piece_states(pieces@),
                pos_view(pair_positions@),
                queue_contents(pq),
            );
            assert(st0 == start_state::<T>(start_pieces::<T>(vocab, cs), start_scales(vocab, cs)));
            assert(protostack@ =~= base_stack + done.map_values(
                |p: TokenPair| ProtoToken::<T>::Pair(p.0, p.1),
            ));
            assert(run_all =~= done + run_all);
        }
        while protostack.len() - 257 < extra_tokens
            invariant_except_break
                run_all == done + train_run(
                    (piece_states(pieces@), pos_view(pair_positions@), queue_contents(pq)),
                    scales@,
                    protostack@.len() as int,
                    limit,
                ),
            invariant
                base_len >= 257,
                base_len == vocab.len(),
                base_len <= T::index_limit() + 1,
                limit == 257 + extra_tokens,
                stack_ok(protostack@, base_len as nat),
                protostack@.len() <= T::index_limit() + 1,
                protostack@.len() <= (if base_len < 257 + extra_tokens {
                    257 + extra_tokens
                } else {
                    base_len as int
                }),
                pieces@.len() == scales@.len(),
                forall|j: int| 0 <= j < pieces@.len() ==> (#[trigger] pieces@[j]).wf(),
                protostack@ == base_stack + done.map_values(
                    |p: TokenPair| ProtoToken::<T>::Pair(p.0, p.1),
                ),
                base_stack == Seq::new(base_len as nat, |i: int| ProtoToken::Token(T::token_of(i))),
                protostack@.len() == base_len + done.len(),
                keyed(pair_positions@),
                keyed(pos_view(pair_positions@)),
                self_ranked(queue_contents(pq)),
                decrements@ == Map::<u128, (TokenPair, u32)>::empty(),
                addons@ == Map::<u128, (TokenPair, Positions)>::empty(),
            ensures
                run_all == done,
                protostack@ == base_stack + done.map_values(
                    |p: TokenPair| ProtoToken::<T>::Pair(p.0, p.1),
                ),
                stack_ok(protostack@, base_len as nat),
                protostack@.len() <= T::index_limit() + 1,
                protostack@.len() <= (if base_len < 257 + extra_tokens {
                    257 + extra_tokens
                } else {
                    base_len as int
                }),
            decreases extra_tokens - (protostack@.len() - 257),
        {
            let len = protostack.len();
            let ghost st: TrainState<T> = (
                piece_states(pieces@),
                pos_view(pair_positions@),
                queue_contents(pq),
            );
            if len > T::max_index() {
                proof {
                    assert(train_run(st, scales@, len as int, limit) =~= Seq::<TokenPair>::empty());
                    assert(done + Seq::<TokenPair>::empty() =~= done);
                }
                break;
            }
            let ghost q_before = queue_contents(pq);
            match queue_pop(&mut pq) {
                None => {
                    proof {
                        assert(train_run(st, scales@, len as int, limit) =~= Seq::<TokenPair>::empty());
                        assert(done + Seq::<TokenPair>::empty() =~= done);
                    }
                    break;
                },
                Some((pair, priority)) => {
                    proof {
                        lemma_queue_top(q_before, pair, priority);
                    }
                    if pair.0 >= len || pair.1 >= len {
                        proof {
                            assert(train_run(st, scales@, len as int, limit) =~= Seq::<TokenPair>::empty());
                            assert(done + Seq::<TokenPair>::empty() =~= done);
                        }
                        break;
                    }
                    let token = T::from_index(len);
                    let ghost before = protostack@;
                    protostack.push(ProtoToken::Pair(pair.0, pair.1));
                    proof {
                        assert forall|k: int| #![trigger protostack@[k]] 0 <= k < protostack@.len() implies match protostack@[k] {
                            ProtoToken::Token(t) => k < base_len && t.index_view() == k,
                            ProtoToken::Pair(a, b) => base_len <= k && a < k && b < k,
                        } by {
                            if k < len {
                                assert(protostack@[k] == before[k]);
                            }
                        }
                        let done2 = done.push(pair);
                        assert(protostack@ =~= base_stack + done2.map_values(
                            |p: TokenPair| ProtoToken::<T>::Pair(p.0, p.1),
                        ));
                        assert(train_run(st, scales@, len as int, limit) == seq![pair] + train_run(
                            train_step(st, scales@, len as int),
                            scales@,
                            len + 1,
                            limit,
                        ));
                        assert(run_all =~= done2 + train_run(
                            train_step(st, scales@, len as int),
                            scales@,
                            len + 1,
                            limit,
                        ));
                        done = done2;
                    }
                    let key = pair_key(pair);
                    let ghost pos_before = pair_positions@;
                    let positions: Positions = match pair_positions.remove(&key) {
                        Some(entry) => entry.1,
                        None => Vec::new(),
                    };
                    proof {
                        assert(pair_positions@ == pos_before.remove(key));
                        assert(pos_view(pair_positions@) =~= st.1.remove(key));
                        assert(positions@ == (if st.1.contains_key(key) {
                            st.1[key].1
                        } else {
                            Seq::empty()
                        }));
                        assert(pos_view(addons@) =~= Map::empty());
                    }
                    merge_occurrences(
                        &mut pieces,
                        &scales,
                        &positions,
                        pair,
                        token,
                        &mut decrements,
                        &mut addons,
                    );
                    proof {
                        lemma_merge_all_keyed(
                            (st.0, Map::empty(), Map::empty()),
                            scales@,
                            positions@,
                            pair,
                            token,
                        );
                        lemma_keyed_pos_view(addons@);
                    }
                    apply_decrements(&mut pq, &decrements);
                    decrements.clear();
                    let ghost pos_mid = pos_view(pair_positions@);
                    apply_addons(&mut pq, &mut pair_positions, &addons, &scales);
                    proof {
                        let m = merge_all(
                            (st.0, Map::empty(), Map::empty()),
                            scales@,
                            positions@,
                            pair,
                            T::token_of(len as int),
                        );
                        let st2 = train_step(st, scales@, len as int);
                        assert(piece_states(pieces@) == st2.0);
                        assert(pos_view(pair_positions@) =~= st2.1);
                        assert(queue_contents(pq) =~= st2.2);
                        assert(keyed(pos_view(pair_positions@)));
                        lemma_keyed_pos_view(pair_positions@);
                        assert forall|p: TokenPair| #[trigger] queue_contents(pq).contains_key(p)
                            implies queue_contents(pq)[p].1 == p by {}
                    }
                    addons.clear();
                },
            }
        }
        proof {
            assert(learned_merges::<T>(vocab, s@, limit) == run_all);
        }
        protostack
    }

    /// Trains a tokenizer on `s`.
    ///
    /// The vocabulary starts with the 256 byte tokens, the word-start marker
    /// `▁` and `special_tokens`. With `Some(n)`, the multi-byte characters
    /// of `s` (longest encoding first, then by codepoint) come next, at most
    /// `n` of them, then merges are learned until the vocabulary holds
    /// `257 + special_tokens.len() + n` entries; with `None`, all the
    /// multi-byte characters and no merges.
    ///
    /// Fails with `Vocabulary` when the starting vocabulary does not fit the
    /// token type, and with `Automaton` when the matcher cannot be built (as
    /// when two entries are the same string).
    pub fn train(s: &str, special_tokens: &[&str], max_extra_tokens: Option<usize>) -> (r: Result<
        Self,
        TokenizerError,
    >)
        ensures
            r matches Ok(tok) ==> tok.wf() && trained_ok(
                tok.vocab(),
                s@,
                special_tokens@.map_values(|t: &str| t@),
                max_extra_tokens,
            ),
            (r matches Err(TokenizerError::Vocabulary(_))) <==> start_len(
                s@,
                special_tokens@.len() as int,
                max_extra_tokens,
            ) > T::index_limit() + 1,
            r matches Err(e) ==> (e is Vocabulary || e is Automaton),
            ({
                let specials = special_tokens@.map_values(|t: &str| t@);
                let start = start_vocab(s@, specials, max_extra_tokens);
                let fits = start_len(s@, special_tokens@.len() as int, max_extra_tokens)
                    <= T::index_limit() + 1;
                &&& fits && !ac_builds(patterns_of(start)) ==> (r matches Err(
                    TokenizerError::Automaton(_),
                ))
                &&& fits && ac_builds(patterns_of(start)) && max_extra_tokens is None ==> r is Ok
                &&& max_extra_tokens matches Some(n) ==> {
                    let v = trained_vocab::<T>(start, s@, merge_limit(specials.len() as int, n));
                    &&& r matches Ok(tok) ==> tok.vocab() == v
                    &&& fits && ac_builds(patterns_of(start)) ==> (r is Ok <==> ac_builds(
                        patterns_of(v),
                    ))
                }
                &&& fits && ac_builds(patterns_of(start)) && (forall|v: Seq<Seq<char>>|
                    trained_ok(v, s@, specials, max_extra_tokens) ==> #[trigger] ac_builds(
                        patterns_of(v),
                    )) ==> r is Ok
            }),
    {
        let mut alphabet = base_vocabulary();
        let ext = multibyte_chars(s);
        let ghost specials = special_tokens@.map_values(|t: &str| t@);
        let n_special = special_tokens.len();
        let mut i: usize = 0;
        while i < n_special
            invariant
                n_special == special_tokens@.len(),
                specials == special_tokens@.map_values(|t: &str| t@),
                i <= n_special,
                alphabet@.len() == 257 + i,
                base_ok(views_of(alphabet@)),
                views_of(alphabet@).subrange(257, 257 + i as int) == specials.subrange(0, i as int),
            decreases n_special - i,
        {
            let ghost before = views_of(alphabet@);
            alphabet.push(special_tokens[i].to_owned());
            proof {
                let views = views_of(alphabet@);
                assert(views.subrange(257, 257 + i + 1) =~= before.subrange(257, 257 + i as int).push(
                    specials[i as int],
                ));
                assert(specials.subrange(0, i + 1) =~= specials.subrange(0, i as int).push(
                    specials[i as int],
                ));
                assert forall|k: int| 0 <= k < 256 implies #[trigger] views[k] == before[k] by {}
            }
            i = i + 1;
        }
        let take = match max_extra_tokens {
            Some(n) => if n < ext.len() {
                n
            } else {
                ext.len()
            },
            None => ext.len(),
        };
        let mut k: usize = 0;
        while k < take
            invariant
                take <= ext@.len(),
                ext@ == extension_of(s@),
                k <= take,
                alphabet@.len() == 257 + n_special + k,
                base_ok(views_of(alphabet@)),
                views_of(alphabet@).subrange(257, 257 + n_special as int) == specials,
                forall|j: int|
                    0 <= j < k ==> #[trigger] views_of(alphabet@)[257 + n_special + j] == seq![
                        ext@[j],
                    ],
            decreases take - k,
        {
            let ghost before = views_of(alphabet@);
            alphabet.push(char_string(ext[k]));
            proof {
                let views = views_of(alphabet@);
                assert(views.subrange(257, 257 + n_special as int) =~= before.subrange(
                    257,
                    257 + n_special as int,
                ));
                assert forall|j: int| 0 <= j < 256 implies #[trigger] views[j] == before[j] by {}
                assert forall|j: int| 0 <= j < k + 1 implies #[trigger] views[257 + n_special + j]
                    == seq![ext@[j]] by {
                    if j < k {
                        assert(views[257 + n_special + j] == before[257 + n_special + j]);
                    }
                }
            }
            k = k + 1;
        }
        proof {
            let views = views_of(alphabet@);
            let start = start_vocab(s@, specials, max_extra_tokens);
            assert(views.len() == start.len());
            assert forall|j: int| 0 <= j < views.len() implies views[j] == start[j] by {
                if j < 256 {
                } else if j == 256 {
                } else if j < 257 + n_special {
                    assert(views.subrange(257, 257 + n_special as int)[j - 257] == specials[j - 257]);
                } else {
                    let k = j - 257 - n_special;
                    assert(views[257 + n_special + k] == seq![ext@[k]]);
                }
            }
            assert(views =~= start);
        }
        let base_len = alphabet.len();
        let max = T::max_index();
        if base_len - 1 > max {
            return Err(TokenizerError::Vocabulary(size_message(base_len, max + 1)));
        }
        let tokenizer = match Self::with_vocabulary(alphabet) {
            Ok(t) => t,
            Err(e) => {
                return Err(e);
            },
        };
        match max_extra_tokens {
            None => Ok(tokenizer),
            Some(extra_tokens) => {
                let budget = if extra_tokens <= usize::MAX - n_special {
                    n_special + extra_tokens
                } else {
                    usize::MAX
                };
                let protostack = tokenizer.learn_merges(s, budget);
                let mut token2str = tokenizer.token2str.clone();
                let ghost start = views_of(token2str@);
                spell_merges(&mut token2str, &protostack);
                proof {
                    let v = trained_vocab::<T>(start, s@, merge_limit(n_special as int, extra_tokens));
                    assert(tokenizer.vocab() == start);
                    assert(views_of(token2str@) =~= v);
                    let views = views_of(token2str@);
                    assert forall|j: int| 0 <= j < base_len implies views[j] == start[j] by {}
                    assert(views.subrange(257, 257 + n_special as int) =~= start.subrange(
                        257,
                        257 + n_special as int,
                    ));
                }
                Self::with_vocabulary(token2str)
            },
        }
    }
}

} // verus!
