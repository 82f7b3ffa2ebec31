//! The pattern matcher of the vocabulary: a leftmost-longest Aho-Corasick
//! automaton of the `daachorse` crate, and what its matches are.

use vstd::prelude::*;

use daachorse::errors::DaachorseError;
use daachorse::DoubleArrayAhoCorasick;

verus! {

#[verifier::external_type_specification]
#[verifier::external_body]
#[verifier::reject_recursive_types(V)]
pub struct ExDoubleArrayAhoCorasick<V>(DoubleArrayAhoCorasick<V>);

#[verifier::external_type_specification]
#[verifier::external_body]
pub struct ExDaachorseError(DaachorseError);

/// The patterns an automaton was built from, the value of each being its
/// position in this sequence.
pub uninterp spec fn ac_patterns(ac: DoubleArrayAhoCorasick<usize>) -> Seq<Seq<u8>>;

/// The automaton was built for leftmost-longest matching.
pub uninterp spec fn ac_is_leftmost_longest(ac: DoubleArrayAhoCorasick<usize>) -> bool;

/// `p` occurs in `text` at byte position `i`.
pub open spec fn occurs_at(p: Seq<u8>, text: Seq<u8>, i: int) -> bool {
    &&& 0 <= i
    &&& p.len() > 0
    &&& i + p.len() <= text.len()
    &&& text.subrange(i, i + p.len()) == p
}

/// Among the first `n` patterns, the one that occurs at `i` and is longest
/// (the first such on a tie), or -1 when none occurs there.
pub open spec fn longest_at(pats: Seq<Seq<u8>>, text: Seq<u8>, i: int, n: int) -> int
    decreases n,
{
    if n <= 0 {
        -1
    } else {
        let b = longest_at(pats, text, i, n - 1);
        if occurs_at(pats[n - 1], text, i) && (b < 0 || pats[n - 1].len() > pats[b].len()) {
            n - 1
        } else {
            b
        }
    }
}

/// The first position at or after `pos` where some pattern occurs, or -1.
pub open spec fn leftmost_from(pats: Seq<Seq<u8>>, text: Seq<u8>, pos: int) -> int
    decreases text.len() - pos,
{
    if pos < 0 || pos >= text.len() {
        -1
    } else if longest_at(pats, text, pos, pats.len() as int) >= 0 {
        pos
    } else {
        leftmost_from(pats, text, pos + 1)
    }
}

/// `longest_at` finds an occurring pattern, and none that occurs there is
/// longer than it.
pub proof fn lemma_longest_at(pats: Seq<Seq<u8>>, text: Seq<u8>, i: int, n: int)
    requires
        n <= pats.len(),
    ensures
        longest_at(pats, text, i, n) >= 0 ==> {
            &&& longest_at(pats, text, i, n) < n
            &&& occurs_at(pats[longest_at(pats, text, i, n)], text, i)
        },
        forall|k: int|
            0 <= k < n && occurs_at(pats[k], text, i) ==> {
                &&& longest_at(pats, text, i, n) >= 0
                &&& pats[k].len() <= pats[longest_at(pats, text, i, n)].len()
            },
    decreases n,
{
    if n > 0 {
        lemma_longest_at(pats, text, i, n - 1);
    }
}

/// `leftmost_from` is the first position from `pos` on where some pattern
/// occurs.
pub proof fn lemma_leftmost_from(pats: Seq<Seq<u8>>, text: Seq<u8>, pos: int)
    requires
        0 <= pos,
    ensures
        leftmost_from(pats, text, pos) >= 0 ==> {
            &&& pos <= leftmost_from(pats, text, pos) < text.len()
            &&& longest_at(pats, text, leftmost_from(pats, text, pos), pats.len() as int) >= 0
        },
        forall|j: int|
            pos <= j && (leftmost_from(pats, text, pos) < 0 || j < leftmost_from(pats, text, pos))
                ==> longest_at(pats, text, j, pats.len() as int) < 0,
    decreases text.len() - pos,
{
    if 0 <= pos < text.len() && longest_at(pats, text, pos, pats.len() as int) < 0 {
        lemma_leftmost_from(pats, text, pos + 1);
    }
    if pos >= text.len() {
        assert forall|j: int| pos <= j implies longest_at(pats, text, j, pats.len() as int) < 0 by {
            lemma_longest_at(pats, text, j, pats.len() as int);
        }
    }
}

/// The matches, as (start, end, pattern), that a leftmost-longest search
/// reports from byte `pos` on: the leftmost position where a pattern
/// occurs, the longest pattern occurring there, then on from its end.
pub open spec fn leftmost_longest_from(pats: Seq<Seq<u8>>, text: Seq<u8>, pos: int) -> Seq<
    (int, int, int),
>
    decreases text.len() - pos,
{
    let i = leftmost_from(pats, text, pos);
    if i < 0 || pos < 0 || pos >= text.len() {
        Seq::empty()
    } else {
        let k = longest_at(pats, text, i, pats.len() as int);
        let e = i + pats[k].len();
        if pos < e <= text.len() {
            seq![(i, e, k)] + leftmost_longest_from(pats, text, e)
        } else {
            Seq::empty()
        }
    }
}

/// The matches of a leftmost-longest search over the whole text.
pub open spec fn leftmost_longest(pats: Seq<Seq<u8>>, text: Seq<u8>) -> Seq<(int, int, int)> {
    leftmost_longest_from(pats, text, 0)
}

/// Every match names a pattern, lies in the text from `pos` on, and is an
/// occurrence of that pattern.
pub proof fn lemma_matches_valid(pats: Seq<Seq<u8>>, text: Seq<u8>, pos: int)
    requires
        0 <= pos,
    ensures
        forall|j: int|
            #![trigger leftmost_longest_from(pats, text, pos)[j]]
            0 <= j < leftmost_longest_from(pats, text, pos).len() ==> {
                let m = leftmost_longest_from(pats, text, pos)[j];
                &&& 0 <= m.2 < pats.len()
                &&& pos <= m.0 < m.1 <= text.len()
                &&& m.1 == m.0 + pats[m.2].len()
                &&& occurs_at(pats[m.2], text, m.0)
            },
    decreases text.len() - pos,
{
    let i = leftmost_from(pats, text, pos);
    if !(i < 0 || pos >= text.len()) {
        lemma_leftmost_from(pats, text, pos);
        let k = longest_at(pats, text, i, pats.len() as int);
        lemma_longest_at(pats, text, i, pats.len() as int);
        let e = i + pats[k].len();
        if pos < e <= text.len() {
            lemma_matches_valid(pats, text, e);
            let rest = leftmost_longest_from(pats, text, e);
            let all = leftmost_longest_from(pats, text, pos);
            assert(all == seq![(i, e, k)] + rest);
            assert forall|j: int| #![trigger all[j]] 0 <= j < all.len() implies {
                let m = all[j];
                &&& 0 <= m.2 < pats.len()
                &&& pos <= m.0 < m.1 <= text.len()
                &&& m.1 == m.0 + pats[m.2].len()
                &&& occurs_at(pats[m.2], text, m.0)
            } by {
                if j > 0 {
                    assert(all[j] == rest[j - 1]);
                }
            }
        }
    }
}

/// Searching a pattern alone finds it as one match.
pub proof fn lemma_pattern_alone(pats: Seq<Seq<u8>>, k: int)
    requires
        patterns_ok(pats),
        0 <= k < pats.len(),
    ensures
        leftmost_longest(pats, pats[k]) == seq![(0int, pats[k].len() as int, k)],
{
    let text = pats[k];
    let n = pats.len() as int;
    assert(text.len() > 0);
    assert(text.subrange(0, text.len() as int) =~= text);
    assert(occurs_at(pats[k], text, 0));
    lemma_longest_at(pats, text, 0, n);
    lemma_leftmost_from(pats, text, 0);
    let b = longest_at(pats, text, 0, n);
    assert(b >= 0);
    assert(leftmost_from(pats, text, 0) == 0);
    assert(occurs_at(pats[b], text, 0));
    assert(pats[k].len() <= pats[b].len());
    assert(pats[b] =~= text);
    if b != k {
        if b < k {
            assert(pats[b] != pats[k]);
        } else {
            assert(pats[k] != pats[b]);
        }
    }
    let e = text.len() as int;
    assert(leftmost_from(pats, text, e) == -1);
    assert(leftmost_longest_from(pats, text, e) =~= Seq::<(int, int, int)>::empty());
    assert(leftmost_longest(pats, text) =~= seq![(0int, e, k)]);
}

/// The patterns can be handed to `daachorse`: there is one at least, none
/// is empty, and no two are equal.
pub open spec fn patterns_ok(pats: Seq<Seq<u8>>) -> bool {
    &&& pats.len() > 0
    &&& forall|k: int| 0 <= k < pats.len() ==> #[trigger] pats[k].len() > 0
    &&& forall|a: int, b: int| 0 <= a < b < pats.len() ==> pats[a] != pats[b]
}

/// `DoubleArrayAhoCorasickBuilder::build` accepts these patterns for
/// leftmost-longest matching; what it decides depends on the patterns
/// alone.
pub uninterp spec fn ac_builds(patterns: Seq<Seq<u8>>) -> bool;

/// `DoubleArrayAhoCorasickBuilder::build` for leftmost-longest matching,
/// the value of each pattern being its position. Whether it succeeds is
/// named `ac_builds`. The crate documents an error when the list is empty,
/// holds an empty pattern or a pattern twice, or is beyond the automaton's
/// scale; so success means the first three do not hold. When it fails for
/// scale is not stated.
#[verifier::external_body]
pub(crate) fn ac_build(patterns: &Vec<Vec<u8>>) -> (r: Result<DoubleArrayAhoCorasick<usize>, DaachorseError>)
    ensures
        r is Ok <==> ac_builds(patterns.deep_view()),
        r matches Ok(ac) ==> {
            &&& ac_patterns(ac) == patterns.deep_view()
            &&& ac_is_leftmost_longest(ac)
            &&& patterns_ok(patterns.deep_view())
        },
{
    daachorse::DoubleArrayAhoCorasickBuilder::new().match_kind(
        daachorse::MatchKind::LeftmostLongest,
    ).build(patterns)
}

/// `DoubleArrayAhoCorasick::leftmost_find_iter`, collected as
/// (start, end, value): the non-overlapping leftmost-longest matches of the
/// automaton's patterns in `text`, as the crate documents them.
#[verifier::external_body]
pub(crate) fn ac_find(ac: &DoubleArrayAhoCorasick<usize>, text: &[u8]) -> (r: Vec<(usize, usize, usize)>)
    requires
        ac_is_leftmost_longest(*ac),
        patterns_ok(ac_patterns(*ac)),
    ensures
        r@.map_values(|m: (usize, usize, usize)| (m.0 as int, m.1 as int, m.2 as int))
            == leftmost_longest(ac_patterns(*ac), text@),
{
    ac.leftmost_find_iter(text).map(|m| (m.start(), m.end(), m.value())).collect()
}

} // verus!
