//! Decoding gives back what encoding was given: the tokens that the
//! leftmost-longest search finds in the UTF-8 bytes of a text decode to that
//! text, whichever entries the vocabulary holds.

use vstd::prelude::*;
use vstd::utf8::*;

use crate::tokenizer::automaton::{
    leftmost_from, leftmost_longest, leftmost_longest_from, lemma_longest_at, longest_at, occurs_at,
    patterns_ok,
};
use crate::tokenizer::{
    base_ok, byte_display, decode_from, decode_ids, encode_ids, is_lead_byte, is_text_token,
    patterns_of, shown,
};

verus! {

broadcast use {encode_utf8_valid_utf8, encode_utf8_decode_utf8};

/// A vocabulary that a tokenizer can hold.
pub open spec fn vocab_ok(vocab: Seq<Seq<char>>) -> bool {
    base_ok(vocab) && patterns_ok(patterns_of(vocab))
}

/// The token ids of the matches from byte `p` on.
pub open spec fn ids_from(vocab: Seq<Seq<char>>, x: Seq<u8>, p: int) -> Seq<int> {
    leftmost_longest_from(patterns_of(vocab), x, p).map_values(|m: (int, int, int)| m.2)
}

/// At every byte the search finds a match that starts there.
proof fn lemma_first_match(vocab: Seq<Seq<char>>, x: Seq<u8>, p: int)
    requires
        vocab_ok(vocab),
        0 <= p < x.len(),
    ensures
        ({
            let pats = patterns_of(vocab);
            let k = longest_at(pats, x, p, pats.len() as int);
            &&& 0 <= k < pats.len()
            &&& occurs_at(pats[k], x, p)
            &&& p + pats[k].len() <= x.len()
            &&& ids_from(vocab, x, p) == seq![k] + ids_from(vocab, x, p + pats[k].len())
        }),
{
    let pats = patterns_of(vocab);
    let n = pats.len() as int;
    let b = x[p] as int;
    assert(pats[b] == seq![x[p]]);
    assert(x.subrange(p, p + 1) =~= seq![x[p]]);
    assert(occurs_at(pats[b], x, p));
    lemma_longest_at(pats, x, p, n);
    let k = longest_at(pats, x, p, n);
    assert(leftmost_from(pats, x, p) == p);
    let e = p + pats[k].len();
    let all = leftmost_longest_from(pats, x, p);
    assert(all == seq![(p, e, k)] + leftmost_longest_from(pats, x, e));
    assert(all.map_values(|m: (int, int, int)| m.2) =~= seq![k] + leftmost_longest_from(
        pats,
        x,
        e,
    ).map_values(|m: (int, int, int)| m.2));
}

/// The first byte of a non-empty valid encoding is not a continuation byte.
proof fn lemma_valid_first_not_continuation(y: Seq<u8>)
    requires
        valid_utf8(y),
        y.len() > 0,
    ensures
        !is_continuation_byte(y[0]),
{
    assert(valid_first_scalar(y));
}

/// At a continuation byte the search can only find that byte's token.
proof fn lemma_continuation_match(vocab: Seq<Seq<char>>, x: Seq<u8>, q: int)
    requires
        vocab_ok(vocab),
        0 <= q < x.len(),
        is_continuation_byte(x[q]),
    ensures
        longest_at(patterns_of(vocab), x, q, patterns_of(vocab).len() as int) == x[q] as int,
{
    let pats = patterns_of(vocab);
    let n = pats.len() as int;
    lemma_first_match(vocab, x, q);
    let k = longest_at(pats, x, q, n);
    if k >= 256 {
        let p = pats[k];
        assert(p == encode_utf8(vocab[k]));
        assert(p.len() > 0);
        lemma_valid_first_not_continuation(p);
        assert(x.subrange(q, q + p.len()) == p);
        assert(p[0] == x[q]);
    } else {
        assert(pats[k] == seq![k as u8]);
        assert(x.subrange(q, q + 1) == pats[k]);
        assert(x.subrange(q, q + 1)[0] == x[q]);
        assert(x[q] == k as u8);
    }
}

/// Decoding from position `i >= 1` does not look at the first token.
proof fn lemma_decode_drop(vocab: Seq<Seq<char>>, ids: Seq<int>, i: int, buf: Seq<u8>)
    requires
        1 <= i,
        ids.len() >= 1,
    ensures
        decode_from(vocab, ids, i, buf) == decode_from(vocab, ids.drop_first(), i - 1, buf),
    decreases ids.len() - i,
{
    if i < ids.len() {
        let t = ids[i];
        assert(ids.drop_first()[i - 1] == t);
        lemma_decode_drop(vocab, ids, i + 1, Seq::empty());
        let b1: Seq<u8> = if is_lead_byte(t) {
            seq![t as u8]
        } else {
            buf.push(t as u8)
        };
        lemma_decode_drop(vocab, ids, i + 1, b1);
    }
}

/// A valid prefix of a valid encoding ends between two characters.
proof fn lemma_valid_prefix_boundary(y: Seq<u8>, l: int)
    requires
        valid_utf8(y),
        0 <= l <= y.len(),
        valid_utf8(y.subrange(0, l)),
    ensures
        is_char_boundary(y, l),
    decreases y.len(),
{
    if l > 0 {
        let z = y.subrange(0, l);
        assert(valid_first_scalar(z));
        assert(valid_first_scalar(y));
        let w = length_of_first_scalar(y);
        assert(length_of_first_scalar(z) == w);
        assert(w <= l);
        let y1 = pop_first_scalar(y);
        let z1 = pop_first_scalar(z);
        assert(y1 =~= y.subrange(w, y.len() as int));
        assert(z1 =~= y1.subrange(0, l - w));
        assert(y1.len() < y.len());
        lemma_valid_prefix_boundary(y1, l - w);
    }
}

/// Splitting a valid encoding after a valid prefix: the rest is valid and
/// decodes to what follows the prefix's characters.
proof fn lemma_split_after(y: Seq<u8>, l: int)
    requires
        valid_utf8(y),
        0 <= l <= y.len(),
        valid_utf8(y.subrange(0, l)),
    ensures
        valid_utf8(y.subrange(l, y.len() as int)),
        decode_utf8(y) == decode_utf8(y.subrange(0, l)) + decode_utf8(y.subrange(l, y.len() as int)),
{
    lemma_valid_prefix_boundary(y, l);
    valid_utf8_split(y, l);
    decode_utf8_split(y, l);
}

/// The lead byte of a multi-byte encoding lies in `0xc2..=0xf4`.
proof fn lemma_lead_range(y: Seq<u8>)
    requires
        valid_utf8(y),
        y.len() > 0,
        !is_leading_byte_width_1(y[0]),
    ensures
        is_lead_byte(y[0] as int),
        length_of_first_scalar(y) >= 2,
{
    assert(valid_first_scalar(y));
    let b1 = y[0];
    if is_leading_byte_width_2(b1) {
        let b2 = y[1];
        let cp = codepoint_width_2(b1, b2);
        assert(cp >= 0x80);
        assert(b1 >= 0xc2) by (bit_vector)
            requires
                0xc0 <= b1 <= 0xdf,
                (((b1 & 0x1f) as u32) << 6u32) | ((b2 & 0x3f) as u32) >= 0x80,
        ;
    } else if is_leading_byte_width_4(b1) {
        let b2 = y[1];
        let b3 = y[2];
        let b4 = y[3];
        let cp = codepoint_width_4(b1, b2, b3, b4);
        assert(cp <= 0x10ffff);
        assert(b1 <= 0xf4) by (bit_vector)
            requires
                0xf0 <= b1 <= 0xf7,
                (((b1 & 0x07) as u32) << 18u32) | (((b2 & 0x3f) as u32) << 12u32) | (((b3
                    & 0x3f) as u32) << 6u32) | ((b4 & 0x3f) as u32) <= 0x10ffff,
        ;
    }
}


/// The first character of a valid encoding, as its own encoding: valid, and
/// decoding to that character.
proof fn lemma_first_scalar_alone(y: Seq<u8>)
    requires
        valid_utf8(y),
        y.len() > 0,
    ensures
        valid_utf8(y.subrange(0, length_of_first_scalar(y))),
        decode_utf8(y.subrange(0, length_of_first_scalar(y))) == seq![
            decode_first_scalar(y) as char,
        ],
{
    decode_utf8_first_scalar(y);
    let c = decode_first_scalar(y) as char;
    assert(seq![c].drop_first() =~= Seq::<char>::empty());
    reveal_with_fuel(encode_utf8, 2);
    assert(encode_utf8(seq![c]) =~= encode_scalar(c as u32));
    assert(take_first_scalar(y) == y.subrange(0, length_of_first_scalar(y)));
}

/// From a byte where the rest of the text is valid UTF-8, the tokens that
/// the search finds decode to the rest of the text, whatever tokens follow
/// them.
proof fn lemma_decode_rest(vocab: Seq<Seq<char>>, x: Seq<u8>, p: int, tail: Seq<int>)
    requires
        vocab_ok(vocab),
        0 <= p <= x.len(),
        valid_utf8(x.subrange(p, x.len() as int)),
    ensures
        decode_ids(vocab, ids_from(vocab, x, p) + tail) == decode_utf8(
            x.subrange(p, x.len() as int),
        ) + decode_ids(vocab, tail),
    decreases x.len() - p, 1int,
{
    let y = x.subrange(p, x.len() as int);
    let pats = patterns_of(vocab);
    if p == x.len() {
        assert(leftmost_from(pats, x, p) == -1);
        assert(ids_from(vocab, x, p) =~= Seq::<int>::empty());
        assert(ids_from(vocab, x, p) + tail =~= tail);
        assert(y =~= Seq::<u8>::empty());
        assert(decode_utf8(y) =~= Seq::<char>::empty());
        assert(decode_utf8(y) + decode_ids(vocab, tail) =~= decode_ids(vocab, tail));
    } else {
        lemma_first_match(vocab, x, p);
        let k = longest_at(pats, x, p, pats.len() as int);
        let l = pats[k].len() as int;
        let e = p + l;
        let ids0 = ids_from(vocab, x, p);
        let ids = ids0 + tail;
        let rest = ids_from(vocab, x, e) + tail;
        assert(ids0.drop_first() =~= ids_from(vocab, x, e));
        assert(ids.drop_first() =~= rest);
        assert(ids[0] == k);
        assert(y.subrange(0, l) =~= x.subrange(p, e));
        assert(y.subrange(l, y.len() as int) =~= x.subrange(e, x.len() as int));
        if k >= 256 {
            assert(pats[k] == encode_utf8(vocab[k]));
            assert(y.subrange(0, l) == pats[k]);
            lemma_split_after(y, l);
            lemma_decode_rest(vocab, x, e, tail);
            lemma_decode_drop(vocab, ids, 1, Seq::empty());
            assert(is_text_token(k));
            assert(decode_from(vocab, ids, 0, Seq::empty()) == shown(vocab, Seq::<u8>::empty())
                + vocab[k] + decode_from(vocab, ids, 1, Seq::empty()));
            assert(decode_utf8(y.subrange(0, l)) == vocab[k]);
            assert(decode_ids(vocab, ids) =~= decode_utf8(y) + decode_ids(vocab, tail));
        } else {
            assert(pats[k] == seq![k as u8]);
            assert(l == 1);
            assert(x.subrange(p, p + 1)[0] == x[p]);
            let b = x[p];
            assert(b == k as u8);
            assert(y[0] == b);
            if is_leading_byte_width_1(b) {
                assert(y.subrange(0, 1) =~= seq![b]);
                assert(valid_first_scalar(seq![b]));
                assert(pop_first_scalar(seq![b]) =~= Seq::<u8>::empty());
                reveal_with_fuel(valid_utf8, 2);
                reveal_with_fuel(decode_utf8, 2);
                assert(valid_utf8(seq![b]));
                assert(decode_utf8(seq![b]) =~= seq![(b & 0x7f) as u32 as char]);
                assert((b & 0x7f) == b) by (bit_vector)
                    requires
                        b <= 0x7f,
                ;
                lemma_split_after(y, 1);
                lemma_decode_rest(vocab, x, e, tail);
                if is_text_token(k) {
                    lemma_decode_drop(vocab, ids, 1, Seq::empty());
                    assert(vocab[k] == byte_display(k));
                    assert(vocab[k] =~= seq![(b as u32) as char]);
                    assert(decode_ids(vocab, ids) =~= decode_utf8(y) + decode_ids(vocab, tail));
                } else {
                    assert(!is_lead_byte(k));
                    assert(Seq::<u8>::empty().push(k as u8) =~= seq![b]);
                    lemma_decode_drop(vocab, ids, 1, Seq::empty());
                    assert(decode_ids(vocab, ids) =~= decode_utf8(y) + decode_ids(vocab, tail));
                }
            } else {
                lemma_valid_first_not_continuation(y);
                lemma_lead_range(y);
                assert(!is_text_token(k));
                assert(y.subrange(0, 1) =~= seq![b]);
                assert(!valid_first_scalar(seq![b]));
                lemma_decode_drop(vocab, ids, 1, seq![b]);
                assert(x.subrange(p, p + 1) =~= seq![b]);
                lemma_decode_buffer(vocab, x, p, p + 1, tail);
                assert(decode_ids(vocab, ids) == decode_from(vocab, ids, 1, seq![b]));
            }
        }
    }
}

/// With the first bytes of a multi-byte character in the buffer, decoding
/// from the next byte on gives that character and then the rest.
proof fn lemma_decode_buffer(vocab: Seq<Seq<char>>, x: Seq<u8>, p: int, q: int, tail: Seq<int>)
    requires
        vocab_ok(vocab),
        0 <= p <= x.len(),
        valid_utf8(x.subrange(p, x.len() as int)),
        p < x.len(),
        !is_leading_byte_width_1(x[p]),
        p < q < p + length_of_first_scalar(x.subrange(p, x.len() as int)),
    ensures
        decode_from(vocab, ids_from(vocab, x, q) + tail, 0, x.subrange(p, q)) == decode_utf8(
            x.subrange(p, x.len() as int),
        ) + decode_ids(vocab, tail),
    decreases x.len() - q, 0int,
{
    let y = x.subrange(p, x.len() as int);
    let pats = patterns_of(vocab);
    assert(y[0] == x[p]);
    assert(valid_first_scalar(y));
    let w = length_of_first_scalar(y);
    assert(q < x.len());
    assert(x[q] == y[q - p]);
    assert(is_continuation_byte(x[q]));
    lemma_continuation_match(vocab, x, q);
    lemma_first_match(vocab, x, q);
    let k = x[q] as int;
    assert(pats[k] == seq![x[q]]);
    let ids0 = ids_from(vocab, x, q);
    let ids = ids0 + tail;
    let rest = ids_from(vocab, x, q + 1) + tail;
    assert(ids0.drop_first() =~= ids_from(vocab, x, q + 1));
    assert(ids.drop_first() =~= rest);
    assert(ids[0] == k);
    assert(!is_text_token(k));
    assert(!is_lead_byte(k));
    let buf = x.subrange(p, q);
    let b1 = buf.push(x[q]);
    assert(b1 =~= x.subrange(p, q + 1));
    if q + 1 == p + w {
        lemma_first_scalar_alone(y);
        assert(y.subrange(0, w) =~= b1);
        lemma_split_after(y, w);
        assert(y.subrange(w, y.len() as int) =~= x.subrange(q + 1, x.len() as int));
        lemma_decode_rest(vocab, x, q + 1, tail);
        lemma_decode_drop(vocab, ids, 1, Seq::empty());
        assert(decode_from(vocab, ids, 0, buf) == decode_utf8(b1) + decode_from(
            vocab,
            ids,
            1,
            Seq::empty(),
        ));
    } else {
        assert(b1[0] == y[0]);
        assert(b1.len() < w);
        assert(!valid_first_scalar(b1));
        assert(!valid_utf8(b1));
        lemma_decode_drop(vocab, ids, 1, b1);
        lemma_decode_buffer(vocab, x, p, q + 1, tail);
    }
}

/// The byte tokens of `x` from byte `p` on, one per byte.
pub open spec fn byte_ids_from(x: Seq<u8>, p: int) -> Seq<int> {
    x.subrange(p, x.len() as int).map_values(|b: u8| b as int)
}

/// From a byte where the rest of the text is valid UTF-8, the byte tokens of
/// the rest decode to the rest of the text, whatever tokens follow them.
proof fn lemma_bytes_decode_rest(vocab: Seq<Seq<char>>, x: Seq<u8>, p: int, tail: Seq<int>)
    requires
        base_ok(vocab),
        0 <= p <= x.len(),
        valid_utf8(x.subrange(p, x.len() as int)),
    ensures
        decode_ids(vocab, byte_ids_from(x, p) + tail) == decode_utf8(x.subrange(p, x.len() as int))
            + decode_ids(vocab, tail),
    decreases x.len() - p, 1int,
{
    let y = x.subrange(p, x.len() as int);
    if p == x.len() {
        assert(byte_ids_from(x, p) =~= Seq::<int>::empty());
        assert(byte_ids_from(x, p) + tail =~= tail);
        assert(y =~= Seq::<u8>::empty());
        assert(decode_utf8(y) =~= Seq::<char>::empty());
        assert(decode_utf8(y) + decode_ids(vocab, tail) =~= decode_ids(vocab, tail));
    } else {
        let e = p + 1;
        let ids = byte_ids_from(x, p) + tail;
        let rest = byte_ids_from(x, e) + tail;
        assert(byte_ids_from(x, p).drop_first() =~= byte_ids_from(x, e));
        assert(ids.drop_first() =~= rest);
        let b = x[p];
        let k = b as int;
        assert(ids[0] == k);
        assert(y[0] == b);
        assert(y.subrange(1, y.len() as int) =~= x.subrange(e, x.len() as int));
        if is_leading_byte_width_1(b) {
            assert(y.subrange(0, 1) =~= seq![b]);
            assert(valid_first_scalar(seq![b]));
            assert(pop_first_scalar(seq![b]) =~= Seq::<u8>::empty());
            reveal_with_fuel(valid_utf8, 2);
            reveal_with_fuel(decode_utf8, 2);
            assert(valid_utf8(seq![b]));
            assert(decode_utf8(seq![b]) =~= seq![(b & 0x7f) as u32 as char]);
            assert((b & 0x7f) == b) by (bit_vector)
                requires
                    b <= 0x7f,
            ;
            lemma_split_after(y, 1);
            lemma_bytes_decode_rest(vocab, x, e, tail);
            lemma_decode_drop(vocab, ids, 1, Seq::empty());
            if is_text_token(k) {
                assert(vocab[k] == byte_display(k));
                assert(vocab[k] =~= seq![(b as u32) as char]);
                assert(decode_ids(vocab, ids) =~= decode_utf8(y) + decode_ids(vocab, tail));
            } else {
                assert(!is_lead_byte(k));
                assert(Seq::<u8>::empty().push(k as u8) =~= seq![b]);
                assert(decode_ids(vocab, ids) =~= decode_utf8(y) + decode_ids(vocab, tail));
            }
        } else {
            lemma_valid_first_not_continuation(y);
            lemma_lead_range(y);
            assert(!is_text_token(k));
            assert(y.subrange(0, 1) =~= seq![b]);
            assert(!valid_first_scalar(seq![b]));
            lemma_decode_drop(vocab, ids, 1, seq![b]);
            assert(x.subrange(p, p + 1) =~= seq![b]);
            lemma_bytes_decode_buffer(vocab, x, p, p + 1, tail);
            assert(decode_ids(vocab, ids) == decode_from(vocab, ids, 1, seq![b]));
        }
    }
}

/// With the first bytes of a multi-byte character in the buffer, the byte
/// tokens from the next byte on decode to that character and then the rest.
proof fn lemma_bytes_decode_buffer(vocab: Seq<Seq<char>>, x: Seq<u8>, p: int, q: int, tail: Seq<int>)
    requires
        base_ok(vocab),
        0 <= p <= x.len(),
        valid_utf8(x.subrange(p, x.len() as int)),
        p < x.len(),
        !is_leading_byte_width_1(x[p]),
        p < q < p + length_of_first_scalar(x.subrange(p, x.len() as int)),
    ensures
        decode_from(vocab, byte_ids_from(x, q) + tail, 0, x.subrange(p, q)) == decode_utf8(
            x.subrange(p, x.len() as int),
        ) + decode_ids(vocab, tail),
    decreases x.len() - q, 0int,
{
    let y = x.subrange(p, x.len() as int);
    assert(y[0] == x[p]);
    assert(valid_first_scalar(y));
    let w = length_of_first_scalar(y);
    assert(q < x.len());
    assert(x[q] == y[q - p]);
    assert(is_continuation_byte(x[q]));
    let k = x[q] as int;
    let ids = byte_ids_from(x, q) + tail;
    let rest = byte_ids_from(x, q + 1) + tail;
    assert(byte_ids_from(x, q).drop_first() =~= byte_ids_from(x, q + 1));
    assert(ids.drop_first() =~= rest);
    assert(ids[0] == k);
    assert(!is_text_token(k));
    assert(!is_lead_byte(k));
    let buf = x.subrange(p, q);
    let b1 = buf.push(x[q]);
    assert(b1 =~= x.subrange(p, q + 1));
    if q + 1 == p + w {
        lemma_first_scalar_alone(y);
        assert(y.subrange(0, w) =~= b1);
        lemma_split_after(y, w);
        assert(y.subrange(w, y.len() as int) =~= x.subrange(q + 1, x.len() as int));
        lemma_bytes_decode_rest(vocab, x, q + 1, tail);
        lemma_decode_drop(vocab, ids, 1, Seq::empty());
        assert(decode_from(vocab, ids, 0, buf) == decode_utf8(b1) + decode_from(
            vocab,
            ids,
            1,
            Seq::empty(),
        ));
    } else {
        assert(b1[0] == y[0]);
        assert(b1.len() < w);
        assert(!valid_first_scalar(b1));
        assert(!valid_utf8(b1));
        lemma_decode_drop(vocab, ids, 1, b1);
        lemma_bytes_decode_buffer(vocab, x, p, q + 1, tail);
    }
}

/// Byte fallback: the byte tokens of a text, one per UTF-8 byte, decode to
/// that text, whichever entries the vocabulary holds past the byte tokens.
pub proof fn lemma_byte_tokens_decode(vocab: Seq<Seq<char>>, s: Seq<char>)
    requires
        base_ok(vocab),
    ensures
        decode_ids(vocab, encode_utf8(s).map_values(|b: u8| b as int)) == s,
{
    let x = encode_utf8(s);
    assert(x.subrange(0, x.len() as int) =~= x);
    lemma_bytes_decode_rest(vocab, x, 0, Seq::empty());
    assert(byte_ids_from(x, 0) + Seq::<int>::empty() =~= x.map_values(|b: u8| b as int));
    assert(decode_ids(vocab, Seq::<int>::empty()) =~= Seq::<char>::empty());
    assert(s + Seq::<char>::empty() =~= s);
}

/// When the search finds exactly one match in a text, that match is an
/// entry whose pattern is the whole text.
pub proof fn lemma_single_match_whole(vocab: Seq<Seq<char>>, s: Seq<char>)
    requires
        vocab_ok(vocab),
        leftmost_longest(patterns_of(vocab), encode_utf8(s)).len() == 1,
    ensures
        ({
            let k = leftmost_longest(patterns_of(vocab), encode_utf8(s))[0].2;
            &&& 0 <= k < vocab.len()
            &&& patterns_of(vocab)[k] == encode_utf8(s)
        }),
{
    let pats = patterns_of(vocab);
    let x = encode_utf8(s);
    let ms = leftmost_longest(pats, x);
    let ids = ids_from(vocab, x, 0);
    assert(ms == leftmost_longest_from(pats, x, 0));
    assert(ids.len() == 1);
    assert(ids[0] == ms[0].2);
    if x.len() == 0 {
        assert(leftmost_from(pats, x, 0) == -1);
        assert(false);
    }
    lemma_first_match(vocab, x, 0);
    let k = longest_at(pats, x, 0, pats.len() as int);
    let l = pats[k].len() as int;
    assert((seq![k] + ids_from(vocab, x, l)).len() == 1);
    if l < x.len() {
        lemma_first_match(vocab, x, l);
        assert(false);
    }
    assert(x.subrange(0, l) =~= x);
}

/// Decoding the tokens of a text, followed by any tokens, gives back the
/// text followed by what those tokens decode to.
pub proof fn lemma_decode_encode_then(vocab: Seq<Seq<char>>, s: Seq<char>, tail: Seq<int>)
    requires
        vocab_ok(vocab),
    ensures
        decode_ids(vocab, encode_ids(vocab, s) + tail) == s + decode_ids(vocab, tail),
{
    let x = encode_utf8(s);
    assert(x.subrange(0, x.len() as int) =~= x);
    lemma_decode_rest(vocab, x, 0, tail);
    assert(encode_ids(vocab, s) == ids_from(vocab, x, 0));
}

/// Decoding the tokens of a text gives back the text.
pub proof fn lemma_decode_encode(vocab: Seq<Seq<char>>, s: Seq<char>)
    requires
        vocab_ok(vocab),
    ensures
        decode_ids(vocab, encode_ids(vocab, s)) == s,
{
    lemma_decode_encode_then(vocab, s, Seq::empty());
    assert(encode_ids(vocab, s) + Seq::<int>::empty() =~= encode_ids(vocab, s));
    assert(decode_ids(vocab, Seq::<int>::empty()) =~= Seq::<char>::empty());
    assert(s + Seq::<char>::empty() =~= s);
}

} // verus!
