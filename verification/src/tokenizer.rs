//! The tokenizer: a vocabulary of strings, the automaton that finds them in
//! text, and encoding, decoding and training over them.

use vstd::prelude::*;
use vstd::utf8::*;

use daachorse::DoubleArrayAhoCorasick;

use crate::prepare::{
    classifications_hold, concat_all, denormalize, is_restorable, lemma_segments_cover, segments,
    lemma_segments_shape, segments_shaped,
    segments_spec, denormalize_spec, lemma_denormalize_normalize,
    normalize, normalize_spec, restorable, separators_classified, WORD_START,
};
use crate::token_type::TokenType;
use crate::tokenizer::automaton::{
    ac_build, ac_builds, ac_find, ac_is_leftmost_longest, ac_patterns, leftmost_longest, lemma_matches_valid,
    lemma_pattern_alone, patterns_ok,
};

pub mod alphabet;
pub mod arena_list;
pub mod automaton;
pub mod pair_ordering;
pub mod pair_queue;
pub mod round_trip;
pub mod train;
pub mod train_counts;
pub mod utils;

verus! {

/// A lower-case hexadecimal digit.
pub open spec fn hex_digit(d: int) -> char {
    if d < 10 {
        (d + 48) as char
    } else {
        (d + 87) as char
    }
}

/// How byte token `b` is shown: tab, line feed, carriage return and
/// printable ASCII as themselves, every other byte as `<xx>` in lower-case
/// hexadecimal.
pub open spec fn byte_display(b: int) -> Seq<char> {
    if b == 9 || b == 10 || b == 13 || (0x20 <= b < 0x7f) {
        seq![b as char]
    } else {
        seq!['<', hex_digit(b / 16), hex_digit(b % 16), '>']
    }
}

/// The byte patterns of a vocabulary: tokens `0..256` are the single bytes,
/// every later token is the UTF-8 encoding of its string.
pub open spec fn patterns_of(vocab: Seq<Seq<char>>) -> Seq<Seq<u8>> {
    Seq::new(vocab.len(), |i: int| if i < 256 { seq![i as u8] } else { encode_utf8(vocab[i]) })
}

/// The strings of a vector of strings.
pub open spec fn views_of(v: Seq<String>) -> Seq<Seq<char>> {
    v.map_values(|s: String| s@)
}

/// The byte tokens and the marker, by id.
pub open spec fn base_strings() -> Seq<Seq<char>> {
    Seq::new(257, |i: int| if i < 256 {
        byte_display(i)
    } else {
        seq![WORD_START]
    })
}

/// A vocabulary begins with the 256 byte tokens, each shown as
/// `byte_display` shows it, and the word-start marker.
pub open spec fn base_ok(vocab: Seq<Seq<char>>) -> bool {
    &&& vocab.len() >= 257
    &&& forall|i: int| 0 <= i < 256 ==> #[trigger] vocab[i] == byte_display(i)
    &&& vocab[256] == seq![WORD_START]
}

/// The token ids of an encoded text: the pattern of each leftmost-longest
/// match of the vocabulary in the UTF-8 bytes of the text.
pub open spec fn encode_ids(vocab: Seq<Seq<char>>, s: Seq<char>) -> Seq<int> {
    leftmost_longest(patterns_of(vocab), encode_utf8(s)).map_values(|m: (int, int, int)| m.2)
}

/// The tokens of the chunks `cs`, one chunk after the other.
pub open spec fn encode_chunks(vocab: Seq<Seq<char>>, cs: Seq<Seq<char>>) -> Seq<int>
    decreases cs.len(),
{
    if cs.len() == 0 {
        Seq::empty()
    } else {
        encode_chunks(vocab, cs.drop_last()) + encode_ids(vocab, cs.last())
    }
}

/// What `encode` gives for `s`: the normal form of `s`, cut into segments
/// (the chunks and the text between them), each segment matched against the
/// vocabulary on its own.
pub open spec fn encode_spec(vocab: Seq<Seq<char>>, s: Seq<char>) -> Seq<int> {
    encode_chunks(vocab, segments_spec(normalize_spec(s)))
}

/// Token `t` is shown by its string: tab, line feed, carriage return,
/// printable ASCII, and every token past the byte range.
pub open spec fn is_text_token(t: int) -> bool {
    t == 9 || t == 10 || t == 13 || (0x20 <= t < 0x7f) || t > 0xff
}

/// Byte token `t` can begin a multi-byte UTF-8 sequence.
pub open spec fn is_lead_byte(t: int) -> bool {
    0xc2 <= t <= 0xf4
}

/// The byte tokens of `buf` as they are shown.
pub open spec fn shown(vocab: Seq<Seq<char>>, buf: Seq<u8>) -> Seq<char>
    decreases buf.len(),
{
    if buf.len() == 0 {
        Seq::empty()
    } else {
        shown(vocab, buf.drop_last()) + vocab[buf.last() as int]
    }
}

/// Decoding of `ids` from position `i` on, with the bytes in `buf` not yet
/// written: a shown token flushes the buffer and writes its string; a byte
/// token goes to the buffer (which a lead byte flushes first), and once the
/// buffer is valid UTF-8 its characters are written and it is emptied. At
/// the end what is left in the buffer is shown byte by byte.
pub open spec fn decode_from(vocab: Seq<Seq<char>>, ids: Seq<int>, i: int, buf: Seq<u8>) -> Seq<
    char,
>
    decreases ids.len() - i,
{
    if i < 0 || i >= ids.len() {
        shown(vocab, buf)
    } else {
        let t = ids[i];
        if is_text_token(t) {
            shown(vocab, buf) + vocab[t] + decode_from(vocab, ids, i + 1, Seq::empty())
        } else {
            let out: Seq<char> = if is_lead_byte(t) {
                shown(vocab, buf)
            } else {
                Seq::empty()
            };
            let b1: Seq<u8> = if is_lead_byte(t) {
                seq![t as u8]
            } else {
                buf.push(t as u8)
            };
            if valid_utf8(b1) {
                out + decode_utf8(b1) + decode_from(vocab, ids, i + 1, Seq::empty())
            } else {
                out + decode_from(vocab, ids, i + 1, b1)
            }
        }
    }
}

/// The text of a sequence of token ids, before the markers are taken out.
pub open spec fn decode_ids(vocab: Seq<Seq<char>>, ids: Seq<int>) -> Seq<char> {
    decode_from(vocab, ids, 0, Seq::empty())
}

/// `str::from_utf8`: the string whose UTF-8 encoding `bytes` is, when
/// `bytes` is valid UTF-8.
#[verifier::external_body]
fn str_from_utf8(bytes: &[u8]) -> (r: Option<&str>)
    ensures
        r is Some <==> valid_utf8(bytes@),
        r matches Some(s) ==> s@ == decode_utf8(bytes@),
{
    std::str::from_utf8(bytes).ok()
}

/// The decimal digit `d`.
pub open spec fn digit_char(d: nat) -> char {
    (48 + d) as char
}

/// `n` written in decimal, without leading zeros.
pub open spec fn decimal(n: nat) -> Seq<char>
    decreases n,
{
    if n < 10 {
        seq![digit_char(n)]
    } else {
        decimal(n / 10).push(digit_char(n % 10))
    }
}

/// The message for a vocabulary of `size` entries where a token type holds
/// `max`.
pub open spec fn size_text(size: nat, max: nat) -> Seq<char> {
    "vocabulary size "@ + decimal(size) + " exceeds maximum for token type (max "@ + decimal(max)
        + ")"@
}

/// Appends the characters of `s` to `out`.
fn push_all(out: &mut String, s: &str)
    ensures
        final(out)@ == old(out)@ + s@,
{
    let cs = crate::prepare::str_chars(s);
    let ghost start = out@;
    let mut k: usize = 0;
    while k < cs.len()
        invariant
            k <= cs@.len(),
            cs@ == s@,
            out@ == start + cs@.subrange(0, k as int),
        decreases cs@.len() - k,
    {
        crate::prepare::string_push(out, cs[k]);
        proof {
            assert(cs@.subrange(0, k + 1) =~= cs@.subrange(0, k as int).push(cs@[k as int]));
        }
        k = k + 1;
    }
    proof {
        assert(cs@.subrange(0, cs@.len() as int) =~= cs@);
    }
}

/// Appends `n` in decimal to `out`.
fn push_decimal(out: &mut String, n: usize)
    ensures
        final(out)@ == old(out)@ + decimal(n as nat),
    decreases n,
{
    let ghost start = out@;
    if n >= 10 {
        push_decimal(out, n / 10);
    }
    let d: u8 = (n % 10) as u8;
    let c: char = (48u8 + d) as char;
    proof {
        assert(c == digit_char((n % 10) as nat));
    }
    crate::prepare::string_push(out, c);
    proof {
        if n >= 10 {
            assert(start + decimal((n / 10) as nat) + seq![c] =~= start + decimal(n as nat));
        } else {
            assert(start + seq![c] =~= start + decimal(n as nat));
        }
    }
}

/// The message for a vocabulary too large for its token type, with the two
/// numbers in decimal.
pub(crate) fn size_message(size: usize, max: usize) -> (r: String)
    ensures
        r@ == size_text(size as nat, max as nat),
{
    let mut r = String::new();
    push_all(&mut r, "vocabulary size ");
    push_decimal(&mut r, size);
    push_all(&mut r, " exceeds maximum for token type (max ");
    push_decimal(&mut r, max);
    push_all(&mut r, ")");
    proof {
        assert(Seq::<char>::empty() + "vocabulary size "@ + decimal(size as nat)
            + " exceeds maximum for token type (max "@ + decimal(max as nat) + ")"@ =~= size_text(
            size as nat,
            max as nat,
        ));
    }
    r
}

/// The largest id of the token type, capped at `usize::MAX` (what
/// `TokenType::max_index` returns).
pub open spec fn capped_limit<T: TokenType>() -> int {
    if T::index_limit() <= usize::MAX {
        T::index_limit() as int
    } else {
        usize::MAX as int
    }
}

/// The version that saved vocabularies carry.
pub const VERSION: &'static str = "0.1.0";

/// The major part of `VERSION`; a vocabulary loads only when its version
/// has the same.
pub const VERSION_MAJOR: &'static str = "0";

/// The part of a version before its first `.` (all of it when there is
/// none).
pub open spec fn version_major(v: Seq<char>) -> Seq<char>
    decreases v.len(),
{
    if v.len() == 0 || v[0] == '.' {
        Seq::empty()
    } else {
        seq![v[0]] + version_major(v.drop_first())
    }
}

/// The major part of a version string.
pub fn major_of(version: &str) -> (r: String)
    ensures
        r@ == version_major(version@),
{
    let chars = crate::prepare::str_chars(version);
    let n = chars.len();
    let mut r = String::new();
    let mut i: usize = 0;
    proof {
        assert(version@.subrange(0, n as int) =~= version@);
    }
    while i < n && chars[i] != '.'
        invariant
            chars@ == version@,
            n == chars@.len(),
            i <= n,
            r@ + version_major(version@.subrange(i as int, n as int)) == version_major(version@),
        decreases n - i,
    {
        let ghost rest = version@.subrange(i as int, n as int);
        crate::prepare::string_push(&mut r, chars[i]);
        proof {
            assert(rest.drop_first() =~= version@.subrange(i + 1, n as int));
        }
        i = i + 1;
    }
    proof {
        assert(version@.subrange(0, n as int) =~= version@);
        let rest = version@.subrange(i as int, n as int);
        assert(version_major(rest) =~= Seq::<char>::empty());
    }
    r
}

/// A hexadecimal digit as a character.
fn hex_char(d: u8) -> (r: char)
    requires
        d < 16,
    ensures
        r == hex_digit(d as int),
{
    if d < 10 {
        (d + 48) as char
    } else {
        (d + 87) as char
    }
}

/// The string shown for byte token `b`.
fn byte_display_string(b: u8) -> (r: String)
    ensures
        r@ == byte_display(b as int),
{
    let mut s = String::new();
    if b == 9 || b == 10 || b == 13 || (0x20 <= b && b < 0x7f) {
        crate::prepare::string_push(&mut s, b as char);
    } else {
        crate::prepare::string_push(&mut s, '<');
        crate::prepare::string_push(&mut s, hex_char(b / 16));
        crate::prepare::string_push(&mut s, hex_char(b % 16));
        crate::prepare::string_push(&mut s, '>');
    }
    proof {
        assert(s@ =~= byte_display(b as int));
    }
    s
}

/// The 256 byte tokens followed by the word-start marker.
pub(crate) fn base_vocabulary() -> (r: Vec<String>)
    ensures
        r@.len() == 257,
        base_ok(views_of(r@)),
{
    let mut v: Vec<String> = Vec::new();
    let mut b: u32 = 0;
    while b < 256
        invariant
            b <= 256,
            v@.len() == b,
            forall|i: int| 0 <= i < b ==> (#[trigger] v@[i])@ == byte_display(i),
        decreases 256 - b,
    {
        v.push(byte_display_string(b as u8));
        b = b + 1;
    }
    let mut marker = String::new();
    crate::prepare::string_push(&mut marker, WORD_START);
    v.push(marker);
    proof {
        assert(marker@ =~= seq![WORD_START]);
        let views = views_of(v@);
        assert forall|i: int| 0 <= i < 256 implies #[trigger] views[i] == byte_display(i) by {
            assert(v@[i]@ == byte_display(i));
        }
    }
    v
}

/// The patterns of a vocabulary, as `patterns_of` gives them.
fn vocabulary_patterns(vocab: &Vec<String>) -> (r: Vec<Vec<u8>>)
    ensures
        r.deep_view() == patterns_of(views_of(vocab@)),
{
    let n = vocab.len();
    let mut r: Vec<Vec<u8>> = Vec::new();
    let mut i: usize = 0;
    while i < n
        invariant
            n == vocab@.len(),
            i <= n,
            r@.len() == i,
            forall|j: int|
                0 <= j < i ==> (#[trigger] r@[j])@ == patterns_of(views_of(vocab@))[j],
        decreases n - i,
    {
        if i < 256 {
            let mut p: Vec<u8> = Vec::new();
            p.push(i as u8);
            proof {
                assert(p@ =~= seq![i as u8]);
            }
            r.push(p);
        } else {
            let bytes = vocab[i].as_str().as_bytes();
            let p = vstd::slice::slice_to_vec(bytes);
            r.push(p);
        }
        i = i + 1;
    }
    proof {
        assert forall|j: int| 0 <= j < r@.len() implies r.deep_view()[j] == r@[j]@ by {
            assert(r@[j].deep_view() =~= r@[j]@);
        }
        assert(r.deep_view() =~= patterns_of(views_of(vocab@)));
    }
    r
}

/// Construct via [`Tokenizer::train`] or [`Tokenizer::from_vocabulary`].
/// Use by calling [`encode`](Tokenizer::encode) / [`decode`](Tokenizer::decode)
/// or inspect the vocabulary with [`Tokenizer::vocab_size`],
/// [`Tokenizer::token_to_string`], [`Tokenizer::str_to_token`] and
/// [`Tokenizer::tokens`].
///
/// Tokens `0..256` are single bytes (printable ASCII shown as itself, other
/// bytes as `<xx>`), token 256 is the word-start symbol `▁`, and later tokens
/// are special tokens, codepoints of the training text and merges.
#[non_exhaustive]
pub struct Tokenizer<T: TokenType = crate::Token> {
    pub(crate) token2str: Vec<String>,
    pub(crate) str2token_ac: DoubleArrayAhoCorasick<usize>,
    pub(crate) token_type: core::marker::PhantomData<T>,
}

impl<T: TokenType> Tokenizer<T> {
    /// The strings of the vocabulary, by token id.
    pub closed spec fn vocab(&self) -> Seq<Seq<char>> {
        views_of(self.token2str@)
    }

    /// What every tokenizer keeps: the byte tokens and the marker first, a
    /// vocabulary that fits the token type and holds no entry twice, and a
    /// leftmost-longest matcher over exactly the UTF-8 bytes of its entries.
    #[verifier::type_invariant]
    pub closed spec fn wf(&self) -> bool {
        &&& base_ok(self.vocab())
        &&& self.vocab().len() <= T::index_limit() + 1
        &&& ac_patterns(self.str2token_ac) == patterns_of(self.vocab())
        &&& ac_is_leftmost_longest(self.str2token_ac)
        &&& patterns_ok(patterns_of(self.vocab()))
        &&& ac_builds(patterns_of(self.vocab()))
        &&& self.vocab().len() <= usize::MAX
    }

    pub(crate) proof fn lemma_wf_facts(&self)
        requires
            self.wf(),
        ensures
            base_ok(self.vocab()),
            patterns_ok(patterns_of(self.vocab())),
            self.vocab().len() == self.token2str@.len(),
            self.vocab().len() <= T::index_limit() + 1,
    {
    }

    /// Builds a tokenizer over `token2str`, or reports why the pattern
    /// automaton could not be built.
    pub(crate) fn with_vocabulary(token2str: Vec<String>) -> (r: Result<Self, crate::error::TokenizerError>)
        requires
            base_ok(views_of(token2str@)),
            token2str@.len() <= T::index_limit() + 1,
        ensures
            r is Ok <==> ac_builds(patterns_of(views_of(token2str@))),
            r matches Ok(tok) ==> tok.wf() && tok.vocab() == views_of(token2str@),
            r matches Err(e) ==> e is Automaton,
    {
        let patterns = vocabulary_patterns(&token2str);
        proof {
            assert(views_of(token2str@).len() == token2str.len());
        }
        match ac_build(&patterns) {
            Ok(ac) => Ok(
                Tokenizer {
                    token2str: token2str,
                    str2token_ac: ac,
                    token_type: core::marker::PhantomData,
                },
            ),
            Err(e) => Err(crate::error::TokenizerError::Automaton(e)),
        }
    }

    /// Returns the total vocabulary size (byte tokens, the marker, special
    /// tokens, codepoints and merges).
    pub fn vocab_size(&self) -> (r: usize)
        ensures
            r == self.vocab().len(),
    {
        self.token2str.len()
    }

    /// Maps a token to its string, or `None` past the vocabulary.
    pub fn token_to_string(&self, tok: T) -> (r: Option<&str>)
        ensures
            r is Some <==> 0 <= tok.index_view() < self.vocab().len(),
            r matches Some(s) ==> s@ == self.vocab()[tok.index_view()],
    {
        let i = tok.to_index();
        if i < self.token2str.len() {
            Some(self.token2str[i].as_str())
        } else {
            None
        }
    }

    /// The leftmost-longest matches of the vocabulary in the UTF-8 bytes of
    /// `s`, as (start, end, token id).
    fn find_matches(&self, s: &str) -> (r: Vec<(usize, usize, usize)>)
        requires
            self.wf(),
        ensures
            r@.len() == leftmost_longest(patterns_of(self.vocab()), encode_utf8(s@)).len(),
            forall|j: int|
                #![trigger r@[j]]
                0 <= j < r@.len() ==> {
                    let m = leftmost_longest(patterns_of(self.vocab()), encode_utf8(s@))[j];
                    &&& r@[j].0 as int == m.0
                    &&& r@[j].1 as int == m.1
                    &&& r@[j].2 as int == m.2
                    &&& (r@[j].2 as int) < self.vocab().len()
                },
    {
        let bytes = s.as_bytes();
        let r = ac_find(&self.str2token_ac, bytes);
        proof {
            let ms = leftmost_longest(patterns_of(self.vocab()), encode_utf8(s@));
            lemma_matches_valid(patterns_of(self.vocab()), encode_utf8(s@), 0);
            assert(r@.map_values(|m: (usize, usize, usize)| (m.0 as int, m.1 as int, m.2 as int))
                == ms);
            assert forall|j: int| #![trigger r@[j]] 0 <= j < r@.len() implies {
                let m = ms[j];
                &&& r@[j].0 as int == m.0
                &&& r@[j].1 as int == m.1
                &&& r@[j].2 as int == m.2
                &&& (r@[j].2 as int) < self.vocab().len()
            } by {
                assert(r@.map_values(
                    |m: (usize, usize, usize)| (m.0 as int, m.1 as int, m.2 as int),
                )[j] == ms[j]);
            }
        }
        r
    }

    /// The tokens of an already normalized string: the vocabulary entries
    /// that a leftmost-longest search finds in its UTF-8 bytes.
    pub(crate) fn encode_normalized(&self, s: &str) -> (r: Vec<T>)
        requires
            self.wf(),
        ensures
            r@.map_values(|t: T| t.index_view()) == encode_ids(self.vocab(), s@),
            r@ == encode_ids(self.vocab(), s@).map_values(|i: int| T::token_of(i)),
            forall|i: int| 0 <= i < r@.len() ==> 0 <= (#[trigger] r@[i]).index_view() < self.vocab().len(),
    {
        let ms = self.find_matches(s);
        let n = ms.len();
        let mut r: Vec<T> = Vec::new();
        let mut i: usize = 0;
        while i < n
            invariant
                self.wf(),
                n == ms@.len(),
                i <= n,
                r@.len() == i,
                ms@.len() == leftmost_longest(patterns_of(self.vocab()), encode_utf8(s@)).len(),
                forall|j: int|
                    #![trigger ms@[j]]
                    0 <= j < ms@.len() ==> {
                        let m = leftmost_longest(patterns_of(self.vocab()), encode_utf8(s@))[j];
                        &&& ms@[j].2 as int == m.2
                        &&& (ms@[j].2 as int) < self.vocab().len()
                    },
                forall|j: int| 0 <= j < i ==> (#[trigger] r@[j]).index_view() == ms@[j].2 as int,
                forall|j: int| 0 <= j < i ==> #[trigger] r@[j] == T::token_of(ms@[j].2 as int),
            decreases n - i,
        {
            let v = ms[i].2;
            r.push(T::from_index(v));
            i = i + 1;
        }
        proof {
            let ids = encode_ids(self.vocab(), s@);
            assert forall|j: int| 0 <= j < r@.len() implies r@.map_values(
                |t: T| t.index_view(),
            )[j] == ids[j] by {
                assert(ms@[j].2 as int == leftmost_longest(
                    patterns_of(self.vocab()),
                    encode_utf8(s@),
                )[j].2);
            }
            assert(r@.map_values(|t: T| t.index_view()) =~= ids);
            assert(r@ =~= ids.map_values(|i: int| T::token_of(i)));
        }
        r
    }

    /// Encodes a string into tokens: the string is normalized, then the
    /// vocabulary is matched leftmost-longest against its UTF-8 bytes;
    /// characters outside the vocabulary fall back to their byte tokens.
    pub fn encode(&self, s: &str) -> (r: Vec<T>)
        ensures
            r@.map_values(|t: T| t.index_view()) == encode_spec(self.vocab(), s@),
            r@ == encode_spec(self.vocab(), s@).map_values(|i: int| T::token_of(i)),
            forall|i: int| 0 <= i < r@.len() ==> 0 <= (#[trigger] r@[i]).index_view() < self.vocab().len(),
    {
        proof {
            use_type_invariant(self);
        }
        let n = normalize(s);
        let cks = segments(n.as_str());
        let ghost cs = cks.deep_view();
        let mut out: Vec<T> = Vec::new();
        let m = cks.len();
        let mut j: usize = 0;
        while j < m
            invariant
                self.wf(),
                cs == cks.deep_view(),
                m == cks@.len(),
                j <= m,
                out@.map_values(|t: T| t.index_view()) == encode_chunks(
                    self.vocab(),
                    cs.subrange(0, j as int),
                ),
                out@ == encode_chunks(self.vocab(), cs.subrange(0, j as int)).map_values(
                    |i: int| T::token_of(i),
                ),
                forall|i: int|
                    0 <= i < out@.len() ==> 0 <= (#[trigger] out@[i]).index_view()
                        < self.vocab().len(),
            decreases m - j,
        {
            let part = self.encode_normalized(cks[j].as_str());
            let ghost before = out@.map_values(|t: T| t.index_view());
            let ghost before_t = out@;
            let pn = part.len();
            let mut k: usize = 0;
            while k < pn
                invariant
                    pn == part@.len(),
                    k <= pn,
                    out@.map_values(|t: T| t.index_view()) == before + part@.map_values(
                        |t: T| t.index_view(),
                    ).subrange(0, k as int),
                    out@ == before_t + part@.subrange(0, k as int),
                    forall|i: int|
                        0 <= i < part@.len() ==> 0 <= (#[trigger] part@[i]).index_view()
                            < self.vocab().len(),
                    forall|i: int|
                        0 <= i < out@.len() ==> 0 <= (#[trigger] out@[i]).index_view()
                            < self.vocab().len(),
                decreases pn - k,
            {
                let ghost prev = out@;
                out.push(part[k]);
                proof {
                    assert(out@ == prev.push(part@[k as int]));
                    assert(out@ =~= before_t + part@.subrange(0, k + 1));
                    assert(out@.map_values(|t: T| t.index_view()) =~= prev.map_values(
                        |t: T| t.index_view(),
                    ).push(part@[k as int].index_view()));
                    assert(out@.map_values(|t: T| t.index_view()) =~= before + part@.map_values(
                        |t: T| t.index_view(),
                    ).subrange(0, k + 1));
                }
                k = k + 1;
            }
            proof {
                let sub = cs.subrange(0, j + 1);
                assert(sub.drop_last() =~= cs.subrange(0, j as int));
                assert(sub.last() == cks@[j as int]@);
                assert(part@.map_values(|t: T| t.index_view()).subrange(0, pn as int)
                    =~= part@.map_values(|t: T| t.index_view()));
                assert(part@.subrange(0, pn as int) =~= part@);
                let e0 = encode_chunks(self.vocab(), cs.subrange(0, j as int));
                let e1 = encode_ids(self.vocab(), cks@[j as int]@);
                assert((e0 + e1).map_values(|i: int| T::token_of(i)) =~= e0.map_values(
                    |i: int| T::token_of(i),
                ) + e1.map_values(|i: int| T::token_of(i)));
            }
            j = j + 1;
        }
        proof {
            assert(cs.subrange(0, m as int) =~= cs);
        }
        out
    }

    /// Maps a string to its token, if the whole string is one entry of the
    /// vocabulary as the matcher finds it: the search must give exactly one
    /// match, and that token's string must be `s`.
    pub fn str_to_token(&self, s: &str) -> (r: Option<T>)
        ensures
            ({
                let ms = leftmost_longest(patterns_of(self.vocab()), encode_utf8(s@));
                &&& r is Some <==> (ms.len() == 1 && self.vocab()[ms[0].2] == s@)
                &&& r matches Some(t) ==> t.index_view() == ms[0].2
            }),
    {
        proof {
            use_type_invariant(self);
        }
        let ms = self.find_matches(s);
        if ms.len() == 1 {
            let tok = ms[0].2;
            let owned = s.to_owned();
            let same = self.token2str[tok] == owned;
            proof {
                assert(self.token2str@[tok as int]@ == self.vocab()[tok as int]);
            }
            if same {
                Some(T::from_index(tok))
            } else {
                None
            }
        } else {
            None
        }
    }

    /// Appends the shown form of each byte token in `buf`.
    fn push_shown(&self, result: &mut String, buf: &Vec<u8>)
        requires
            self.wf(),
        ensures
            final(result)@ == old(result)@ + shown(self.vocab(), buf@),
    {
        let n = buf.len();
        let mut i: usize = 0;
        while i < n
            invariant
                self.wf(),
                n == buf@.len(),
                i <= n,
                result@ == old(result)@ + shown(self.vocab(), buf@.subrange(0, i as int)),
            decreases n - i,
        {
            let b = buf[i];
            result.append(self.token2str[b as usize].as_str());
            proof {
                let pre = buf@.subrange(0, i as int);
                let post = buf@.subrange(0, i + 1);
                assert(post.drop_last() =~= pre);
                assert(self.token2str@[b as int]@ == self.vocab()[b as int]);
            }
            i = i + 1;
        }
        proof {
            assert(buf@.subrange(0, n as int) =~= buf@);
        }
    }

    /// Decodes tokens without taking the markers out; see `decode_ids`.
    fn decode_normalized(&self, v: &[T]) -> (r: String)
        requires
            self.wf(),
            forall|i: int| 0 <= i < v@.len() ==> 0 <= (#[trigger] v@[i]).index_view() < self.vocab().len(),
        ensures
            r@ == decode_ids(self.vocab(), v@.map_values(|t: T| t.index_view())),
    {
        let ghost ids = v@.map_values(|t: T| t.index_view());
        let mut result = String::new();
        let mut byte_buff: Vec<u8> = Vec::new();
        let n = v.len();
        let mut i: usize = 0;
        while i < n
            invariant
                self.wf(),
                n == v@.len(),
                ids == v@.map_values(|t: T| t.index_view()),
                forall|j: int| 0 <= j < v@.len() ==> 0 <= (#[trigger] v@[j]).index_view() < self.vocab().len(),
                i <= n,
                result@ + decode_from(self.vocab(), ids, i as int, byte_buff@) == decode_ids(
                    self.vocab(),
                    ids,
                ),
            decreases n - i,
        {
            let t = v[i].to_index();
            let ghost before = result@;
            let ghost buf0 = byte_buff@;
            proof {
                assert(ids[i as int] == t as int);
            }
            if t == 0x09 || t == 0x0a || t == 0x0d || (0x20 <= t && t < 0x7f) || t > 0xff {
                self.push_shown(&mut result, &byte_buff);
                byte_buff.clear();
                result.append(self.token2str[t].as_str());
                proof {
                    assert(self.token2str@[t as int]@ == self.vocab()[t as int]);
                    assert(result@ =~= before + shown(self.vocab(), buf0) + self.vocab()[t as int]);
                }
            } else {
                if 0xc2 <= t && t <= 0xf4 {
                    self.push_shown(&mut result, &byte_buff);
                    byte_buff.clear();
                }
                byte_buff.push(t as u8);
                let ghost mid = result@;
                match str_from_utf8(byte_buff.as_slice()) {
                    Some(s) => {
                        result.append(s);
                        byte_buff.clear();
                        proof {
                            assert(result@ =~= mid + decode_utf8(
                                if is_lead_byte(t as int) {
                                    seq![t as u8]
                                } else {
                                    buf0.push(t as u8)
                                },
                            ));
                        }
                    },
                    None => {},
                }
                proof {
                    if is_lead_byte(t as int) {
                        assert(byte_buff@ =~= seq![t as u8] || byte_buff@.len() == 0);
                    }
                    assert(result@ + decode_from(self.vocab(), ids, i + 1, byte_buff@)
                        =~= before + decode_from(self.vocab(), ids, i as int, buf0));
                }
            }
            i = i + 1;
        }
        self.push_shown(&mut result, &byte_buff);
        result
    }

    /// Decodes tokens back into text: byte tokens that form valid UTF-8 are
    /// put together into characters, other byte tokens are shown as `<xx>`,
    /// and the markers are then taken out (`denormalize`).
    pub fn decode(&self, v: &[T]) -> (r: String)
        requires
            forall|i: int| 0 <= i < v@.len() ==> 0 <= (#[trigger] v@[i]).index_view() < self.vocab().len(),
        ensures
            r@ == denormalize_spec(decode_ids(self.vocab(), v@.map_values(|t: T| t.index_view()))),
    {
        proof {
            use_type_invariant(self);
        }
        let d = self.decode_normalized(v);
        denormalize(d.as_str())
    }

    /// Every token with its string, byte tokens first (in byte order), then
    /// the marker, special tokens, codepoints and merges in the order they
    /// were added.
    pub fn tokens(&self) -> (r: Vec<(T, &str)>)
        ensures
            r@.len() == self.vocab().len(),
            forall|i: int|
                0 <= i < r@.len() ==> (#[trigger] r@[i]).0.index_view() == i && r@[i].1@
                    == self.vocab()[i],
    {
        proof {
            use_type_invariant(self);
        }
        let n = self.token2str.len();
        let mut r: Vec<(T, &str)> = Vec::new();
        let mut i: usize = 0;
        while i < n
            invariant
                self.wf(),
                n == self.vocab().len(),
                i <= n,
                r@.len() == i,
                forall|j: int|
                    0 <= j < i ==> (#[trigger] r@[j]).0.index_view() == j && r@[j].1@
                        == self.vocab()[j],
            decreases n - i,
        {
            proof {
                assert(self.token2str@[i as int]@ == self.vocab()[i as int]);
            }
            r.push((T::from_index(i), self.token2str[i].as_str()));
            i = i + 1;
        }
        r
    }

    /// Whether decoding what `encode` gives for `s` is sure to give `s`
    /// back: std classifies a space, a hyphen and the marker as neither
    /// letters nor digits, and `s` is restorable.
    pub fn round_trips(&self, s: &str) -> (r: bool)
        ensures
            r == (separators_classified() && crate::prepare::marker_classified() && restorable(s@)),
            r ==> denormalize_spec(decode_ids(self.vocab(), encode_spec(self.vocab(), s@))) == s@,
    {
        proof {
            use_type_invariant(self);
        }
        let r = classifications_hold() && is_restorable(s);
        proof {
            if r {
                lemma_decode_encode_restores(self, s@);
            }
        }
        r
    }

    /// Returns the size in bytes of a single token value.
    pub fn token_size() -> (r: usize)
        ensures
            r as nat == vstd::layout::size_of::<T>(),
    {
        core::mem::size_of::<T>()
    }

    /// A tokenizer over a saved vocabulary: the byte tokens and the marker,
    /// then `vocabulary` (the entries past the marker, as `save` wrote them).
    ///
    /// Fails with `Vocabulary(version)` when the major version differs from
    /// `VERSION_MAJOR`, with `Vocabulary` when the vocabulary does not fit
    /// the token type, and with `Automaton` when the matcher cannot be built.
    pub fn from_vocabulary(version: &str, vocabulary: Vec<String>) -> (r: Result<
        Self,
        crate::error::TokenizerError,
    >)
        ensures
            version_major(version@) != VERSION_MAJOR@ ==> (r matches Err(
                crate::error::TokenizerError::Vocabulary(v),
            ) && v@ == version@),
            version_major(version@) == VERSION_MAJOR@ ==> {
                &&& (r matches Err(crate::error::TokenizerError::Vocabulary(_))) <==> 257
                    + vocabulary@.len() > capped_limit::<T>() + 1
                &&& r matches Err(e) ==> (e is Vocabulary || e is Automaton)
                &&& 257 + vocabulary@.len() > capped_limit::<T>() + 1 ==> (r matches Err(
                    crate::error::TokenizerError::Vocabulary(m),
                ) && m@ == size_text(
                    if vocabulary@.len() + 257 <= usize::MAX {
                        (vocabulary@.len() + 257) as nat
                    } else {
                        usize::MAX as nat
                    },
                    if capped_limit::<T>() < usize::MAX {
                        (capped_limit::<T>() + 1) as nat
                    } else {
                        usize::MAX as nat
                    },
                ))
                &&& r is Ok <==> (257 + vocabulary@.len() <= capped_limit::<T>() + 1 && ac_builds(
                    patterns_of(base_strings() + views_of(vocabulary@)),
                ))
                &&& r matches Ok(tok) ==> tok.wf() && tok.vocab().subrange(257, tok.vocab().len() as int)
                    == views_of(vocabulary@)
            },
    {
        let major = major_of(version);
        let expected = VERSION_MAJOR.to_owned();
        if major != expected {
            return Err(crate::error::TokenizerError::Vocabulary(version.to_owned()));
        }
        let n = vocabulary.len();
        let max = T::max_index();
        if (n as u128) + 257 > (max as u128) + 1 {
            let size = if n <= usize::MAX - 257 {
                n + 257
            } else {
                usize::MAX
            };
            let shown_max = if max < usize::MAX {
                max + 1
            } else {
                max
            };
            return Err(crate::error::TokenizerError::Vocabulary(size_message(size, shown_max)));
        }
        let mut token2str = base_vocabulary();
        let ghost base = views_of(token2str@);
        let mut i: usize = 0;
        while i < n
            invariant
                n == vocabulary@.len(),
                i <= n,
                token2str@.len() == 257 + i,
                forall|j: int| 0 <= j < 257 ==> views_of(token2str@)[j] == base[j],
                base_ok(base),
                base.len() == 257,
                views_of(token2str@).subrange(257, 257 + i as int) == views_of(vocabulary@).subrange(
                    0,
                    i as int,
                ),
            decreases n - i,
        {
            let ghost before = views_of(token2str@);
            token2str.push(vocabulary[i].clone());
            proof {
                let views = views_of(token2str@);
                assert(views.subrange(257, 257 + i + 1) =~= before.subrange(257, 257 + i as int).push(
                    vocabulary@[i as int]@,
                ));
                assert(views_of(vocabulary@).subrange(0, i + 1) =~= views_of(vocabulary@).subrange(
                    0,
                    i as int,
                ).push(vocabulary@[i as int]@));
                assert forall|j: int| 0 <= j < 257 implies views[j] == base[j] by {
                    assert(views[j] == before[j]);
                }
            }
            i = i + 1;
        }
        proof {
            let views = views_of(token2str@);
            assert(views_of(vocabulary@).subrange(0, n as int) =~= views_of(vocabulary@));
            assert forall|j: int| 0 <= j < 256 implies #[trigger] views[j] == byte_display(j) by {
                assert(views[j] == base[j]);
            }
            assert(views[256] == base[256]);
            assert(views =~= base_strings() + views_of(vocabulary@));
        }
        Self::with_vocabulary(token2str)
    }

    /// The entries past the marker, which is what `save` stores (the byte
    /// tokens and the marker are implicit).
    pub fn learned_vocabulary(&self) -> (r: Vec<String>)
        ensures
            views_of(r@) == self.vocab().subrange(257, self.vocab().len() as int),
    {
        proof {
            use_type_invariant(self);
        }
        let n = self.token2str.len();
        let mut r: Vec<String> = Vec::new();
        let mut i: usize = 257;
        while i < n
            invariant
                self.wf(),
                n == self.vocab().len(),
                257 <= i <= n,
                views_of(r@) == self.vocab().subrange(257, i as int),
            decreases n - i,
        {
            let ghost before = views_of(r@);
            r.push(self.token2str[i].clone());
            proof {
                assert(self.token2str@[i as int]@ == self.vocab()[i as int]);
                assert(views_of(r@) =~= before.push(self.vocab()[i as int]));
                assert(views_of(r@) =~= self.vocab().subrange(257, i + 1));
            }
            i = i + 1;
        }
        r
    }
}


/// The version that `save` writes has the major part that loading expects.
pub proof fn lemma_version_major()
    ensures
        version_major(VERSION@) == VERSION_MAJOR@,
{
    reveal_strlit("0.1.0");
    reveal_strlit("0");
    let v = VERSION@;
    assert(v.drop_first().len() == 4);
    assert(v.drop_first()[0] == '.');
    assert(version_major(v.drop_first()) =~= Seq::<char>::empty());
    assert(version_major(v) =~= VERSION_MAJOR@);
}

/// A tokenizer loaded from what another one saves has its vocabulary, and
/// so encodes and decodes every text and token list as the saved one does.
pub proof fn lemma_saved_vocabulary_reloads<T: TokenType>(
    saved: &Tokenizer<T>,
    learned: Seq<Seq<char>>,
    loaded: &Tokenizer<T>,
)
    requires
        saved.wf(),
        loaded.wf(),
        learned == saved.vocab().subrange(257, saved.vocab().len() as int),
        loaded.vocab().subrange(257, loaded.vocab().len() as int) == learned,
    ensures
        loaded.vocab() == saved.vocab(),
        forall|s: Seq<char>| #[trigger] encode_spec(loaded.vocab(), s) == encode_spec(saved.vocab(), s),
        forall|ids: Seq<int>| #[trigger] decode_ids(loaded.vocab(), ids) == decode_ids(saved.vocab(), ids),
{
    saved.lemma_wf_facts();
    loaded.lemma_wf_facts();
    let a = saved.vocab();
    let b = loaded.vocab();
    assert(a.len() >= 257 && b.len() >= 257);
    assert(learned.len() == a.len() - 257);
    assert(learned.len() == b.len() - 257);
    assert(a.len() == b.len());
    assert forall|i: int| 0 <= i < a.len() implies a[i] == b[i] by {
        if i < 256 {
            assert(a[i] == byte_display(i));
            assert(b[i] == byte_display(i));
        } else if i >= 257 {
            assert(a[i] == learned[i - 257]);
            assert(b[i] == learned[i - 257]);
        }
    }
    assert(a =~= b);
}


/// What a tokenizer saves loads again: the version it writes has the
/// major part that loading expects, and its vocabulary past the marker fits
/// the token type and builds a matcher, so `from_vocabulary` succeeds on it
/// (and gives the same vocabulary, by `lemma_saved_vocabulary_reloads`).
pub proof fn lemma_saved_vocabulary_loads<T: TokenType>(saved: &Tokenizer<T>)
    requires
        saved.wf(),
    ensures
        ({
            let learned = saved.vocab().subrange(257, saved.vocab().len() as int);
            &&& version_major(VERSION@) == VERSION_MAJOR@
            &&& 257 + learned.len() <= capped_limit::<T>() + 1
            &&& ac_builds(patterns_of(base_strings() + learned))
        }),
{
    saved.lemma_wf_facts();
    lemma_version_major();
    let v = saved.vocab();
    let learned = v.subrange(257, v.len() as int);
    assert forall|i: int| 0 <= i < v.len() implies (base_strings() + learned)[i] == v[i] by {
        if i < 256 {
            assert(v[i] == byte_display(i));
        }
    }
    assert(base_strings() + learned =~= v);
}

/// The string of a token past the byte range, or of a byte token shown as
/// itself, is found by the matcher as that one token, so `str_to_token`
/// gives back the token that `token_to_string` gave the string of.
pub proof fn lemma_token_string_round_trip<T: TokenType>(tok: &Tokenizer<T>, i: int)
    requires
        tok.wf(),
        0 <= i < tok.vocab().len(),
        i >= 256 || is_text_token(i),
    ensures
        ({
            let ms = leftmost_longest(patterns_of(tok.vocab()), encode_utf8(tok.vocab()[i]));
            &&& ms.len() == 1
            &&& ms[0].2 == i
            &&& tok.vocab()[ms[0].2] == tok.vocab()[i]
        }),
{
    tok.lemma_wf_facts();
    let vocab = tok.vocab();
    let pats = patterns_of(vocab);
    if i < 256 {
        let c = vocab[i];
        assert(c == byte_display(i));
        assert(c == seq![i as char]);
        assert(is_ascii_chars(c));
        is_ascii_chars_encode_utf8(c);
        assert(encode_utf8(c) =~= seq![i as u8]);
    }
    assert(pats[i] == encode_utf8(vocab[i]));
    lemma_pattern_alone(pats, i);
}


/// Decoding from a position past a prefix does not look at the prefix.
proof fn lemma_decode_shift(vocab: Seq<Seq<char>>, a: Seq<int>, b: Seq<int>, j: int, buf: Seq<u8>)
    requires
        0 <= j,
    ensures
        decode_from(vocab, a + b, a.len() + j, buf) == decode_from(vocab, b, j, buf),
    decreases b.len() - j,
{
    if j < b.len() {
        let t = b[j];
        assert((a + b)[a.len() + j] == t);
        lemma_decode_shift(vocab, a, b, j + 1, Seq::empty());
        let b1: Seq<u8> = if is_lead_byte(t) {
            seq![t as u8]
        } else {
            buf.push(t as u8)
        };
        lemma_decode_shift(vocab, a, b, j + 1, b1);
    }
}

/// Decoding `a + b` from position `i` of `a` on gives what `a` decodes to
/// from there, then what `b` decodes to, when `b` is empty or begins with a
/// token that flushes the buffer.
proof fn lemma_decode_split_from(vocab: Seq<Seq<char>>, a: Seq<int>, b: Seq<int>, i: int, buf: Seq<u8>)
    requires
        0 <= i <= a.len(),
        b.len() == 0 || is_text_token(b[0]) || is_lead_byte(b[0]),
    ensures
        decode_from(vocab, a + b, i, buf) == decode_from(vocab, a, i, buf) + decode_ids(vocab, b),
    decreases a.len() - i,
{
    let e: Seq<u8> = Seq::empty();
    assert(shown(vocab, e) =~= Seq::<char>::empty());
    if i == a.len() {
        if b.len() == 0 {
            assert(a + b =~= a);
            assert(decode_ids(vocab, b) =~= Seq::<char>::empty());
            assert(decode_from(vocab, a, i, buf) + decode_ids(vocab, b) =~= decode_from(
                vocab,
                a,
                i,
                buf,
            ));
        } else {
            let t = b[0];
            assert((a + b)[i] == t);
            lemma_decode_shift(vocab, a, b, 1, e);
            let b1: Seq<u8> = seq![t as u8];
            lemma_decode_shift(vocab, a, b, 1, b1);
            if is_text_token(t) {
                assert(decode_ids(vocab, b) =~= vocab[t] + decode_from(vocab, b, 1, e));
                assert(decode_from(vocab, a + b, i, buf) =~= shown(vocab, buf) + vocab[t]
                    + decode_from(vocab, b, 1, e));
            } else {
                assert(is_lead_byte(t));
                if valid_utf8(b1) {
                    assert(decode_ids(vocab, b) =~= decode_utf8(b1) + decode_from(vocab, b, 1, e));
                    assert(decode_from(vocab, a + b, i, buf) =~= shown(vocab, buf) + decode_utf8(b1)
                        + decode_from(vocab, b, 1, e));
                } else {
                    assert(decode_ids(vocab, b) =~= decode_from(vocab, b, 1, b1));
                    assert(decode_from(vocab, a + b, i, buf) =~= shown(vocab, buf) + decode_from(
                        vocab,
                        b,
                        1,
                        b1,
                    ));
                }
            }
            assert(decode_from(vocab, a, i, buf) == shown(vocab, buf));
        }
    } else {
        let t = a[i];
        assert((a + b)[i] == t);
        let d = decode_ids(vocab, b);
        lemma_decode_split_from(vocab, a, b, i + 1, e);
        let b1: Seq<u8> = if is_lead_byte(t) {
            seq![t as u8]
        } else {
            buf.push(t as u8)
        };
        lemma_decode_split_from(vocab, a, b, i + 1, b1);
        if is_text_token(t) {
            assert(decode_from(vocab, a + b, i, buf) =~= shown(vocab, buf) + vocab[t] + (
            decode_from(vocab, a, i + 1, e) + d));
            assert(decode_from(vocab, a, i, buf) + d =~= shown(vocab, buf) + vocab[t] + (
            decode_from(vocab, a, i + 1, e) + d));
        } else {
            let out: Seq<char> = if is_lead_byte(t) {
                shown(vocab, buf)
            } else {
                Seq::empty()
            };
            if valid_utf8(b1) {
                assert(decode_from(vocab, a + b, i, buf) =~= out + decode_utf8(b1) + (decode_from(
                    vocab,
                    a,
                    i + 1,
                    e,
                ) + d));
                assert(decode_from(vocab, a, i, buf) + d =~= out + decode_utf8(b1) + (decode_from(
                    vocab,
                    a,
                    i + 1,
                    e,
                ) + d));
            } else {
                assert(decode_from(vocab, a + b, i, buf) =~= out + (decode_from(vocab, a, i + 1, b1)
                    + d));
                assert(decode_from(vocab, a, i, buf) + d =~= out + (decode_from(vocab, a, i + 1, b1)
                    + d));
            }
        }
    }
}

/// Decoding two token lists one after the other gives their two texts one
/// after the other, when the second list is empty or begins with a token
/// shown by its string or with a byte that can begin a character (what a
/// first list leaves unfinished is shown byte by byte either way).
pub proof fn lemma_decode_concat(vocab: Seq<Seq<char>>, v1: Seq<int>, v2: Seq<int>)
    requires
        v2.len() == 0 || is_text_token(v2[0]) || is_lead_byte(v2[0]),
    ensures
        decode_ids(vocab, v1 + v2) == decode_ids(vocab, v1) + decode_ids(vocab, v2),
{
    lemma_decode_split_from(vocab, v1, v2, 0, Seq::empty());
}

/// `str_to_token` finds a token for a string exactly when the string is that
/// token's string and the token is past the byte range or a byte shown as
/// itself; a byte shown as `<xx>` is never found from its string.
pub proof fn lemma_str_to_token_exact<T: TokenType>(tok: &Tokenizer<T>, x: Seq<char>, i: int)
    requires
        tok.wf(),
    ensures
        ({
            let ms = leftmost_longest(patterns_of(tok.vocab()), encode_utf8(x));
            (ms.len() == 1 && tok.vocab()[ms[0].2] == x && ms[0].2 == i) <==> (0 <= i
                < tok.vocab().len() && tok.vocab()[i] == x && (i >= 256 || is_text_token(i)))
        }),
{
    tok.lemma_wf_facts();
    let vocab = tok.vocab();
    let pats = patterns_of(vocab);
    let ms = leftmost_longest(pats, encode_utf8(x));
    if 0 <= i < vocab.len() && vocab[i] == x && (i >= 256 || is_text_token(i)) {
        lemma_token_string_round_trip(tok, i);
    }
    if ms.len() == 1 && vocab[ms[0].2] == x && ms[0].2 == i {
        crate::tokenizer::round_trip::lemma_single_match_whole(vocab, x);
        if i < 256 && !is_text_token(i) {
            assert(x == byte_display(i));
            assert(is_ascii_chars(x)) by {
                assert(hex_digit(i / 16) <= '\u{7f}');
                assert(hex_digit(i % 16) <= '\u{7f}');
            }
            is_ascii_chars_encode_utf8(x);
            assert(pats[i] == seq![i as u8]);
            assert(encode_utf8(x).len() == 4);
            assert(false);
        }
    }
}

/// `encode` matches the vocabulary against whole whitespace runs: its tokens
/// are those of cutting the normal form into segments (each non-empty, all
/// whitespace or free of it, no two whitespace segments side by side) and
/// matching each segment leftmost-longest on its own.
pub proof fn lemma_encode_segments(vocab: Seq<Seq<char>>, s: Seq<char>)
    ensures
        exists|g: Seq<Seq<char>>|
            concat_all(g) == normalize_spec(s) && segments_shaped(g) && #[trigger] encode_chunks(
                vocab,
                g,
            ) == encode_spec(vocab, s),
{
    let g = segments_spec(normalize_spec(s));
    lemma_segments_shape(normalize_spec(s));
    assert(encode_chunks(vocab, g) == encode_spec(vocab, s));
}

/// Decoding the tokens of a list of chunks, followed by any tokens, gives
/// the chunks one after the other and then what those tokens decode to.
pub proof fn lemma_decode_chunks(vocab: Seq<Seq<char>>, cs: Seq<Seq<char>>, tail: Seq<int>)
    requires
        crate::tokenizer::round_trip::vocab_ok(vocab),
    ensures
        decode_ids(vocab, encode_chunks(vocab, cs) + tail) == concat_all(cs) + decode_ids(
            vocab,
            tail,
        ),
    decreases cs.len(),
{
    if cs.len() == 0 {
        assert(encode_chunks(vocab, cs) + tail =~= tail);
        assert(concat_all(cs) + decode_ids(vocab, tail) =~= decode_ids(vocab, tail));
    } else {
        let front = cs.drop_last();
        let last = cs.last();
        let t2 = encode_ids(vocab, last) + tail;
        assert(encode_chunks(vocab, cs) + tail =~= encode_chunks(vocab, front) + t2);
        lemma_decode_chunks(vocab, front, t2);
        crate::tokenizer::round_trip::lemma_decode_encode_then(vocab, last, tail);
        assert(concat_all(front) + (last + decode_ids(vocab, tail)) =~= concat_all(cs)
            + decode_ids(vocab, tail));
    }
}

/// Decoding the tokens that `encode` gives returns the normalized text,
/// whatever the vocabulary: the segments cover the normal form, and
/// characters outside the vocabulary come back from their byte tokens.
pub proof fn lemma_round_trip<T: TokenType>(tok: &Tokenizer<T>, s: Seq<char>)
    requires
        tok.wf(),
    ensures
        decode_ids(tok.vocab(), encode_spec(tok.vocab(), s)) == normalize_spec(s),
        denormalize_spec(decode_ids(tok.vocab(), encode_spec(tok.vocab(), s))) == denormalize_spec(
            normalize_spec(s),
        ),
{
    tok.lemma_wf_facts();
    let cs = segments_spec(normalize_spec(s));
    lemma_decode_chunks(tok.vocab(), cs, Seq::empty());
    lemma_segments_cover(normalize_spec(s));
    assert(encode_chunks(tok.vocab(), cs) + Seq::<int>::empty() =~= encode_chunks(tok.vocab(), cs));
    assert(decode_ids(tok.vocab(), Seq::<int>::empty()) =~= Seq::<char>::empty());
    assert(concat_all(cs) + Seq::<char>::empty() =~= concat_all(cs));
}

/// `decode(encode(s))` gives `s` back for every `restorable` text, whatever
/// the vocabulary (with a space and a hyphen neither letters nor digits, as
/// std classifies them; `Tokenizer::round_trips` tests the premises).
pub proof fn lemma_decode_encode_restores<T: TokenType>(tok: &Tokenizer<T>, s: Seq<char>)
    requires
        tok.wf(),
        separators_classified(),
        restorable(s),
    ensures
        denormalize_spec(decode_ids(tok.vocab(), encode_spec(tok.vocab(), s))) == s,
{
    lemma_round_trip(tok, s);
    lemma_denormalize_normalize(s);
}

} // verus!
