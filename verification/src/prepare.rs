//! Text preparation: the word-start marker `▁` is put in front of words and
//! numbers before tokenization (`normalize`) and taken out again after
//! decoding (`denormalize`).

use vstd::prelude::*;

use regex::Regex;

verus! {

/// The word-start marker `▁` (U+2581).
pub const WORD_START: char = '\u{2581}';

/// Unicode's `Alphabetic` property, as `char::is_alphabetic` reports it.
pub uninterp spec fn is_alphabetic(c: char) -> bool;

/// Unicode's numeric general categories (`Nd`, `Nl`, `No`), as
/// `char::is_numeric` reports them.
pub uninterp spec fn is_numeric(c: char) -> bool;

/// Unicode's `White_Space` property, as `char::is_whitespace` reports it.
pub uninterp spec fn is_whitespace(c: char) -> bool;

/// `char::is_alphabetic`: whether `c` has Unicode's `Alphabetic` property;
/// the result is named, not stated.
#[verifier::external_body]
fn char_is_alphabetic(c: char) -> (r: bool)
    ensures
        r == is_alphabetic(c),
{
    c.is_alphabetic()
}

/// `char::is_numeric`: whether `c` is in one of Unicode's numeric general
/// categories; the result is named, not stated.
#[verifier::external_body]
fn char_is_numeric(c: char) -> (r: bool)
    ensures
        r == is_numeric(c),
{
    c.is_numeric()
}

/// `char::is_whitespace`: whether `c` has Unicode's `White_Space`
/// property; the result is named, not stated.
#[verifier::external_body]
pub(crate) fn char_is_whitespace(c: char) -> (r: bool)
    ensures
        r == is_whitespace(c),
{
    c.is_whitespace()
}

/// `str::chars`, collected: the characters of `s` in order.
#[verifier::external_body]
pub(crate) fn str_chars(s: &str) -> (r: Vec<char>)
    ensures
        r@ == s@,
{
    s.chars().collect()
}

/// `String::push`: appends one character.
#[verifier::external_body]
pub(crate) fn string_push(s: &mut String, c: char)
    ensures
        final(s)@ == old(s)@.push(c),
{
    s.push(c)
}

/// The kind of the last character that was neither a space nor a marker.
#[derive(Clone, Copy, PartialEq, Eq, Structural)]
pub enum GroupType {
    Letters,
    Digits,
    Other,
}

/// Character `i` of `s` counts as a letter: it is alphabetic, or it is a
/// hyphen between a letter and an alphabetic character.
pub open spec fn letter_at(s: Seq<char>, i: int, prev_type: GroupType) -> bool {
    is_alphabetic(s[i]) || (s[i] == '-' && i + 1 < s.len() && is_alphabetic(s[i + 1]) && prev_type
        == GroupType::Letters)
}

/// What `normalize` writes for character `i`, given the kind of the last
/// character that was not a space and the character before `i`.
pub open spec fn norm_emit(s: Seq<char>, i: int, prev_type: GroupType, prev_char: Option<char>) -> Seq<
    char,
> {
    let c = s[i];
    let letter = letter_at(s, i, prev_type);
    let digit = is_numeric(c);
    let marker: Seq<char> = if ((letter && prev_type != GroupType::Letters) || (digit && prev_type
        != GroupType::Digits)) && prev_char != Some(WORD_START) {
        seq![WORD_START]
    } else {
        Seq::empty()
    };
    let body: Seq<char> = if c == ' ' || c == WORD_START {
        if i + 1 < s.len() {
            let n = s[i + 1];
            if (is_alphabetic(n) && prev_type == GroupType::Letters) || (is_numeric(n) && prev_type
                == GroupType::Digits) {
                seq![WORD_START]
            } else {
                seq![c]
            }
        } else {
            Seq::empty()
        }
    } else {
        seq![c]
    };
    marker + body
}

/// The kind that `normalize` records after character `i`.
pub open spec fn norm_next_type(s: Seq<char>, i: int, prev_type: GroupType) -> GroupType {
    let c = s[i];
    if c == ' ' || c == WORD_START {
        prev_type
    } else if letter_at(s, i, prev_type) {
        GroupType::Letters
    } else if is_numeric(c) {
        GroupType::Digits
    } else {
        GroupType::Other
    }
}

/// What `normalize` writes for the characters of `s` from `i` on.
pub open spec fn normalize_from(
    s: Seq<char>,
    i: int,
    prev_type: GroupType,
    prev_char: Option<char>,
) -> Seq<char>
    decreases s.len() - i,
{
    if 0 <= i < s.len() {
        norm_emit(s, i, prev_type, prev_char) + normalize_from(
            s,
            i + 1,
            norm_next_type(s, i, prev_type),
            Some(s[i]),
        )
    } else {
        Seq::empty()
    }
}

/// The normal form of `s`: a marker `▁` before each word and each number
/// (unless one is there already), a space between two words or between two
/// numbers turned into the marker, and a space or marker at the very end
/// dropped.
pub open spec fn normalize_spec(s: Seq<char>) -> Seq<char> {
    normalize_from(s, 0, GroupType::Other, None)
}

/// Puts the word-start marker in front of words and numbers; see
/// `normalize_spec`.
pub fn normalize(s: &str) -> (r: String)
    ensures
        r@ == normalize_spec(s@),
{
    let chars = str_chars(s);
    let n = chars.len();
    let mut result = String::new();
    let mut prev_type = GroupType::Other;
    let mut prev_char: Option<char> = None;
    let mut i: usize = 0;
    while i < n
        invariant
            chars@ == s@,
            n == chars@.len(),
            i <= n,
            result@ + normalize_from(s@, i as int, prev_type, prev_char) == normalize_spec(s@),
        decreases n - i,
    {
        let c = chars[i];
        let has_next = i + 1 < n;
        let letter = char_is_alphabetic(c) || (c == '-' && has_next && char_is_alphabetic(
            chars[i + 1],
        ) && prev_type == GroupType::Letters);
        let digit = char_is_numeric(c);
        let ghost before = result@;
        let ghost pt = prev_type;
        let ghost pc = prev_char;
        if ((letter && prev_type != GroupType::Letters) || (digit && prev_type
            != GroupType::Digits)) && prev_char != Some(WORD_START) {
            string_push(&mut result, WORD_START);
        }
        if c == ' ' || c == WORD_START {
            if has_next {
                let next_c = chars[i + 1];
                let letter_next = char_is_alphabetic(next_c);
                let digit_next = char_is_numeric(next_c);
                if (letter_next && prev_type == GroupType::Letters) || (digit_next && prev_type
                    == GroupType::Digits) {
                    string_push(&mut result, WORD_START);
                } else {
                    string_push(&mut result, c);
                }
            }
        } else {
            if letter {
                prev_type = GroupType::Letters;
            } else if digit {
                prev_type = GroupType::Digits;
            } else {
                prev_type = GroupType::Other;
            }
            string_push(&mut result, c);
        }
        proof {
            assert(letter == letter_at(s@, i as int, pt));
            assert(result@ =~= before + norm_emit(s@, i as int, pt, pc));
            assert(prev_type == norm_next_type(s@, i as int, pt));
            assert(normalize_from(s@, i as int, pt, pc) == norm_emit(s@, i as int, pt, pc)
                + normalize_from(s@, i + 1, prev_type, Some(c)));
        }
        prev_char = Some(c);
        i = i + 1;
    }
    result
}


/// A character continues the group that the last one started: a letter
/// after letters, or a digit that is not a letter after digits.
pub open spec fn continues_group(c: char, prev_type: GroupType) -> bool {
    if is_alphabetic(c) {
        prev_type == GroupType::Letters
    } else if is_numeric(c) {
        prev_type == GroupType::Digits
    } else {
        false
    }
}

/// The kind that `denormalize` records after a character other than the
/// marker.
pub open spec fn denorm_next_type(c: char, prev_type: GroupType) -> GroupType {
    if is_alphabetic(c) {
        GroupType::Letters
    } else if is_numeric(c) {
        GroupType::Digits
    } else if c != ' ' {
        GroupType::Other
    } else {
        prev_type
    }
}

/// What `denormalize` writes for the characters of `s` from `i` on, given
/// the kind of the last group and whether a marker came just before.
pub open spec fn denormalize_from(s: Seq<char>, i: int, prev_type: GroupType, marked: bool) -> Seq<
    char,
>
    decreases s.len() - i,
{
    if 0 <= i < s.len() {
        let c = s[i];
        if c == WORD_START {
            denormalize_from(s, i + 1, prev_type, true)
        } else {
            let space: Seq<char> = if marked && continues_group(c, prev_type) {
                seq![' ']
            } else {
                Seq::empty()
            };
            space + seq![c] + denormalize_from(s, i + 1, denorm_next_type(c, prev_type), false)
        }
    } else {
        Seq::empty()
    }
}

/// The text of `s` with the markers taken out; a run of markers before a
/// letter that follows letters, or before a digit that follows digits,
/// becomes one space.
pub open spec fn denormalize_spec(s: Seq<char>) -> Seq<char> {
    denormalize_from(s, 0, GroupType::Other, false)
}

/// Takes the word-start markers out again; see `denormalize_spec`.
pub fn denormalize(s: &str) -> (r: String)
    ensures
        r@ == denormalize_spec(s@),
{
    let chars = str_chars(s);
    let n = chars.len();
    let mut result = String::new();
    let mut prev_type = GroupType::Other;
    let mut pref_flag = false;
    let mut i: usize = 0;
    while i < n
        invariant
            chars@ == s@,
            n == chars@.len(),
            i <= n,
            result@ + denormalize_from(s@, i as int, prev_type, pref_flag) == denormalize_spec(
                s@,
            ),
        decreases n - i,
    {
        let c = chars[i];
        let ghost before = result@;
        let ghost pt = prev_type;
        let ghost pf = pref_flag;
        if c == WORD_START {
            pref_flag = true;
        } else {
            let mut replace_mode: bool = false;
            if char_is_alphabetic(c) {
                if prev_type != GroupType::Letters {
                    prev_type = GroupType::Letters;
                } else {
                    replace_mode = true;
                }
            } else if char_is_numeric(c) {
                if prev_type != GroupType::Digits {
                    prev_type = GroupType::Digits;
                } else {
                    replace_mode = true;
                }
            } else if c != ' ' && prev_type != GroupType::Other {
                prev_type = GroupType::Other;
            }
            if pref_flag && replace_mode {
                string_push(&mut result, ' ');
            }
            pref_flag = false;
            string_push(&mut result, c);
            proof {
                assert(replace_mode == continues_group(c, pt));
                assert(prev_type == denorm_next_type(c, pt));
                let space: Seq<char> = if pf && continues_group(c, pt) {
                    seq![' ']
                } else {
                    Seq::empty()
                };
                assert(result@ =~= before + (space + seq![c]));
            }
        }
        i = i + 1;
    }
    result
}


#[verifier::external_type_specification]
#[verifier::external_body]
pub struct ExRegex(Regex);

/// The pattern that splits the text between whitespace into chunks: short
/// English suffixes after an apostrophe, a word (optionally marked; inner
/// hyphens between letters allowed), a group of up to three digits
/// (optionally marked), a run of other symbols, or whitespace.
pub const CHUNK_PATTERN: &'static str = r"'s|'t|'re|'ve|'m|'ll|'d|▁?\p{L}+(?:-\p{L}+)*|▁?\p{N}{1,3}|[^\p{L}\p{N}▁\s]+|\s+";

/// `pattern` is a regular expression that the `regex` crate accepts.
pub uninterp spec fn regex_compiles(pattern: Seq<char>) -> bool;

/// The texts of the successive non-overlapping matches of `pattern` in
/// `text`, as the `regex` crate's `find_iter` reports them.
pub uninterp spec fn regex_find_all(pattern: Seq<char>, text: Seq<char>) -> Seq<Seq<char>>;

/// A compiled regular expression with the source it was compiled from.
/// `compile` is the only way to make one.
pub struct Pattern {
    re: Regex,
    source: String,
}

impl Pattern {
    pub closed spec fn source(&self) -> Seq<char> {
        self.source@
    }

    /// `Regex::new`: compiles `source`, or `None` when the crate refuses it.
    #[verifier::external_body]
    pub(crate) fn compile(source: &str) -> (r: Option<Pattern>)
        ensures
            r is Some <==> regex_compiles(source@),
            r matches Some(p) ==> p.source() == source@,
    {
        match Regex::new(source) {
            Ok(re) => Some(Pattern { re, source: source.to_string() }),
            Err(_) => None,
        }
    }

    /// `Regex::find_iter`, each match taken as its text: each is a piece of
    /// `text` (a `Match` is a range of the haystack).
    #[verifier::external_body]
    pub(crate) fn find_all(&self, text: &str) -> (r: Vec<String>)
        ensures
            r.deep_view() == regex_find_all(self.source(), text@),
            forall|k: int| 0 <= k < r@.len() ==> is_piece_of(#[trigger] r@[k]@, text@),
    {
        self.re.find_iter(text).map(|m| m.as_str().to_string()).collect()
    }
}

/// `t` is a contiguous piece of `s`.
pub open spec fn is_piece_of(t: Seq<char>, s: Seq<char>) -> bool {
    exists|a: int, b: int| 0 <= a <= b <= s.len() && t == s.subrange(a, b)
}

/// `t` is all whitespace or holds no whitespace.
pub open spec fn one_kind(t: Seq<char>) -> bool {
    (forall|j: int| 0 <= j < t.len() ==> is_whitespace(#[trigger] t[j])) || (forall|j: int|
        0 <= j < t.len() ==> !is_whitespace(#[trigger] t[j]))
}

/// The strings of a sequence, one after the other.
pub open spec fn concat_all(ss: Seq<Seq<char>>) -> Seq<char>
    decreases ss.len(),
{
    if ss.len() == 0 {
        Seq::empty()
    } else {
        concat_all(ss.drop_last()) + ss.last()
    }
}

/// Every run is non-empty and all whitespace or all other characters, as
/// its flag says, and neighbouring runs differ in kind.
pub open spec fn runs_shaped(runs: Seq<(Seq<char>, bool)>) -> bool {
    &&& forall|k: int|
        #![trigger runs[k]]
        0 <= k < runs.len() ==> {
            &&& runs[k].0.len() > 0
            &&& forall|j: int|
                0 <= j < runs[k].0.len() ==> is_whitespace(#[trigger] runs[k].0[j]) == runs[k].1
        }
    &&& forall|k: int| 0 <= k < runs.len() - 1 ==> (#[trigger] runs[k]).1 != runs[k + 1].1
}

/// `runs` cuts `s` into maximal runs of whitespace and of other
/// characters, each with whether it is whitespace.
pub open spec fn runs_ok(s: Seq<char>, runs: Seq<(Seq<char>, bool)>) -> bool {
    &&& concat_all(runs.map_values(|r: (Seq<char>, bool)| r.0)) == s
    &&& runs_shaped(runs)
}

/// Closing a run: the runs so far followed by a non-empty run of one kind,
/// other than the last one's, are still shaped, and their texts run on.
proof fn lemma_close_run(rv0: Seq<(Seq<char>, bool)>, cur: Seq<char>, w: bool)
    requires
        runs_shaped(rv0),
        cur.len() > 0,
        forall|j: int| 0 <= j < cur.len() ==> is_whitespace(#[trigger] cur[j]) == w,
        rv0.len() > 0 ==> rv0.last().1 != w,
    ensures
        runs_shaped(rv0.push((cur, w))),
        concat_all(rv0.push((cur, w)).map_values(|r: (Seq<char>, bool)| r.0)) == concat_all(
            rv0.map_values(|r: (Seq<char>, bool)| r.0),
        ) + cur,
{
    let rv = rv0.push((cur, w));
    assert(rv.drop_last() =~= rv0);
    assert(rv.map_values(|r: (Seq<char>, bool)| r.0).drop_last() =~= rv0.map_values(
        |r: (Seq<char>, bool)| r.0,
    ));
    assert forall|k: int|
        #![trigger rv[k]]
        0 <= k < rv.len() implies {
            &&& rv[k].0.len() > 0
            &&& forall|j: int| 0 <= j < rv[k].0.len() ==> is_whitespace(#[trigger] rv[k].0[j]) == rv[k].1
        } by {
        if k < rv.len() - 1 {
            assert(rv[k] == rv0[k]);
        }
    }
    assert forall|k: int| 0 <= k < rv.len() - 1 implies (#[trigger] rv[k]).1 != rv[k + 1].1 by {
        assert(rv[k] == rv0[k]);
        if k + 1 < rv.len() - 1 {
            assert(rv[k + 1] == rv0[k + 1]);
        }
    }
}

/// The chunks of a text cut into runs: a whitespace run is one chunk, and
/// a run of other characters gives the matches of the chunk pattern in it
/// (none when the pattern is not accepted).
pub open spec fn chunks_of_runs(runs: Seq<(Seq<char>, bool)>) -> Seq<Seq<char>>
    decreases runs.len(),
{
    if runs.len() == 0 {
        Seq::empty()
    } else {
        let r = runs.last();
        let last: Seq<Seq<char>> = if r.1 {
            seq![r.0]
        } else if regex_compiles(CHUNK_PATTERN@) {
            regex_find_all(CHUNK_PATTERN@, r.0)
        } else {
            Seq::empty()
        };
        chunks_of_runs(runs.drop_last()) + last
    }
}

/// The maximal runs of whitespace and of other characters of `s`, each with
/// whether it is whitespace.
pub open spec fn runs_of(s: Seq<char>) -> Seq<(Seq<char>, bool)>
    decreases s.len(),
{
    if s.len() == 0 {
        Seq::empty()
    } else {
        let r = runs_of(s.drop_last());
        let c = s.last();
        let ws = is_whitespace(c);
        if r.len() > 0 && r.last().1 == ws {
            r.update(r.len() - 1, (r.last().0.push(c), ws))
        } else {
            r.push((seq![c], ws))
        }
    }
}

/// The chunks of `s`: its whitespace runs whole, and the matches of
/// `CHUNK_PATTERN` in its other runs.
pub open spec fn chunks_spec(s: Seq<char>) -> Seq<Seq<char>> {
    chunks_of_runs(runs_of(s))
}

/// The runs of a text put back together give the text.
pub proof fn lemma_runs_of_ok(s: Seq<char>)
    ensures
        concat_all(runs_of(s).map_values(|r: (Seq<char>, bool)| r.0)) == s,
    decreases s.len(),
{
    if s.len() > 0 {
        let f = s.drop_last();
        lemma_runs_of_ok(f);
        let r = runs_of(f);
        let c = s.last();
        let ws = is_whitespace(c);
        let rm = r.map_values(|x: (Seq<char>, bool)| x.0);
        let out = runs_of(s);
        let om = out.map_values(|x: (Seq<char>, bool)| x.0);
        if r.len() > 0 && r.last().1 == ws {
            assert(om.drop_last() =~= rm.drop_last());
            assert(om.last() == rm.last().push(c));
            assert(concat_all(rm) == concat_all(rm.drop_last()) + rm.last());
        } else {
            assert(om.drop_last() =~= rm);
            assert(om.last() == seq![c]);
        }
        assert(s =~= f.push(c));
    } else {
        assert(runs_of(s).map_values(|r: (Seq<char>, bool)| r.0) =~= Seq::<Seq<char>>::empty());
    }
}

/// Putting two lists of strings together puts their texts together.
pub proof fn lemma_concat_all_append(a: Seq<Seq<char>>, b: Seq<Seq<char>>)
    ensures
        concat_all(a + b) == concat_all(a) + concat_all(b),
    decreases b.len(),
{
    if b.len() == 0 {
        assert(a + b =~= a);
        assert(concat_all(a) + concat_all(b) =~= concat_all(a));
    } else {
        assert((a + b).drop_last() =~= a + b.drop_last());
        lemma_concat_all_append(a, b.drop_last());
        assert(concat_all(a) + concat_all(b) =~= concat_all(a) + concat_all(b.drop_last())
            + b.last());
    }
}

/// One string alone puts back together as itself.
pub proof fn lemma_concat_single(x: Seq<char>)
    ensures
        concat_all(seq![x]) == x,
{
    assert(seq![x].drop_last() =~= Seq::<Seq<char>>::empty());
    assert(concat_all(Seq::<Seq<char>>::empty()) =~= Seq::<char>::empty());
    assert(Seq::<char>::empty() + x =~= x);
}

/// The first place at or after `c` where `m` occurs in `run`, or -1 (also
/// for an empty `m`).
pub open spec fn find_from(run: Seq<char>, m: Seq<char>, c: int) -> int
    decreases run.len() - c,
{
    if c < 0 || m.len() == 0 || c + m.len() > run.len() {
        -1
    } else if run.subrange(c, c + m.len()) == m {
        c
    } else {
        find_from(run, m, c + 1)
    }
}

proof fn lemma_find_from(run: Seq<char>, m: Seq<char>, c: int)
    requires
        0 <= c,
    ensures
        find_from(run, m, c) >= 0 ==> {
            let p = find_from(run, m, c);
            &&& c <= p
            &&& p + m.len() <= run.len()
            &&& run.subrange(p, p + m.len()) == m
        },
    decreases run.len() - c,
{
    if m.len() > 0 && c + m.len() <= run.len() && run.subrange(c, c + m.len()) != m {
        lemma_find_from(run, m, c + 1);
    }
}

/// `run` from `c` on, cut at the matches `ms` in order: each match that
/// occurs at or after the end of the previous one is found at its first
/// such place, and the text before it, the match and, after the last, the
/// rest of the run are the pieces; no character is left out.
pub open spec fn split_run(run: Seq<char>, ms: Seq<Seq<char>>, c: int) -> Seq<Seq<char>>
    decreases ms.len(),
{
    if ms.len() == 0 {
        if c < run.len() {
            seq![run.subrange(c, run.len() as int)]
        } else {
            Seq::empty()
        }
    } else {
        let m = ms[0];
        let p = if m.len() > 0 {
            find_from(run, m, c)
        } else {
            -1
        };
        if p >= 0 {
            (if p > c {
                seq![run.subrange(c, p)]
            } else {
                Seq::<Seq<char>>::empty()
            }) + seq![m] + split_run(run, ms.drop_first(), p + m.len())
        } else {
            split_run(run, ms.drop_first(), c)
        }
    }
}

/// The pieces of a cut run put back together give the run.
pub proof fn lemma_split_run_covers(run: Seq<char>, ms: Seq<Seq<char>>, c: int)
    requires
        0 <= c <= run.len(),
    ensures
        concat_all(split_run(run, ms, c)) == run.subrange(c, run.len() as int),
    decreases ms.len(),
{
    if ms.len() == 0 {
        if c < run.len() {
            lemma_concat_single(run.subrange(c, run.len() as int));
        } else {
            assert(run.subrange(c, run.len() as int) =~= Seq::<char>::empty());
        }
    } else {
        let m = ms[0];
        let p = if m.len() > 0 {
            find_from(run, m, c)
        } else {
            -1
        };
        if p >= 0 {
            lemma_find_from(run, m, c);
            lemma_split_run_covers(run, ms.drop_first(), p + m.len());
            let gap: Seq<Seq<char>> = if p > c {
                seq![run.subrange(c, p)]
            } else {
                Seq::<Seq<char>>::empty()
            };
            lemma_concat_all_append(gap + seq![m], split_run(run, ms.drop_first(), p + m.len()));
            lemma_concat_all_append(gap, seq![m]);
            lemma_concat_single(m);
            if p > c {
                lemma_concat_single(run.subrange(c, p));
            } else {
                assert(concat_all(gap) =~= Seq::<char>::empty());
            }
            assert(run.subrange(c, run.len() as int) =~= run.subrange(c, p) + m + run.subrange(
                p + m.len(),
                run.len() as int,
            ));
        } else {
            lemma_split_run_covers(run, ms.drop_first(), c);
        }
    }
}

/// The segments of a text cut into runs: a whitespace run is one segment,
/// and a run of other characters is cut at the matches of `CHUNK_PATTERN`
/// in it (left whole when the pattern is not accepted).
pub open spec fn segments_of_runs(runs: Seq<(Seq<char>, bool)>) -> Seq<Seq<char>>
    decreases runs.len(),
{
    if runs.len() == 0 {
        Seq::empty()
    } else {
        let r = runs.last();
        let last: Seq<Seq<char>> = if r.1 {
            seq![r.0]
        } else if regex_compiles(CHUNK_PATTERN@) {
            split_run(r.0, regex_find_all(CHUNK_PATTERN@, r.0), 0)
        } else {
            seq![r.0]
        };
        segments_of_runs(runs.drop_last()) + last
    }
}

/// The segments of `s`: its chunks and the text between them, in order.
pub open spec fn segments_spec(s: Seq<char>) -> Seq<Seq<char>> {
    segments_of_runs(runs_of(s))
}

proof fn lemma_segments_of_runs_cover(runs: Seq<(Seq<char>, bool)>)
    ensures
        concat_all(segments_of_runs(runs)) == concat_all(
            runs.map_values(|r: (Seq<char>, bool)| r.0),
        ),
    decreases runs.len(),
{
    if runs.len() > 0 {
        let r = runs.last();
        lemma_segments_of_runs_cover(runs.drop_last());
        let last: Seq<Seq<char>> = if r.1 {
            seq![r.0]
        } else if regex_compiles(CHUNK_PATTERN@) {
            split_run(r.0, regex_find_all(CHUNK_PATTERN@, r.0), 0)
        } else {
            seq![r.0]
        };
        lemma_concat_all_append(segments_of_runs(runs.drop_last()), last);
        if !r.1 && regex_compiles(CHUNK_PATTERN@) {
            lemma_split_run_covers(r.0, regex_find_all(CHUNK_PATTERN@, r.0), 0);
            assert(r.0.subrange(0, r.0.len() as int) =~= r.0);
        } else {
            lemma_concat_single(r.0);
        }
        assert(runs.map_values(|r: (Seq<char>, bool)| r.0).drop_last() =~= runs.drop_last().map_values(
            |r: (Seq<char>, bool)| r.0,
        ));
    }
}

/// The segments of a text put back together give the text: nothing is left
/// out, whatever the chunk pattern matches.
pub proof fn lemma_segments_cover(s: Seq<char>)
    ensures
        concat_all(segments_spec(s)) == s,
{
    lemma_runs_of_ok(s);
    lemma_segments_of_runs_cover(runs_of(s));
}

/// The runs of a text are shaped: non-empty, each of one kind, neighbours
/// of different kinds.
proof fn lemma_runs_of_shaped(s: Seq<char>)
    ensures
        runs_shaped(runs_of(s)),
    decreases s.len(),
{
    if s.len() > 0 {
        let f = s.drop_last();
        lemma_runs_of_shaped(f);
        let r = runs_of(f);
        let c = s.last();
        let ws = is_whitespace(c);
        if r.len() > 0 && r.last().1 == ws {
            let out = runs_of(s);
            let n = r.len() - 1;
            assert(out == r.update(n, (r.last().0.push(c), ws)));
            assert forall|k: int|
                #![trigger out[k]]
                0 <= k < out.len() implies {
                    &&& out[k].0.len() > 0
                    &&& forall|j: int|
                        0 <= j < out[k].0.len() ==> is_whitespace(#[trigger] out[k].0[j]) == out[k].1
                } by {
                if k < n {
                    assert(out[k] == r[k]);
                } else {
                    assert(r[n] == r.last());
                    assert forall|j: int| 0 <= j < out[k].0.len() implies is_whitespace(
                        #[trigger] out[k].0[j],
                    ) == out[k].1 by {
                        if j < r[n].0.len() {
                            assert(out[k].0[j] == r[n].0[j]);
                        }
                    }
                }
            }
            assert forall|k: int| 0 <= k < out.len() - 1 implies (#[trigger] out[k]).1 != out[k
                + 1].1 by {
                assert(out[k] == r[k]);
                if k + 1 < n {
                    assert(out[k + 1] == r[k + 1]);
                } else {
                    assert(r[n] == r.last());
                }
            }
        } else {
            assert forall|j: int| 0 <= j < seq![c].len() implies is_whitespace(#[trigger] seq![c][j])
                == ws by {}
            lemma_close_run(r, seq![c], ws);
        }
    }
}

/// The pieces of a cut run of characters that are not whitespace are
/// non-empty and hold no whitespace.
proof fn lemma_split_run_plain(run: Seq<char>, ms: Seq<Seq<char>>, c: int)
    requires
        0 <= c <= run.len(),
        forall|i: int| 0 <= i < run.len() ==> !is_whitespace(#[trigger] run[i]),
    ensures
        forall|k: int|
            #![trigger split_run(run, ms, c)[k]]
            0 <= k < split_run(run, ms, c).len() ==> {
                &&& split_run(run, ms, c)[k].len() > 0
                &&& forall|j: int|
                    0 <= j < split_run(run, ms, c)[k].len() ==> !is_whitespace(
                        #[trigger] split_run(run, ms, c)[k][j],
                    )
            },
    decreases ms.len(),
{
    let out = split_run(run, ms, c);
    if ms.len() == 0 {
        if c < run.len() {
            let t = run.subrange(c, run.len() as int);
            assert(out == seq![t]);
            assert forall|j: int| 0 <= j < t.len() implies !is_whitespace(#[trigger] t[j]) by {
                assert(t[j] == run[c + j]);
            }
            assert forall|k: int| #![trigger out[k]] 0 <= k < out.len() implies {
                &&& out[k].len() > 0
                &&& forall|j: int| 0 <= j < out[k].len() ==> !is_whitespace(#[trigger] out[k][j])
            } by {
                assert(out[k] == t);
            }
        } else {
            assert(out.len() == 0);
        }
    } else {
        let m = ms[0];
        let p = if m.len() > 0 {
            find_from(run, m, c)
        } else {
            -1
        };
        if p >= 0 {
            lemma_find_from(run, m, c);
            lemma_split_run_plain(run, ms.drop_first(), p + m.len());
            let rest = split_run(run, ms.drop_first(), p + m.len());
            let gap: Seq<Seq<char>> = if p > c {
                seq![run.subrange(c, p)]
            } else {
                Seq::<Seq<char>>::empty()
            };
            assert(out == gap + seq![m] + rest);
            assert forall|k: int| #![trigger out[k]] 0 <= k < out.len() implies {
                &&& out[k].len() > 0
                &&& forall|j: int| 0 <= j < out[k].len() ==> !is_whitespace(#[trigger] out[k][j])
            } by {
                if k < gap.len() {
                    let t = run.subrange(c, p);
                    assert(out[k] == t);
                    assert forall|j: int| 0 <= j < t.len() implies !is_whitespace(#[trigger] t[j]) by {
                        assert(t[j] == run[c + j]);
                    }
                } else if k == gap.len() {
                    assert(out[k] == m);
                    assert forall|j: int| 0 <= j < m.len() implies !is_whitespace(#[trigger] m[j]) by {
                        assert(run.subrange(p, p + m.len())[j] == run[p + j]);
                    }
                } else {
                    assert(out[k] == rest[k - gap.len() - 1]);
                }
            }
        } else {
            lemma_split_run_plain(run, ms.drop_first(), c);
            assert(out == split_run(run, ms.drop_first(), c));
        }
    }
}

/// The segments of shaped runs are non-empty and each of one kind, no two
/// neighbouring segments are both whitespace, and the last segment has the
/// kind of the last run.
proof fn lemma_segments_of_runs_shape(runs: Seq<(Seq<char>, bool)>)
    requires
        runs_shaped(runs),
    ensures
        ({
            let g = segments_of_runs(runs);
            &&& forall|k: int|
                #![trigger g[k]]
                0 <= k < g.len() ==> {
                    &&& g[k].len() > 0
                    &&& forall|j: int| 0 <= j < g[k].len() ==> is_whitespace(#[trigger] g[k][j])
                        == is_whitespace(g[k][0])
                }
            &&& forall|k: int|
                0 <= k < g.len() - 1 ==> !(is_whitespace((#[trigger] g[k])[0]) && is_whitespace(
                    g[k + 1][0],
                ))
            &&& (runs.len() == 0 <==> g.len() == 0)
            &&& runs.len() > 0 ==> is_whitespace(g.last()[0]) == runs.last().1
        }),
    decreases runs.len(),
{
    let g = segments_of_runs(runs);
    if runs.len() > 0 {
        let front = runs.drop_last();
        assert(runs_shaped(front)) by {
            assert forall|k: int| #![trigger front[k]] 0 <= k < front.len() implies {
                &&& front[k].0.len() > 0
                &&& forall|j: int|
                    0 <= j < front[k].0.len() ==> is_whitespace(#[trigger] front[k].0[j]) == front[k].1
            } by {
                assert(front[k] == runs[k]);
            }
            assert forall|k: int| 0 <= k < front.len() - 1 implies (#[trigger] front[k]).1
                != front[k + 1].1 by {
                assert(front[k] == runs[k]);
                assert(front[k + 1] == runs[k + 1]);
            }
        }
        lemma_segments_of_runs_shape(front);
        let g0 = segments_of_runs(front);
        let r = runs.last();
        assert(r == runs[runs.len() - 1]);
        assert(r.0.len() > 0);
        let last: Seq<Seq<char>> = if r.1 {
            seq![r.0]
        } else if regex_compiles(CHUNK_PATTERN@) {
            split_run(r.0, regex_find_all(CHUNK_PATTERN@, r.0), 0)
        } else {
            seq![r.0]
        };
        assert(g == g0 + last);
        if !r.1 && regex_compiles(CHUNK_PATTERN@) {
            let ms = regex_find_all(CHUNK_PATTERN@, r.0);
            lemma_split_run_plain(r.0, ms, 0);
            lemma_split_run_covers(r.0, ms, 0);
            if last.len() == 0 {
                assert(concat_all(last) =~= Seq::<char>::empty());
                assert(r.0.subrange(0, r.0.len() as int).len() > 0);
            }
        }
        // every segment of the last run has the kind of the run
        assert forall|k: int| 0 <= k < last.len() implies {
            &&& (#[trigger] last[k]).len() > 0
            &&& forall|j: int| 0 <= j < last[k].len() ==> is_whitespace(#[trigger] last[k][j])
                == r.1
        } by {
            if !r.1 && regex_compiles(CHUNK_PATTERN@) {
            } else {
                assert(last[k] == r.0);
            }
        }
        assert(last.len() > 0);
        if front.len() > 0 {
            assert(front.last() == runs[runs.len() - 2]);
            assert(front.last().1 != r.1);
        }
        assert forall|k: int| #![trigger g[k]] 0 <= k < g.len() implies {
            &&& g[k].len() > 0
            &&& forall|j: int| 0 <= j < g[k].len() ==> is_whitespace(#[trigger] g[k][j])
                == is_whitespace(g[k][0])
        } by {
            if k < g0.len() {
                assert(g[k] == g0[k]);
            } else {
                assert(g[k] == last[k - g0.len()]);
            }
        }
        assert forall|k: int| 0 <= k < g.len() - 1 implies !(is_whitespace(
            (#[trigger] g[k])[0],
        ) && is_whitespace(g[k + 1][0])) by {
            if k + 1 < g0.len() {
                assert(g[k] == g0[k]);
                assert(g[k + 1] == g0[k + 1]);
            } else if k + 1 == g0.len() {
                assert(g[k] == g0.last());
                assert(g[k + 1] == last[0]);
                assert(is_whitespace(last[0][0]) == r.1);
            } else {
                assert(g[k] == last[k - g0.len()]);
                assert(g[k + 1] == last[k + 1 - g0.len()]);
                assert(is_whitespace(last[k - g0.len()][0]) == r.1);
                assert(is_whitespace(last[k + 1 - g0.len()][0]) == r.1);
                assert(!r.1) by {
                    if r.1 {
                        assert(last.len() == 1);
                    }
                }
            }
        }
        assert(g.last() == last.last());
        assert(is_whitespace(last[last.len() - 1][0]) == r.1);
    } else {
        assert(g.len() == 0);
    }
}

/// Each segment is non-empty and either all whitespace or free of it, and
/// no two neighbouring segments are both whitespace.
pub open spec fn segments_shaped(g: Seq<Seq<char>>) -> bool {
    &&& forall|k: int|
        #![trigger g[k]]
        0 <= k < g.len() ==> {
            &&& g[k].len() > 0
            &&& forall|j: int| 0 <= j < g[k].len() ==> is_whitespace(#[trigger] g[k][j]) == is_whitespace(g[k][0])
        }
    &&& forall|k: int|
        0 <= k < g.len() - 1 ==> !(is_whitespace((#[trigger] g[k])[0]) && is_whitespace(g[k + 1][0]))
}

/// The segments of a text are its maximal whitespace runs and pieces of
/// its other runs: each segment is non-empty and either all whitespace or
/// free of it, no two neighbouring segments are both whitespace (so a
/// whitespace run is never cut), and together they give the text back.
pub proof fn lemma_segments_shape(s: Seq<char>)
    ensures
        concat_all(segments_spec(s)) == s,
        segments_shaped(segments_spec(s)),
{
    lemma_segments_cover(s);
    lemma_runs_of_shaped(s);
    lemma_segments_of_runs_shape(runs_of(s));
}

/// Cuts the characters of `s` into maximal runs of whitespace and of other
/// characters.
pub fn whitespace_runs(s: &str) -> (r: Vec<(String, bool)>)
    ensures
        runs_ok(s@, r@.map_values(|x: (String, bool)| (x.0@, x.1))),
        r@.map_values(|x: (String, bool)| (x.0@, x.1)) == runs_of(s@),
{
    let chars = str_chars(s);
    let n = chars.len();
    let mut runs: Vec<(String, bool)> = Vec::new();
    let mut cur = String::new();
    let mut cur_ws = false;
    let mut i: usize = 0;
    while i < n
        invariant
            chars@ == s@,
            n == chars@.len(),
            i <= n,
            (i == 0) == (cur@.len() == 0),
            i == 0 ==> runs@.len() == 0,
            i > 0 ==> runs@.map_values(|x: (String, bool)| (x.0@, x.1)).push((cur@, cur_ws))
                == runs_of(s@.subrange(0, i as int)),
            forall|j: int| 0 <= j < cur@.len() ==> is_whitespace(#[trigger] cur@[j]) == cur_ws,
            runs@.len() > 0 ==> runs@.last().1 != cur_ws,
            ({
                let rv = runs@.map_values(|x: (String, bool)| (x.0@, x.1));
                &&& concat_all(rv.map_values(|r: (Seq<char>, bool)| r.0)) + cur@ == s@.subrange(
                    0,
                    i as int,
                )
                &&& runs_shaped(rv)
            }),
        decreases n - i,
    {
        let c = chars[i];
        let ws = char_is_whitespace(c);
        let ghost rv0 = runs@.map_values(|x: (String, bool)| (x.0@, x.1));
        let ghost cur0 = cur@;
        let ghost cw0 = cur_ws;
        proof {
            let pre = s@.subrange(0, i + 1);
            assert(pre.drop_last() =~= s@.subrange(0, i as int));
            assert(pre.last() == c);
        }
        if i > 0 && ws != cur_ws {
            let mut done = String::new();
            core::mem::swap(&mut done, &mut cur);
            runs.push((done, cur_ws));
            proof {
                lemma_close_run(rv0, cur0, cw0);
                let rv = runs@.map_values(|x: (String, bool)| (x.0@, x.1));
                assert(rv =~= rv0.push((cur0, cw0)));
            }
        }
        cur_ws = ws;
        string_push(&mut cur, c);
        proof {
            assert(s@.subrange(0, i + 1) =~= s@.subrange(0, i as int).push(c));
            let rv = runs@.map_values(|x: (String, bool)| (x.0@, x.1));
            if i == 0 {
                assert(cur@ =~= seq![c]);
                assert(s@.subrange(0, 1).drop_last() =~= Seq::<char>::empty());
                assert(runs_of(s@.subrange(0, 1).drop_last()) =~= Seq::<(Seq<char>, bool)>::empty());
                assert(rv =~= Seq::<(Seq<char>, bool)>::empty());
                assert(rv.push((cur@, cur_ws)) =~= runs_of(s@.subrange(0, 1)));
            } else if ws == cw0 {
                assert(rv =~= rv0);
                assert(rv.push((cur@, cur_ws)) =~= rv0.push((cur0, cw0)).update(
                    rv0.len() as int,
                    (cur0.push(c), ws),
                ));
            } else {
                assert(cur@ =~= seq![c]);
                assert(rv =~= rv0.push((cur0, cw0)));
            }
        }
        i = i + 1;
    }
    if i > 0 {
        let ghost rv0 = runs@.map_values(|x: (String, bool)| (x.0@, x.1));
        let ghost cur0 = cur@;
        runs.push((cur, cur_ws));
        proof {
            lemma_close_run(rv0, cur0, cur_ws);
            let rv = runs@.map_values(|x: (String, bool)| (x.0@, x.1));
            assert(rv =~= rv0.push((cur0, cur_ws)));
        }
    }
    proof {
        assert(s@.subrange(0, n as int) =~= s@);
        if n == 0 {
            assert(runs@.map_values(|x: (String, bool)| (x.0@, x.1)) =~= runs_of(s@));
        }
    }
    runs
}

/// The characters `a..b` of `chars` as a string.
fn string_of(chars: &Vec<char>, a: usize, b: usize) -> (r: String)
    requires
        a <= b <= chars@.len(),
    ensures
        r@ == chars@.subrange(a as int, b as int),
{
    let mut r = String::new();
    let mut k = a;
    while k < b
        invariant
            a <= k <= b,
            b <= chars@.len(),
            r@ == chars@.subrange(a as int, k as int),
        decreases b - k,
    {
        string_push(&mut r, chars[k]);
        k = k + 1;
        proof {
            assert(r@ =~= chars@.subrange(a as int, k as int));
        }
    }
    r
}

/// The first place at or after `c` where `m` occurs in `run`.
fn find_in(run: &Vec<char>, m: &Vec<char>, c: usize) -> (r: Option<usize>)
    ensures
        (r is Some) == (find_from(run@, m@, c as int) >= 0),
        r matches Some(p) ==> p == find_from(run@, m@, c as int),
{
    let n = run.len();
    let ml = m.len();
    if ml == 0 {
        return None;
    }
    let mut p = c;
    while p <= n && ml <= n - p
        invariant
            n == run@.len(),
            ml == m@.len(),
            ml > 0,
            c <= p,
            find_from(run@, m@, c as int) == find_from(run@, m@, p as int),
        decreases n - p,
    {
        let mut k: usize = 0;
        let mut same = true;
        while k < ml && same
            invariant
                k <= ml,
                p + ml <= n,
                n == run@.len(),
                ml == m@.len(),
                same ==> forall|q: int| 0 <= q < k ==> run@[p + q] == m@[q],
                !same ==> run@.subrange(p as int, p + ml) != m@,
            decreases ml - k + (if same {
                1int
            } else {
                0int
            }),
        {
            if run[p + k] != m[k] {
                same = false;
                proof {
                    assert(run@.subrange(p as int, p + ml)[k as int] == run@[p + k]);
                }
            } else {
                k = k + 1;
            }
        }
        if same {
            proof {
                assert(run@.subrange(p as int, p + ml) =~= m@);
            }
            return Some(p);
        }
        p = p + 1;
    }
    None
}

/// `run` cut at the matches `ms`; see `split_run`.
fn split_run_exec(run: &str, ms: &Vec<String>) -> (r: Vec<String>)
    ensures
        r.deep_view() == split_run(run@, ms.deep_view(), 0),
{
    let chars = str_chars(run);
    let ghost msv = ms.deep_view();
    let n = chars.len();
    let mut out: Vec<String> = Vec::new();
    let mut c: usize = 0;
    let mcount = ms.len();
    let mut i: usize = 0;
    proof {
        assert(msv.subrange(0, msv.len() as int) =~= msv);
    }
    while i < mcount
        invariant
            chars@ == run@,
            n == chars@.len(),
            msv == ms.deep_view(),
            mcount == msv.len(),
            i <= mcount,
            c <= n,
            out.deep_view() + split_run(run@, msv.subrange(i as int, mcount as int), c as int)
                == split_run(run@, msv, 0),
        decreases mcount - i,
    {
        let ghost rest = msv.subrange(i as int, mcount as int);
        let ghost before = out.deep_view();
        proof {
            assert(rest[0] == ms@[i as int]@);
            assert(rest.drop_first() =~= msv.subrange(i + 1, mcount as int));
        }
        let mc = str_chars(ms[i].as_str());
        let found = find_in(&chars, &mc, c);
        match found {
            Some(p) => {
                proof {
                    lemma_find_from(run@, mc@, c as int);
                }
                if p > c {
                    out.push(string_of(&chars, c, p));
                }
                out.push(ms[i].clone());
                proof {
                    let gap: Seq<Seq<char>> = if p > c {
                        seq![run@.subrange(c as int, p as int)]
                    } else {
                        Seq::<Seq<char>>::empty()
                    };
                    assert(out.deep_view() =~= before + gap + seq![mc@]);
                }
                c = p + mc.len();
            },
            None => {},
        }
        i = i + 1;
    }
    if c < n {
        let ghost before = out.deep_view();
        out.push(string_of(&chars, c, n));
        proof {
            assert(out.deep_view() =~= before + seq![run@.subrange(c as int, n as int)]);
        }
    }
    proof {
        assert(msv.subrange(mcount as int, mcount as int) =~= Seq::<Seq<char>>::empty());
        if c >= n {
            assert(out.deep_view() + Seq::<Seq<char>>::empty() =~= out.deep_view());
        }
    }
    out
}

/// Cuts a normalized text into the segments that encoding matches one by
/// one: each whitespace run whole, and in each run of other characters the
/// matches of `CHUNK_PATTERN` with the text between them, so that nothing
/// is left out (`lemma_segments_cover`).
pub fn segments(s: &str) -> (r: Vec<String>)
    ensures
        r.deep_view() == segments_spec(s@),
{
    let runs = whitespace_runs(s);
    let pattern = Pattern::compile(CHUNK_PATTERN);
    let ghost rv = runs@.map_values(|x: (String, bool)| (x.0@, x.1));
    let mut out: Vec<String> = Vec::new();
    let n = runs.len();
    let mut i: usize = 0;
    while i < n
        invariant
            n == runs@.len(),
            i <= n,
            rv == runs@.map_values(|x: (String, bool)| (x.0@, x.1)),
            rv == runs_of(s@),
            pattern is Some <==> regex_compiles(CHUNK_PATTERN@),
            pattern matches Some(p) ==> p.source() == CHUNK_PATTERN@,
            out.deep_view() == segments_of_runs(rv.subrange(0, i as int)),
        decreases n - i,
    {
        let ghost before = out.deep_view();
        let is_ws = runs[i].1;
        let ghost r0 = runs@[i as int].0@;
        let part: Vec<String> = if is_ws {
            let mut v = Vec::new();
            v.push(runs[i].0.clone());
            v
        } else {
            match &pattern {
                Some(p) => {
                    let found = p.find_all(runs[i].0.as_str());
                    split_run_exec(runs[i].0.as_str(), &found)
                },
                None => {
                    let mut v = Vec::new();
                    v.push(runs[i].0.clone());
                    v
                },
            }
        };
        let m = part.len();
        let mut j: usize = 0;
        while j < m
            invariant
                m == part@.len(),
                j <= m,
                out.deep_view() == before + part.deep_view().subrange(0, j as int),
            decreases m - j,
        {
            let ghost bj = out.deep_view();
            out.push(part[j].clone());
            proof {
                assert(out.deep_view() =~= bj.push(part@[j as int]@));
                assert(part.deep_view().subrange(0, j + 1) =~= part.deep_view().subrange(
                    0,
                    j as int,
                ).push(part@[j as int]@));
            }
            j = j + 1;
        }
        proof {
            assert(part.deep_view().subrange(0, m as int) =~= part.deep_view());
            let sub = rv.subrange(0, i + 1);
            assert(sub.drop_last() =~= rv.subrange(0, i as int));
            assert(sub.last() == rv[i as int]);
            assert(rv[i as int] == (r0, is_ws));
            if is_ws || pattern is None {
                assert(part.deep_view() =~= seq![r0]);
            }
        }
        i = i + 1;
    }
    proof {
        assert(rv.subrange(0, n as int) =~= rv);
    }
    out
}

/// Cuts a normalized text into the pieces that training counts pairs in:
/// each whitespace run whole, and the matches of `CHUNK_PATTERN` in each
/// run of other characters.
pub fn chunks(s: &str) -> (r: Vec<String>)
    ensures
        r.deep_view() == chunks_spec(s@),
        runs_ok(s@, runs_of(s@)),
        forall|k: int| 0 <= k < r@.len() ==> one_kind(#[trigger] r@[k]@),
{
    let runs = whitespace_runs(s);
    let pattern = Pattern::compile(CHUNK_PATTERN);
    let ghost rv = runs@.map_values(|x: (String, bool)| (x.0@, x.1));
    let mut out: Vec<String> = Vec::new();
    let n = runs.len();
    let mut i: usize = 0;
    while i < n
        invariant
            n == runs@.len(),
            i <= n,
            rv == runs@.map_values(|x: (String, bool)| (x.0@, x.1)),
            pattern is Some <==> regex_compiles(CHUNK_PATTERN@),
            pattern matches Some(p) ==> p.source() == CHUNK_PATTERN@,
            out.deep_view() == chunks_of_runs(rv.subrange(0, i as int)),
            runs_ok(s@, rv),
            forall|k: int| 0 <= k < out@.len() ==> one_kind(#[trigger] out@[k]@),
        decreases n - i,
    {
        let ghost before = out.deep_view();
        let is_ws = runs[i].1;
        proof {
            assert(rv[i as int] == (runs@[i as int].0@, is_ws));
        }
        if is_ws {
            out.push(runs[i].0.clone());
            proof {
                assert(out@[out@.len() - 1]@ == rv[i as int].0);
                assert forall|k: int| 0 <= k < out@.len() implies one_kind(#[trigger] out@[k]@) by {
                    if k == out@.len() - 1 {
                        assert(forall|q: int|
                            0 <= q < rv[i as int].0.len() ==> is_whitespace(
                                #[trigger] rv[i as int].0[q],
                            ));
                    }
                }
            }
        } else {
            match &pattern {
                Some(p) => {
                    let found = p.find_all(runs[i].0.as_str());
                    proof {
                        assert forall|q: int| 0 <= q < runs@[i as int].0@.len() implies !is_whitespace(
                            #[trigger] runs@[i as int].0@[q],
                        ) by {
                            assert(rv[i as int].0[q] == runs@[i as int].0@[q]);
                        }
                    }
                    let m = found.len();
                    let mut j: usize = 0;
                    while j < m
                        invariant
                            m == found@.len(),
                            j <= m,
                            out.deep_view() == before + found.deep_view().subrange(0, j as int),
                            forall|k: int| 0 <= k < out@.len() ==> one_kind(#[trigger] out@[k]@),
                            forall|k: int|
                                0 <= k < found@.len() ==> is_piece_of(
                                    #[trigger] found@[k]@,
                                    runs@[i as int].0@,
                                ),
                            forall|q: int|
                                0 <= q < runs@[i as int].0@.len() ==> !is_whitespace(
                                    #[trigger] runs@[i as int].0@[q],
                                ),
                        decreases m - j,
                    {
                        let ghost bj = out.deep_view();
                        let ghost bj_v = out@;
                        out.push(found[j].clone());
                        proof {
                            let run = runs@[i as int].0@;
                            let t = found@[j as int]@;
                            assert(is_piece_of(t, run));
                            let (x, y) = choose|x: int, y: int|
                                0 <= x <= y <= run.len() && t == run.subrange(x, y);
                            assert forall|q: int| 0 <= q < t.len() implies !is_whitespace(
                                #[trigger] t[q],
                            ) by {
                                assert(t[q] == run[x + q]);
                            }
                            assert(out@[out@.len() - 1]@ == t);
                            assert forall|k: int| 0 <= k < out@.len() implies one_kind(
                                #[trigger] out@[k]@,
                            ) by {
                                if k < out@.len() - 1 {
                                    assert(out@[k] == bj_v[k]);
                                }
                            }
                            assert(out.deep_view() =~= bj.push(found@[j as int]@));
                            assert(found.deep_view().subrange(0, j + 1) =~= found.deep_view().subrange(
                                0,
                                j as int,
                            ).push(found@[j as int]@));
                            assert(out.deep_view() =~= before + found.deep_view().subrange(
                                0,
                                j + 1,
                            ));
                        }
                        j = j + 1;
                    }
                    proof {
                        assert(found.deep_view().subrange(0, m as int) =~= found.deep_view());
                    }
                },
                None => {},
            }
        }
        proof {
            let sub = rv.subrange(0, i + 1);
            assert(sub.drop_last() =~= rv.subrange(0, i as int));
            assert(sub.last() == rv[i as int]);
            if is_ws {
                assert(out.deep_view() =~= before + seq![runs@[i as int].0@]);
            } else if pattern is None {
                assert(out.deep_view() =~= before + Seq::<Seq<char>>::empty());
            }
        }
        i = i + 1;
    }
    proof {
        assert(rv.subrange(0, n as int) =~= rv);
    }
    out
}


proof fn lemma_denormalize_plain_from(s: Seq<char>, i: int, prev_type: GroupType)
    requires
        0 <= i <= s.len(),
        !s.contains(WORD_START),
    ensures
        denormalize_from(s, i, prev_type, false) == s.subrange(i, s.len() as int),
    decreases s.len() - i,
{
    if i < s.len() {
        assert(s[i] != WORD_START);
        lemma_denormalize_plain_from(s, i + 1, denorm_next_type(s[i], prev_type));
        assert(s.subrange(i, s.len() as int) =~= seq![s[i]] + s.subrange(i + 1, s.len() as int));
    } else {
        assert(s.subrange(i, s.len() as int) =~= Seq::<char>::empty());
    }
}

/// Text without markers comes out of `denormalize` unchanged.
pub proof fn lemma_denormalize_plain(s: Seq<char>)
    requires
        !s.contains(WORD_START),
    ensures
        denormalize_spec(s) == s,
{
    lemma_denormalize_plain_from(s, 0, GroupType::Other);
    assert(s.subrange(0, s.len() as int) =~= s);
}


/// `denormalize` over a sequence, one character at a time from the front.
pub open spec fn denorm_seq(t: Seq<char>, prev_type: GroupType, marked: bool) -> Seq<char>
    decreases t.len(),
{
    if t.len() == 0 {
        Seq::empty()
    } else {
        let c = t[0];
        if c == WORD_START {
            denorm_seq(t.drop_first(), prev_type, true)
        } else {
            let space: Seq<char> = if marked && continues_group(c, prev_type) {
                seq![' ']
            } else {
                Seq::empty()
            };
            space + seq![c] + denorm_seq(t.drop_first(), denorm_next_type(c, prev_type), false)
        }
    }
}

proof fn lemma_denorm_seq(s: Seq<char>, i: int, prev_type: GroupType, marked: bool)
    requires
        0 <= i <= s.len(),
    ensures
        denormalize_from(s, i, prev_type, marked) == denorm_seq(
            s.subrange(i, s.len() as int),
            prev_type,
            marked,
        ),
    decreases s.len() - i,
{
    let t = s.subrange(i, s.len() as int);
    if i < s.len() {
        assert(t[0] == s[i]);
        assert(t.drop_first() =~= s.subrange(i + 1, s.len() as int));
        lemma_denorm_seq(s, i + 1, prev_type, true);
        lemma_denorm_seq(s, i + 1, denorm_next_type(s[i], prev_type), false);
    } else {
        assert(t =~= Seq::<char>::empty());
    }
}

/// What the std classification is documented to give for the three
/// characters the markers depend on: neither space nor hyphen is a letter
/// or a digit.
pub open spec fn separators_classified() -> bool {
    &&& !is_alphabetic(' ')
    &&& !is_numeric(' ')
    &&& !is_alphabetic('-')
    &&& !is_numeric('-')
}

/// The group kind that `normalize` holds when it reaches character `i`.
pub open spec fn norm_type_before(s: Seq<char>, i: int) -> GroupType
    decreases i,
{
    if i <= 0 {
        GroupType::Other
    } else {
        norm_next_type(s, i - 1, norm_type_before(s, i - 1))
    }
}

/// `s` comes back whole from `denormalize(normalize(s))`: it holds no
/// marker, does not end in a space, and no character that is both a letter
/// and a digit (such as a Roman numeral) follows a letter, or follows a
/// space that follows digits.
pub open spec fn restorable(s: Seq<char>) -> bool {
    &&& !s.contains(WORD_START)
    &&& (s.len() > 0 ==> s.last() != ' ')
    &&& forall|i: int|
        0 < i < s.len() && is_alphabetic(s[i]) && #[trigger] is_numeric(s[i]) ==> !is_alphabetic(
            s[i - 1],
        ) && !(s[i - 1] == ' ' && norm_type_before(s, i) == GroupType::Digits)
}

/// The states of `normalize` at character `i` and of `denormalize` at the
/// matching place of the normal form agree.
pub open spec fn states_agree(
    s: Seq<char>,
    i: int,
    pt: GroupType,
    pc: Option<char>,
    dpt: GroupType,
    marked: bool,
) -> bool {
    &&& pt == norm_type_before(s, i)
    &&& pc == (if i == 0 {
        None
    } else {
        Some(s[i - 1])
    })
    &&& marked == (i > 0 && s[i - 1] == ' ' && i < s.len() && ((is_alphabetic(s[i]) && pt
        == GroupType::Letters) || (is_numeric(s[i]) && pt == GroupType::Digits)))
    &&& dpt == (if i > 0 && s[i - 1] == '-' {
        GroupType::Other
    } else {
        pt
    })
}

/// One step of `denorm_seq` on a sequence written as its first character
/// and the rest.
proof fn lemma_denorm_cons(x: char, t: Seq<char>, prev_type: GroupType, marked: bool)
    ensures
        denorm_seq(seq![x] + t, prev_type, marked) == (if x == WORD_START {
            denorm_seq(t, prev_type, true)
        } else {
            (if marked && continues_group(x, prev_type) {
                seq![' ']
            } else {
                Seq::<char>::empty()
            }) + seq![x] + denorm_seq(t, denorm_next_type(x, prev_type), false)
        }),
{
    let u = seq![x] + t;
    assert(u[0] == x);
    assert(u.drop_first() =~= t);
}

#[verifier::rlimit(40)]
proof fn lemma_restore_from(
    s: Seq<char>,
    i: int,
    pt: GroupType,
    pc: Option<char>,
    dpt: GroupType,
    marked: bool,
)
    requires
        separators_classified(),
        restorable(s),
        0 <= i <= s.len(),
        states_agree(s, i, pt, pc, dpt, marked),
    ensures
        denorm_seq(normalize_from(s, i, pt, pc), dpt, marked) == (if marked {
            seq![' ']
        } else {
            Seq::<char>::empty()
        }) + s.subrange(i, s.len() as int),
    decreases s.len() - i,
{
    let lead: Seq<char> = if marked {
        seq![' ']
    } else {
        Seq::<char>::empty()
    };
    if i == s.len() {
        assert(s.subrange(i, s.len() as int) =~= Seq::<char>::empty());
        assert(normalize_from(s, i, pt, pc) =~= Seq::<char>::empty());
        assert(!marked);
        assert(lead + s.subrange(i, s.len() as int) =~= Seq::<char>::empty());
    } else {
        let c = s[i];
        assert(c != WORD_START) by {
            if c == WORD_START {
                assert(s.contains(WORD_START));
            }
        }
        let emit = norm_emit(s, i, pt, pc);
        let npt = norm_next_type(s, i, pt);
        let rest = normalize_from(s, i + 1, npt, Some(c));
        let tail = s.subrange(i + 1, s.len() as int);
        assert(normalize_from(s, i, pt, pc) == emit + rest);
        assert(s.subrange(i, s.len() as int) =~= seq![c] + tail);
        if c == ' ' {
            assert(i + 1 < s.len()) by {
                if i + 1 == s.len() {
                    assert(s.last() == c);
                }
            }
            let n = s[i + 1];
            let converted = (is_alphabetic(n) && pt == GroupType::Letters) || (is_numeric(n) && pt
                == GroupType::Digits);
            assert(!letter_at(s, i, pt));
            assert(dpt == pt);
            assert(!marked);
            if converted {
                assert(emit =~= seq![WORD_START]);
                lemma_denorm_cons(WORD_START, rest, dpt, false);
                lemma_restore_from(s, i + 1, npt, Some(c), dpt, true);
                assert(denorm_seq(rest, dpt, true) == seq![' '] + tail);
            } else {
                assert(emit =~= seq![' ']);
                lemma_denorm_cons(' ', rest, dpt, false);
                assert(denorm_next_type(' ', dpt) == dpt);
                lemma_restore_from(s, i + 1, npt, Some(c), dpt, false);
                assert(denorm_seq(rest, dpt, false) == Seq::<char>::empty() + tail);
                assert(Seq::<char>::empty() + tail =~= tail);
                assert(Seq::<char>::empty() + seq![' '] + tail =~= seq![' '] + tail);
            }
            assert(lead =~= Seq::<char>::empty());
            assert(lead + (seq![c] + tail) =~= seq![c] + tail);
        } else {
            let letter = letter_at(s, i, pt);
            let digit = is_numeric(c);
            let mk = ((letter && pt != GroupType::Letters) || (digit && pt != GroupType::Digits))
                && pc != Some(WORD_START);
            let ndpt = denorm_next_type(c, dpt);
            assert(npt == norm_type_before(s, i + 1));
            if i + 1 < s.len() && c == '-' && letter {
                assert(is_alphabetic(s[i + 1]));
            }
            if i > 0 {
                assert(pt == norm_next_type(s, i - 1, norm_type_before(s, i - 1)));
            }
            if is_alphabetic(c) && is_numeric(c) {
                assert(mk);
                if marked {
                    assert(dpt == pt);
                    assert(pt == GroupType::Letters);
                    assert(continues_group(c, dpt));
                } else if i > 0 && dpt == GroupType::Letters {
                    assert(s[i - 1] != '-');
                    assert(s[i - 1] != ' ');
                    assert(s[i - 1] != WORD_START) by {
                        assert(s.contains(s[i - 1]));
                    }
                    assert(is_alphabetic(s[i - 1]));
                    assert(false);
                }
                assert(continues_group(c, dpt) == marked);
            } else {
                if marked {
                    assert(!mk);
                    assert(dpt == pt);
                    assert(continues_group(c, dpt));
                }
                if mk {
                    assert(!continues_group(c, dpt));
                    assert(!marked);
                }
            }
            lemma_restore_from(s, i + 1, npt, Some(c), ndpt, false);
            let d = denorm_seq(rest, ndpt, false);
            assert(d == Seq::<char>::empty() + tail);
            assert(Seq::<char>::empty() + tail =~= tail);
            let space: Seq<char> = if marked && continues_group(c, dpt) {
                seq![' ']
            } else {
                Seq::<char>::empty()
            };
            lemma_denorm_cons(c, rest, dpt, marked);
            if mk {
                assert(emit =~= seq![WORD_START, c]);
                assert(emit + rest =~= seq![WORD_START] + (seq![c] + rest));
                lemma_denorm_cons(WORD_START, seq![c] + rest, dpt, marked);
                lemma_denorm_cons(c, rest, dpt, true);
                assert(space == lead);
                assert(denorm_seq(emit + rest, dpt, marked) == lead + seq![c] + tail);
            } else {
                assert(space == lead);
                assert(emit =~= seq![c]);
                assert(denorm_seq(emit + rest, dpt, marked) == lead + seq![c] + tail);
            }
            assert(lead + seq![c] + tail =~= lead + (seq![c] + tail));
        }
    }
}

/// Denormalizing the normal form of `s` gives `s` back, for every `s` that
/// is `restorable`: the others hold a marker, end in a space, or put a
/// letter-digit right after a letter (`"aⅫ"`) or after a space that
/// follows digits (`"1 Ⅻ"`), and none of those comes back.
pub proof fn lemma_denormalize_normalize(s: Seq<char>)
    requires
        separators_classified(),
        restorable(s),
    ensures
        denormalize_spec(normalize_spec(s)) == s,
{
    let n = normalize_spec(s);
    lemma_denorm_seq(n, 0, GroupType::Other, false);
    assert(n.subrange(0, n.len() as int) =~= n);
    lemma_restore_from(s, 0, GroupType::Other, None, GroupType::Other, false);
    assert(s.subrange(0, s.len() as int) =~= s);
    assert(Seq::<char>::empty() + s =~= s);
}


/// The marker itself is neither a letter nor a digit, as std's
/// classification gives it.
pub open spec fn marker_classified() -> bool {
    !is_alphabetic(WORD_START) && !is_numeric(WORD_START)
}

/// `normalize` over a sequence, one character at a time from the front,
/// looking one character ahead.
pub open spec fn norm_seq(u: Seq<char>, prev_type: GroupType, prev_char: Option<char>) -> Seq<char>
    decreases u.len(),
{
    if u.len() == 0 {
        Seq::empty()
    } else {
        norm_emit(u, 0, prev_type, prev_char) + norm_seq(
            u.drop_first(),
            norm_next_type(u, 0, prev_type),
            Some(u[0]),
        )
    }
}

proof fn lemma_norm_seq(s: Seq<char>, i: int, prev_type: GroupType, prev_char: Option<char>)
    requires
        0 <= i <= s.len(),
    ensures
        normalize_from(s, i, prev_type, prev_char) == norm_seq(
            s.subrange(i, s.len() as int),
            prev_type,
            prev_char,
        ),
    decreases s.len() - i,
{
    let t = s.subrange(i, s.len() as int);
    if i < s.len() {
        assert(t[0] == s[i]);
        if i + 1 < s.len() {
            assert(t[1] == s[i + 1]);
        }
        assert(letter_at(t, 0, prev_type) == letter_at(s, i, prev_type));
        assert(norm_emit(t, 0, prev_type, prev_char) == norm_emit(s, i, prev_type, prev_char));
        assert(norm_next_type(t, 0, prev_type) == norm_next_type(s, i, prev_type));
        assert(t.drop_first() =~= s.subrange(i + 1, s.len() as int));
        lemma_norm_seq(s, i + 1, norm_next_type(s, i, prev_type), Some(s[i]));
    } else {
        assert(t =~= Seq::<char>::empty());
    }
}

/// One step of `norm_seq` on a sequence written as its first character and
/// the rest.
proof fn lemma_norm_cons(x: char, t: Seq<char>, prev_type: GroupType, prev_char: Option<char>)
    ensures
        norm_seq(seq![x] + t, prev_type, prev_char) == norm_emit(seq![x] + t, 0, prev_type, prev_char)
            + norm_seq(t, norm_next_type(seq![x] + t, 0, prev_type), Some(x)),
{
    let u = seq![x] + t;
    assert(u[0] == x);
    assert(u.drop_first() =~= t);
}

/// The normal form of `s` from `i` on starts with the marker or with `s[i]`.
proof fn lemma_norm_head(s: Seq<char>, i: int, prev_type: GroupType, prev_char: Option<char>)
    requires
        0 <= i < s.len(),
        normalize_from(s, i, prev_type, prev_char).len() > 0,
    ensures
        normalize_from(s, i, prev_type, prev_char)[0] == WORD_START || normalize_from(
            s,
            i,
            prev_type,
            prev_char,
        )[0] == s[i],
{
    let e = norm_emit(s, i, prev_type, prev_char);
    let r = normalize_from(s, i + 1, norm_next_type(s, i, prev_type), Some(s[i]));
    assert(normalize_from(s, i, prev_type, prev_char) == e + r);
    if e.len() == 0 {
        assert(i + 1 == s.len());
        assert(r =~= Seq::<char>::empty());
    } else {
        assert((e + r)[0] == e[0]);
    }
}

/// A normal form that `normalize` leaves as it is: empty, or ending in
/// neither a space nor the marker.
pub open spec fn ends_in_text(u: Seq<char>) -> bool {
    u.len() > 0 ==> u.last() != ' ' && u.last() != WORD_START
}

/// The group kind that a second pass of `normalize` holds at character `i`
/// of the first pass's input: the same, except just after a hyphen joined to
/// letters that precedes a character that is both a letter and a digit,
/// where the second pass sees the marker after the hyphen and so no longer
/// counts letters.
pub open spec fn second_pass_type(s: Seq<char>, i: int, pt: GroupType, pc: Option<char>, pt2: GroupType) -> bool {
    pt2 == pt || (pt == GroupType::Letters && pt2 == GroupType::Other && i < s.len()
        && is_alphabetic(s[i]) && is_numeric(s[i]) && pc == Some('-'))
}

#[verifier::rlimit(80)]
proof fn lemma_normal_stable(
    s: Seq<char>,
    i: int,
    pt: GroupType,
    pc: Option<char>,
    pt2: GroupType,
    pc2: Option<char>,
)
    requires
        separators_classified(),
        marker_classified(),
        0 <= i <= s.len(),
        second_pass_type(s, i, pt, pc, pt2),
        pc == Some(WORD_START) ==> pc2 == Some(WORD_START),
        ends_in_text(normalize_from(s, i, pt, pc)),
    ensures
        norm_seq(normalize_from(s, i, pt, pc), pt2, pc2) == normalize_from(s, i, pt, pc),
    decreases s.len() - i,
{
    let u = normalize_from(s, i, pt, pc);
    if i == s.len() {
        assert(u =~= Seq::<char>::empty());
    } else {
        let c = s[i];
        let emit = norm_emit(s, i, pt, pc);
        let npt = norm_next_type(s, i, pt);
        let rest = normalize_from(s, i + 1, npt, Some(c));
        assert(u == emit + rest);
        if c == ' ' || c == WORD_START {
            assert(pt2 == pt);
            assert(!letter_at(s, i, pt));
            if i + 1 == s.len() {
                assert(emit =~= Seq::<char>::empty());
                assert(rest =~= Seq::<char>::empty());
                assert(u =~= Seq::<char>::empty());
            } else {
                let n = s[i + 1];
                let converted = (is_alphabetic(n) && pt == GroupType::Letters) || (is_numeric(n)
                    && pt == GroupType::Digits);
                let b = if converted {
                    WORD_START
                } else {
                    c
                };
                assert(emit =~= seq![b]);
                assert(npt == pt);
                assert(rest.len() > 0) by {
                    if rest.len() == 0 {
                        assert(u =~= seq![b]);
                        assert(u.last() == b);
                    }
                }
                assert(rest.last() == u.last()) by {
                    assert(u =~= seq![b] + rest);
                }
                lemma_norm_head(s, i + 1, npt, Some(c));
                lemma_norm_cons(b, rest, pt, pc2);
                let w = seq![b] + rest;
                assert(w =~= u);
                assert(w[0] == b);
                assert(w[1] == rest[0]);
                assert(!letter_at(w, 0, pt));
                assert(norm_next_type(w, 0, pt) == pt);
                assert(norm_emit(w, 0, pt, pc2) =~= seq![b]);
                lemma_normal_stable(s, i + 1, npt, Some(c), pt, Some(b));
                assert(norm_seq(rest, pt, Some(b)) == rest);
            }
        } else {
            let letter = letter_at(s, i, pt);
            let digit = is_numeric(c);
            let start = (letter && pt != GroupType::Letters) || (digit && pt != GroupType::Digits);
            let mk = start && pc != Some(WORD_START);
            let v = seq![c] + rest;
            assert(v[0] == c);
            if rest.len() > 0 {
                assert(v[1] == rest[0]);
                assert(rest.last() == u.last());
            }
            if pt2 != pt {
                // the first pass put a marker before this letter-digit
                assert(mk);
            }
            if c == '-' && letter {
                assert(i + 1 < s.len() && is_alphabetic(s[i + 1]) && pt == GroupType::Letters);
                assert(npt == GroupType::Letters);
                let e2 = norm_emit(s, i + 1, npt, Some(c));
                let r2 = normalize_from(s, i + 2, norm_next_type(s, i + 1, npt), Some(s[i + 1]));
                assert(rest == e2 + r2);
                if is_numeric(s[i + 1]) {
                    assert(e2 =~= seq![WORD_START, s[i + 1]]);
                    assert(rest[0] == WORD_START);
                    assert(!letter_at(v, 0, pt2));
                } else {
                    assert(e2 =~= seq![s[i + 1]]);
                    assert(rest[0] == s[i + 1]);
                    assert(letter_at(v, 0, pt2));
                }
            } else {
                if c == '-' && i + 1 < s.len() && rest.len() > 0 {
                    lemma_norm_head(s, i + 1, npt, Some(c));
                }
                assert(letter_at(v, 0, pt2) == letter_at(s, i, pt2));
            }
            let npt2 = norm_next_type(v, 0, pt2);
            assert(second_pass_type(s, i + 1, npt, Some(c), npt2));
            lemma_normal_stable(s, i + 1, npt, Some(c), npt2, Some(c));
            let pcc = if mk {
                Some(WORD_START)
            } else {
                pc2
            };
            lemma_norm_cons(c, rest, pt2, pcc);
            assert(norm_emit(v, 0, pt2, pcc) =~= seq![c]);
            if mk {
                assert(emit =~= seq![WORD_START, c]);
                assert(u =~= seq![WORD_START] + v);
                lemma_norm_cons(WORD_START, v, pt2, pc2);
                assert((seq![WORD_START] + v)[0] == WORD_START);
                assert(!letter_at(seq![WORD_START] + v, 0, pt2));
                assert(norm_next_type(seq![WORD_START] + v, 0, pt2) == pt2);
                assert(norm_emit(seq![WORD_START] + v, 0, pt2, pc2) =~= seq![WORD_START]);
            } else {
                assert(emit =~= seq![c]);
                assert(u =~= v);
            }
        }
    }
}

/// Normalizing a normal form again changes nothing, unless the normal form
/// ends in a space or the marker (which the second pass drops, as for
/// `"a  "`, whose normal form is `"▁a "`).
pub proof fn lemma_normalize_idempotent(s: Seq<char>)
    requires
        separators_classified(),
        marker_classified(),
        ends_in_text(normalize_spec(s)),
    ensures
        normalize_spec(normalize_spec(s)) == normalize_spec(s),
{
    let t = normalize_spec(s);
    lemma_norm_seq(t, 0, GroupType::Other, None);
    assert(t.subrange(0, t.len() as int) =~= t);
    lemma_normal_stable(s, 0, GroupType::Other, None, GroupType::Other, None);
}

/// Whether std classifies a space, a hyphen and the marker as neither
/// letters nor digits, as the normal form relies on.
pub fn classifications_hold() -> (r: bool)
    ensures
        r == (separators_classified() && marker_classified()),
{
    !char_is_alphabetic(' ') && !char_is_numeric(' ') && !char_is_alphabetic('-')
        && !char_is_numeric('-') && !char_is_alphabetic(WORD_START) && !char_is_numeric(WORD_START)
}

/// Whether `s` is `restorable`.
pub fn is_restorable(s: &str) -> (r: bool)
    ensures
        r == restorable(s@),
{
    let chars = str_chars(s);
    let n = chars.len();
    if n > 0 && chars[n - 1] == ' ' {
        return false;
    }
    let mut pt = GroupType::Other;
    let mut i: usize = 0;
    while i < n
        invariant
            chars@ == s@,
            n == chars@.len(),
            i <= n,
            n > 0 ==> s@.last() != ' ',
            pt == norm_type_before(s@, i as int),
            forall|q: int| 0 <= q < i ==> s@[q] != WORD_START,
            forall|q: int|
                0 < q < i && is_alphabetic(s@[q]) && #[trigger] is_numeric(s@[q]) ==> !is_alphabetic(
                    s@[q - 1],
                ) && !(s@[q - 1] == ' ' && norm_type_before(s@, q) == GroupType::Digits),
        decreases n - i,
    {
        let c = chars[i];
        if c == WORD_START {
            proof {
                assert(s@[i as int] == WORD_START);
                assert(s@.contains(WORD_START));
            }
            return false;
        }
        let alpha = char_is_alphabetic(c);
        let num = char_is_numeric(c);
        if i > 0 && alpha && num {
            let prev = chars[i - 1];
            if char_is_alphabetic(prev) || (prev == ' ' && pt == GroupType::Digits) {
                return false;
            }
        }
        let letter = alpha || (c == '-' && i + 1 < n && char_is_alphabetic(chars[i + 1]) && pt
            == GroupType::Letters);
        let ghost pt0 = pt;
        if c == ' ' {
        } else if letter {
            pt = GroupType::Letters;
        } else if num {
            pt = GroupType::Digits;
        } else {
            pt = GroupType::Other;
        }
        proof {
            assert(letter == letter_at(s@, i as int, pt0));
            assert(pt == norm_next_type(s@, i as int, pt0));
            assert(norm_type_before(s@, i + 1) == norm_next_type(
                s@,
                i as int,
                norm_type_before(s@, i as int),
            ));
        }
        i = i + 1;
    }
    proof {
        assert(!s@.contains(WORD_START));
    }
    true
}

} // verus!
