//! The codepoints of a training text that the vocabulary takes in: every
//! distinct character that UTF-8 encodes in more than one byte, longest
//! encoding first, then in codepoint order (which is the order of their
//! encodings as strings).

use vstd::prelude::*;

verus! {

/// The length of the UTF-8 encoding of `c`.
pub open spec fn utf8_len(c: char) -> int {
    let v = c as u32;
    if v < 0x80 {
        1
    } else if v < 0x800 {
        2
    } else if v < 0x10000 {
        3
    } else {
        4
    }
}

/// `a` comes before `b`: a longer encoding first, then the smaller
/// codepoint.
pub open spec fn comes_before(a: char, b: char) -> bool {
    utf8_len(a) > utf8_len(b) || (utf8_len(a) == utf8_len(b) && (a as u32) < (b as u32))
}

/// `v` is strictly ordered by `comes_before`.
pub open spec fn strictly_ordered(v: Seq<char>) -> bool {
    forall|i: int, j: int| 0 <= i < j < v.len() ==> comes_before(#[trigger] v[i], #[trigger] v[j])
}

/// `c` is a character of `s` whose encoding takes more than one byte.
pub open spec fn multibyte_in(s: Seq<char>, c: char) -> bool {
    s.contains(c) && utf8_len(c) > 1
}

proof fn lemma_char_eq(a: char, b: char)
    requires
        a as u32 == b as u32,
    ensures
        a == b,
{
    assert((a as u32) as char == a);
    assert((b as u32) as char == b);
}

/// Two distinct characters are ordered one way or the other.
proof fn lemma_total(a: char, b: char)
    requires
        a != b,
    ensures
        comes_before(a, b) || comes_before(b, a),
{
    if a as u32 == b as u32 {
        lemma_char_eq(a, b);
    }
}

/// `e` holds each multi-byte character of `s` once, in order.
pub open spec fn extension_ok(e: Seq<char>, s: Seq<char>) -> bool {
    strictly_ordered(e) && forall|c: char| e.contains(c) <==> multibyte_in(s, c)
}

/// The multi-byte characters of `s`, each once, in order.
pub open spec fn extension_of(s: Seq<char>) -> Seq<char> {
    choose|e: Seq<char>| extension_ok(e, s)
}

/// Two strictly ordered sequences of the same characters are equal.
pub proof fn lemma_ordered_unique(a: Seq<char>, b: Seq<char>)
    requires
        strictly_ordered(a),
        strictly_ordered(b),
        forall|c: char| a.contains(c) <==> b.contains(c),
    ensures
        a == b,
    decreases a.len(),
{
    if a.len() == 0 {
        if b.len() > 0 {
            assert(b.contains(b[0]));
        }
        assert(a =~= b);
    } else {
        assert(a.contains(a[0]));
        let k = choose|k: int| 0 <= k < b.len() && b[k] == a[0];
        assert(b.contains(b[0]));
        let l = choose|l: int| 0 <= l < a.len() && a[l] == b[0];
        if k != 0 {
            assert(comes_before(b[0], b[k]));
            if l != 0 {
                assert(comes_before(a[0], a[l]));
            }
        }
        assert(a[0] == b[0]);
        let a1 = a.drop_first();
        let b1 = b.drop_first();
        assert forall|c: char| a1.contains(c) <==> b1.contains(c) by {
            if a1.contains(c) {
                let i = choose|i: int| 0 <= i < a1.len() && a1[i] == c;
                assert(a[i + 1] == c);
                assert(comes_before(a[0], a[i + 1]));
                assert(b.contains(c));
                let j = choose|j: int| 0 <= j < b.len() && b[j] == c;
                if j == 0 {
                    assert(false);
                }
                assert(b1[j - 1] == c);
            }
            if b1.contains(c) {
                let i = choose|i: int| 0 <= i < b1.len() && b1[i] == c;
                assert(b[i + 1] == c);
                assert(comes_before(b[0], b[i + 1]));
                assert(a.contains(c));
                let j = choose|j: int| 0 <= j < a.len() && a[j] == c;
                if j == 0 {
                    assert(false);
                }
                assert(a1[j - 1] == c);
            }
        }
        assert forall|i: int, j: int| 0 <= i < j < a1.len() implies comes_before(
            #[trigger] a1[i],
            #[trigger] a1[j],
        ) by {
            assert(comes_before(a[i + 1], a[j + 1]));
        }
        assert forall|i: int, j: int| 0 <= i < j < b1.len() implies comes_before(
            #[trigger] b1[i],
            #[trigger] b1[j],
        ) by {
            assert(comes_before(b[i + 1], b[j + 1]));
        }
        lemma_ordered_unique(a1, b1);
        assert(a.len() == b.len());
        assert forall|i: int| 0 <= i < a.len() implies a[i] == b[i] by {
            if i > 0 {
                assert(a[i] == a1[i - 1]);
                assert(b[i] == b1[i - 1]);
            }
        }
        assert(a =~= b);
    }
}

fn utf8_len_of(c: char) -> (r: u32)
    ensures
        r as int == utf8_len(c),
{
    let v = c as u32;
    if v < 0x80 {
        1
    } else if v < 0x800 {
        2
    } else if v < 0x10000 {
        3
    } else {
        4
    }
}

fn before(a: char, b: char) -> (r: bool)
    ensures
        r == comes_before(a, b),
{
    let la = utf8_len_of(a);
    let lb = utf8_len_of(b);
    la > lb || (la == lb && (a as u32) < (b as u32))
}

/// The distinct characters of `s` that take more than one byte in UTF-8,
/// longest encoding first, then by codepoint.
pub fn multibyte_chars(s: &str) -> (r: Vec<char>)
    ensures
        r@ == extension_of(s@),
{
    let chars = crate::prepare::str_chars(s);
    let n = chars.len();
    let mut r: Vec<char> = Vec::new();
    let mut i: usize = 0;
    while i < n
        invariant
            chars@ == s@,
            n == chars@.len(),
            i <= n,
            strictly_ordered(r@),
            forall|c: char| r@.contains(c) <==> multibyte_in(s@.subrange(0, i as int), c),
        decreases n - i,
    {
        let c = chars[i];
        let ghost r0 = r@;
        proof {
            assert(s@.subrange(0, i + 1) =~= s@.subrange(0, i as int).push(c));
        }
        if utf8_len_of(c) > 1 {
            let mut lo: usize = 0;
            let mut hi: usize = r.len();
            while lo < hi
                invariant
                    r@ == r0,
                    strictly_ordered(r@),
                    lo <= hi <= r@.len(),
                    forall|j: int| 0 <= j < lo ==> comes_before(#[trigger] r@[j], c),
                    forall|j: int| hi <= j < r@.len() ==> !comes_before(#[trigger] r@[j], c),
                decreases hi - lo,
            {
                let mid = lo + (hi - lo) / 2;
                if before(r[mid], c) {
                    proof {
                        assert forall|j: int| 0 <= j < mid + 1 implies comes_before(
                            #[trigger] r@[j],
                            c,
                        ) by {
                            if j < mid {
                                assert(comes_before(r@[j], r@[mid as int]));
                            }
                        }
                    }
                    lo = mid + 1;
                } else {
                    proof {
                        assert forall|j: int| mid <= j < r@.len() implies !comes_before(
                            #[trigger] r@[j],
                            c,
                        ) by {
                            if j > mid {
                                assert(comes_before(r@[mid as int], r@[j]));
                            }
                        }
                    }
                    hi = mid;
                }
            }
            let present = lo < r.len() && r[lo] == c;
            if !present {
                r.insert(lo, c);
                proof {
                    assert forall|a: int, b: int| 0 <= a < b < r@.len() implies comes_before(
                        #[trigger] r@[a],
                        #[trigger] r@[b],
                    ) by {
                        if a < lo && b == lo {
                            assert(comes_before(r0[a], c));
                        } else if a == lo && b > lo {
                            assert(!comes_before(r0[b - 1], c));
                            if b - 1 > lo {
                                assert(comes_before(r0[lo as int], r0[b - 1]));
                                assert(!comes_before(r0[lo as int], c));
                            }
                            assert(r0[b - 1] != c);
                            lemma_total(r0[b - 1], c);
                        } else if a < lo && b > lo {
                            assert(comes_before(r0[a], r0[b - 1]));
                        } else if a > lo {
                            assert(comes_before(r0[a - 1], r0[b - 1]));
                        }
                    }
                    assert forall|d: char| r@.contains(d) <==> multibyte_in(
                        s@.subrange(0, i + 1),
                        d,
                    ) by {
                        if r@.contains(d) {
                            let k = choose|k: int| 0 <= k < r@.len() && r@[k] == d;
                            if k < lo {
                                assert(r0.contains(d));
                            } else if k > lo {
                                assert(r0[k - 1] == d);
                                assert(r0.contains(d));
                            }
                        }
                        if r0.contains(d) {
                            let k = choose|k: int| 0 <= k < r0.len() && r0[k] == d;
                            if k < lo {
                                assert(r@[k] == d);
                            } else {
                                assert(r@[k + 1] == d);
                            }
                        }
                        let pre = s@.subrange(0, i as int);
                        let post = s@.subrange(0, i + 1);
                        assert(post[i as int] == c);
                        if d == c {
                            assert(r@[lo as int] == c);
                        }
                        assert(r0.contains(d) <==> multibyte_in(pre, d));
                        if pre.contains(d) {
                            let k = choose|k: int| 0 <= k < pre.len() && pre[k] == d;
                            assert(post[k] == d);
                        }
                        if post.contains(d) {
                            let k = choose|k: int| 0 <= k < post.len() && post[k] == d;
                            if k < i {
                                assert(pre[k] == d);
                            }
                        }
                    }
                }
            } else {
                proof {
                    assert forall|d: char| r@.contains(d) <==> multibyte_in(
                        s@.subrange(0, i + 1),
                        d,
                    ) by {
                        let pre = s@.subrange(0, i as int);
                        let post = s@.subrange(0, i + 1);
                        if pre.contains(d) {
                            let k = choose|k: int| 0 <= k < pre.len() && pre[k] == d;
                            assert(post[k] == d);
                        }
                        if post.contains(d) {
                            let k = choose|k: int| 0 <= k < post.len() && post[k] == d;
                            if k < i {
                                assert(pre[k] == d);
                            }
                        }
                        if d == c {
                            assert(r@[lo as int] == c);
                        }
                    }
                }
            }
        } else {
            proof {
                assert forall|d: char| r@.contains(d) <==> multibyte_in(
                    s@.subrange(0, i + 1),
                    d,
                ) by {
                    let pre = s@.subrange(0, i as int);
                    let post = s@.subrange(0, i + 1);
                    if pre.contains(d) {
                        let k = choose|k: int| 0 <= k < pre.len() && pre[k] == d;
                        assert(post[k] == d);
                    }
                    if post.contains(d) {
                        let k = choose|k: int| 0 <= k < post.len() && post[k] == d;
                        if k < i {
                            assert(pre[k] == d);
                        }
                    }
                }
            }
        }
        i = i + 1;
    }
    proof {
        assert(s@.subrange(0, n as int) =~= s@);
        assert(extension_ok(r@, s@));
        lemma_ordered_unique(r@, extension_of(s@));
    }
    r
}

} // verus!
