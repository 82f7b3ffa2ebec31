//! Tokens as they are built during training: either a base token or a
//! merge of two earlier entries of the stack.

use vstd::prelude::*;

use crate::token_type::TokenType;

verus! {

/// An entry of the training stack: a merge of the entries at two earlier
/// positions, or a base token.
pub enum ProtoToken<T> {
    Pair(usize, usize),
    Token(T),
}

/// Every merge names earlier positions, and every base token names a string
/// of `tokens`.
pub open spec fn proto_wf<T: TokenType>(ps: Seq<ProtoToken<T>>, n_tokens: nat) -> bool {
    forall|i: int|
        #![trigger ps[i]]
        0 <= i < ps.len() ==> match ps[i] {
            ProtoToken::Pair(a, b) => a < i && b < i,
            ProtoToken::Token(t) => 0 <= t.index_view() < n_tokens,
        }
}

/// The text of the entry at position `i`: a base token's string, or the
/// texts of the two entries it merges, one after the other.
pub open spec fn expand<T: TokenType>(ps: Seq<ProtoToken<T>>, tokens: Seq<Seq<char>>, i: int) -> Seq<
    char,
>
    decreases i,
{
    if 0 <= i < ps.len() {
        match ps[i] {
            ProtoToken::Pair(a, b) => if 0 <= a < i && 0 <= b < i {
                expand(ps, tokens, a as int) + expand(ps, tokens, b as int)
            } else {
                Seq::empty()
            },
            ProtoToken::Token(t) => tokens[t.index_view()],
        }
    } else {
        Seq::empty()
    }
}

/// The expansion of position `i` finishes within `d` levels: every entry it
/// reaches is on the stack, and every base token it reaches names a string
/// of `tokens`.
pub open spec fn expands_within<T: TokenType>(ps: Seq<ProtoToken<T>>, n_tokens: nat, i: int, d: nat) -> bool
    decreases d,
{
    d > 0 && 0 <= i < ps.len() && match ps[i] {
        ProtoToken::Pair(a, b) => expands_within(ps, n_tokens, a as int, (d - 1) as nat)
            && expands_within(ps, n_tokens, b as int, (d - 1) as nat),
        ProtoToken::Token(t) => 0 <= t.index_view() < n_tokens,
    }
}

/// The expansion of position `i` finishes (it reaches no cycle) and stays
/// in range.
pub open spec fn expands<T: TokenType>(ps: Seq<ProtoToken<T>>, n_tokens: nat, i: int) -> bool {
    exists|d: nat| expands_within(ps, n_tokens, i, d)
}

/// The text of position `i`, expanding at most `d` levels.
pub open spec fn expand_to<T: TokenType>(ps: Seq<ProtoToken<T>>, tokens: Seq<Seq<char>>, i: int, d: nat) -> Seq<char>
    decreases d,
{
    if d == 0 || !(0 <= i < ps.len()) {
        Seq::empty()
    } else {
        match ps[i] {
            ProtoToken::Pair(a, b) => expand_to(ps, tokens, a as int, (d - 1) as nat) + expand_to(
                ps,
                tokens,
                b as int,
                (d - 1) as nat,
            ),
            ProtoToken::Token(t) => tokens[t.index_view()],
        }
    }
}

/// The number of entries visited expanding position `i` at most `d` levels.
pub open spec fn weight_to<T: TokenType>(ps: Seq<ProtoToken<T>>, i: int, d: nat) -> nat
    decreases d,
{
    if d == 0 || !(0 <= i < ps.len()) {
        1
    } else {
        match ps[i] {
            ProtoToken::Pair(a, b) => 1 + weight_to(ps, a as int, (d - 1) as nat) + weight_to(
                ps,
                b as int,
                (d - 1) as nat,
            ),
            ProtoToken::Token(_) => 1,
        }
    }
}

/// The text of position `i`, for an expansion that finishes.
pub open spec fn expansion<T: TokenType>(ps: Seq<ProtoToken<T>>, tokens: Seq<Seq<char>>, i: int) -> Seq<char> {
    expand_to(ps, tokens, i, choose|d: nat| expands_within(ps, tokens.len(), i, d))
}

/// Once an expansion finishes within `d` levels, more levels change nothing.
proof fn lemma_expand_stable<T: TokenType>(
    ps: Seq<ProtoToken<T>>,
    tokens: Seq<Seq<char>>,
    i: int,
    d: nat,
    e: nat,
)
    requires
        expands_within(ps, tokens.len(), i, d),
        d <= e,
    ensures
        expands_within(ps, tokens.len(), i, e),
        expand_to(ps, tokens, i, e) == expand_to(ps, tokens, i, d),
        weight_to(ps, i, e) == weight_to(ps, i, d),
    decreases d,
{
    match ps[i] {
        ProtoToken::Pair(a, b) => {
            lemma_expand_stable(ps, tokens, a as int, (d - 1) as nat, (e - 1) as nat);
            lemma_expand_stable(ps, tokens, b as int, (d - 1) as nat, (e - 1) as nat);
        },
        ProtoToken::Token(_) => {},
    }
}

/// On a stack where every merge names earlier positions, expanding `i`
/// finishes within `i + 1` levels and gives `expand`.
pub(crate) proof fn lemma_expand_wf<T: TokenType>(ps: Seq<ProtoToken<T>>, tokens: Seq<Seq<char>>, i: int)
    requires
        proto_wf(ps, tokens.len()),
        0 <= i < ps.len(),
    ensures
        expands_within(ps, tokens.len(), i, (i + 1) as nat),
        expand_to(ps, tokens, i, (i + 1) as nat) == expand(ps, tokens, i),
    decreases i,
{
    match ps[i] {
        ProtoToken::Pair(a, b) => {
            lemma_expand_wf(ps, tokens, a as int);
            lemma_expand_wf(ps, tokens, b as int);
            lemma_expand_stable(ps, tokens, a as int, (a + 1) as nat, i as nat);
            lemma_expand_stable(ps, tokens, b as int, (b + 1) as nat, i as nat);
        },
        ProtoToken::Token(_) => {},
    }
}

/// The texts of the entries on a stack, top (last) first, at most `d`
/// levels each.
pub open spec fn expand_stack_to<T: TokenType>(
    ps: Seq<ProtoToken<T>>,
    tokens: Seq<Seq<char>>,
    st: Seq<usize>,
    d: nat,
) -> Seq<char>
    decreases st.len(),
{
    if st.len() == 0 {
        Seq::empty()
    } else {
        expand_to(ps, tokens, st.last() as int, d) + expand_stack_to(ps, tokens, st.drop_last(), d)
    }
}

/// The number of entries visited expanding each position of `st` at most
/// `d` levels.
pub open spec fn stack_weight_to<T: TokenType>(ps: Seq<ProtoToken<T>>, st: Seq<usize>, d: nat) -> nat
    decreases st.len(),
{
    if st.len() == 0 {
        0
    } else {
        weight_to(ps, st.last() as int, d) + stack_weight_to(ps, st.drop_last(), d)
    }
}

impl<T: TokenType> ProtoToken<T> {
    /// The text of this entry: for a base token, the string of `as_token`;
    /// for a merge, the texts of the two merged entries of `protostack`.
    pub fn pieces(&self, as_token: T, tokens: &[String], protostack: &[ProtoToken<T>]) -> (r:
        String)
        requires
            match self {
                ProtoToken::Pair(a, b) => expands(protostack@, tokens@.len(), *a as int) && expands(
                    protostack@,
                    tokens@.len(),
                    *b as int,
                ),
                ProtoToken::Token(_) => 0 <= as_token.index_view() < tokens@.len(),
            },
        ensures
            r@ == match self {
                ProtoToken::Pair(a, b) => expansion(
                    protostack@,
                    tokens@.map_values(|s: String| s@),
                    *a as int,
                ) + expansion(protostack@, tokens@.map_values(|s: String| s@), *b as int),
                ProtoToken::Token(_) => tokens@[as_token.index_view()]@,
            },
            proto_wf(protostack@, tokens@.len()) ==> r@ == match self {
                ProtoToken::Pair(a, b) => expand(
                    protostack@,
                    tokens@.map_values(|s: String| s@),
                    *a as int,
                ) + expand(protostack@, tokens@.map_values(|s: String| s@), *b as int),
                ProtoToken::Token(_) => tokens@[as_token.index_view()]@,
            },
    {
        let ghost views = tokens@.map_values(|s: String| s@);
        let ghost n = tokens@.len();
        match self {
            ProtoToken::Pair(a, b) => {
                let ghost ps = protostack@;
                let ghost da = choose|d: nat| expands_within(ps, views.len(), *a as int, d);
                let ghost db = choose|d: nat| expands_within(ps, views.len(), *b as int, d);
                let ghost dd: nat = if da < db {
                    db
                } else {
                    da
                };
                proof {
                    lemma_expand_stable(ps, views, *a as int, da, dd);
                    lemma_expand_stable(ps, views, *b as int, db, dd);
                }
                let mut result = String::new();
                let mut stack: Vec<usize> = Vec::new();
                stack.push(*b);
                stack.push(*a);
                proof {
                    reveal_with_fuel(expand_stack_to, 3);
                    assert(stack@.drop_last() =~= seq![*b]);
                    assert(stack@.drop_last().drop_last() =~= Seq::<usize>::empty());
                    assert(result@ + expand_stack_to(ps, views, stack@, dd) =~= expand_to(
                        ps,
                        views,
                        *a as int,
                        dd,
                    ) + expand_to(ps, views, *b as int, dd));
                }
                while !stack.is_empty()
                    invariant
                        ps == protostack@,
                        views == tokens@.map_values(|s: String| s@),
                        views.len() == tokens@.len(),
                        forall|j: int|
                            0 <= j < stack@.len() ==> expands_within(
                                ps,
                                views.len(),
                                #[trigger] stack@[j] as int,
                                dd,
                            ),
                        result@ + expand_stack_to(ps, views, stack@, dd) == expand_to(
                            ps,
                            views,
                            *a as int,
                            dd,
                        ) + expand_to(ps, views, *b as int, dd),
                    decreases stack_weight_to(ps, stack@, dd),
                {
                    let ghost st = stack@;
                    let top = stack.pop().unwrap();
                    proof {
                        assert(st.drop_last() == stack@);
                        assert(top == st.last());
                        assert(expands_within(ps, views.len(), st[st.len() - 1] as int, dd));
                        assert(forall|j: int|
                            0 <= j < stack@.len() ==> stack@[j] == st[j]);
                    }
                    let current = &protostack[top];
                    match current {
                        ProtoToken::Pair(x, y) => {
                            proof {
                                assert(protostack@[top as int] == *current);
                                lemma_expand_stable(ps, views, *x as int, (dd - 1) as nat, dd);
                                lemma_expand_stable(ps, views, *y as int, (dd - 1) as nat, dd);
                            }
                            stack.push(*y);
                            stack.push(*x);
                            proof {
                                assert(stack@.drop_last().drop_last() =~= st.drop_last());
                                assert(stack@.last() == *x);
                                assert(stack@.drop_last().last() == *y);
                                assert(expand_to(ps, views, top as int, dd) == expand_to(
                                    ps,
                                    views,
                                    *x as int,
                                    dd,
                                ) + expand_to(ps, views, *y as int, dd));
                                assert(expand_stack_to(ps, views, stack@, dd) == expand_to(
                                    ps,
                                    views,
                                    *x as int,
                                    dd,
                                ) + expand_stack_to(ps, views, stack@.drop_last(), dd));
                                assert(expand_stack_to(ps, views, stack@.drop_last(), dd)
                                    == expand_to(ps, views, *y as int, dd) + expand_stack_to(
                                    ps,
                                    views,
                                    st.drop_last(),
                                    dd,
                                ));
                                assert(result@ + expand_stack_to(ps, views, stack@, dd) =~= result@
                                    + expand_stack_to(ps, views, st, dd));
                                assert(stack_weight_to(ps, stack@, dd) == weight_to(
                                    ps,
                                    *x as int,
                                    dd,
                                ) + stack_weight_to(ps, stack@.drop_last(), dd));
                                assert(stack_weight_to(ps, stack@.drop_last(), dd) == weight_to(
                                    ps,
                                    *y as int,
                                    dd,
                                ) + stack_weight_to(ps, st.drop_last(), dd));
                                assert(weight_to(ps, top as int, dd) == 1 + weight_to(
                                    ps,
                                    *x as int,
                                    dd,
                                ) + weight_to(ps, *y as int, dd));
                                assert forall|j: int| 0 <= j < stack@.len() implies expands_within(
                                    ps,
                                    views.len(),
                                    #[trigger] stack@[j] as int,
                                    dd,
                                ) by {
                                    if j < stack@.len() - 2 {
                                        assert(stack@[j] == st[j]);
                                    }
                                }
                            }
                        },
                        ProtoToken::Token(t) => {
                            proof {
                                assert(protostack@[top as int] == *current);
                                assert(stack_weight_to(ps, st, dd) == weight_to(
                                    ps,
                                    top as int,
                                    dd,
                                ) + stack_weight_to(ps, stack@, dd));
                            }
                            let idx = t.to_index();
                            let ghost old_result = result@;
                            result.append(tokens[idx].as_str());
                            proof {
                                assert(tokens@[idx as int]@ == views[idx as int]);
                                assert(expand_to(ps, views, top as int, dd) == views[idx as int]);
                                assert(expand_stack_to(ps, views, st, dd) == expand_to(
                                    ps,
                                    views,
                                    top as int,
                                    dd,
                                ) + expand_stack_to(ps, views, stack@, dd));
                                assert(result@ + expand_stack_to(ps, views, stack@, dd) =~= old_result
                                    + expand_stack_to(ps, views, st, dd));
                            }
                        },
                    }
                }
                proof {
                    assert(result@ =~= result@ + expand_stack_to(ps, views, stack@, dd));
                    if proto_wf(ps, n) {
                        lemma_expand_wf(ps, views, *a as int);
                        lemma_expand_wf(ps, views, *b as int);
                        let ea = (*a + 1) as nat;
                        let eb = (*b + 1) as nat;
                        let m: nat = if ea < dd {
                            dd
                        } else {
                            ea
                        };
                        lemma_expand_stable(ps, views, *a as int, ea, m);
                        lemma_expand_stable(ps, views, *a as int, dd, m);
                        let m2: nat = if eb < dd {
                            dd
                        } else {
                            eb
                        };
                        lemma_expand_stable(ps, views, *b as int, eb, m2);
                        lemma_expand_stable(ps, views, *b as int, dd, m2);
                    }
                }
                result
            },
            ProtoToken::Token(_) => {
                let idx = as_token.to_index();
                tokens[idx].clone()
            },
        }
    }
}

} // verus!
