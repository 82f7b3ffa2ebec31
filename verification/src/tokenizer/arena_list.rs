//! A doubly linked list laid out in a vector: nodes are never moved, and a
//! node that leaves the list keeps its slot with both links cleared.

use vstd::prelude::*;

use crate::token_type::TokenType;

verus! {

/// One slot of an [`ArenaList`].
pub struct ArenaNode<T> {
    pub value: T,
    prev: Option<usize>,
    next: Option<usize>,
}

/// A linked list over a vector of slots.
///
/// The model is `order`, the slots that are in the list, front to back; it
/// is strictly increasing, and `view` is the sequence of their values.
pub struct ArenaList<T> {
    nodes: Vec<ArenaNode<T>>,
    order: Ghost<Seq<usize>>,
}


/// Slot `i` is one of `order`.
pub open spec fn in_order(order: Seq<usize>, i: int) -> bool {
    exists|k: int| 0 <= k < order.len() && order[k] == i
}

/// The position in `order` of slot `i`, when it is there.
pub open spec fn rank_in(order: Seq<usize>, i: int) -> int {
    choose|k: int| 0 <= k < order.len() && order[k] == i
}

/// `order` is strictly increasing, names slots of `nodes`, and the links
/// of `nodes` are exactly those of the list `order`.
pub closed spec fn links_ok<T>(nodes: Seq<ArenaNode<T>>, order: Seq<usize>) -> bool {
    &&& nodes.len() > 0
    &&& forall|a: int, b: int| 0 <= a < b < order.len() ==> order[a] < order[b]
    &&& forall|k: int| 0 <= k < order.len() ==> order[k] < nodes.len()
    &&& forall|k: int|
        #![trigger order[k]]
        0 <= k < order.len() ==> {
            &&& nodes[order[k] as int].prev == (if k == 0 {
                None
            } else {
                Some(order[k - 1])
            })
            &&& nodes[order[k] as int].next == (if k + 1 < order.len() {
                Some(order[k + 1])
            } else {
                None
            })
        }
    &&& forall|i: int|
        0 <= i < nodes.len() && !in_order(order, i) ==> {
            &&& nodes[i].prev is None
            &&& nodes[i].next is None
        }
}

/// `nodes` once the slot at position `k` of `order` is unlinked.
pub closed spec fn unlinked<T>(nodes: Seq<ArenaNode<T>>, order: Seq<usize>, k: int) -> Seq<
    ArenaNode<T>,
> {
    let i = order[k] as int;
    let p: Option<usize> = if k == 0 {
        None
    } else {
        Some(order[k - 1])
    };
    let n: Option<usize> = if k + 1 < order.len() {
        Some(order[k + 1])
    } else {
        None
    };
    Seq::new(
        nodes.len(),
        |j: int|
            if j == i {
                ArenaNode { value: nodes[j].value, prev: None, next: None }
            } else if k > 0 && j == order[k - 1] {
                ArenaNode { value: nodes[j].value, prev: nodes[j].prev, next: n }
            } else if k + 1 < order.len() && j == order[k + 1] {
                ArenaNode { value: nodes[j].value, prev: p, next: nodes[j].next }
            } else {
                nodes[j]
            },
    )
}

proof fn lemma_unlink_sorted(order: Seq<usize>, k: int)
    requires
        forall|a: int, b: int| 0 <= a < b < order.len() ==> order[a] < order[b],
        0 <= k < order.len(),
    ensures
        forall|a: int, b: int|
            0 <= a < b < order.remove(k).len() ==> order.remove(k)[a] < order.remove(k)[b],
{
    let order2 = order.remove(k);
    assert forall|a: int, b: int| 0 <= a < b < order2.len() implies order2[a] < order2[b] by {
        if a < k && b >= k {
            assert(order[a] < order[b + 1]);
        } else if a >= k {
            assert(order[a + 1] < order[b + 1]);
        } else {
            assert(order[a] < order[b]);
        }
    }
}

#[verifier::rlimit(60)]
proof fn lemma_unlink_link_at<T>(nodes: Seq<ArenaNode<T>>, order: Seq<usize>, k: int, j: int)
    requires
        links_ok(nodes, order),
        0 <= k < order.len(),
        0 <= j < order.len() - 1,
    ensures
        ({
            let nodes2 = unlinked(nodes, order, k);
            let order2 = order.remove(k);
            &&& nodes2[order2[j] as int].prev == (if j == 0 {
                None
            } else {
                Some(order2[j - 1])
            })
            &&& nodes2[order2[j] as int].next == (if j + 1 < order2.len() {
                Some(order2[j + 1])
            } else {
                None
            })
        }),
{
    let order2 = order.remove(k);
    let m = if j < k { j } else { j + 1 };
    assert(order2[j] == order[m]);
    assert(order[m] < nodes.len());
    if j + 1 < order2.len() {
        let m1 = if j + 1 < k { j + 1 } else { j + 2 };
        assert(order2[j + 1] == order[m1]);
        assert(order[m] < order[m1]);
    }
    if j > 0 {
        let m0 = if j - 1 < k { j - 1 } else { j };
        assert(order2[j - 1] == order[m0]);
        assert(order[m0] < order[m]);
    }
    if m != k {
        if m < k {
            assert(order[m] < order[k]);
        } else {
            assert(order[k] < order[m]);
        }
    }
    if k > 0 && m != k - 1 {
        if m < k - 1 {
            assert(order[m] < order[k - 1]);
        } else {
            assert(order[k - 1] < order[m]);
        }
    }
    if k + 1 < order.len() && m != k + 1 {
        if m < k + 1 {
            assert(order[m] < order[k + 1]);
        } else {
            assert(order[k + 1] < order[m]);
        }
    }
}

proof fn lemma_unlink_links<T>(nodes: Seq<ArenaNode<T>>, order: Seq<usize>, k: int)
    requires
        links_ok(nodes, order),
        0 <= k < order.len(),
    ensures
        forall|j: int|
            #![trigger order.remove(k)[j]]
            0 <= j < order.remove(k).len() ==> {
                &&& unlinked(nodes, order, k)[order.remove(k)[j] as int].prev == (if j == 0 {
                    None
                } else {
                    Some(order.remove(k)[j - 1])
                })
                &&& unlinked(nodes, order, k)[order.remove(k)[j] as int].next == (if j + 1
                    < order.remove(k).len() {
                    Some(order.remove(k)[j + 1])
                } else {
                    None
                })
            },
{
    assert forall|j: int|
        #![trigger order.remove(k)[j]]
        0 <= j < order.remove(k).len() implies {
            &&& unlinked(nodes, order, k)[order.remove(k)[j] as int].prev == (if j == 0 {
                None
            } else {
                Some(order.remove(k)[j - 1])
            })
            &&& unlinked(nodes, order, k)[order.remove(k)[j] as int].next == (if j + 1
                < order.remove(k).len() {
                Some(order.remove(k)[j + 1])
            } else {
                None
            })
        } by {
        lemma_unlink_link_at(nodes, order, k, j);
    }
}

proof fn lemma_unlink_dead<T>(nodes: Seq<ArenaNode<T>>, order: Seq<usize>, k: int)
    requires
        links_ok(nodes, order),
        0 <= k < order.len(),
    ensures
        forall|i: int|
            0 <= i < unlinked(nodes, order, k).len() && !in_order(order.remove(k), i) ==> {
                &&& unlinked(nodes, order, k)[i].prev is None
                &&& unlinked(nodes, order, k)[i].next is None
            },
{
    let nodes2 = unlinked(nodes, order, k);
    let order2 = order.remove(k);
    assert forall|i: int| 0 <= i < nodes2.len() && !in_order(order2, i) implies {
        &&& nodes2[i].prev is None
        &&& nodes2[i].next is None
    } by {
        if i != order[k] {
            if in_order(order, i) {
                let j = choose|j: int| 0 <= j < order.len() && order[j] == i;
                if j < k {
                    assert(order2[j] == i);
                } else {
                    assert(j != k);
                    assert(order2[j - 1] == i);
                }
            }
            if k > 0 && i == order[k - 1] {
                assert(in_order(order, i));
            }
            if k + 1 < order.len() && i == order[k + 1] {
                assert(in_order(order, i));
            }
        }
    }
}

#[verifier::rlimit(40)]
proof fn lemma_unlink<T>(nodes: Seq<ArenaNode<T>>, order: Seq<usize>, k: int)
    requires
        links_ok(nodes, order),
        0 <= k < order.len(),
    ensures
        links_ok(unlinked(nodes, order, k), order.remove(k)),
{
    lemma_unlink_sorted(order, k);
    lemma_unlink_links(nodes, order, k);
    lemma_unlink_dead(nodes, order, k);
    let order2 = order.remove(k);
    assert forall|j: int| 0 <= j < order2.len() implies order2[j] < unlinked(nodes, order, k).len() by {
        if j < k {
            assert(order[j] < nodes.len());
        } else {
            assert(order[j + 1] < nodes.len());
        }
    }
}

impl<T: TokenType> ArenaList<T> {
    /// The slots that are in the list, front to back.
    pub closed spec fn order(&self) -> Seq<usize> {
        self.order@
    }

    /// The number of slots, in the list or not.
    pub closed spec fn slots(&self) -> nat {
        self.nodes@.len()
    }

    /// The value held by slot `i`.
    pub closed spec fn slot_value(&self, i: int) -> T {
        self.nodes@[i].value
    }

    /// The values of the list, front to back.
    pub open spec fn view(&self) -> Seq<T> {
        Seq::new(self.order().len(), |k: int| self.slot_value(self.order()[k] as int))
    }

    /// Slot `i` is in the list.
    pub open spec fn live(&self, i: int) -> bool {
        in_order(self.order(), i)
    }

    /// The position in the list of a slot that is in it.
    pub open spec fn rank(&self, i: int) -> int {
        rank_in(self.order(), i)
    }

    pub closed spec fn wf(&self) -> bool {
        links_ok(self.nodes@, self.order@)
    }

    /// The adjacent pair that starts at slot `first`, if it is in the list
    /// and has a successor.
    pub open spec fn pair_at_spec(&self, first: int) -> Option<(T, T)> {
        if self.live(first) && self.rank(first) + 1 < self.order().len() {
            Some((self.view()[self.rank(first)], self.view()[self.rank(first) + 1]))
        } else {
            None
        }
    }

    /// The adjacent pair that ends at slot `second`, with the slot where it
    /// starts.
    pub open spec fn prev_pair_spec(&self, second: int) -> Option<((T, T), usize)> {
        if self.live(second) && self.rank(second) > 0 {
            Some(
                (
                    (self.view()[self.rank(second) - 1], self.view()[self.rank(second)]),
                    self.order()[self.rank(second) - 1],
                ),
            )
        } else {
            None
        }
    }

    /// The adjacent pair that follows slot `proto`, with the slot where it
    /// starts.
    pub open spec fn next_pair_spec(&self, proto: int) -> Option<((T, T), usize)> {
        if self.live(proto) && self.rank(proto) + 2 < self.order().len() {
            Some(
                (
                    (self.view()[self.rank(proto) + 1], self.view()[self.rank(proto) + 2]),
                    self.order()[self.rank(proto) + 1],
                ),
            )
        } else {
            None
        }
    }

    proof fn lemma_rank(&self, k: int)
        requires
            self.wf(),
            0 <= k < self.order().len(),
        ensures
            self.live(self.order()[k] as int),
            self.rank(self.order()[k] as int) == k,
    {
        let i = self.order()[k] as int;
        assert(self.order()[k] == i);
        let r = self.rank(i);
        if r != k {
            if r < k {
                assert(self.order@[r] < self.order@[k]);
            } else {
                assert(self.order@[k] < self.order@[r]);
            }
        }
    }

    /// The slot that slot `i` links back to.
    pub closed spec fn prev_link(&self, i: int) -> Option<usize> {
        self.nodes@[i].prev
    }

    /// The slot that slot `i` links on to.
    pub closed spec fn next_link(&self, i: int) -> Option<usize> {
        self.nodes@[i].next
    }

    /// The links of a slot are its neighbours in the list (a slot out of the
    /// list links to nothing), so the pair before a slot is the pair that
    /// starts at the slot it links back to, and the pair after a slot is the
    /// pair that starts at the slot it links on to.
    pub proof fn lemma_links(&self, i: int)
        requires
            self.wf(),
            0 <= i < self.slots(),
        ensures
            self.prev_link(i) == (if self.live(i) && self.rank(i) > 0 {
                Some(self.order()[self.rank(i) - 1])
            } else {
                None
            }),
            self.next_link(i) == (if self.live(i) && self.rank(i) + 1 < self.order().len() {
                Some(self.order()[self.rank(i) + 1])
            } else {
                None
            }),
            self.prev_pair_spec(i) == (match self.prev_link(i) {
                Some(f) => match self.pair_at_spec(f as int) {
                    Some(p) => Some((p, f)),
                    None => None,
                },
                None => None,
            }),
            self.next_pair_spec(i) == (match self.next_link(i) {
                Some(f) => match self.pair_at_spec(f as int) {
                    Some(p) => Some((p, f)),
                    None => None,
                },
                None => None,
            }),
    {
        if self.live(i) {
            let k = self.rank(i);
            assert(0 <= k < self.order().len() && self.order()[k] == i);
            assert(self.order@[k] == i);
            if k > 0 {
                self.lemma_rank(k - 1);
            }
            if k + 1 < self.order().len() {
                self.lemma_rank(k + 1);
            }
        }
    }

    /// Builds a list holding `values`, one slot each, in order.
    pub fn from_iter(values: &[T]) -> (r: Self)
        requires
            values@.len() > 0,
        ensures
            r.wf(),
            r.view() == values@,
            r.order() == Seq::new(values@.len(), |k: int| k as usize),
            r.slots() == values@.len(),
            r.slots() <= usize::MAX,
    {
        let n = values.len();
        let mut nodes: Vec<ArenaNode<T>> = Vec::new();
        let mut i: usize = 0;
        while i < n
            invariant
                n == values@.len(),
                i <= n,
                nodes@.len() == i,
                forall|j: int|
                    0 <= j < i ==> {
                        &&& (#[trigger] nodes@[j]).value == values@[j]
                        &&& nodes@[j].prev == (if j == 0 {
                            None
                        } else {
                            Some((j - 1) as usize)
                        })
                        &&& nodes@[j].next == Some((j + 1) as usize)
                    },
            decreases n - i,
        {
            let prev = if i > 0 {
                Some(i - 1)
            } else {
                None
            };
            nodes.push(ArenaNode { value: values[i], prev: prev, next: Some(i + 1) });
            i = i + 1;
        }
        let last = n - 1;
        let node = ArenaNode { value: nodes[last].value, prev: nodes[last].prev, next: None };
        nodes.set(last, node);
        let ghost order = Seq::new(n as nat, |k: int| k as usize);
        let r = ArenaList { nodes, order: Ghost(order) };
        proof {
            assert forall|i: int| 0 <= i < r.nodes@.len() implies r.live(i) by {
                assert(r.nodes@.len() == n);
                assert(0 <= i < r.order().len() && r.order()[i] as int == i);
            }
            assert(r.view() =~= values@);
        }
        r
    }

    /// The values of every two neighbouring slots, in slot order, whether
    /// or not they are in the list.
    pub fn raw_pairs(&self) -> (r: Vec<(T, T)>)
        requires
            self.wf(),
        ensures
            r@ == Seq::new(
                (self.slots() - 1) as nat,
                |i: int| (self.slot_value(i), self.slot_value(i + 1)),
            ),
    {
        let n = self.nodes.len();
        let mut r: Vec<(T, T)> = Vec::new();
        let mut i: usize = 0;
        while i + 1 < n
            invariant
                n == self.nodes@.len(),
                n > 0,
                i + 1 <= n,
                r@ == Seq::new(i as nat, |j: int| (self.slot_value(j), self.slot_value(j + 1))),
            decreases n - i,
        {
            r.push((self.nodes[i].value, self.nodes[i + 1].value));
            i = i + 1;
            assert(r@ =~= Seq::new(
                i as nat,
                |j: int| (self.slot_value(j), self.slot_value(j + 1)),
            ));
        }
        r
    }

    /// The pair of values that starts at slot `first`.
    pub fn pair_at(&self, first: usize) -> (r: Option<(T, T)>)
        requires
            self.wf(),
        ensures
            r == self.pair_at_spec(first as int),
    {
        if first >= self.nodes.len() - 1 {
            proof {
                if self.live(first as int) && self.rank(first as int) + 1 < self.order().len() {
                    let k = self.rank(first as int);
                    assert(self.order@[k] < self.order@[k + 1]);
                }
            }
            None
        } else {
            proof {
                if self.live(first as int) {
                    self.lemma_rank(self.rank(first as int));
                }
            }
            match self.nodes[first].next {
                Some(second) => {
                    proof {
                        if !self.live(first as int) {
                            assert(false);
                        }
                        let k = self.rank(first as int);
                        assert(self.order@[k] == first);
                    }
                    Some((self.nodes[first].value, self.nodes[second].value))
                },
                None => {
                    proof {
                        if self.live(first as int) {
                            let k = self.rank(first as int);
                            assert(self.order@[k] == first);
                        }
                    }
                    None
                },
            }
        }
    }

    /// The pair of values that ends at slot `second`, with the slot where
    /// it starts.
    pub fn prev_pair_pos(&self, second: usize) -> (r: Option<((T, T), usize)>)
        requires
            self.wf(),
        ensures
            r == self.prev_pair_spec(second as int),
    {
        if second > self.nodes.len() - 1 {
            None
        } else {
            proof {
                if self.live(second as int) {
                    let k = self.rank(second as int);
                    self.lemma_rank(k);
                    assert(self.order@[k] == second);
                }
            }
            match self.nodes[second].prev {
                Some(first) => Some(((self.nodes[first].value, self.nodes[second].value), first)),
                None => None,
            }
        }
    }

    /// The pair of values that follows slot `proto`, with the slot where it
    /// starts.
    pub fn next_pair_pos(&self, proto: usize) -> (r: Option<((T, T), usize)>)
        requires
            self.wf(),
        ensures
            r == self.next_pair_spec(proto as int),
    {
        if proto >= self.nodes.len() - 1 {
            proof {
                if self.live(proto as int) && self.rank(proto as int) + 2 < self.order().len() {
                    let k = self.rank(proto as int);
                    assert(self.order@[k] < self.order@[k + 1]);
                }
            }
            None
        } else {
            proof {
                if self.live(proto as int) {
                    let k = self.rank(proto as int);
                    self.lemma_rank(k);
                    assert(self.order@[k] == proto);
                    if k + 1 < self.order().len() {
                        self.lemma_rank(k + 1);
                        assert(self.order@[k + 1] == self.order@[k + 1]);
                    }
                }
            }
            match self.nodes[proto].next {
                Some(first) => {
                    proof {
                        let k = self.rank(proto as int);
                        assert(self.order@[k + 1] == first);
                    }
                    match self.nodes[first].next {
                        Some(second) => Some(
                            ((self.nodes[first].value, self.nodes[second].value), first),
                        ),
                        None => None,
                    }
                },
                None => None,
            }
        }
    }

    /// Takes slot `index` out of the list, linking its neighbours to each
    /// other; `false` when there is no such slot.
    #[verifier::rlimit(40)]
    pub fn drop(&mut self, index: usize) -> (r: bool)
        requires
            old(self).wf(),
        ensures
            final(self).wf(),
            r == (index < old(self).slots()),
            final(self).slots() == old(self).slots(),
            forall|i: int|
                0 <= i < old(self).slots() ==> final(self).slot_value(i) == old(self).slot_value(i),
            final(self).order() == (if r && old(self).live(index as int) {
                old(self).order().remove(old(self).rank(index as int))
            } else {
                old(self).order()
            }),
            final(self).view() == (if r && old(self).live(index as int) {
                old(self).view().remove(old(self).rank(index as int))
            } else {
                old(self).view()
            }),
            !final(self).live(index as int),
    {
        if index > self.nodes.len() - 1 {
            false
        } else {
            let ghost old_self = *self;
            let ghost live = self.live(index as int);
            let ghost k = self.rank(index as int);
            proof {
                if live {
                    self.lemma_rank(k);
                    assert(self.order@[k] == index);
                }
            }
            let p = self.nodes[index].prev;
            let n = self.nodes[index].next;
            let cleared = ArenaNode { value: self.nodes[index].value, prev: None, next: None };
            self.nodes.set(index, cleared);
            match p {
                Some(prev_index) => {
                    let node = ArenaNode {
                        value: self.nodes[prev_index].value,
                        prev: self.nodes[prev_index].prev,
                        next: n,
                    };
                    self.nodes.set(prev_index, node);
                },
                None => {},
            }
            match n {
                Some(next_index) => {
                    let node = ArenaNode {
                        value: self.nodes[next_index].value,
                        prev: p,
                        next: self.nodes[next_index].next,
                    };
                    self.nodes.set(next_index, node);
                },
                None => {},
            }
            proof {
                if live {
                    assert(old_self.order@[k] == index);
                    if k > 0 {
                        assert(old_self.order@[k - 1] < old_self.order@[k]);
                    }
                    if k + 1 < old_self.order@.len() {
                        assert(old_self.order@[k] < old_self.order@[k + 1]);
                    }
                    assert(self.nodes@ =~= unlinked(old_self.nodes@, old_self.order@, k));
                    lemma_unlink(old_self.nodes@, old_self.order@, k);
                    self.order@ = old_self.order@.remove(k);
                    assert(self.view() =~= old_self.view().remove(k));
                } else {
                    assert(self.nodes@ =~= old_self.nodes@);
                    assert(self.view() =~= old_self.view());
                }
            }
            true
        }
    }

    /// Fuses the pair that starts at slot `index` into one slot holding
    /// `tok`: slot `index` takes `tok` and its successor leaves the list.
    /// Returns the pairs that now end and start at `index`.
    pub fn fuse_into(&mut self, index: usize, tok: T) -> (r: (
        Option<((T, T), usize)>,
        Option<((T, T), usize)>,
    ))
        requires
            old(self).wf(),
            old(self).live(index as int),
            old(self).rank(index as int) + 1 < old(self).order().len(),
        ensures
            final(self).wf(),
            final(self).slots() == old(self).slots(),
            final(self).order() == old(self).order().remove(old(self).rank(index as int) + 1),
            final(self).view() == old(self).view().update(old(self).rank(index as int), tok).remove(
                old(self).rank(index as int) + 1,
            ),
            r.0 == final(self).prev_pair_spec(index as int),
            r.1 == (match final(self).pair_at_spec(index as int) {
                Some(p) => Some((p, index)),
                None => None,
            }),
            !final(self).live(old(self).order()[old(self).rank(index as int) + 1] as int),
    {
        let ghost k = self.rank(index as int);
        proof {
            self.lemma_rank(k);
            assert(self.order@[k] == index);
            assert(self.order@[k] < self.nodes@.len());
        }
        match self.nodes[index].next {
            Some(second) => {
                let ghost before = *self;
                let node = ArenaNode {
                    value: tok,
                    prev: self.nodes[index].prev,
                    next: self.nodes[index].next,
                };
                self.nodes.set(index, node);
                let ghost middle = *self;
                proof {
                    assert(second == before.order@[k + 1]);
                    assert(self.order@ == before.order@);
                    assert forall|i: int| 0 <= i < self.nodes@.len() implies (self.nodes@[i].prev
                        == before.nodes@[i].prev && self.nodes@[i].next
                        == before.nodes@[i].next) by {}
                    assert(links_ok(self.nodes@, self.order@));
                    self.lemma_rank(k + 1);
                    assert(self.view() =~= before.view().update(k, tok));
                }
                self.drop(second);
                proof {
                    assert(middle.live(second as int));
                    assert(middle.rank(second as int) == k + 1);
                    if self.live(index as int) {
                        self.lemma_rank(k);
                    }
                    assert(self.order()[k] == index);
                    self.lemma_rank(k);
                }
                let before_pair = self.prev_pair_pos(index);
                let after_pair = match self.pair_at(index) {
                    Some(p) => Some((p, index)),
                    None => None,
                };
                (before_pair, after_pair)
            },
            None => {
                proof {
                    assert(false);
                }
                (None, None)
            },
        }
    }
}

} // verus!
