//! A singly linked list workload: push/pop at the front, search by
//! predicate, in-place reversal, and positional insertion and removal keyed
//! by the first matching element.

use vstd::prelude::*;

verus! {

use core::cmp::Ordering;
use vstd::seq_lib::lemma_multiset_commutative;
use vstd::std_specs::cmp::PartialEqSpec;

/// One node of the list.
#[derive(Debug, PartialEq)]
pub struct Node<T> {
    pub data: T,
    pub next: Option<Box<Node<T>>>,
}

/// The elements reachable from `n`, front first.
pub open spec fn node_seq<T>(n: Option<Box<Node<T>>>) -> Seq<T>
    decreases n,
{
    match n {
        None => Seq::empty(),
        Some(node) => seq![node.data] + node_seq(node.next),
    }
}

/// The index of the first element of `s` that compares equal to `v` under
/// `T`'s equality.
pub open spec fn first_eq_index<T: PartialEq>(s: Seq<T>, v: T) -> Option<int>
    decreases s.len(),
{
    if s.len() == 0 {
        None
    } else if s[0].eq_spec(&v) {
        Some(0int)
    } else {
        match first_eq_index(s.drop_first(), v) {
            None => None,
            Some(i) => Some(i + 1),
        }
    }
}

/// A found index is in range and names the first equal element.
pub proof fn lemma_first_eq_index<T: PartialEq>(s: Seq<T>, v: T)
    ensures
        match first_eq_index(s, v) {
            Some(i) => {
                &&& 0 <= i < s.len()
                &&& s[i].eq_spec(&v)
                &&& forall|j: int| 0 <= j < i ==> !(#[trigger] s[j]).eq_spec(&v)
            },
            None => forall|j: int| 0 <= j < s.len() ==> !(#[trigger] s[j]).eq_spec(&v),
        },
    decreases s.len(),
{
    if s.len() > 0 && !s[0].eq_spec(&v) {
        lemma_first_eq_index(s.drop_first(), v);
        let t = s.drop_first();
        assert(forall|j: int| 0 <= j < t.len() ==> #[trigger] t[j] == s[j + 1]);
        match first_eq_index(t, v) {
            Some(i) => {
                assert(s[i + 1].eq_spec(&v));
                assert forall|j: int| 0 <= j < i + 1 implies !(#[trigger] s[j]).eq_spec(&v) by {
                    if j > 0 {
                        assert(t[j - 1] == s[j]);
                    }
                }
            },
            None => {
                assert forall|j: int| 0 <= j < s.len() implies !(#[trigger] s[j]).eq_spec(&v) by {
                    if j > 0 {
                        assert(t[j - 1] == s[j]);
                    }
                }
            },
        }
    }
}

/// A first position comparing equal determines `first_eq_index`'s answer.
pub proof fn lemma_first_eq_index_at<T: PartialEq>(s: Seq<T>, v: T, k: int)
    requires
        0 <= k < s.len(),
        s[k].eq_spec(&v),
        forall|j: int| 0 <= j < k ==> !(#[trigger] s[j]).eq_spec(&v),
    ensures
        first_eq_index(s, v) == Some(k),
    decreases k,
{
    if k > 0 {
        let t = s.drop_first();
        assert(forall|j: int| 0 <= j < t.len() ==> #[trigger] t[j] == s[j + 1]);
        lemma_first_eq_index_at(t, v, k - 1);
    }
}

/// Inserts `new_val` right after the first node equal to `find_val`,
/// returning the rebuilt chain and whether an insertion happened.
fn insert_after_rec<T: PartialEq>(n: Option<Box<Node<T>>>, find_val: &T, new_val: T) -> (r: (
    Option<Box<Node<T>>>,
    bool,
))
    ensures
        T::obeys_eq_spec() ==> match first_eq_index(node_seq(n), *find_val) {
            Some(i) => r.1 && node_seq(r.0) == node_seq(n).insert(i + 1, new_val),
            None => !r.1 && node_seq(r.0) == node_seq(n),
        },
        node_seq(r.0).len() == node_seq(n).len() + (if r.1 {
            1int
        } else {
            0int
        }),
    decreases node_seq(n).len(),
{
    let ghost full = node_seq(n);
    match n {
        None => (None, false),
        Some(boxed) => {
            let mut node = *boxed;
            proof {
                assert(full.drop_first() =~= node_seq(node.next));
            }
            if node.data == *find_val {
                let next_old = node.next.take();
                let new_node = Box::new(Node { data: new_val, next: next_old });
                proof {
                    assert(node_seq(Some(new_node)) =~= seq![new_val] + full.drop_first());
                }
                node.next = Some(new_node);
                proof {
                    assert(node_seq(node.next) =~= seq![new_val] + full.drop_first());
                }
                let r = Some(Box::new(node));
                proof {
                    assert(node_seq(r) =~= seq![full[0]] + (seq![new_val] + full.drop_first()));
                    assert(node_seq(r) =~= full.insert(1, new_val));
                }
                (r, true)
            } else {
                let next = node.next.take();
                let (rest, inserted) = insert_after_rec(next, find_val, new_val);
                let ghost restseq = node_seq(rest);
                node.next = rest;
                let r = Some(Box::new(node));
                proof {
                    assert(node_seq(r) =~= seq![full[0]] + restseq);
                    if T::obeys_eq_spec() {
                        match first_eq_index(full, *find_val) {
                            Some(i) => {
                                assert(first_eq_index(full.drop_first(), *find_val) == Some(
                                    i - 1,
                                ));
                                lemma_first_eq_index(full.drop_first(), *find_val);
                                assert(restseq == full.drop_first().insert(i, new_val));
                                assert(node_seq(r) =~= full.insert(i + 1, new_val));
                            },
                            None => {
                                assert(node_seq(r) =~= full);
                            },
                        }
                    }
                }
                (r, inserted)
            }
        },
    }
}

/// Removes the node right after the first node equal to `find_val`,
/// returning the rebuilt chain and the removed element, if any.
fn remove_after_rec<T: PartialEq>(n: Option<Box<Node<T>>>, find_val: &T) -> (r: (
    Option<Box<Node<T>>>,
    Option<T>,
))
    ensures
        T::obeys_eq_spec() ==> match first_eq_index(node_seq(n), *find_val) {
            Some(i) => {
                if i + 1 < node_seq(n).len() {
                    r.1 == Some(node_seq(n)[i + 1]) && node_seq(r.0) == node_seq(n).remove(i + 1)
                } else {
                    r.1 is None && node_seq(r.0) == node_seq(n)
                }
            },
            None => r.1 is None && node_seq(r.0) == node_seq(n),
        },
        node_seq(r.0).len() == node_seq(n).len() - (if r.1 is Some {
            1int
        } else {
            0int
        }),
    decreases node_seq(n).len(),
{
    let ghost full = node_seq(n);
    match n {
        None => (None, None),
        Some(boxed) => {
            let mut node = *boxed;
            proof {
                assert(full.drop_first() =~= node_seq(node.next));
            }
            if node.data == *find_val {
                match node.next.take() {
                    None => {
                        let r = Some(Box::new(node));
                        proof {
                            assert(node_seq(r) =~= full);
                        }
                        (r, None)
                    },
                    Some(removed) => {
                        let removed_node = *removed;
                        proof {
                            assert(full.drop_first() =~= seq![removed_node.data] + node_seq(
                                removed_node.next,
                            ));
                        }
                        node.next = removed_node.next;
                        let r = Some(Box::new(node));
                        proof {
                            assert(node_seq(r) =~= seq![full[0]] + node_seq(removed_node.next));
                            assert(node_seq(r) =~= full.remove(1));
                        }
                        (r, Some(removed_node.data))
                    },
                }
            } else {
                let next = node.next.take();
                let (rest, removed) = remove_after_rec(next, find_val);
                let ghost restseq = node_seq(rest);
                node.next = rest;
                let r = Some(Box::new(node));
                proof {
                    assert(node_seq(r) =~= seq![full[0]] + restseq);
                    if T::obeys_eq_spec() {
                        match first_eq_index(full, *find_val) {
                            Some(i) => {
                                assert(first_eq_index(full.drop_first(), *find_val) == Some(
                                    i - 1,
                                ));
                                lemma_first_eq_index(full.drop_first(), *find_val);
                                if i + 1 < full.len() {
                                    assert(restseq == full.drop_first().remove(i));
                                    assert(node_seq(r) =~= full.remove(i + 1));
                                } else {
                                    assert(node_seq(r) =~= full);
                                }
                            },
                            None => {
                                assert(node_seq(r) =~= full);
                            },
                        }
                    }
                }
                (r, removed)
            }
        },
    }
}

/// The predicate, called on the element `x`, answered false.
pub open spec fn rejected_by<T, F: Fn(&T) -> bool>(predicate: F, x: T) -> bool {
    exists|t: &T| *t == x && #[trigger] call_ensures(predicate, (t,), false)
}

/// The singly linked list.
pub struct LinkedList<T> {
    head: Option<Box<Node<T>>>,
    size: usize,
}

impl<T> View for LinkedList<T> {
    type V = Seq<T>;

    closed spec fn view(&self) -> Seq<T> {
        node_seq(self.head)
    }
}

impl<T> LinkedList<T> {
    /// The stored length matches the number of reachable elements.
    pub closed spec fn wf(&self) -> bool {
        self.size == self@.len()
    }

    /// An empty list.
    pub fn new() -> (r: Self)
        ensures
            r.wf(),
            r@ == Seq::<T>::empty(),
    {
        let r = LinkedList { head: None, size: 0 };
        proof {
            assert(r@ =~= Seq::<T>::empty());
        }
        r
    }

    /// The number of elements in the list.
    pub fn size(&self) -> (r: usize)
        requires
            self.wf(),
        ensures
            r == self@.len(),
    {
        self.size
    }

    /// Pushes `data` on the front of the list.
    pub fn push_front(&mut self, data: T)
        requires
            old(self).wf(),
            old(self)@.len() < usize::MAX,
        ensures
            final(self).wf(),
            final(self)@ == seq![data] + old(self)@,
    {
        let node = Box::new(Node { data, next: self.head.take() });
        self.head = Some(node);
        self.size = self.size + 1;
    }

    /// Pops the front element, if any.
    pub fn pop_front(&mut self) -> (r: Option<T>)
        requires
            old(self).wf(),
        ensures
            final(self).wf(),
            match r {
                Some(v) => old(self)@.len() > 0 && v == old(self)@[0] && final(self)@ == old(
                    self,
                )@.drop_first(),
                None => old(self)@.len() == 0 && final(self)@ == old(self)@,
            },
    {
        match self.head.take() {
            None => None,
            Some(boxed) => {
                let node = *boxed;
                self.head = node.next;
                self.size = self.size - 1;
                proof {
                    assert(old(self)@.drop_first() =~= node_seq(self.head));
                }
                Some(node.data)
            },
        }
    }

    /// Returns a reference to the first element the predicate accepts: the
    /// returned element made the predicate answer true, and every earlier
    /// element — or, on a `None` answer, every element — made it answer
    /// false.
    pub fn find<F: Fn(&T) -> bool>(&self, predicate: F) -> (r: Option<&T>)
        requires
            self.wf(),
            forall|t: &T| #[trigger] call_requires(predicate, (t,)),
        ensures
            match r {
                Some(v) => exists|i: int|
                    {
                        &&& 0 <= i < self@.len()
                        &&& self@[i] == *v
                        &&& call_ensures(predicate, (v,), true)
                        &&& forall|j: int| 0 <= j < i ==> rejected_by(predicate, #[trigger] self@[j])
                    },
                None => forall|i: int|
                    0 <= i < self@.len() ==> rejected_by(predicate, #[trigger] self@[i]),
            },
    {
        let ghost all = self@;
        let ghost mut k: int = 0;
        let mut curr: &Option<Box<Node<T>>> = &self.head;
        loop
            invariant
                0 <= k <= all.len(),
                node_seq(*curr) =~= all.skip(k),
                all == self@,
                forall|t: &T| #[trigger] call_requires(predicate, (t,)),
                forall|j: int| 0 <= j < k ==> rejected_by(predicate, #[trigger] all[j]),
            decreases all.len() - k,
        {
            match curr {
                None => {
                    proof {
                        assert(k == all.len());
                    }
                    return None;
                },
                Some(node) => {
                    proof {
                        let nd = **node;
                        assert(*curr == Some(*node));
                        assert(node_seq(Some(*node)) == seq![nd.data] + node_seq(nd.next));
                        assert(node_seq(*curr) =~= seq![node.data] + node_seq(node.next));
                        assert(0 <= k < all.len()) by {
                            assert(node_seq(*curr).len() >= 1);
                        }
                        assert(all.skip(k)[0] == all[k]);
                        assert(node.data == all[k]);
                    }
                    let hit = predicate(&node.data);
                    if hit {
                        return Some(&node.data);
                    }
                    proof {
                        assert(rejected_by(predicate, all[k])) by {
                            assert(call_ensures(predicate, (&node.data,), false));
                        }
                    }
                    proof {
                        assert(all.skip(k).drop_first() =~= all.skip(k + 1));
                        assert(node_seq(node.next) =~= all.skip(k + 1));
                    }
                    curr = &node.next;
                    proof {
                        k = k + 1;
                    }
                },
            }
        }
    }

    /// Reverses the list in place.
    pub fn reverse(&mut self)
        requires
            old(self).wf(),
        ensures
            final(self).wf(),
            final(self)@ == old(self)@.reverse(),
    {
        let ghost orig = self@;
        let mut prev: Option<Box<Node<T>>> = None;
        let mut curr = self.head.take();
        loop
            invariant
                node_seq(prev).reverse() + node_seq(curr) =~= orig,
                self.size == orig.len(),
            ensures
                node_seq(prev).reverse() =~= orig,
            decreases node_seq(curr).len(),
        {
            let ghost pseq = node_seq(prev);
            let ghost cseq = node_seq(curr);
            match curr {
                None => {
                    break;
                },
                Some(boxed) => {
                    let mut node = *boxed;
                    proof {
                        assert(cseq =~= seq![node.data] + node_seq(node.next));
                    }
                    let next = node.next;
                    node.next = prev;
                    proof {
                        assert(cseq.drop_first() =~= node_seq(next));
                    }
                    prev = Some(Box::new(node));
                    curr = next;
                    proof {
                        assert(node_seq(prev) =~= seq![cseq[0]] + pseq);
                        assert((seq![cseq[0]] + pseq).reverse() =~= pseq.reverse() + seq![
                            cseq[0],
                        ]);
                        assert(node_seq(prev).reverse() + node_seq(curr) =~= orig);
                    }
                },
            }
        }
        self.head = prev;
        proof {
            assert(node_seq(self.head) =~= orig.reverse());
        }
    }
}

impl<T: PartialEq> LinkedList<T> {
    /// Inserts `new_val` right after the first element equal to `find_val`,
    /// returning whether such an element was found.
    pub fn insert_after(&mut self, find_val: &T, new_val: T) -> (r: bool)
        requires
            old(self).wf(),
            old(self)@.len() < usize::MAX,
        ensures
            final(self).wf(),
            T::obeys_eq_spec() ==> match first_eq_index(old(self)@, *find_val) {
                Some(i) => r && final(self)@ == old(self)@.insert(i + 1, new_val),
                None => !r && final(self)@ == old(self)@,
            },
            final(self)@.len() == old(self)@.len() + (if r {
                1int
            } else {
                0int
            }),
    {
        let head = self.head.take();
        let (head, inserted) = insert_after_rec(head, find_val, new_val);
        self.head = head;
        if inserted {
            self.size = self.size + 1;
        }
        inserted
    }

    /// Removes and returns the element right after the first element equal to
    /// `find_val`, if both exist.
    pub fn remove_after(&mut self, find_val: &T) -> (r: Option<T>)
        requires
            old(self).wf(),
        ensures
            final(self).wf(),
            T::obeys_eq_spec() ==> match first_eq_index(old(self)@, *find_val) {
                Some(i) => {
                    if i + 1 < old(self)@.len() {
                        r == Some(old(self)@[i + 1]) && final(self)@ == old(self)@.remove(i + 1)
                    } else {
                        r is None && final(self)@ == old(self)@
                    }
                },
                None => r is None && final(self)@ == old(self)@,
            },
            final(self)@.len() == old(self)@.len() - (if r is Some {
                1int
            } else {
                0int
            }),
    {
        let head = self.head.take();
        let (head, removed) = remove_after_rec(head, find_val);
        self.head = head;
        if removed.is_some() {
            self.size = self.size - 1;
        }
        removed
    }
}

/// Every answer the comparator can give is faithful to the order `leq`: a
/// non-`Greater` answer places the first element at or below the second, and
/// a `Greater` answer places the second at or below the first.
pub open spec fn cmp_reflects<T, F: Fn(&T, &T) -> Ordering>(
    cmp: F,
    leq: spec_fn(T, T) -> bool,
) -> bool {
    forall|a: &T, b: &T, o: Ordering|
        #[trigger] call_ensures(cmp, (a, b), o) ==> if o == Ordering::Greater {
            leq(*b, *a)
        } else {
            leq(*a, *b)
        }
}

/// Every element stands at or below its successor under `leq`.
pub open spec fn sorted_by<T>(leq: spec_fn(T, T) -> bool, s: Seq<T>) -> bool {
    forall|i: int| 0 <= i < s.len() - 1 ==> leq(#[trigger] s[i], s[i + 1])
}

/// Splits the first `k` nodes off the chain.
fn split_rec<T>(n: Option<Box<Node<T>>>, k: usize) -> (r: (
    Option<Box<Node<T>>>,
    Option<Box<Node<T>>>,
))
    requires
        k <= node_seq(n).len(),
    ensures
        node_seq(r.0) == node_seq(n).take(k as int),
        node_seq(r.1) == node_seq(n).skip(k as int),
    decreases k,
{
    let ghost full = node_seq(n);
    if k == 0 {
        proof {
            assert(node_seq(None::<Box<Node<T>>>) =~= full.take(0));
            assert(full.skip(0) =~= full);
        }
        (None, n)
    } else {
        match n {
            None => (None, None),
            Some(boxed) => {
                let mut node = *boxed;
                proof {
                    assert(full.drop_first() =~= node_seq(node.next));
                }
                let rest = node.next.take();
                let (front, back) = split_rec(rest, k - 1);
                node.next = front;
                let r0 = Some(Box::new(node));
                proof {
                    assert(node_seq(r0) =~= full.take(k as int));
                    assert(full.drop_first().skip(k - 1) =~= full.skip(k as int));
                }
                (r0, back)
            },
        }
    }
}

/// Merges two chains, repeatedly taking whichever head the comparator does
/// not place above the other.  The result holds exactly the elements of both
/// chains; under any order the comparator is faithful to, merging two sorted
/// chains gives a sorted chain that starts with one of the two heads.
fn merge_rec<T, F: Fn(&T, &T) -> Ordering>(
    l1: Option<Box<Node<T>>>,
    l2: Option<Box<Node<T>>>,
    cmp: &F,
) -> (r: Option<Box<Node<T>>>)
    requires
        forall|a: &T, b: &T| #[trigger] call_requires(*cmp, (a, b)),
    ensures
        node_seq(r).to_multiset() == node_seq(l1).to_multiset().add(node_seq(l2).to_multiset()),
        node_seq(r).len() == node_seq(l1).len() + node_seq(l2).len(),
        forall|leq: spec_fn(T, T) -> bool|
            #[trigger] cmp_reflects(*cmp, leq) && sorted_by(leq, node_seq(l1)) && sorted_by(
                leq,
                node_seq(l2),
            ) ==> sorted_by(leq, node_seq(r)) && (node_seq(r).len() > 0 ==> (node_seq(l1).len() > 0
            && node_seq(r)[0] == node_seq(l1)[0]) || (node_seq(l2).len() > 0 && node_seq(r)[0]
            == node_seq(l2)[0])),
    decreases node_seq(l1).len() + node_seq(l2).len(),
{
    let ghost s1 = node_seq(l1);
    let ghost s2 = node_seq(l2);
    match (l1, l2) {
        (None, None) => {
            proof {
                lemma_multiset_commutative(s1, s2);
                assert(s1 + s2 =~= Seq::<T>::empty());
            }
            None
        },
        (Some(l), None) => {
            let r = Some(l);
            proof {
                lemma_multiset_commutative(s1, s2);
                assert(s1 + s2 =~= s1);
            }
            r
        },
        (None, Some(rb)) => {
            let r = Some(rb);
            proof {
                lemma_multiset_commutative(s1, s2);
                assert(s1 + s2 =~= s2);
            }
            r
        },
        (Some(l_box), Some(r_box)) => {
            let ordering = cmp(&l_box.data, &r_box.data);
            if !matches!(ordering, Ordering::Greater) {
                let mut node = *l_box;
                proof {
                    assert(s1.drop_first() =~= node_seq(node.next));
                }
                let l_next = node.next.take();
                let merged = merge_rec(l_next, Some(r_box), cmp);
                let ghost mseq = node_seq(merged);
                node.next = merged;
                let r = Some(Box::new(node));
                proof {
                    assert(node_seq(r) =~= seq![s1[0]] + mseq);
                    lemma_cons_multiset(s1[0], mseq);
                    lemma_cons_multiset(s1[0], s1.drop_first());
                    assert(seq![s1[0]] + s1.drop_first() =~= s1);
                    lemma_multiset_commutative(s1.drop_first(), s2);
                    assert(node_seq(r).to_multiset() =~= s1.to_multiset().add(s2.to_multiset()));
                    assert forall|leq: spec_fn(T, T) -> bool|
                        #[trigger] cmp_reflects(*cmp, leq) && sorted_by(leq, s1) && sorted_by(
                            leq,
                            s2,
                        ) implies sorted_by(leq, node_seq(r)) && (node_seq(r).len() > 0 ==> (
                    s1.len() > 0 && node_seq(r)[0] == s1[0]) || (s2.len() > 0 && node_seq(r)[0]
                        == s2[0])) by {
                        assert(sorted_by(leq, s1.drop_first())) by {
                            assert(forall|i: int|
                                0 <= i < s1.drop_first().len() ==> #[trigger] s1.drop_first()[i]
                                    == s1[i + 1]);
                        }
                        assert(leq(s1[0], s2[0]));
                        assert(sorted_by(leq, mseq) && (mseq.len() > 0 ==> (s1.drop_first().len()
                            > 0 && mseq[0] == s1.drop_first()[0]) || (s2.len() > 0 && mseq[0]
                            == s2[0])));
                        assert forall|i: int| 0 <= i < node_seq(r).len() - 1 implies leq(
                            #[trigger] node_seq(r)[i],
                            node_seq(r)[i + 1],
                        ) by {
                            if i == 0 {
                                assert(mseq.len() > 0);
                                assert(node_seq(r)[1] == mseq[0]);
                                if s1.drop_first().len() > 0 && mseq[0] == s1.drop_first()[0] {
                                    assert(leq(s1[0], s1[1]));
                                } else {
                                    assert(leq(s1[0], s2[0]));
                                }
                            } else {
                                assert(node_seq(r)[i] == mseq[i - 1]);
                                assert(node_seq(r)[i + 1] == mseq[i]);
                            }
                        }
                    }
                }
                r
            } else {
                let mut node = *r_box;
                proof {
                    assert(s2.drop_first() =~= node_seq(node.next));
                }
                let r_next = node.next.take();
                let merged = merge_rec(Some(l_box), r_next, cmp);
                let ghost mseq = node_seq(merged);
                node.next = merged;
                let r = Some(Box::new(node));
                proof {
                    assert(node_seq(r) =~= seq![s2[0]] + mseq);
                    lemma_cons_multiset(s2[0], mseq);
                    lemma_cons_multiset(s2[0], s2.drop_first());
                    assert(seq![s2[0]] + s2.drop_first() =~= s2);
                    lemma_multiset_commutative(s1, s2.drop_first());
                    assert(node_seq(r).to_multiset() =~= s1.to_multiset().add(s2.to_multiset()));
                    assert forall|leq: spec_fn(T, T) -> bool|
                        #[trigger] cmp_reflects(*cmp, leq) && sorted_by(leq, s1) && sorted_by(
                            leq,
                            s2,
                        ) implies sorted_by(leq, node_seq(r)) && (node_seq(r).len() > 0 ==> (
                    s1.len() > 0 && node_seq(r)[0] == s1[0]) || (s2.len() > 0 && node_seq(r)[0]
                        == s2[0])) by {
                        assert(sorted_by(leq, s2.drop_first())) by {
                            assert(forall|i: int|
                                0 <= i < s2.drop_first().len() ==> #[trigger] s2.drop_first()[i]
                                    == s2[i + 1]);
                        }
                        assert(leq(s2[0], s1[0]));
                        assert(sorted_by(leq, mseq) && (mseq.len() > 0 ==> (s1.len() > 0 && mseq[0]
                            == s1[0]) || (s2.drop_first().len() > 0 && mseq[0]
                            == s2.drop_first()[0])));
                        assert forall|i: int| 0 <= i < node_seq(r).len() - 1 implies leq(
                            #[trigger] node_seq(r)[i],
                            node_seq(r)[i + 1],
                        ) by {
                            if i == 0 {
                                assert(mseq.len() > 0);
                                assert(node_seq(r)[1] == mseq[0]);
                                if s1.len() > 0 && mseq[0] == s1[0] {
                                    assert(leq(s2[0], s1[0]));
                                } else {
                                    assert(leq(s2[0], s2[1]));
                                }
                            } else {
                                assert(node_seq(r)[i] == mseq[i - 1]);
                                assert(node_seq(r)[i + 1] == mseq[i]);
                            }
                        }
                    }
                }
                r
            }
        },
    }
}

/// Prepending an element inserts it into the sequence's multiset.
proof fn lemma_cons_multiset<T>(x: T, s: Seq<T>)
    ensures
        (seq![x] + s).to_multiset() == s.to_multiset().insert(x),
    decreases s.len(),
{
    seq![x].to_multiset_ensures();
    (seq![x] + s).to_multiset_ensures();
    s.to_multiset_ensures();
    lemma_multiset_commutative(seq![x], s);
    assert(Seq::<T>::empty().push(x) =~= seq![x]);
    Seq::<T>::empty().to_multiset_ensures();
    assert(seq![x].to_multiset() == Seq::<T>::empty().to_multiset().insert(x)) by {
        Seq::<T>::empty().push(x).to_multiset_ensures();
        assert(Seq::<T>::empty().push(x).to_multiset() == Seq::<T>::empty().to_multiset().insert(
            x,
        ));
    }
    assert(seq![x].to_multiset().add(s.to_multiset()) =~= s.to_multiset().insert(x));
}

/// Sorts the chain by splitting it in half, sorting each half and merging.
fn merge_sort_rec<T, F: Fn(&T, &T) -> Ordering>(
    n: Option<Box<Node<T>>>,
    len: usize,
    cmp: &F,
) -> (r: Option<Box<Node<T>>>)
    requires
        node_seq(n).len() == len,
        forall|a: &T, b: &T| #[trigger] call_requires(*cmp, (a, b)),
    ensures
        node_seq(r).to_multiset() == node_seq(n).to_multiset(),
        node_seq(r).len() == len,
        forall|leq: spec_fn(T, T) -> bool|
            #[trigger] cmp_reflects(*cmp, leq) ==> sorted_by(leq, node_seq(r)),
    decreases len,
{
    if len <= 1 {
        n
    } else {
        let ghost full = node_seq(n);
        let half = len / 2;
        let (front, back) = split_rec(n, half);
        let sorted_front = merge_sort_rec(front, half, cmp);
        let sorted_back = merge_sort_rec(back, len - half, cmp);
        let r = merge_rec(sorted_front, sorted_back, cmp);
        proof {
            assert(full.take(half as int) + full.skip(half as int) =~= full);
            lemma_multiset_commutative(full.take(half as int), full.skip(half as int));
        }
        r
    }
}

/// Under a transitive order, adjacent sortedness extends to every pair.
proof fn lemma_sorted_chain<T>(leq: spec_fn(T, T) -> bool, s: Seq<T>, i: int, j: int)
    requires
        sorted_by(leq, s),
        forall|x: T, y: T, z: T| #[trigger] leq(x, y) && #[trigger] leq(y, z) ==> leq(x, z),
        0 <= i < j < s.len(),
    ensures
        leq(s[i], s[j]),
    decreases j - i,
{
    if j > i + 1 {
        lemma_sorted_chain(leq, s, i, j - 1);
        assert(leq(s[j - 1], s[j]));
    }
}

/// Under a transitive order, adjacent sortedness is sortedness outright.
pub proof fn lemma_sorted_by_pairwise<T>(leq: spec_fn(T, T) -> bool, s: Seq<T>)
    requires
        sorted_by(leq, s),
        forall|x: T, y: T, z: T| #[trigger] leq(x, y) && #[trigger] leq(y, z) ==> leq(x, z),
    ensures
        vstd::relations::sorted_by(s, leq),
{
    assert forall|i: int, j: int| 0 <= i < j < s.len() implies #[trigger] leq(s[i], s[j]) by {
        lemma_sorted_chain(leq, s, i, j);
    }
}

impl<T> LinkedList<T> {
    /// Sorts the list with the comparator: afterwards the list holds exactly
    /// the same elements, and it is sorted under every order the comparator
    /// is faithful to.
    pub fn mergesort<F: Fn(&T, &T) -> Ordering>(&mut self, cmp: &F)
        requires
            old(self).wf(),
            forall|a: &T, b: &T| #[trigger] call_requires(*cmp, (a, b)),
        ensures
            final(self).wf(),
            final(self)@.to_multiset() == old(self)@.to_multiset(),
            final(self)@.len() == old(self)@.len(),
            forall|leq: spec_fn(T, T) -> bool|
                #[trigger] cmp_reflects(*cmp, leq) ==> sorted_by(leq, final(self)@),
    {
        let len = self.size;
        let head = self.head.take();
        self.head = merge_sort_rec(head, len, cmp);
    }
}

} // verus!
