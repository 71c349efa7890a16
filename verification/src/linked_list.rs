//! The doubly linked list container and its node type.
//!
//! Nodes live in an arena: a `Vec` of `Node` values linked by slot index
//! rather than by raw pointer. A ghost sequence `order` records the slot of
//! each node in head-to-tail order; the well-formedness predicate says that
//! `head`, `tail` and every `next`/`prev` link agree with that order, and
//! the abstract value of the list (its view) is the sequence of node values
//! read along it.

use vstd::prelude::*;
use vstd::string::StringExecFns;

verus! {

/// One storage unit of the list: a value plus forward and backward links.
///
/// A link is the slot index of the neighbouring node in the list's arena,
/// or `None` at the ends of the chain.
pub struct Node<T> {
    pub val: T,
    pub next: Option<usize>,
    prev: Option<usize>,
}

impl<T> Node<T> {
    fn new(t: T) -> (n: Node<T>)
        ensures
            n.val == t,
            n.next is None,
            n.prev is None,
    {
        Node { val: t, prev: None, next: None }
    }
}

/// The slot order with `s` spliced in at position `k`: the slots before `k`
/// keep their position, `s` takes position `k`, the rest move up by one.
spec fn spliced(p: Seq<usize>, k: int, s: usize) -> Seq<usize> {
    Seq::new(
        (p.len() + 1) as nat,
        |i: int|
            if i < k {
                p[i]
            } else if i == k {
                s
            } else {
                p[i - 1]
            },
    )
}

/// The slot order with position `k` spliced out: the slots after `k` move
/// down by one.
spec fn unspliced(p: Seq<usize>, k: int) -> Seq<usize> {
    Seq::new(
        (p.len() - 1) as nat,
        |i: int|
            if i < k {
                p[i]
            } else {
                p[i + 1]
            },
    )
}

/// The chain discipline of an arena `n` holding the list `p` of slots:
/// every listed slot is in bounds and listed once, each listed node's `prev`
/// and `next` are its neighbours in `p`, and `h` and `t` are the first and
/// last listed slot. Slots of `n` outside `p` are unconstrained, which lets
/// the predicate describe the arena mid-splice.
spec fn linked<T>(n: Seq<Node<T>>, p: Seq<usize>, h: Option<usize>, t: Option<usize>) -> bool {
    &&& forall|i: int| 0 <= i < p.len() ==> (#[trigger] p[i]) < n.len()
    &&& forall|i: int, j: int|
        #![trigger p[i], p[j]]
        0 <= i < p.len() && 0 <= j < p.len() && i != j ==> p[i] != p[j]
    &&& forall|i: int|
        0 <= i < p.len() ==> n[(#[trigger] p[i]) as int].prev == (if i == 0 {
            Option::<usize>::None
        } else {
            Some(p[i - 1])
        })
    &&& forall|i: int|
        0 <= i < p.len() ==> n[(#[trigger] p[i]) as int].next == (if i + 1 == p.len() {
            Option::<usize>::None
        } else {
            Some(p[i + 1])
        })
    &&& h == (if p.len() == 0 {
        Option::<usize>::None
    } else {
        Some(p[0])
    })
    &&& t == (if p.len() == 0 {
        Option::<usize>::None
    } else {
        Some(p[p.len() - 1])
    })
}

/// The slot order with every occurrence of slot `a` renamed to slot `b`:
/// how the order reads after the node in slot `a` moves to slot `b`.
spec fn renamed(p: Seq<usize>, a: usize, b: usize) -> Seq<usize> {
    Seq::new(
        p.len(),
        |i: int|
            if p[i] == a {
                b
            } else {
                p[i]
            },
    )
}

/// The slots read by following `next` links from `cur` through the arena
/// `n`, taking at most `fuel` steps; an out-of-bounds slot ends the walk.
spec fn walk_next<T>(n: Seq<Node<T>>, cur: Option<usize>, fuel: nat) -> Seq<usize>
    decreases fuel,
{
    match cur {
        Option::None => Seq::empty(),
        Option::Some(s) => if fuel == 0 || (s as int) >= n.len() {
            Seq::empty()
        } else {
            seq![s] + walk_next(n, n[s as int].next, (fuel - 1) as nat)
        },
    }
}

/// The slots read by following `prev` links from `cur` through the arena
/// `n`, taking at most `fuel` steps; an out-of-bounds slot ends the walk.
spec fn walk_prev<T>(n: Seq<Node<T>>, cur: Option<usize>, fuel: nat) -> Seq<usize>
    decreases fuel,
{
    match cur {
        Option::None => Seq::empty(),
        Option::Some(s) => if fuel == 0 || (s as int) >= n.len() {
            Seq::empty()
        } else {
            seq![s] + walk_prev(n, n[s as int].prev, (fuel - 1) as nat)
        },
    }
}

/// A doubly linked list: an arena of nodes, the slots of the first and last
/// node, and the number of linked nodes.
pub struct LinkedList<T> {
    nodes: Vec<Node<T>>,
    pub length: u64,
    head: Option<usize>,
    tail: Option<usize>,
    order: Ghost<Seq<usize>>,
}

impl<T> View for LinkedList<T> {
    type V = Seq<T>;

    closed spec fn view(&self) -> Seq<T> {
        Seq::new(self.order@.len(), |i: int| self.nodes@[self.order@[i] as int].val)
    }
}

impl<T> LinkedList<T> {
    /// The structural invariant: `order` lists each arena slot exactly once,
    /// `head` and `tail` are the first and last of them, every node's `prev`
    /// and `next` point to its neighbours in `order`, and `length` counts
    /// the linked nodes.
    pub closed spec fn well_formed(&self) -> bool {
        &&& self.length as int == self.order@.len()
        &&& self.nodes@.len() == self.order@.len()
        &&& linked(self.nodes@, self.order@, self.head, self.tail)
    }

    /// The number of linked nodes; it always counts exactly the values of
    /// the list.
    pub fn len(&self) -> (n: u64)
        requires
            self.well_formed(),
        ensures
            n as int == self@.len(),
    {
        self.length
    }

    /// The slot of the node at position `k`, found by walking `next` links
    /// forward from `head`, exactly as an indexed lookup must.
    fn slot_at(&self, k: usize) -> (s: usize)
        requires
            self.well_formed(),
            (k as int) < self@.len(),
        ensures
            s == self.order@[k as int],
    {
        let mut cur: usize = self.head.unwrap();
        let mut i: usize = 0;
        while i < k
            invariant
                self.well_formed(),
                i <= k,
                (k as int) < self@.len(),
                cur == self.order@[i as int],
            decreases k - i,
        {
            cur = self.nodes[cur].next.unwrap();
            i = i + 1;
        }
        cur
    }

    /// Inserts `value` so that it becomes the node at position `k`: a fresh
    /// slot is pushed onto the arena and spliced in between the nodes at
    /// positions `k - 1` and `k`, or made `head`/`tail` at the ends.
    #[verifier::rlimit(50)]
    fn insert_at(&mut self, k: usize, value: T)
        requires
            old(self).well_formed(),
            (k as int) <= old(self)@.len(),
        ensures
            final(self).well_formed(),
            final(self)@ == old(self)@.insert(k as int, value),
            final(self).length == old(self).length + 1,
    {
        let ghost p = self.order@;
        let s: usize = self.nodes.len();
        let (prv, nxt): (Option<usize>, Option<usize>) = if k == self.nodes.len() {
            (self.tail, None)
        } else {
            let t = self.slot_at(k);
            (self.nodes[t].prev, Some(t))
        };
        let mut node = Node::new(value);
        node.prev = prv;
        node.next = nxt;
        self.nodes.push(node);
        match prv {
            Some(pp) => {
                self.nodes[pp].next = Some(s);
            },
            None => {
                self.head = Some(s);
            },
        }
        match nxt {
            Some(nn) => {
                self.nodes[nn].prev = Some(s);
            },
            None => {
                self.tail = Some(s);
            },
        }
        self.order = Ghost(spliced(p, k as int, s));
        self.length = self.nodes.len() as u64;
        proof {
            self.lemma_wf_after_insert(*old(self), k as int, s);
        }
    }

    /// The splice in `insert_at` rebuilt a well-formed list around the new
    /// slot: every clause of `well_formed` holds of the updated arena, and
    /// the view gained exactly the new value at position `k`.
    #[verifier::rlimit(50)]
    proof fn lemma_wf_after_insert(&self, prior: Self, k: int, s: usize)
        requires
            prior.well_formed(),
            0 <= k <= prior.order@.len(),
            s == prior.nodes@.len(),
            self.length == prior.length + 1,
            self.order@ == spliced(prior.order@, k, s),
            self.head == (if k == 0 {
                Some(s)
            } else {
                prior.head
            }),
            self.tail == (if k == prior.order@.len() {
                Some(s)
            } else {
                prior.tail
            }),
            ({
                let pushed = prior.nodes@.push(self.nodes@[s as int]);
                let relinked = if k > 0 {
                    pushed.update(
                        prior.order@[k - 1] as int,
                        Node { next: Some(s), ..pushed[prior.order@[k - 1] as int] },
                    )
                } else {
                    pushed
                };
                self.nodes@ == if k < prior.order@.len() {
                    relinked.update(
                        prior.order@[k] as int,
                        Node { prev: Some(s), ..relinked[prior.order@[k] as int] },
                    )
                } else {
                    relinked
                }
            }),
            self.nodes@[s as int].prev == (if k == 0 {
                Option::<usize>::None
            } else {
                Some(prior.order@[k - 1])
            }),
            self.nodes@[s as int].next == (if k == prior.order@.len() {
                Option::<usize>::None
            } else {
                Some(prior.order@[k])
            }),
        ensures
            self.well_formed(),
            self@ == prior@.insert(k, self.nodes@[s as int].val),
    {
        let p = prior.order@;
        let p2 = self.order@;
        let n2 = self.nodes@;
        let len = p.len() as int;
        assert forall|i: int| 0 <= i < p2.len() implies (#[trigger] p2[i]) < p2.len() by {}
        assert forall|i: int, j: int|
            0 <= i < p2.len() && 0 <= j < p2.len() && i != j implies p2[i] != p2[j] by {}
        assert forall|i: int| 0 <= i < p2.len() implies n2[(#[trigger] p2[i]) as int].prev == (if i
            == 0 {
            Option::<usize>::None
        } else {
            Some(p2[i - 1])
        }) by {
            if i < k {
                if k > 0 && p[i] == p[k - 1] {
                    assert(i == k - 1);
                }
                if k < len && p[i] == p[k] {
                    assert(i == k);
                }
            } else if i > k {
                if i == k + 1 {
                    assert(n2[p2[i] as int].prev == Some(s));
                } else {
                    if k > 0 && p[i - 1] == p[k - 1] {
                        assert(i - 1 == k - 1);
                    }
                    if k < len && p[i - 1] == p[k] {
                        assert(i - 1 == k);
                    }
                }
            }
        }
        assert forall|i: int| 0 <= i < p2.len() implies n2[(#[trigger] p2[i]) as int].next == (if i
            + 1 == p2.len() {
            Option::<usize>::None
        } else {
            Some(p2[i + 1])
        }) by {
            if i < k {
                if i == k - 1 {
                    assert(n2[p2[i] as int].next == Some(s));
                } else {
                    if k > 0 && p[i] == p[k - 1] {
                        assert(i == k - 1);
                    }
                    if k < len && p[i] == p[k] {
                        assert(i == k);
                    }
                }
            } else if i > k {
                if k > 0 && p[i - 1] == p[k - 1] {
                    assert(i - 1 == k - 1);
                }
                if k < len && p[i - 1] == p[k] {
                    assert(i - 1 == k);
                }
            }
        }
        assert(self@ =~= prior@.insert(k, self.nodes@[s as int].val));
    }

    /// Inserts `value` at the front: the new node becomes `head`, and the
    /// old head (if any) becomes its successor.
    pub fn insert_at_head(&mut self, obj: T)
        requires
            old(self).well_formed(),
        ensures
            final(self).well_formed(),
            final(self)@ == seq![obj] + old(self)@,
    {
        self.insert_at(0, obj);
        proof {
            assert(self@ =~= seq![obj] + old(self)@);
        }
    }

    /// Inserts `value` at the back: the new node becomes `tail`, and the
    /// old tail (if any) becomes its predecessor.
    pub fn insert_at_tail(&mut self, obj: T)
        requires
            old(self).well_formed(),
        ensures
            final(self).well_formed(),
            final(self)@ == old(self)@.push(obj),
    {
        let k = self.nodes.len();
        self.insert_at(k, obj);
        proof {
            assert(self@ =~= old(self)@.push(obj));
        }
    }

    /// Inserts `value` so that it takes the zero-based position `index`;
    /// `index == 0` makes it the head and `index == length` the tail.
    /// An index beyond `length` is a caller error and is excluded, where
    /// the panic of an unverified container would be.
    #[verifier::rlimit(50)]
    pub fn insert_at_ith(&mut self, index: u64, obj: T)
        requires
            old(self).well_formed(),
            index as int <= old(self)@.len(),
        ensures
            final(self).well_formed(),
            final(self)@ == old(self)@.insert(index as int, obj),
    {
        let cap = self.nodes.len();
        proof {
            assert(index as int <= cap as int);
        }
        let k = index as usize;
        self.insert_at(k, obj);
    }

    /// A list of `n` distinct slots, each below `n`, uses every slot below
    /// `n`: counting pigeonholes, none can be missing.
    proof fn lemma_order_covers(p: Seq<usize>, v: usize)
        requires
            forall|i: int| 0 <= i < p.len() ==> (#[trigger] p[i]) < p.len(),
            forall|i: int, j: int|
                #![trigger p[i], p[j]]
                0 <= i < p.len() && 0 <= j < p.len() && i != j ==> p[i] != p[j],
            (v as int) < p.len(),
        ensures
            exists|i: int| 0 <= i < p.len() && p[i] == v,
    {
        broadcast use vstd::set::group_set_axioms;

        if !(exists|i: int| 0 <= i < p.len() && p[i] == v) {
            let q = p.map_values(|x: usize| x as int);
            assert(q.no_duplicates());
            q.unique_seq_to_set();
            let r = vstd::set_lib::set_int_range(0, p.len() as int).remove(v as int);
            assert forall|x: int| q.to_set().contains(x) implies r.contains(x) by {
                let i = choose|i: int| 0 <= i < q.len() && q[i] == x;
                assert(p[i] as int == x);
                assert(p[i] != v);
            }
            vstd::set_lib::lemma_int_range(0, p.len() as int);
            assert(vstd::set_lib::set_int_range(0, p.len() as int).contains(v as int));
            vstd::set_lib::lemma_len_subset(q.to_set(), r);
            assert(false);
        }
    }

    /// Unlinking the node at position `k` leaves the arena linked as the
    /// list without that position: its two neighbours point past it (or
    /// `head`/`tail` move), every other node keeps its links, and no value
    /// changes, the unlinked slot's included.
    #[verifier::rlimit(50)]
    proof fn lemma_splice_out(
        n: Seq<Node<T>>,
        p: Seq<usize>,
        h: Option<usize>,
        t: Option<usize>,
        n1: Seq<Node<T>>,
        h1: Option<usize>,
        t1: Option<usize>,
        k: int,
    )
        requires
            linked(n, p, h, t),
            0 <= k < p.len(),
            ({
                let prv = if k == 0 {
                    Option::<usize>::None
                } else {
                    Some(p[k - 1])
                };
                let nxt = if k + 1 == p.len() {
                    Option::<usize>::None
                } else {
                    Some(p[k + 1])
                };
                let na = if k > 0 {
                    n.update(p[k - 1] as int, Node { next: nxt, ..n[p[k - 1] as int] })
                } else {
                    n
                };
                let nb = if k + 1 < p.len() {
                    na.update(p[k + 1] as int, Node { prev: prv, ..na[p[k + 1] as int] })
                } else {
                    na
                };
                &&& n1 == nb
                &&& h1 == (if k == 0 {
                    nxt
                } else {
                    h
                })
                &&& t1 == (if k + 1 == p.len() {
                    prv
                } else {
                    t
                })
            }),
        ensures
            linked(n1, unspliced(p, k), h1, t1),
            n1.len() == n.len(),
            forall|i: int|
                0 <= i < p.len() - 1 ==> n1[(#[trigger] unspliced(p, k)[i]) as int].val == n[
                    unspliced(p, k)[i] as int
                ].val,
            n1[p[k] as int] == n[p[k] as int],
    {
        let p1 = unspliced(p, k);
        let len = p.len() as int;
        assert forall|i: int| 0 <= i < p1.len() implies n1[(#[trigger] p1[i]) as int].prev == (if i
            == 0 {
            Option::<usize>::None
        } else {
            Some(p1[i - 1])
        }) by {
            if i == k {
            } else {
                let i0 = if i < k {
                    i
                } else {
                    i + 1
                };
                assert(p1[i] == p[i0]);
                if k > 0 && p[i0] == p[k - 1] {
                    assert(i0 == k - 1);
                }
                if k + 1 < len && p[i0] == p[k + 1] {
                    assert(i0 == k + 1);
                }
            }
        }
        assert forall|i: int| 0 <= i < p1.len() implies n1[(#[trigger] p1[i]) as int].next == (if i
            + 1 == p1.len() {
            Option::<usize>::None
        } else {
            Some(p1[i + 1])
        }) by {
            if i == k - 1 {
            } else {
                let i0 = if i < k {
                    i
                } else {
                    i + 1
                };
                assert(p1[i] == p[i0]);
                if k > 0 && p[i0] == p[k - 1] {
                    assert(i0 == k - 1);
                }
                if k + 1 < len && p[i0] == p[k + 1] {
                    assert(i0 == k + 1);
                }
            }
        }
        assert forall|i: int| 0 <= i < p.len() - 1 implies n1[(#[trigger] p1[i]) as int].val == n[
            p1[i] as int
        ].val by {
            let i0 = if i < k {
                i
            } else {
                i + 1
            };
            assert(p1[i] == p[i0]);
        }
        if k > 0 && p[k] == p[k - 1] {
            assert(false);
        }
        if k + 1 < len && p[k] == p[k + 1] {
            assert(false);
        }
    }

    /// Moving the node in the last arena slot into the freed slot `s` keeps
    /// the arena linked, with the order reading `s` where it read the last
    /// slot: the moved node's neighbours (or `head`/`tail`) point at `s`,
    /// and the arena is one slot shorter.
    #[verifier::spinoff_prover]
    #[verifier::rlimit(100)]
    proof fn lemma_swap_slot(
        n1: Seq<Node<T>>,
        p1: Seq<usize>,
        h1: Option<usize>,
        t1: Option<usize>,
        n2: Seq<Node<T>>,
        h2: Option<usize>,
        t2: Option<usize>,
        s: usize,
        last: usize,
        j: int,
    )
        requires
            linked(n1, p1, h1, t1),
            p1.len() + 1 == n1.len(),
            (s as int) < n1.len(),
            last as int == n1.len() - 1,
            s != last,
            forall|i: int| 0 <= i < p1.len() ==> (#[trigger] p1[i]) != s,
            0 <= j < p1.len(),
            p1[j] == last,
            ({
                let na = if j > 0 {
                    n1.update(p1[j - 1] as int, Node { next: Some(s), ..n1[p1[j - 1] as int] })
                } else {
                    n1
                };
                let nb = if j + 1 < p1.len() {
                    na.update(p1[j + 1] as int, Node { prev: Some(s), ..na[p1[j + 1] as int] })
                } else {
                    na
                };
                &&& n2 == nb.update(s as int, nb[last as int]).drop_last()
                &&& h2 == (if j == 0 {
                    Some(s)
                } else {
                    h1
                })
                &&& t2 == (if j + 1 == p1.len() {
                    Some(s)
                } else {
                    t1
                })
            }),
        ensures
            linked(n2, renamed(p1, last, s), h2, t2),
            forall|i: int|
                0 <= i < p1.len() ==> n2[(#[trigger] renamed(p1, last, s)[i]) as int].val == n1[
                    p1[i] as int
                ].val,
    {
        let p2 = renamed(p1, last, s);
        let len1 = p1.len() as int;
        assert forall|i: int| 0 <= i < p1.len() && i != j implies p1[i] != last by {
            if p1[i] == last {
                assert(p1[i] == p1[j]);
            }
        }
        assert forall|i: int| 0 <= i < p2.len() implies (#[trigger] p2[i]) < n2.len() by {
            if i == j {
            } else {
                assert(p1[i] != last && p1[i] != s);
            }
        }
        assert forall|i: int, j2: int|
            0 <= i < p2.len() && 0 <= j2 < p2.len() && i != j2 implies p2[i] != p2[j2] by {
            if i != j && j2 != j {
                assert(p2[i] == p1[i] && p2[j2] == p1[j2]);
            }
        }
        assert forall|i: int| 0 <= i < p2.len() implies n2[(#[trigger] p2[i]) as int].prev == (if i
            == 0 {
            Option::<usize>::None
        } else {
            Some(p2[i - 1])
        }) by {
            if i == j {
                assert(n2[s as int] == n1[last as int]);
            } else {
                assert(p2[i] == p1[i] && p1[i] != last && p1[i] != s);
                if i == j + 1 {
                    assert(n2[p2[i] as int].prev == Some(s));
                } else {
                    if j > 0 && p1[i] == p1[j - 1] {
                        assert(i == j - 1);
                    }
                    if j + 1 < len1 && p1[i] == p1[j + 1] {
                        assert(i == j + 1);
                    }
                }
            }
        }
        assert forall|i: int| 0 <= i < p2.len() implies n2[(#[trigger] p2[i]) as int].next == (if i
            + 1 == p2.len() {
            Option::<usize>::None
        } else {
            Some(p2[i + 1])
        }) by {
            if i == j {
                assert(n2[s as int] == n1[last as int]);
            } else {
                assert(p2[i] == p1[i] && p1[i] != last && p1[i] != s);
                if i == j - 1 {
                    assert(n2[p2[i] as int].next == Some(s));
                } else {
                    if j > 0 && p1[i] == p1[j - 1] {
                        assert(i == j - 1);
                    }
                    if j + 1 < len1 && p1[i] == p1[j + 1] {
                        assert(i == j + 1);
                    }
                }
            }
        }
        assert forall|i: int| 0 <= i < p1.len() implies n2[(#[trigger] p2[i]) as int].val == n1[
            p1[i] as int
        ].val by {
            if i == j {
                assert(n2[s as int] == n1[last as int]);
            } else {
                assert(p2[i] == p1[i] && p1[i] != last && p1[i] != s);
            }
        }
    }

    /// Removes the node at position `k` and returns its value: the node is
    /// unlinked from its neighbours, and the arena's last slot is moved into
    /// the freed slot so that the arena stays dense.
    #[verifier::rlimit(50)]
    fn remove_at(&mut self, k: usize) -> (r: T)
        requires
            old(self).well_formed(),
            (k as int) < old(self)@.len(),
        ensures
            final(self).well_formed(),
            final(self)@ == old(self)@.remove(k as int),
            r == old(self)@[k as int],
            final(self).length == old(self).length - 1,
    {
        let ghost p = self.order@;
        let ghost n0 = self.nodes@;
        let s = self.slot_at(k);
        let prv = self.nodes[s].prev;
        let nxt = self.nodes[s].next;
        match prv {
            Some(pp) => {
                self.nodes[pp].next = nxt;
            },
            None => {
                self.head = nxt;
            },
        }
        match nxt {
            Some(nn) => {
                self.nodes[nn].prev = prv;
            },
            None => {
                self.tail = prv;
            },
        }
        let ghost p1 = unspliced(p, k as int);
        proof {
            Self::lemma_splice_out(
                n0,
                p,
                old(self).head,
                old(self).tail,
                self.nodes@,
                self.head,
                self.tail,
                k as int,
            );
            assert forall|i: int| 0 <= i < p1.len() implies (#[trigger] p1[i]) != s by {
                let i0 = if i < k {
                    i
                } else {
                    i + 1
                };
                assert(p1[i] == p[i0] && p[k as int] == s);
                if p[i0] == p[k as int] {
                    assert(i0 == k as int);
                }
            }
        }
        self.order = Ghost(p1);
        let v = self.swap_out(s);
        proof {
            assert(v == n0[p[k as int] as int].val);
            assert(old(self)@[k as int] == n0[p[k as int] as int].val);
            assert forall|i: int| 0 <= i < self@.len() implies self@[i] == old(self)@.remove(
                k as int,
            )[i] by {
                let i0 = if i < k {
                    i
                } else {
                    i + 1
                };
                assert(p1[i] == p[i0]);
                assert(self@[i] == n0[p[i0] as int].val);
                assert(old(self)@[i0] == n0[p[i0] as int].val);
            }
            assert(self@ =~= old(self)@.remove(k as int));
        }
        v
    }

    /// Frees the arena slot `s`, which the list no longer uses, by moving
    /// the node in the last slot into it and shrinking the arena by one;
    /// returns the value left behind in `s`.
    fn swap_out(&mut self, s: usize) -> (r: T)
        requires
            linked(old(self).nodes@, old(self).order@, old(self).head, old(self).tail),
            old(self).nodes@.len() == old(self).order@.len() + 1,
            (s as int) < old(self).nodes@.len(),
            forall|i: int|
                0 <= i < old(self).order@.len() ==> (#[trigger] old(self).order@[i]) != s,
        ensures
            final(self).well_formed(),
            final(self)@.len() == old(self).order@.len(),
            forall|i: int|
                0 <= i < old(self).order@.len() ==> final(self)@[i] == old(self).nodes@[(
                #[trigger] old(self).order@[i]) as int].val,
            r == old(self).nodes@[s as int].val,
    {
        let last = self.nodes.len() - 1;
        if s != last {
            self.relocate_last(s)
        } else {
            self.pop_last(s)
        }
    }

    /// The simple half of `swap_out`: the freed slot is already the last
    /// one, so the arena just shrinks by one.
    #[verifier::spinoff_prover]
    #[verifier::rlimit(100)]
    fn pop_last(&mut self, s: usize) -> (r: T)
        requires
            linked(old(self).nodes@, old(self).order@, old(self).head, old(self).tail),
            old(self).nodes@.len() == old(self).order@.len() + 1,
            s as int == old(self).nodes@.len() - 1,
            forall|i: int|
                0 <= i < old(self).order@.len() ==> (#[trigger] old(self).order@[i]) != s,
        ensures
            final(self).well_formed(),
            final(self)@.len() == old(self).order@.len(),
            forall|i: int|
                0 <= i < old(self).order@.len() ==> final(self)@[i] == old(self).nodes@[(
                #[trigger] old(self).order@[i]) as int].val,
            r == old(self).nodes@[s as int].val,
    {
        let ghost p1 = self.order@;
        let ghost n1 = self.nodes@;
        let ghost h1 = self.head;
        let ghost t1 = self.tail;
        let node = self.nodes.swap_remove(s);
        self.order = Ghost(p1);
        self.length = self.nodes.len() as u64;
        proof {
            assert(self.nodes@ =~= n1.drop_last());
            assert(linked(self.nodes@, p1, h1, t1));
            assert forall|i: int| 0 <= i < p1.len() implies self@[i] == n1[(
            #[trigger] p1[i]) as int].val by {
                assert(p1[i] != s);
            }
        }
        node.val
    }

    /// The relocation inside `swap_out`: the node in the last arena slot
    /// moves into the freed slot `s`, its neighbours (or `head`/`tail`) are
    /// repointed at `s`, and the arena shrinks by one.
    #[verifier::spinoff_prover]
    #[verifier::rlimit(100)]
    fn relocate_last(&mut self, s: usize) -> (r: T)
        requires
            linked(old(self).nodes@, old(self).order@, old(self).head, old(self).tail),
            old(self).nodes@.len() == old(self).order@.len() + 1,
            (s as int) < old(self).nodes@.len() - 1,
            forall|i: int|
                0 <= i < old(self).order@.len() ==> (#[trigger] old(self).order@[i]) != s,
        ensures
            final(self).well_formed(),
            final(self)@.len() == old(self).order@.len(),
            forall|i: int|
                0 <= i < old(self).order@.len() ==> final(self)@[i] == old(self).nodes@[(
                #[trigger] old(self).order@[i]) as int].val,
            r == old(self).nodes@[s as int].val,
    {
        let ghost p1 = self.order@;
        let ghost n1 = self.nodes@;
        let ghost h1 = self.head;
        let ghost t1 = self.tail;
        let last = self.nodes.len() - 1;
        proof {
            let q = p1.push(s);
            assert(forall|i: int| 0 <= i < q.len() ==> (#[trigger] q[i]) < q.len());
            assert forall|i: int, j: int|
                0 <= i < q.len() && 0 <= j < q.len() && i != j implies q[i] != q[j] by {
                if i < p1.len() && j < p1.len() {
                    assert(q[i] == p1[i] && q[j] == p1[j]);
                }
            }
            Self::lemma_order_covers(q, last);
            let iq = choose|i: int| 0 <= i < q.len() && q[i] == last;
            assert(q[iq] == last && s != last);
            assert(iq < p1.len() && p1[iq] == last);
        }
        let ghost j = choose|i: int| 0 <= i < p1.len() && p1[i] == last;
        proof {
            assert(n1[last as int].prev == (if j == 0 {
                Option::<usize>::None
            } else {
                Some(p1[j - 1])
            }));
            assert(n1[last as int].next == (if j + 1 == p1.len() {
                Option::<usize>::None
            } else {
                Some(p1[j + 1])
            }));
            if j > 0 {
                assert((p1[j - 1] as int) < n1.len() && p1[j - 1] != last && p1[j - 1] != s);
            }
            if j + 1 < p1.len() {
                assert((p1[j + 1] as int) < n1.len() && p1[j + 1] != last && p1[j + 1] != s);
            }
        }
        let mprv = self.nodes[last].prev;
        let mnxt = self.nodes[last].next;
        match mprv {
            Some(mp) => {
                self.nodes[mp].next = Some(s);
            },
            None => {
                self.head = Some(s);
            },
        }
        match mnxt {
            Some(mn) => {
                self.nodes[mn].prev = Some(s);
            },
            None => {
                self.tail = Some(s);
            },
        }
        let node = self.nodes.swap_remove(s);
        self.order = Ghost(renamed(p1, last, s));
        self.length = self.nodes.len() as u64;
        proof {
            Self::lemma_swap_slot(n1, p1, h1, t1, self.nodes@, self.head, self.tail, s, last, j);
            assert forall|i: int| 0 <= i < p1.len() implies self@[i] == n1[(
            #[trigger] p1[i]) as int].val by {
                assert(self.order@[i] == renamed(p1, last, s)[i]);
                assert(self.nodes@[(renamed(p1, last, s)[i]) as int].val == n1[p1[i] as int].val);
            }
        }
        node.val
    }

    /// Detaches the head node and returns its value, or `None` when the
    /// list is empty; the second node, if any, becomes the head.
    pub fn delete_head(&mut self) -> (r: Option<T>)
        requires
            old(self).well_formed(),
        ensures
            final(self).well_formed(),
            old(self)@.len() == 0 ==> r is None && final(self)@ == old(self)@,
            old(self)@.len() > 0 ==> r == Some(old(self)@[0]) && final(self)@
                == old(self)@.drop_first(),
    {
        if self.length == 0 {
            return None;
        }
        let v = self.remove_at(0);
        proof {
            assert(self@ =~= old(self)@.drop_first());
        }
        Some(v)
    }

    /// Detaches the tail node and returns its value, or `None` when the
    /// list is empty; the next-to-last node, if any, becomes the tail.
    pub fn delete_tail(&mut self) -> (r: Option<T>)
        requires
            old(self).well_formed(),
        ensures
            final(self).well_formed(),
            old(self)@.len() == 0 ==> r is None && final(self)@ == old(self)@,
            old(self)@.len() > 0 ==> r == Some(old(self)@.last()) && final(self)@
                == old(self)@.drop_last(),
    {
        if self.length == 0 {
            return None;
        }
        let k = self.nodes.len() - 1;
        let v = self.remove_at(k);
        proof {
            assert(self@ =~= old(self)@.drop_last());
        }
        Some(v)
    }

    /// Removes the node at position `index` and returns its value; an empty
    /// list yields `None`, and `index == length` removes the tail, as the
    /// delegation to the tail delete has it. An index beyond `length` is a
    /// caller error and is excluded, where the panic of an unverified
    /// container would be.
    pub fn delete_ith(&mut self, index: u64) -> (r: Option<T>)
        requires
            old(self).well_formed(),
            index as int <= old(self)@.len(),
        ensures
            final(self).well_formed(),
            old(self)@.len() == 0 ==> r is None && final(self)@ == old(self)@,
            (index as int) < old(self)@.len() ==> r == Some(old(self)@[index as int])
                && final(self)@ == old(self)@.remove(index as int),
            old(self)@.len() > 0 && index as int == old(self)@.len() ==> r == Some(
                old(self)@.last(),
            ) && final(self)@ == old(self)@.drop_last(),
    {
        if self.length == 0 {
            return None;
        }
        let cap = self.nodes.len();
        proof {
            assert(index as int <= cap as int);
        }
        let k = index as usize;
        if k == cap {
            let v = self.remove_at(cap - 1);
            proof {
                assert(self@ =~= old(self)@.drop_last());
            }
            Some(v)
        } else {
            let v = self.remove_at(k);
            Some(v)
        }
    }

    /// A read-only reference to the value at position `index`, found by
    /// walking forward from `head`; a negative or out-of-range index yields
    /// `None`.
    pub fn get(&self, index: i64) -> (r: Option<&T>)
        requires
            self.well_formed(),
        ensures
            0 <= index && (index as int) < self@.len() ==> (r matches Some(v) && *v == self@[
                index as int
            ]),
            !(0 <= index && (index as int) < self@.len()) ==> r is None,
    {
        if index < 0 {
            return None;
        }
        let iu = index as u64;
        if iu >= self.length {
            return None;
        }
        let cap = self.nodes.len();
        proof {
            assert((iu as int) < cap as int);
        }
        let k = iu as usize;
        let s = self.slot_at(k);
        Some(&self.nodes[s].val)
    }

    /// The values read by walking `next` links forward from `head`, taking
    /// at most `length` steps.
    pub closed spec fn forward_values(&self) -> Seq<T> {
        walk_next(self.nodes@, self.head, self.length as nat).map_values(
            |s: usize| self.nodes@[s as int].val,
        )
    }

    /// The values read by walking `prev` links backward from `tail`, taking
    /// at most `length` steps.
    pub closed spec fn backward_values(&self) -> Seq<T> {
        walk_prev(self.nodes@, self.tail, self.length as nat).map_values(
            |s: usize| self.nodes@[s as int].val,
        )
    }

    /// Walking `next` from the node at position `k` visits the rest of the
    /// order, in order.
    proof fn lemma_walk_next_from(n: Seq<Node<T>>, p: Seq<usize>, h: Option<usize>, t: Option<
        usize,
    >, k: int)
        requires
            linked(n, p, h, t),
            0 <= k <= p.len(),
        ensures
            walk_next(
                n,
                if k == p.len() {
                    Option::<usize>::None
                } else {
                    Some(p[k])
                },
                (p.len() - k) as nat,
            ) == p.subrange(k, p.len() as int),
        decreases p.len() - k,
    {
        if k == p.len() {
            assert(p.subrange(k, p.len() as int) =~= Seq::<usize>::empty());
        } else {
            Self::lemma_walk_next_from(n, p, h, t, k + 1);
            assert(n[p[k] as int].next == (if k + 1 == p.len() {
                Option::<usize>::None
            } else {
                Some(p[k + 1])
            }));
            assert(walk_next(
                n,
                Some(p[k]),
                (p.len() - k) as nat,
            ) =~= p.subrange(k, p.len() as int));
        }
    }

    /// Walking `prev` from the node at position `k` visits the front of the
    /// order, backwards.
    proof fn lemma_walk_prev_from(n: Seq<Node<T>>, p: Seq<usize>, h: Option<usize>, t: Option<
        usize,
    >, k: int)
        requires
            linked(n, p, h, t),
            -1 <= k < p.len(),
        ensures
            walk_prev(
                n,
                if k < 0 {
                    Option::<usize>::None
                } else {
                    Some(p[k])
                },
                (k + 1) as nat,
            ) == p.subrange(0, k + 1).reverse(),
        decreases k + 1,
    {
        if k < 0 {
            assert(p.subrange(0, 0).reverse() =~= Seq::<usize>::empty());
        } else {
            Self::lemma_walk_prev_from(n, p, h, t, k - 1);
            assert(n[p[k] as int].prev == (if k == 0 {
                Option::<usize>::None
            } else {
                Some(p[k - 1])
            }));
            assert(walk_prev(n, Some(p[k]), (k + 1) as nat) =~= p.subrange(0, k + 1).reverse());
        }
    }

    /// On a well-formed list the forward walk from `head` reads off exactly
    /// the list's values, the backward walk from `tail` reads them in exact
    /// reverse, and both walks take exactly `length` steps: the two link
    /// directions are mirror-consistent after every operation.
    pub proof fn lemma_walks_mirror(&self)
        requires
            self.well_formed(),
        ensures
            self.forward_values() == self@,
            self.backward_values() == self@.reverse(),
            self.forward_values().len() == self@.len(),
            self.backward_values().len() == self@.len(),
    {
        let p = self.order@;
        let n = self.nodes@;
        Self::lemma_walk_next_from(n, p, self.head, self.tail, 0);
        assert(p.subrange(0, p.len() as int) =~= p);
        Self::lemma_walk_prev_from(n, p, self.head, self.tail, p.len() - 1);
        if p.len() > 0 {
            assert(p.subrange(0, p.len() as int) == p);
        }
        assert(walk_next(n, self.head, self.length as nat) == p);
        assert(walk_prev(n, self.tail, self.length as nat) == p.reverse());
        assert(self.forward_values() =~= self@);
        assert(self.backward_values() =~= self@.reverse());
    }

    /// Creates an empty list.
    pub fn new() -> (l: Self)
        ensures
            l.well_formed(),
            l@ == Seq::<T>::empty(),
    {
        let l = LinkedList {
            nodes: Vec::new(),
            length: 0,
            head: None,
            tail: None,
            order: Ghost(Seq::empty()),
        };
        proof {
            assert(l@ =~= Seq::<T>::empty());
        }
        l
    }
}

impl LinkedList<i64> {
    /// The bracketed, comma-and-space-separated rendering of the values in
    /// head-to-tail order; an empty list renders as empty text.
    pub fn render(&self) -> (r: String)
        requires
            self.well_formed(),
        ensures
            r@ == crate::render::rendered(self@),
    {
        if self.length == 0 {
            let e = String::new();
            return e;
        }
        let count = self.nodes.len();
        let mut cur: usize = self.head.unwrap();
        let mut out = String::from_str("[");
        proof {
            reveal_strlit("[");
        }
        let v0 = self.nodes[cur].val;
        let t0 = crate::render::i64_string(v0);
        out.append(t0.as_str());
        proof {
            crate::render::lemma_join_from(self@, 0);
            assert(self@.subrange(0, self@.len() as int) =~= self@);
            assert(out@ + crate::render::tail_join(self@, 1) + seq![']']
                =~= crate::render::rendered(self@));
        }
        let mut i: usize = 1;
        while i < count
            invariant
                self.well_formed(),
                count == self@.len(),
                1 <= i <= count,
                cur == self.order@[i - 1],
                out@ + crate::render::tail_join(self@, i as int) + seq![']']
                    == crate::render::rendered(self@),
            decreases count - i,
        {
            cur = self.nodes[cur].next.unwrap();
            let v = self.nodes[cur].val;
            proof {
                reveal_strlit(", ");
                assert(v == self@[i as int]);
            }
            out.append(", ");
            let t = crate::render::i64_string(v);
            out.append(t.as_str());
            proof {
                assert(out@ + crate::render::tail_join(self@, i + 1) + seq![']']
                    =~= crate::render::rendered(self@));
            }
            i = i + 1;
        }
        proof {
            reveal_strlit("]");
        }
        out.append("]");
        proof {
            assert(out@ =~= crate::render::rendered(self@));
        }
        out
    }
}

impl<T> Default for LinkedList<T> {
    /// An empty list, as `new` builds it.
    fn default() -> (l: Self)
        ensures
            l.well_formed(),
            l@ == Seq::<T>::empty(),
    {
        Self::new()
    }
}

} // verus!
