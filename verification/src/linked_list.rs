//! A doubly linked list whose nodes live in an arena of slots.
//!
//! Every node is a slot in a growable vector; the `next` and `prev` links are
//! slot indices rather than addresses, so a node is owned by the list exactly
//! while its slot is occupied, and releasing a node is marking its slot free.
//! The abstract value of a list is the sequence of its elements from head to
//! tail.

use vstd::pervasive::VecAdditionalExecFns;
use vstd::prelude::*;

verus! {

/// One storage cell of a list: a value together with the slot indices of its
/// two neighbours, if it has them.
pub struct Node<T> {
    pub val: T,
    pub next: Option<usize>,
    prev: Option<usize>,
}

impl<T> Node<T> {
    fn new(t: T) -> (n: Node<T>)
        ensures
            n.val == t,
            n.next is None,
            n.prev is None,
    {
        Node { val: t, prev: None, next: None }
    }
}

/// A doubly linked list: a chain of nodes reachable from `head` by `next`
/// links, with `tail` at its end, a cursor `current` for forward iteration,
/// and `length` counting the nodes of the chain.
///
/// The fields are public so that contracts — and callers — can speak of the
/// length and the links; what every operation requires and preserves is the
/// well-formedness predicate `wf`, and the abstract value is the sequence
/// `@` of the elements from head to tail.
pub struct LinkedList<T> {
    pub length: u32,
    pub head: Option<usize>,
    pub tail: Option<usize>,
    pub current: Option<usize>,
    pub nodes: Vec<Option<Node<T>>>,
    pub free: Vec<usize>,
    pub order: Ghost<Seq<usize>>,
}

impl<T> View for LinkedList<T> {
    type V = Seq<T>;

    closed spec fn view(&self) -> Seq<T> {
        Seq::new(self.order@.len(), |k: int| self.nodes@[self.order@[k] as int].unwrap().val)
    }
}

impl<T> LinkedList<T> {
    /// The node standing at position `k` of the chain.
    spec fn node_at(self, k: int) -> Node<T> {
        self.nodes@[self.order@[k] as int].unwrap()
    }

    /// Position `k` of the chain holds an occupied slot whose links point at
    /// its neighbours.
    spec fn link_ok(self, k: int) -> bool {
        let ord = self.order@;
        &&& ord[k] < self.nodes@.len()
        &&& self.nodes@[ord[k] as int] is Some
        &&& self.node_at(k).next == (if k + 1 < ord.len() {
            Some(ord[k + 1])
        } else {
            None::<usize>
        })
        &&& self.node_at(k).prev == (if k == 0 {
            None::<usize>
        } else {
            Some(ord[k - 1])
        })
    }

    /// Structural invariant: the occupied slots, threaded in order by the
    /// links, form one chain from `head` to `tail`; the chain and the free
    /// list are disjoint and together account for every slot of the arena;
    /// the cursor, when set, stands on the chain.
    pub closed spec fn wf(self) -> bool {
        let ord = self.order@;
        &&& self.length as int == ord.len()
        &&& ord.no_duplicates()
        &&& forall|k: int| 0 <= k < ord.len() ==> #[trigger] self.link_ok(k)
        &&& self.head == (if ord.len() == 0 {
            None::<usize>
        } else {
            Some(ord[0])
        })
        &&& self.tail == (if ord.len() == 0 {
            None::<usize>
        } else {
            Some(ord[ord.len() - 1])
        })
        &&& self.free@.no_duplicates()
        &&& forall|j: int|
            0 <= j < self.free@.len() ==> (#[trigger] self.free@[j]) < self.nodes@.len()
                && self.nodes@[self.free@[j] as int] is None
        &&& self.nodes@.len() == ord.len() + self.free@.len()
        &&& match self.current {
            None => true,
            Some(c) => ord.contains(c),
        }
    }

    /// In a well-formed list, the `length` field counts exactly the elements
    /// of the abstract sequence.
    pub proof fn lemma_length_matches_view(self)
        requires
            self.wf(),
        ensures
            self.length == self@.len(),
    {
    }

    /// Creates an empty list.
    pub fn new() -> (l: Self)
        ensures
            l.wf(),
            l@ == Seq::<T>::empty(),
            l.length == 0,
    {
        let l = Self {
            length: 0,
            head: None,
            tail: None,
            current: None,
            nodes: Vec::new(),
            free: Vec::new(),
            order: Ghost(Seq::empty()),
        };
        proof {
            assert(l@ =~= Seq::<T>::empty());
        }
        l
    }

    /// Puts `node` into an unoccupied slot and returns that slot's index,
    /// taking the slot from the free list when one is there.
    fn claim_slot(&mut self, node: Node<T>) -> (idx: usize)
        requires
            old(self).wf(),
        ensures
            final(self).nodes@.len() == final(self).order@.len() + final(self).free@.len() + 1,
            final(self).free@.no_duplicates(),
            forall|j: int|
                0 <= j < final(self).free@.len() ==> (#[trigger] final(self).free@[j])
                    < final(self).nodes@.len() && final(self).nodes@[final(self).free@[j] as int]
                    is None,
            idx < final(self).nodes@.len(),
            final(self).nodes@[idx as int] == Some(node),
            !final(self).order@.contains(idx),
            !final(self).free@.contains(idx),
            forall|i: int|
                0 <= i < old(self).nodes@.len() && i != idx ==> final(self).nodes@[i] == old(
                    self,
                ).nodes@[i],
            old(self).nodes@.len() <= final(self).nodes@.len(),
            final(self).order == old(self).order,
            final(self).length == old(self).length,
            final(self).head == old(self).head,
            final(self).tail == old(self).tail,
            final(self).current == old(self).current,
    {
        if self.free.len() > 0 {
            let idx = self.free.pop().unwrap();
            proof {
                let prior = *old(self);
                assert(prior.free@[prior.free@.len() - 1] == idx);
                assert(prior.nodes@[idx as int] is None);
                if prior.order@.contains(idx) {
                    let k = choose|k: int|
                        0 <= k < prior.order@.len() && prior.order@[k] == idx;
                    assert(prior.link_ok(k));
                    assert(false);
                }
                if self.free@.contains(idx) {
                    let j = choose|j: int| 0 <= j < self.free@.len() && self.free@[j] == idx;
                    assert(prior.free@[j] == prior.free@[prior.free@.len() - 1]);
                    assert(false);
                }
            }
            self.nodes.set(idx, Some(node));
            idx
        } else {
            let idx = self.nodes.len();
            self.nodes.push(Some(node));
            proof {
                if self.order@.contains(idx) {
                    let k = choose|k: int|
                        0 <= k < self.order@.len() && self.order@[k] == idx;
                    assert(old(self).link_ok(k));
                    assert(false);
                }
                if self.free@.contains(idx) {
                    let j = choose|j: int| 0 <= j < self.free@.len() && self.free@[j] == idx;
                    assert(old(self).free@[j] < old(self).nodes@.len());
                    assert(false);
                }
            }
            idx
        }
    }

    /// Rewrites the links of the node in slot `i`.
    fn relink(&mut self, i: usize, prev: Option<usize>, next: Option<usize>)
        requires
            i < old(self).nodes@.len(),
            old(self).nodes@[i as int] is Some,
        ensures
            final(self).nodes@ == old(self).nodes@.update(
                i as int,
                Some(
                    Node {
                        val: old(self).nodes@[i as int].unwrap().val,
                        prev,
                        next,
                    },
                ),
            ),
            final(self).order == old(self).order,
            final(self).free == old(self).free,
            final(self).length == old(self).length,
            final(self).head == old(self).head,
            final(self).tail == old(self).tail,
            final(self).current == old(self).current,
    {
        let mut slot: Option<Node<T>> = None;
        self.nodes.set_and_swap(i, &mut slot);
        let mut node = slot.unwrap();
        node.prev = prev;
        node.next = next;
        self.nodes.set(i, Some(node));
        proof {
            assert(final(self).nodes@ =~= old(self).nodes@.update(
                i as int,
                Some(
                    Node {
                        val: old(self).nodes@[i as int].unwrap().val,
                        prev,
                        next,
                    },
                ),
            ));
        }
    }

    /// Appends `obj` at the tail of the list and leaves the cursor on the new
    /// node.
    pub fn insert_at_tail(&mut self, obj: T)
        requires
            old(self).wf(),
            old(self).length < u32::MAX,
        ensures
            final(self).wf(),
            final(self)@ == old(self)@.push(obj),
            final(self).length == old(self).length + 1,
            final(self).cursor_index() == Some(old(self)@.len() as int),
    {
        let ghost s0 = *old(self);
        let mut node = Node::new(obj);
        node.prev = self.tail;
        node.next = None;
        let idx = self.claim_slot(node);
        let ghost s1 = *self;
        match self.tail {
            None => {
                self.head = Some(idx);
            },
            Some(t) => {
                proof {
                    let last = s0.order@.len() - 1;
                    assert(s0.link_ok(last));
                    assert(s0.order@[last] == t);
                    assert(s1.nodes@[t as int] == s0.nodes@[t as int]);
                }
                let old_prev = self.node_ref(t).prev;
                self.relink(t, old_prev, Some(idx));
            },
        }
        self.tail = Some(idx);
        self.length = self.length + 1;
        self.current = Some(idx);
        proof {
            let ord0 = s0.order@;
            self.order@ = ord0.push(idx);
            let s2 = *self;
            let ord = s2.order@;
            // The untouched slots of the chain keep their nodes; only the old
            // tail's `next` link changed.
            assert forall|k: int| 0 <= k < ord0.len() implies ord0[k] != idx by {
                assert(s0.link_ok(k));
                if ord0[k] == idx {
                    assert(s1.order@.contains(idx)) by {
                        assert(s1.order@[k] == idx);
                    }
                }
            }
            assert forall|k: int| 0 <= k < ord.len() implies #[trigger] s2.link_ok(k) by {
                assert(s2.nodes@[idx as int] == Some(node));
                if k < ord0.len() {
                    assert(s0.link_ok(k));
                    assert(ord[k] == ord0[k]);
                    if k < ord0.len() - 1 {
                        assert(s2.nodes@[ord[k] as int] == s0.nodes@[ord0[k] as int]);
                    }
                }
            }
            assert(ord.no_duplicates()) by {
                assert forall|i: int, j: int| 0 <= i < j < ord.len() implies ord[i] != ord[j] by {
                    if j == ord.len() - 1 {
                        assert(ord[i] != idx);
                    }
                }
            }
            assert(s2.order@.contains(idx)) by {
                assert(s2.order@[ord.len() - 1] == idx);
            }
            assert forall|j: int| 0 <= j < s2.free@.len() implies (#[trigger] s2.free@[j])
                < s2.nodes@.len() && s2.nodes@[s2.free@[j] as int] is None by {
                assert(s1.free@[j] == s2.free@[j]);
                assert(!s1.free@.contains(idx));
                assert(s2.free@[j] != idx) by {
                    if s1.free@[j] == idx {
                        assert(s1.free@.contains(idx)) by {
                            assert(s1.free@[j] == idx);
                        }
                    }
                }
            }
            assert(self.wf());
            self.lemma_index_of_position(ord.len() - 1);
            assert(self@ =~= s0@.push(obj)) by {
                assert forall|k: int| 0 <= k < ord0.len() implies self@[k] == s0@[k] by {
                    assert(s0.link_ok(k));
                    assert(ord0[k] != idx);
                    if k < ord0.len() - 1 {
                        assert(s2.nodes@[ord0[k] as int] == s0.nodes@[ord0[k] as int]);
                    } else {
                        assert(s2.nodes@[ord0[k] as int].unwrap().val == s0.nodes@[ord0[k] as int].unwrap().val);
                    }
                }
            }
        }
    }

    /// Puts `obj` in front of the current head (or makes it the sole node of
    /// an empty list) and leaves the cursor on the new node.
    pub fn insert_at_head(&mut self, obj: T)
        requires
            old(self).wf(),
            old(self).length < u32::MAX,
        ensures
            final(self).wf(),
            final(self)@ == seq![obj] + old(self)@,
            final(self).length == old(self).length + 1,
            final(self).cursor_index() == Some(0int),
    {
        let ghost s0 = *old(self);
        let mut node = Node::new(obj);
        node.next = self.head;
        node.prev = None;
        let idx = self.claim_slot(node);
        let ghost s1 = *self;
        match self.head {
            None => {
                self.tail = Some(idx);
            },
            Some(h) => {
                proof {
                    assert(s0.link_ok(0));
                    assert(s0.order@[0] == h);
                    assert(s1.nodes@[h as int] == s0.nodes@[h as int]);
                }
                let old_next = self.node_ref(h).next;
                self.relink(h, Some(idx), old_next);
            },
        }
        self.head = Some(idx);
        self.length = self.length + 1;
        self.current = Some(idx);
        proof {
            let ord0 = s0.order@;
            self.order@ = seq![idx] + ord0;
            let s2 = *self;
            let ord = s2.order@;
            assert forall|k: int| 0 <= k < ord0.len() implies ord0[k] != idx by {
                assert(s0.link_ok(k));
                if ord0[k] == idx {
                    assert(s1.order@.contains(idx)) by {
                        assert(s1.order@[k] == idx);
                    }
                }
            }
            assert forall|k: int| 0 <= k < ord.len() implies #[trigger] s2.link_ok(k) by {
                assert(s2.nodes@[idx as int] == Some(node));
                if k >= 1 {
                    assert(s0.link_ok(k - 1));
                    assert(ord[k] == ord0[k - 1]);
                    if k >= 2 {
                        assert(s2.nodes@[ord[k] as int] == s0.nodes@[ord0[k - 1] as int]);
                    }
                }
            }
            assert(ord.no_duplicates()) by {
                assert forall|i: int, j: int| 0 <= i < j < ord.len() implies ord[i] != ord[j] by {
                    if i == 0 {
                        assert(ord[j] != idx);
                    }
                }
            }
            assert(s2.order@.contains(idx)) by {
                assert(s2.order@[0] == idx);
            }
            assert forall|j: int| 0 <= j < s2.free@.len() implies (#[trigger] s2.free@[j])
                < s2.nodes@.len() && s2.nodes@[s2.free@[j] as int] is None by {
                assert(s1.free@[j] == s2.free@[j]);
                assert(s2.free@[j] != idx) by {
                    if s1.free@[j] == idx {
                        assert(s1.free@.contains(idx)) by {
                            assert(s1.free@[j] == idx);
                        }
                    }
                }
            }
            assert(self.wf());
            self.lemma_index_of_position(0);
            assert(self@ =~= seq![obj] + s0@) by {
                assert forall|k: int| 0 <= k < ord0.len() implies self@[k + 1] == s0@[k] by {
                    assert(s0.link_ok(k));
                    assert(ord0[k] != idx);
                    if k >= 1 {
                        assert(s2.nodes@[ord0[k] as int] == s0.nodes@[ord0[k] as int]);
                    } else {
                        assert(s2.nodes@[ord0[k] as int].unwrap().val == s0.nodes@[ord0[k] as int].unwrap().val);
                    }
                }
            }
        }
    }

    /// Detaches the head node, returning its value; on an empty list nothing
    /// changes and nothing is returned.
    pub fn delete_head(&mut self) -> (r: Option<T>)
        requires
            old(self).wf(),
        ensures
            final(self).wf(),
            old(self)@.len() == 0 ==> r is None && *final(self) == *old(self),
            old(self)@.len() > 0 ==> r == Some(old(self)@[0]) && final(self)@ == old(
                self,
            )@.drop_first(),
            final(self).length == (if old(self).length == 0 {
                0
            } else {
                (old(self).length - 1) as u32
            }),
    {
        if self.length == 0 {
            return None;
        }
        let ghost s0 = *old(self);
        let h = self.head.unwrap();
        proof {
            assert(s0.link_ok(0));
        }
        let mut slot: Option<Node<T>> = None;
        self.nodes.set_and_swap(h, &mut slot);
        let ghost s1 = *self;
        let node = slot.unwrap();
        self.head = node.next;
        match node.next {
            None => {
                self.tail = None;
            },
            Some(nx) => {
                proof {
                    assert(s0.link_ok(1));
                    assert(nx == s0.order@[1]);
                    assert(s1.nodes@[nx as int] == s0.nodes@[nx as int]);
                }
                let keep_next = self.node_ref(nx).next;
                self.relink(nx, None, keep_next);
            },
        }
        self.free.push(h);
        self.length = self.length - 1;
        match self.current {
            Some(c) => {
                if c == h {
                    self.current = None;
                }
            },
            None => {},
        }
        proof {
            let ord0 = s0.order@;
            self.order@ = ord0.drop_first();
            let s2 = *self;
            let ord = s2.order@;
            assert(ord0[0] == h);
            assert forall|k: int| 0 <= k < ord.len() implies #[trigger] s2.link_ok(k) by {
                assert(s0.link_ok(k + 1));
                assert(ord[k] == ord0[k + 1]);
                assert(ord0[k + 1] != h);
                if k >= 1 {
                    assert(ord0[k + 1] != ord0[1]);
                    assert(s2.nodes@[ord[k] as int] == s0.nodes@[ord[k] as int]);
                }
            }
            assert(ord.no_duplicates());
            assert forall|j: int| 0 <= j < s2.free@.len() implies (#[trigger] s2.free@[j])
                < s2.nodes@.len() && s2.nodes@[s2.free@[j] as int] is None by {
                if j < s0.free@.len() {
                    assert(s0.free@[j] == s2.free@[j]);
                    assert(s0.nodes@[s0.free@[j] as int] is None);
                    assert(s0.free@[j] != h);
                    if ord0.len() > 1 && s0.free@[j] == ord0[1] {
                        assert(s0.link_ok(1));
                        assert(false);
                    }
                } else {
                    assert(s2.free@[j] == h);
                }
            }
            assert(s2.free@.no_duplicates()) by {
                assert forall|i: int, j: int| 0 <= i < j < s2.free@.len() implies s2.free@[i]
                    != s2.free@[j] by {
                    if j == s2.free@.len() - 1 {
                        assert(s0.nodes@[s0.free@[i] as int] is None);
                    }
                }
            }
            match s2.current {
                None => {},
                Some(c) => {
                    let k = choose|k: int| 0 <= k < ord0.len() && ord0[k] == c;
                    assert(s0.order@.contains(c));
                    assert(ord0[k] == c);
                    assert(k != 0);
                    assert(ord.contains(c)) by {
                        assert(ord[k - 1] == c);
                    }
                },
            }
            assert(self.wf());
            assert(self@ =~= s0@.drop_first()) by {
                assert forall|k: int| 0 <= k < ord.len() implies self@[k] == s0@[k + 1] by {
                    assert(s0.link_ok(k + 1));
                    assert(ord[k] == ord0[k + 1]);
                    assert(ord0[k + 1] != h);
                    assert(s2.nodes@[ord[k] as int].unwrap().val == s0.nodes@[ord[k] as int].unwrap().val);
                }
            }
        }
        Some(node.val)
    }

    /// Detaches the tail node, returning its value; on an empty list nothing
    /// changes and nothing is returned.
    pub fn deleted_tail(&mut self) -> (r: Option<T>)
        requires
            old(self).wf(),
        ensures
            final(self).wf(),
            old(self)@.len() == 0 ==> r is None && *final(self) == *old(self),
            old(self)@.len() > 0 ==> r == Some(old(self)@.last()) && final(self)@ == old(
                self,
            )@.drop_last(),
            final(self).length == (if old(self).length == 0 {
                0
            } else {
                (old(self).length - 1) as u32
            }),
    {
        if self.length == 0 {
            return None;
        }
        let ghost s0 = *old(self);
        let ghost last = s0.order@.len() - 1;
        let t = self.tail.unwrap();
        proof {
            assert(s0.link_ok(last));
            assert(s0.order@[last] == t);
        }
        let mut slot: Option<Node<T>> = None;
        self.nodes.set_and_swap(t, &mut slot);
        let ghost s1 = *self;
        let node = slot.unwrap();
        self.tail = node.prev;
        match node.prev {
            None => {
                self.head = None;
            },
            Some(pv) => {
                proof {
                    assert(s0.link_ok(last - 1));
                    assert(pv == s0.order@[last - 1]);
                    assert(s1.nodes@[pv as int] == s0.nodes@[pv as int]);
                }
                let keep_prev = self.node_ref(pv).prev;
                self.relink(pv, keep_prev, None);
            },
        }
        self.free.push(t);
        self.length = self.length - 1;
        match self.current {
            Some(c) => {
                if c == t {
                    self.current = None;
                }
            },
            None => {},
        }
        proof {
            let ord0 = s0.order@;
            self.order@ = ord0.drop_last();
            let s2 = *self;
            let ord = s2.order@;
            assert(ord0[last] == t);
            assert forall|k: int| 0 <= k < ord.len() implies #[trigger] s2.link_ok(k) by {
                assert(s0.link_ok(k));
                assert(ord[k] == ord0[k]);
                assert(ord0[k] != t);
                if k < ord.len() - 1 {
                    assert(ord0[k] != ord0[last - 1]);
                    assert(s2.nodes@[ord[k] as int] == s0.nodes@[ord[k] as int]);
                }
            }
            assert(ord.no_duplicates());
            assert forall|j: int| 0 <= j < s2.free@.len() implies (#[trigger] s2.free@[j])
                < s2.nodes@.len() && s2.nodes@[s2.free@[j] as int] is None by {
                if j < s0.free@.len() {
                    assert(s0.free@[j] == s2.free@[j]);
                    assert(s0.nodes@[s0.free@[j] as int] is None);
                    assert(s0.free@[j] != t);
                    if ord0.len() > 1 && s0.free@[j] == ord0[last - 1] {
                        assert(s0.link_ok(last - 1));
                        assert(false);
                    }
                } else {
                    assert(s2.free@[j] == t);
                }
            }
            assert(s2.free@.no_duplicates()) by {
                assert forall|i: int, j: int| 0 <= i < j < s2.free@.len() implies s2.free@[i]
                    != s2.free@[j] by {
                    if j == s2.free@.len() - 1 {
                        assert(s0.nodes@[s0.free@[i] as int] is None);
                    }
                }
            }
            match s2.current {
                None => {},
                Some(c) => {
                    let k = choose|k: int| 0 <= k < ord0.len() && ord0[k] == c;
                    assert(s0.order@.contains(c));
                    assert(ord0[k] == c);
                    assert(k != last);
                    assert(ord.contains(c)) by {
                        assert(ord[k] == c);
                    }
                },
            }
            assert(self.wf());
            assert(self@ =~= s0@.drop_last()) by {
                assert forall|k: int| 0 <= k < ord.len() implies self@[k] == s0@[k] by {
                    assert(s0.link_ok(k));
                    assert(ord[k] == ord0[k]);
                    assert(ord0[k] != t);
                    assert(s2.nodes@[ord[k] as int].unwrap().val == s0.nodes@[ord[k] as int].unwrap().val);
                }
            }
        }
        Some(node.val)
    }

    /// Appends `obj` at the tail, as `insert_at_tail` does.
    pub fn push_back(&mut self, obj: T)
        requires
            old(self).wf(),
            old(self).length < u32::MAX,
        ensures
            final(self).wf(),
            final(self)@ == old(self)@.push(obj),
            final(self).length == old(self).length + 1,
            final(self).cursor_index() == Some(old(self)@.len() as int),
    {
        self.insert_at_tail(obj)
    }

    /// The slot index of the node at position `index` of the chain.
    fn get_ith_node(&self, index: u32) -> (r: usize)
        requires
            self.wf(),
            (index as int) < self.order@.len(),
        ensures
            r == self.order@[index as int],
    {
        let mut cur = self.head.unwrap();
        let mut k: u32 = 0;
        while k < index
            invariant
                self.wf(),
                (index as int) < self.order@.len(),
                k <= index,
                cur == self.order@[k as int],
            decreases index - k,
        {
            proof {
                assert(self.link_ok(k as int));
            }
            cur = self.node_ref(cur).next.unwrap();
            k = k + 1;
        }
        cur
    }

    /// Splices `obj` in so that it becomes the element at position `index`;
    /// position `0` is a head insert and position `length` a tail insert.
    pub fn insert_at_ith(&mut self, index: u32, obj: T)
        requires
            old(self).wf(),
            index <= old(self).length,
            old(self).length < u32::MAX,
        ensures
            final(self).wf(),
            final(self)@ == old(self)@.insert(index as int, obj),
            final(self).length == old(self).length + 1,
    {
        proof {
            old(self)@.insert_ensures(index as int, obj);
        }
        if index == 0 {
            self.insert_at_head(obj);
            proof {
                assert(final(self)@ =~= old(self)@.insert(index as int, obj));
            }
            return ;
        }
        if index == self.length {
            self.insert_at_tail(obj);
            proof {
                assert(final(self)@ =~= old(self)@.insert(index as int, obj));
            }
            return ;
        }
        let ghost s0 = *old(self);
        let ghost i = index as int;
        let target = self.get_ith_node(index);
        proof {
            assert(s0.link_ok(i));
            assert(s0.link_ok(i - 1));
            assert(s0.order@.contains(target)) by {
                assert(s0.order@[i] == target);
            }
        }
        let p = self.node_ref(target).prev.unwrap();
        proof {
            assert(p == s0.order@[i - 1]);
            assert(s0.order@.contains(p)) by {
                assert(s0.order@[i - 1] == p);
            }
        }
        let mut node = Node::new(obj);
        node.prev = Some(p);
        node.next = Some(target);
        let idx = self.claim_slot(node);
        let ghost s1 = *self;
        proof {
            assert(p != idx && target != idx);
            assert(s1.nodes@[p as int] == s0.nodes@[p as int]);
        }
        let p_prev = self.node_ref(p).prev;
        self.relink(p, p_prev, Some(idx));
        let ghost s1b = *self;
        proof {
            assert(target != p);
            assert(s1b.nodes@[target as int] == s0.nodes@[target as int]);
        }
        let t_next = self.node_ref(target).next;
        self.relink(target, Some(idx), t_next);
        self.length = self.length + 1;
        proof {
            let ord0 = s0.order@;
            self.order@ = ord0.insert(i, idx);
            let s2 = *self;
            let ord = s2.order@;
            assert forall|k: int| 0 <= k < ord0.len() implies ord0[k] != idx by {
                assert(s0.link_ok(k));
                if ord0[k] == idx {
                    assert(s1.order@.contains(idx)) by {
                        assert(s1.order@[k] == idx);
                    }
                }
            }
            assert(ord.len() == ord0.len() + 1);
            assert(forall|k: int| 0 <= k < i ==> #[trigger] ord[k] == ord0[k]);
            assert(ord[i] == idx);
            assert(forall|k: int| i <= k < ord0.len() ==> #[trigger] ord[k + 1] == ord0[k]);
            assert(s2.nodes@[idx as int] == Some(node));
            assert(s2.nodes@[p as int].unwrap().next == Some(idx));
            assert(s2.nodes@[p as int].unwrap().prev == s0.nodes@[p as int].unwrap().prev);
            assert(s2.nodes@[target as int].unwrap().prev == Some(idx));
            assert(s2.nodes@[target as int].unwrap().next == s0.nodes@[target as int].unwrap().next);
            assert forall|s: int|
                0 <= s < s0.nodes@.len() && s != idx && s != p && s != target implies s2.nodes@[s]
                == s0.nodes@[s] by {}
            assert forall|k: int| 0 <= k < ord.len() implies #[trigger] s2.link_ok(k) by {
                if k < i - 1 {
                    assert(s0.link_ok(k));
                    assert(ord0[k] != ord0[i - 1] && ord0[k] != ord0[i]);
                    assert(s2.nodes@[ord[k] as int] == s0.nodes@[ord[k] as int]);
                } else if k == i - 1 {
                    assert(s0.link_ok(k));
                    assert(ord[k] == p);
                } else if k == i {
                    assert(ord[k] == idx);
                } else if k == i + 1 {
                    assert(s0.link_ok(i));
                    assert(ord[k] == target);
                } else {
                    assert(ord[k] == ord0[k - 1]);
                    assert(s0.link_ok(k - 1));
                    assert(ord0[k - 1] != ord0[i - 1] && ord0[k - 1] != ord0[i]);
                    assert(s2.nodes@[ord[k] as int] == s0.nodes@[ord[k] as int]);
                }
            }
            assert(ord.no_duplicates()) by {
                assert forall|a: int, b: int| 0 <= a < b < ord.len() implies ord[a] != ord[b] by {
                    if a == i {
                        assert(ord[b] == ord0[b - 1]);
                        assert(ord0[b - 1] != idx);
                    } else if b == i {
                        assert(ord[a] == ord0[a]);
                        assert(ord0[a] != idx);
                    } else {
                        let a0: int = if a < i { a } else { a - 1 };
                        let b0: int = if b < i { b } else { b - 1 };
                        assert(ord[a] == ord0[a0] && ord[b] == ord0[b0]);
                    }
                }
            }
            assert(s2.head == Some(ord[0]));
            assert(s2.tail == Some(ord[ord.len() - 1])) by {
                assert(ord[ord.len() - 1] == ord0[ord0.len() - 1]);
            }
            assert forall|j: int| 0 <= j < s2.free@.len() implies (#[trigger] s2.free@[j])
                < s2.nodes@.len() && s2.nodes@[s2.free@[j] as int] is None by {
                assert(s1.free@[j] == s2.free@[j]);
                assert(s2.free@[j] != idx) by {
                    if s1.free@[j] == idx {
                        assert(s1.free@.contains(idx)) by {
                            assert(s1.free@[j] == idx);
                        }
                    }
                }
                assert(s2.free@[j] != p && s2.free@[j] != target) by {
                    assert(s1.nodes@[s1.free@[j] as int] is None);
                    assert(s1.nodes@[p as int] is Some);
                    assert(s1.nodes@[target as int] is Some);
                }
            }
            match s2.current {
                None => {},
                Some(c) => {
                    let k = choose|k: int| 0 <= k < ord0.len() && ord0[k] == c;
                    assert(s0.order@.contains(c));
                    assert(ord0[k] == c);
                    if k < i {
                        assert(ord.contains(c)) by {
                            assert(ord[k] == c);
                        }
                    } else {
                        assert(ord.contains(c)) by {
                            assert(ord[k + 1] == c);
                        }
                    }
                },
            }
            assert(self.wf());
            assert(self@ =~= s0@.insert(i, obj)) by {
                assert forall|k: int| 0 <= k < ord.len() implies self@[k] == s0@.insert(i, obj)[k]
                    by {
                    if k < i {
                        assert(s0.link_ok(k));
                        assert(ord[k] == ord0[k]);
                        assert(s2.nodes@[ord[k] as int].unwrap().val == s0.nodes@[ord[k] as int].unwrap().val);
                        assert(s0@.insert(i, obj)[k] == s0@[k]);
                    } else if k == i {
                        assert(s0@.insert(i, obj)[k] == obj);
                    } else {
                        assert(s0.link_ok(k - 1));
                        assert(ord[k] == ord0[k - 1]);
                        assert(s2.nodes@[ord[k] as int].unwrap().val == s0.nodes@[ord[k] as int].unwrap().val);
                        assert(s0@.insert(i, obj)[k] == s0@[k - 1]);
                    }
                }
            }
        }
    }

    /// Detaches and returns the value at position `index`; position `0` is a
    /// head delete and position `length` degenerates to a tail delete.
    pub fn delete_ith(&mut self, index: u32) -> (r: Option<T>)
        requires
            old(self).wf(),
            index <= old(self).length,
        ensures
            final(self).wf(),
            old(self)@.len() == 0 ==> r is None && *final(self) == *old(self),
            old(self)@.len() > 0 ==> {
                let j = (if index == old(self).length {
                    index - 1
                } else {
                    index as int
                });
                r == Some(old(self)@[j]) && final(self)@ == old(self)@.remove(j)
            },
            final(self).length == (if old(self).length == 0 {
                0
            } else {
                (old(self).length - 1) as u32
            }),
    {
        proof {
            if old(self)@.len() > 0 {
                if index == old(self).length {
                    old(self)@.remove_ensures(index - 1);
                } else {
                    old(self)@.remove_ensures(index as int);
                }
            }
        }
        if index == 0 || self.length == 0 {
            let r = self.delete_head();
            proof {
                if old(self)@.len() > 0 {
                    assert(final(self)@ =~= old(self)@.remove(0));
                }
            }
            return r;
        }
        if index == self.length {
            let r = self.deleted_tail();
            proof {
                assert(final(self)@ =~= old(self)@.remove(index - 1));
            }
            return r;
        }
        let ghost s0 = *old(self);
        let ghost i = index as int;
        let target = self.get_ith_node(index);
        proof {
            assert(s0.link_ok(i));
            assert(s0.link_ok(i - 1));
            if i + 1 < s0.order@.len() {
                assert(s0.link_ok(i + 1));
            }
        }
        let mut slot: Option<Node<T>> = None;
        self.nodes.set_and_swap(target, &mut slot);
        let ghost s1 = *self;
        let node = slot.unwrap();
        let p = node.prev.unwrap();
        proof {
            assert(p == s0.order@[i - 1]);
            assert(p != target);
            assert(s1.nodes@[p as int] == s0.nodes@[p as int]);
        }
        let p_prev = self.node_ref(p).prev;
        self.relink(p, p_prev, node.next);
        match node.next {
            Some(nx) => {
                proof {
                    assert(nx == s0.order@[i + 1]);
                    assert(nx != target && nx != p);
                    assert(self.nodes@[nx as int] == s0.nodes@[nx as int]);
                }
                let nx_next = self.node_ref(nx).next;
                self.relink(nx, node.prev, nx_next);
            },
            None => {
                self.tail = node.prev;
            },
        }
        self.free.push(target);
        self.length = self.length - 1;
        match self.current {
            Some(c) => {
                if c == target {
                    self.current = None;
                }
            },
            None => {},
        }
        proof {
            let ord0 = s0.order@;
            self.order@ = ord0.remove(i);
            let s2 = *self;
            let ord = s2.order@;
            assert(ord0[i] == target);
            assert(ord.len() == ord0.len() - 1);
            assert(forall|k: int| 0 <= k < i ==> #[trigger] ord[k] == ord0[k]);
            assert(forall|k: int| i <= k < ord.len() ==> #[trigger] ord[k] == ord0[k + 1]);
            assert(s2.nodes@[p as int].unwrap().prev == s0.nodes@[p as int].unwrap().prev);
            assert(s2.nodes@[p as int].unwrap().next == s0.nodes@[target as int].unwrap().next);
            if i + 1 < ord0.len() {
                let nx = ord0[i + 1];
                assert(s2.nodes@[nx as int].unwrap().prev == Some(p));
                assert(s2.nodes@[nx as int].unwrap().next == s0.nodes@[nx as int].unwrap().next);
            }
            assert forall|s: int|
                0 <= s < s0.nodes@.len() && s != target && s != p && (i + 1 >= ord0.len() || s
                    != ord0[i + 1]) implies s2.nodes@[s] == s0.nodes@[s] by {}
            assert forall|k: int| 0 <= k < ord.len() implies #[trigger] s2.link_ok(k) by {
                if k < i - 1 {
                    assert(s0.link_ok(k));
                    assert(ord0[k] != ord0[i - 1] && ord0[k] != ord0[i]);
                    assert(i + 1 >= ord0.len() || ord0[k] != ord0[i + 1]);
                    assert(s2.nodes@[ord[k] as int] == s0.nodes@[ord[k] as int]);
                } else if k == i - 1 {
                    assert(s0.link_ok(k));
                    assert(ord[k] == p);
                    if k + 1 < ord.len() {
                        assert(ord[k + 1] == ord0[i + 1]);
                        assert(s0.link_ok(i));
                    }
                } else if k == i {
                    assert(ord[k] == ord0[i + 1]);
                    assert(s0.link_ok(i + 1));
                    assert(s0.link_ok(i));
                } else {
                    assert(ord[k] == ord0[k + 1]);
                    assert(s0.link_ok(k + 1));
                    assert(ord0[k + 1] != ord0[i - 1] && ord0[k + 1] != ord0[i]);
                    assert(i + 1 >= ord0.len() || ord0[k + 1] != ord0[i + 1]);
                    assert(s2.nodes@[ord[k] as int] == s0.nodes@[ord[k] as int]);
                }
            }
            assert(ord.no_duplicates()) by {
                assert forall|a: int, b: int| 0 <= a < b < ord.len() implies ord[a] != ord[b] by {
                    let a0: int = if a < i { a } else { a + 1 };
                    let b0: int = if b < i { b } else { b + 1 };
                    assert(ord[a] == ord0[a0] && ord[b] == ord0[b0]);
                }
            }
            assert(s2.head == Some(ord[0]));
            assert(s2.tail == (if ord.len() == 0 {
                None::<usize>
            } else {
                Some(ord[ord.len() - 1])
            })) by {
                if i + 1 < ord0.len() {
                    assert(ord[ord.len() - 1] == ord0[ord0.len() - 1]);
                } else {
                    assert(ord[ord.len() - 1] == p);
                }
            }
            assert forall|j: int| 0 <= j < s2.free@.len() implies (#[trigger] s2.free@[j])
                < s2.nodes@.len() && s2.nodes@[s2.free@[j] as int] is None by {
                if j < s0.free@.len() {
                    assert(s0.free@[j] == s2.free@[j]);
                    assert(s0.nodes@[s0.free@[j] as int] is None);
                    assert(s0.free@[j] != target) by {
                        assert(s0.nodes@[target as int] is Some);
                    }
                    assert(s0.free@[j] != p) by {
                        assert(s0.nodes@[p as int] is Some);
                    }
                    if i + 1 < ord0.len() && s0.free@[j] == ord0[i + 1] {
                        assert(s0.link_ok(i + 1));
                        assert(false);
                    }
                } else {
                    assert(s2.free@[j] == target);
                }
            }
            assert(s2.free@.no_duplicates()) by {
                assert forall|a: int, b: int| 0 <= a < b < s2.free@.len() implies s2.free@[a]
                    != s2.free@[b] by {
                    if b == s2.free@.len() - 1 {
                        assert(s0.nodes@[s0.free@[a] as int] is None);
                    }
                }
            }
            match s2.current {
                None => {},
                Some(c) => {
                    let k = choose|k: int| 0 <= k < ord0.len() && ord0[k] == c;
                    assert(s0.order@.contains(c));
                    assert(ord0[k] == c);
                    assert(k != i);
                    if k < i {
                        assert(ord.contains(c)) by {
                            assert(ord[k] == c);
                        }
                    } else {
                        assert(ord.contains(c)) by {
                            assert(ord[k - 1] == c);
                        }
                    }
                },
            }
            assert(self.wf());
            assert(self@ =~= s0@.remove(i)) by {
                assert forall|k: int| 0 <= k < ord.len() implies self@[k] == s0@.remove(i)[k] by {
                    let k0: int = if k < i { k } else { k + 1 };
                    assert(ord[k] == ord0[k0]);
                    assert(s0.link_ok(k0));
                    assert(s2.nodes@[ord[k] as int].unwrap().val == s0.nodes@[ord[k] as int].unwrap().val);
                }
            }
            assert(node.val == s0@[i]) by {
                assert(node == s0.node_at(i));
            }
        }
        Some(node.val)
    }

    /// A read-only positional lookup: the value at position `index`, counting
    /// from the head, or nothing when `index` lies outside the list.
    pub fn get(&self, index: i32) -> (r: Option<&T>)
        requires
            self.wf(),
        ensures
            0 <= index && (index as int) < self@.len() ==> (r matches Some(v) && *v == self@[index as int]),
            !(0 <= index && (index as int) < self@.len()) ==> r is None,
    {
        if index < 0 {
            return None;
        }
        let idx = index as u32;
        if idx >= self.length {
            return None;
        }
        let slot = self.get_ith_node(idx);
        proof {
            assert(self.link_ok(index as int));
        }
        Some(&self.node_ref(slot).val)
    }

    /// The position of the cursor within the chain, if the cursor stands on
    /// it.
    pub closed spec fn cursor_index(self) -> Option<int> {
        match self.current {
            None => None,
            Some(c) => if self.order@.contains(c) {
                Some(self.order@.index_of(c))
            } else {
                None
            },
        }
    }

    /// Points the cursor at the head of the list.
    pub fn reset(&mut self)
        requires
            old(self).wf(),
        ensures
            final(self).wf(),
            final(self)@ == old(self)@,
            final(self).length == old(self).length,
            final(self).cursor_index() == (if old(self)@.len() == 0 {
                None::<int>
            } else {
                Some(0int)
            }),
    {
        self.current = self.head;
        proof {
            let s2 = *self;
            assert forall|k: int| 0 <= k < s2.order@.len() implies #[trigger] s2.link_ok(k) by {
                assert(old(self).link_ok(k));
            }
            if self.order@.len() > 0 {
                assert(self.order@.contains(self.order@[0])) by {
                    assert(self.order@[0] == self.order@[0]);
                }
                self.lemma_index_of_position(0);
            }
            assert(self.wf());
            assert(self@ =~= old(self)@);
        }
    }

    /// Yields the value under the cursor and advances the cursor one node
    /// towards the tail; yields nothing once the cursor has left the chain.
    pub fn next(&mut self) -> (r: Option<&T>)
        requires
            old(self).wf(),
        ensures
            final(self).wf(),
            final(self)@ == old(self)@,
            final(self).length == old(self).length,
            old(self).cursor_index() is None ==> r is None && final(self).cursor_index() is None,
            old(self).cursor_index() matches Some(k) ==> (r matches Some(v) && *v == old(self)@[k]
                && final(self).cursor_index() == (if k + 1 < old(self)@.len() {
                Some(k + 1)
            } else {
                None::<int>
            })),
    {
        match self.current {
            None => {
                proof {
                    let s2 = *self;
                    assert forall|k: int| 0 <= k < s2.order@.len() implies #[trigger] s2.link_ok(
                        k,
                    ) by {
                        assert(old(self).link_ok(k));
                    }
                    assert(self.wf());
                    assert(self@ =~= old(self)@);
                }
                None
            },
            Some(c) => {
                let ghost s0 = *old(self);
                let ghost k = s0.order@.index_of(c);
                proof {
                    assert(s0.order@[k] == c);
                    assert(s0.link_ok(k));
                }
                let nxt = self.node_ref(c).next;
                self.current = nxt;
                proof {
                    let s2 = *self;
                    assert forall|j: int| 0 <= j < s2.order@.len() implies #[trigger] s2.link_ok(
                        j,
                    ) by {
                        assert(s0.link_ok(j));
                    }
                    if k + 1 < s0.order@.len() {
                        assert(self.order@.contains(s0.order@[k + 1])) by {
                            assert(self.order@[k + 1] == s0.order@[k + 1]);
                        }
                        self.lemma_index_of_position(k + 1);
                    }
                    assert(self.wf());
                    assert(self@ =~= s0@);
                }
                Some(&self.node_ref(c).val)
            },
        }
    }

    /// In a chain without duplicate slots, the index of the slot standing at
    /// position `k` is `k` itself.
    proof fn lemma_index_of_position(self, k: int)
        requires
            self.order@.no_duplicates(),
            0 <= k < self.order@.len(),
        ensures
            self.order@.index_of(self.order@[k]) == k,
    {
        assert(self.order@.contains(self.order@[k])) by {
            assert(self.order@[k] == self.order@[k]);
        }
        let j = self.order@.index_of(self.order@[k]);
        assert(self.order@[j] == self.order@[k]);
    }

    /// Drains the list, releasing every remaining node; on an empty list this
    /// is a no-op. Afterwards every slot of the arena stands on the free
    /// list.
    pub fn clear(&mut self)
        requires
            old(self).wf(),
        ensures
            final(self).wf(),
            final(self)@ == Seq::<T>::empty(),
            final(self).length == 0,
            final(self).free@.len() == final(self).nodes@.len(),
    {
        while self.length > 0
            invariant
                self.wf(),
            decreases self.length,
        {
            let _ = self.delete_head();
        }
        proof {
            assert(self@ =~= Seq::<T>::empty());
        }
    }

    /// A reference to the node in slot `i`.
    fn node_ref(&self, i: usize) -> (r: &Node<T>)
        requires
            i < self.nodes@.len(),
            self.nodes@[i as int] is Some,
        ensures
            *r == self.nodes@[i as int].unwrap(),
    {
        self.nodes[i].as_ref().unwrap()
    }
}

impl<T> Default for LinkedList<T> {
    /// An empty list.
    fn default() -> (l: Self)
        ensures
            l.wf(),
            l@ == Seq::<T>::empty(),
            l.length == 0,
    {
        Self::new()
    }
}

/// The value of a list built by appending each element of `vals` in turn at
/// the tail, starting from an empty list, as the contract of
/// `insert_at_tail` describes one such call.
pub open spec fn appended_in_turn<T>(vals: Seq<T>) -> Seq<T>
    decreases vals.len(),
{
    if vals.len() == 0 {
        Seq::empty()
    } else {
        appended_in_turn(vals.drop_last()).push(vals.last())
    }
}

/// The value of a list built by putting each element of `vals` in turn at
/// the head, starting from an empty list, as the contract of
/// `insert_at_head` describes one such call.
pub open spec fn prepended_in_turn<T>(vals: Seq<T>) -> Seq<T>
    decreases vals.len(),
{
    if vals.len() == 0 {
        Seq::empty()
    } else {
        seq![vals.last()] + prepended_in_turn(vals.drop_last())
    }
}

/// For every sequence of `insert_at_tail` calls on an empty list, the i-th
/// inserted value stands at position i and the length equals the number of
/// calls, so `get(i)` returns the i-th inserted value.
pub proof fn lemma_tail_inserts_keep_order<T>(vals: Seq<T>)
    ensures
        appended_in_turn(vals) == vals,
        appended_in_turn(vals).len() == vals.len(),
        forall|i: int| 0 <= i < vals.len() ==> #[trigger] appended_in_turn(vals)[i] == vals[i],
    decreases vals.len(),
{
    if vals.len() == 0 {
        assert(appended_in_turn(vals) =~= vals);
    } else {
        lemma_tail_inserts_keep_order(vals.drop_last());
        assert(appended_in_turn(vals) =~= vals);
    }
}

/// For every sequence of `insert_at_head` calls on an empty list, the most
/// recently inserted value stands at position 0, so `get(0)` returns it.
pub proof fn lemma_head_inserts_stack<T>(vals: Seq<T>)
    ensures
        prepended_in_turn(vals).len() == vals.len(),
        vals.len() > 0 ==> prepended_in_turn(vals)[0] == vals.last(),
    decreases vals.len(),
{
    if vals.len() > 0 {
        lemma_head_inserts_stack(vals.drop_last());
    }
}

/// `insert_at_ith(i, v)` puts `v` at position i — so `get(i)` then returns
/// `v` — and moves the element that stood at position i to position i + 1.
pub proof fn lemma_ith_insert_shifts<T>(s: Seq<T>, i: int, v: T)
    requires
        0 <= i <= s.len(),
    ensures
        s.insert(i, v).len() == s.len() + 1,
        s.insert(i, v)[i] == v,
        i < s.len() ==> s.insert(i, v)[i + 1] == s[i],
{
    s.insert_ensures(i, v);
}

/// Round trip: after `insert_at_tail(x)`, a `delete_head` brings the length
/// back to its prior value; when the list was empty, the value returned is
/// `x` itself.
pub proof fn lemma_tail_insert_head_delete<T>(s: Seq<T>, x: T)
    ensures
        s.push(x).drop_first().len() == s.len(),
        s.len() == 0 ==> s.push(x)[0] == x,
{
}

} // verus!
