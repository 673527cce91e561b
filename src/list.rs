//! An intrusive doubly-linked list.
//!
//! Nodes live in slots of the list's own node storage, and each slot carries
//! the pair of links that joins its node to its neighbours. Linking and
//! unlinking a node rewrites those links in place; the storage only grows
//! when no vacated slot is left to reuse.
use vstd::prelude::*;
use vstd::set_lib::{lemma_int_range, lemma_len_subset, set_int_range};
use crate::link::{Link, Links};
use crate::node::{items_of, Node};

verus! {

/// An intrusive doubly-linked list of nodes of type `N`.
pub struct List<N> {
    /// Node storage; a slot that holds no node is listed in `spare`.
    slots: Vec<Option<N>>,
    /// The links of the node in each slot.
    links: Vec<Links>,
    /// Vacated slots, reused before the storage grows.
    spare: Vec<usize>,
    /// Link to the head node of the list.
    head: Link,
    /// Link to the tail node of the list.
    tail: Link,
    /// Length of the list.
    len: usize,
    /// The slots of the linked nodes, in list order.
    order: Ghost<Seq<usize>>,
}

impl<N> View for List<N> {
    type V = Seq<N>;

    /// The nodes of the list, from head to tail.
    closed spec fn view(&self) -> Seq<N> {
        Seq::new(self.order@.len(), |i: int| self.slots@[self.order@[i] as int]->Some_0)
    }
}

/// Number of nodes met by following `next` links from `from`, giving up
/// after `fuel` steps.
pub open spec fn forward_count(nexts: Map<usize, Option<usize>>, from: Option<usize>, fuel: nat) -> nat
    decreases fuel,
{
    match from {
        None => 0,
        Some(s) => if fuel == 0 || !nexts.contains_key(s) {
            0
        } else {
            1 + forward_count(nexts, nexts[s], (fuel - 1) as nat)
        },
    }
}

/// The link that should follow position `i` of `order`.
pub(crate) open spec fn after(order: Seq<usize>, i: int) -> Option<usize> {
    if i + 1 < order.len() {
        Some(order[i + 1])
    } else {
        None
    }
}

/// The link that should precede position `i` of `order`.
spec fn before(order: Seq<usize>, i: int) -> Option<usize> {
    if i > 0 {
        Some(order[i - 1])
    } else {
        None
    }
}

/// The first link of `order`, if any.
pub(crate) open spec fn first(order: Seq<usize>) -> Option<usize> {
    if order.len() == 0 {
        None
    } else {
        Some(order[0])
    }
}

/// The last link of `order`, if any.
spec fn last(order: Seq<usize>) -> Option<usize> {
    if order.len() == 0 {
        None
    } else {
        Some(order[order.len() - 1])
    }
}

/// The slots in `order` are distinct and lie inside storage of length `cap`.
#[verifier::opaque]
pub(crate) open spec fn distinct_within(order: Seq<usize>, cap: nat) -> bool {
    &&& forall|i: int| 0 <= i < order.len() ==> #[trigger] order[i] < cap
    &&& forall|i: int, j: int| 0 <= i < order.len() && 0 <= j < order.len() && i != j ==> #[trigger] order[i] != #[trigger] order[j]
}

/// Every slot in `order` holds a node.
#[verifier::opaque]
pub(crate) open spec fn all_filled<N>(order: Seq<usize>, slots: Seq<Option<N>>) -> bool {
    forall|i: int| 0 <= i < order.len() ==> (#[trigger] slots[order[i] as int]).is_some()
}

/// The links stored for the slots in `order` chain them together in that
/// order, from `head` to `tail`.
#[verifier::opaque]
spec fn chained(order: Seq<usize>, links: Seq<Links>, head: Option<usize>, tail: Option<usize>) -> bool {
    &&& head == first(order)
    &&& tail == last(order)
    &&& forall|i: int| 0 <= i < order.len() ==> (#[trigger] links[order[i] as int]).next.slot == after(order, i)
    &&& forall|i: int| 0 <= i < order.len() ==> (#[trigger] links[order[i] as int]).prev.slot == before(order, i)
}

/// The vacated slots are distinct, inside the storage, and hold no linked
/// node.
#[verifier::opaque]
pub(crate) open spec fn spare_ok(spare: Seq<usize>, order: Seq<usize>, cap: nat) -> bool {
    &&& forall|k: int| 0 <= k < spare.len() ==> #[trigger] spare[k] < cap
    &&& forall|k: int, i: int| 0 <= k < spare.len() && 0 <= i < order.len() ==> #[trigger] spare[k] != #[trigger] order[i]
    &&& forall|k: int, l: int| 0 <= k < spare.len() && 0 <= l < spare.len() && k != l ==> #[trigger] spare[k] != #[trigger] spare[l]
}

/// The links after linking slot `s` in at position `p` of `order`.
spec fn links_after_insert(order: Seq<usize>, links: Seq<Links>, s: usize, p: int, j: int) -> Links {
    if j == s {
        Links { next: Link { slot: if p < order.len() { Some(order[p]) } else { None } }, prev: Link { slot: before(order, p) } }
    } else if p > 0 && j == order[p - 1] {
        Links { next: Link { slot: Some(s) }, prev: links[j].prev }
    } else if p < order.len() && j == order[p] {
        Links { next: links[j].next, prev: Link { slot: Some(s) } }
    } else {
        links[j]
    }
}

/// The links after unlinking position `p` of `order`.
spec fn links_after_remove(order: Seq<usize>, links: Seq<Links>, p: int, j: int) -> Links {
    if j == order[p] {
        Links { next: Link { slot: None }, prev: Link { slot: None } }
    } else if p > 0 && j == order[p - 1] {
        Links { next: Link { slot: after(order, p) }, prev: links[j].prev }
    } else if p + 1 < order.len() && j == order[p + 1] {
        Links { next: links[j].next, prev: Link { slot: before(order, p) } }
    } else {
        links[j]
    }
}

/// A sequence of distinct slots inside storage of length `cap` is no
/// longer than the storage.
pub(crate) proof fn lemma_distinct_len(order: Seq<usize>, cap: nat)
    requires
        distinct_within(order, cap),
    ensures
        order.len() <= cap,
{
    reveal(distinct_within);
    let ints = order.map_values(|x: usize| x as int);
    assert forall|i: int, j: int| 0 <= i < ints.len() && 0 <= j < ints.len() && i != j implies ints[i] != ints[j] by {
        assert(order[i] != order[j]);
    }
    assert(ints.no_duplicates());
    ints.unique_seq_to_set();
    lemma_int_range(0, cap as int);
    assert forall|x: int| ints.to_set().contains(x) implies set_int_range(0, cap as int).contains(x) by {
        let i = choose|i: int| 0 <= i < ints.len() && ints[i] == x;
        assert(order[i] < cap);
    }
    lemma_len_subset(ints.to_set(), set_int_range(0, cap as int));
}

proof fn lemma_chain_insert(order: Seq<usize>, links: Seq<Links>, links2: Seq<Links>, cap: nat, s: usize, p: int)
    requires
        chained(order, links, first(order), last(order)),
        distinct_within(order, cap),
        links.len() == cap,
        links2.len() >= cap,
        s < links2.len(),
        forall|i: int| 0 <= i < order.len() ==> order[i] != s,
        0 <= p <= order.len(),
        forall|j: int| 0 <= j < links2.len() && j < cap ==> links2[j] == #[trigger] links_after_insert(order, links, s, p, j),
        links2[s as int] == links_after_insert(order, links, s, p, s as int),
    ensures
        chained(order.insert(p, s), links2, first(order.insert(p, s)), last(order.insert(p, s))),
        distinct_within(order.insert(p, s), links2.len()),
{
    reveal(chained);
    reveal(distinct_within);
    let o2 = order.insert(p, s);
    let n = order.len();
    assert forall|i: int| 0 <= i < o2.len() implies (#[trigger] links2[o2[i] as int]).next.slot == after(o2, i)
        && links2[o2[i] as int].prev.slot == before(o2, i) by {
        if i != p {
            let oi = if i < p { i } else { i - 1 };
            let q = order[oi];
            assert(o2[i] == q);
            assert(links2[q as int] == links_after_insert(order, links, s, p, q as int));
            assert(links[q as int].next.slot == after(order, oi));
            assert(links[q as int].prev.slot == before(order, oi));
            if oi + 1 < n {
                assert(order[oi + 1] != q);
            }
            if oi > 0 {
                assert(order[oi - 1] != q);
            }
            if p < n && oi != p {
                assert(order[p] != q);
            }
            if p > 0 && oi != p - 1 {
                assert(order[p - 1] != q);
            }
        }
    }
    assert forall|i: int, j: int| 0 <= i < o2.len() && 0 <= j < o2.len() && i != j implies #[trigger] o2[i] != #[trigger] o2[j] by {
        let oi = if i < p { i } else { i - 1 };
        let oj = if j < p { j } else { j - 1 };
        if i != p && j != p {
            assert(o2[i] == order[oi]);
            assert(o2[j] == order[oj]);
        }
    }
}

proof fn lemma_chain_remove(order: Seq<usize>, links: Seq<Links>, links2: Seq<Links>, cap: nat, p: int)
    requires
        chained(order, links, first(order), last(order)),
        distinct_within(order, cap),
        links.len() == cap,
        links2.len() == cap,
        0 <= p < order.len(),
        forall|j: int| 0 <= j < cap ==> links2[j] == #[trigger] links_after_remove(order, links, p, j),
    ensures
        chained(order.remove(p), links2, first(order.remove(p)), last(order.remove(p))),
        distinct_within(order.remove(p), cap),
{
    reveal(chained);
    reveal(distinct_within);
    let o2 = order.remove(p);
    let n = order.len();
    assert forall|i: int| 0 <= i < o2.len() implies (#[trigger] links2[o2[i] as int]).next.slot == after(o2, i)
        && links2[o2[i] as int].prev.slot == before(o2, i) by {
        let oi = if i < p { i } else { i + 1 };
        let q = order[oi];
        assert(o2[i] == q);
        assert(links2[q as int] == links_after_remove(order, links, p, q as int));
        assert(order[p] != q);
        assert(links[q as int].next.slot == after(order, oi));
        assert(links[q as int].prev.slot == before(order, oi));
        if oi + 1 < n {
            assert(order[oi + 1] != q);
        }
        if oi > 0 {
            assert(order[oi - 1] != q);
        }
        if p + 1 < n && oi != p + 1 {
            assert(order[p + 1] != q);
        }
        if p > 0 && oi != p - 1 {
            assert(order[p - 1] != q);
        }
    }
    assert forall|i: int, j: int| 0 <= i < o2.len() && 0 <= j < o2.len() && i != j implies #[trigger] o2[i] != #[trigger] o2[j] by {
        let oi = if i < p { i } else { i + 1 };
        let oj = if j < p { j } else { j + 1 };
        assert(o2[i] == order[oi]);
        assert(o2[j] == order[oj]);
    }
}

impl<N> List<N> {
    /// The link to the head node.
    pub closed spec fn head_link(&self) -> Option<usize> {
        self.head.slot
    }

    /// The link to the tail node.
    pub closed spec fn tail_link(&self) -> Option<usize> {
        self.tail.slot
    }

    /// The link that names the node at position `i`.
    pub closed spec fn link_at(&self, i: int) -> Option<usize> {
        Some(self.order@[i])
    }

    /// The `next` links of all linked nodes, keyed by the slots that name
    /// them.
    pub closed spec fn next_links(&self) -> Map<usize, Option<usize>> {
        Map::new(
            |s: usize| exists|i: int| 0 <= i < self.order@.len() && self.order@[i] == s,
            |s: usize| self.links@[s as int].next.slot,
        )
    }

    /// The `next` link stored with the node at position `i`.
    pub closed spec fn next_link_at(&self, i: int) -> Option<usize> {
        self.links@[self.order@[i] as int].next.slot
    }

    /// The `prev` link stored with the node at position `i`.
    pub closed spec fn prev_link_at(&self, i: int) -> Option<usize> {
        self.links@[self.order@[i] as int].prev.slot
    }

    /// The list's internal invariant: every linked slot holds a node, the
    /// stored links chain the nodes in list order, and the length is the
    /// number of linked nodes.
    pub closed spec fn wf(&self) -> bool {
        &&& self.len == self.order@.len()
        &&& self.links@.len() == self.slots@.len()
        &&& distinct_within(self.order@, self.slots@.len())
        &&& all_filled(self.order@, self.slots@)
        &&& chained(self.order@, self.links@, self.head.slot, self.tail.slot)
        &&& spare_ok(self.spare@, self.order@, self.slots@.len())
    }

    /// Create a new `List` with 0 elements.
    pub fn new() -> (r: Self)
        ensures
            r.wf(),
            r@ == Seq::<N>::empty(),
    {
        let r = List {
            slots: Vec::new(),
            links: Vec::new(),
            spare: Vec::new(),
            head: Link::none(),
            tail: Link::none(),
            len: 0,
            order: Ghost(Seq::empty()),
        };
        proof {
            reveal(distinct_within);
            reveal(all_filled);
            reveal(chained);
            reveal(spare_ok);
        }
        assert(r@ =~= Seq::<N>::empty());
        r
    }

    /// Returns the length of the list.
    pub fn len(&self) -> (r: usize)
        requires
            self.wf(),
        ensures
            r == self@.len(),
    {
        self.len
    }

    /// Returns true if the list is empty, false otherwise.
    pub fn is_empty(&self) -> (r: bool)
        requires
            self.wf(),
        ensures
            r == (self@.len() == 0),
    {
        self.len == 0
    }

    /// Borrows the first node of the list, if there is one.
    pub fn head(&self) -> (r: Option<&N>)
        requires
            self.wf(),
        ensures
            self@.len() == 0 ==> r.is_none(),
            self@.len() > 0 ==> r == Some(&self@[0]),
    {
        proof {
            reveal(chained);
            reveal(distinct_within);
            reveal(all_filled);
        }
        match self.head.slot {
            Some(s) => {
                proof {
                    assert(self.slots@[self.order@[0] as int].is_some());
                }
                self.slots[s].as_ref()
            },
            None => None,
        }
    }

    /// Borrows the last node of the list, if there is one.
    pub fn tail(&self) -> (r: Option<&N>)
        requires
            self.wf(),
        ensures
            self@.len() == 0 ==> r.is_none(),
            self@.len() > 0 ==> r == Some(&self@[self@.len() - 1]),
    {
        proof {
            reveal(chained);
            reveal(distinct_within);
            reveal(all_filled);
        }
        match self.tail.slot {
            Some(s) => {
                proof {
                    let n = self.order@.len();
                    assert(self.slots@[self.order@[n - 1] as int].is_some());
                }
                self.slots[s].as_ref()
            },
            None => None,
        }
    }

    /// Puts `node` into a free slot, unlinked, and returns that slot.
    fn alloc_slot(&mut self, node: N) -> (s: usize)
        requires
            old(self).wf(),
        ensures
            s <= old(self).slots@.len(),
            final(self).slots@ == (if s < old(self).slots@.len() {
                old(self).slots@.update(s as int, Some(node))
            } else {
                old(self).slots@.push(Some(node))
            }),
            final(self).links@ == (if s < old(self).slots@.len() {
                old(self).links@.update(s as int, unlinked())
            } else {
                old(self).links@.push(unlinked())
            }),
            forall|i: int| 0 <= i < old(self).order@.len() ==> old(self).order@[i] != s,
            final(self).order == old(self).order,
            final(self).head == old(self).head,
            final(self).tail == old(self).tail,
            final(self).len == old(self).len,
            spare_ok(final(self).spare@, old(self).order@.push(s), final(self).slots@.len()),
    {
        proof {
            reveal(spare_ok);
        }
        match self.spare.pop() {
            Some(s) => {
                proof {
                    assert(self.spare@ == old(self).spare@.drop_last());
                    assert(s == old(self).spare@[old(self).spare@.len() - 1]);
                    let o2 = old(self).order@.push(s);
                    assert forall|k: int, i: int| 0 <= k < self.spare@.len() && 0 <= i < o2.len()
                        implies #[trigger] self.spare@[k] != #[trigger] o2[i] by {
                        assert(self.spare@[k] == old(self).spare@[k]);
                    }
                }
                self.slots.set(s, Some(node));
                self.links.set(s, Links::new());
                s
            },
            None => {
                let s = self.slots.len();
                proof {
                    reveal(distinct_within);
                    let o2 = old(self).order@.push(s);
                    assert forall|k: int, i: int| 0 <= k < self.spare@.len() && 0 <= i < o2.len()
                        implies #[trigger] self.spare@[k] != #[trigger] o2[i] by {}
                }
                self.slots.push(Some(node));
                self.links.push(Links::new());
                s
            },
        }
    }

    /// Links `node` in at position `p`, between the nodes named by `prev`
    /// and `next`, and returns the slot that now holds it.
    fn link_in(&mut self, node: N, prev: Link, next: Link, Ghost(p): Ghost<int>) -> (s: usize)
        requires
            old(self).wf(),
            0 <= p <= old(self)@.len(),
            prev.slot == before(old(self).order@, p),
            next.slot == (if p < old(self)@.len() { Some(old(self).order@[p]) } else { None }),
        ensures
            final(self).wf(),
            final(self)@ == old(self)@.insert(p, node),
            final(self).order@ == old(self).order@.insert(p, s),
    {
        let ghost order = self.order@;
        let ghost links0 = self.links@;
        let ghost cap = self.slots@.len();
        proof {
            reveal(chained);
            reveal(distinct_within);
        }
        let s = self.alloc_slot(node);
        // The length of the node storage bounds the number of linked nodes.
        let cap_now = self.slots.len();
        proof {
            reveal(distinct_within);
            let op = order.push(s);
            assert forall|i: int, j: int| 0 <= i < op.len() && 0 <= j < op.len() && i != j implies #[trigger] op[i]
                != #[trigger] op[j] by {
                if i < order.len() && j < order.len() {
                    assert(op[i] == order[i] && op[j] == order[j]);
                }
            }
            assert(distinct_within(op, self.slots@.len()));
            lemma_distinct_len(op, self.slots@.len());
            assert(op.len() <= cap_now);
        }
        self.links.set(s, Links { next, prev });
        match prev.slot {
            Some(ps) => {
                let l = self.links[ps];
                self.links.set(ps, Links { next: Link::to_slot(s), prev: l.prev });
            },
            None => {
                self.head = Link::to_slot(s);
            },
        }
        match next.slot {
            Some(ns) => {
                let l = self.links[ns];
                self.links.set(ns, Links { next: l.next, prev: Link::to_slot(s) });
            },
            None => {
                self.tail = Link::to_slot(s);
            },
        }
        self.len = self.len + 1;
        self.order = Ghost(self.order@.insert(p, s));
        proof {
            if p > 0 && p < order.len() {
                assert(order[p - 1] != order[p]);
            }
            assert forall|j: int| 0 <= j < self.links@.len() && j < cap implies self.links@[j]
                == #[trigger] links_after_insert(order, links0, s, p, j) by {}
            lemma_chain_insert(order, links0, self.links@, cap, s, p);
            reveal(all_filled);
            reveal(spare_ok);
            let o2 = self.order@;
            assert forall|i: int| 0 <= i < o2.len() implies (#[trigger] self.slots@[o2[i] as int]).is_some() by {
                if i < p {
                    assert(o2[i] == order[i]);
                } else if i > p {
                    assert(o2[i] == order[i - 1]);
                }
            }
            let op = order.push(s);
            assert forall|k: int, i: int| 0 <= k < self.spare@.len() && 0 <= i < o2.len()
                implies #[trigger] self.spare@[k] != #[trigger] o2[i] by {
                if i < p {
                    assert(o2[i] == op[i]);
                } else if i > p {
                    assert(o2[i] == op[i - 1]);
                } else {
                    assert(o2[i] == op[order.len() as int]);
                }
            }
            assert(self@ =~= old(self)@.insert(p, node));
        }
        s
    }

    /// Unlinks the node at position `p`, held in slot `s`, and returns it.
    fn unlink(&mut self, s: usize, Ghost(p): Ghost<int>) -> (r: N)
        requires
            old(self).wf(),
            0 <= p < old(self)@.len(),
            s == old(self).order@[p],
        ensures
            final(self).wf(),
            final(self)@ == old(self)@.remove(p),
            final(self).order@ == old(self).order@.remove(p),
            r == old(self)@[p],
    {
        let ghost order = self.order@;
        let ghost links0 = self.links@;
        let ghost cap = self.slots@.len();
        proof {
            reveal(chained);
            reveal(distinct_within);
            reveal(all_filled);
            assert(self.links@[order[p] as int].next.slot == after(order, p));
            assert(self.links@[order[p] as int].prev.slot == before(order, p));
            if p > 0 && p + 1 < order.len() {
                assert(order[p - 1] != order[p + 1]);
            }
            assert(self.slots@[order[p] as int].is_some());
        }
        let links = self.links[s];
        match links.next.slot {
            Some(ns) => {
                let l = self.links[ns];
                self.links.set(ns, Links { next: l.next, prev: links.prev });
            },
            None => {
                self.tail = links.prev;
            },
        }
        match links.prev.slot {
            Some(ps) => {
                let l = self.links[ps];
                self.links.set(ps, Links { next: links.next, prev: l.prev });
            },
            None => {
                self.head = links.next;
            },
        }
        self.links.set(s, Links::new());
        let node = self.slots[s].take();
        self.spare.push(s);
        self.len = self.len - 1;
        self.order = Ghost(self.order@.remove(p));
        proof {
            assert forall|j: int| 0 <= j < cap implies self.links@[j] == #[trigger] links_after_remove(order, links0, p, j) by {}
            lemma_chain_remove(order, links0, self.links@, cap, p);
            reveal(spare_ok);
            let o2 = self.order@;
            assert forall|i: int| 0 <= i < o2.len() implies (#[trigger] self.slots@[o2[i] as int]).is_some() by {
                let oi = if i < p { i } else { i + 1 };
                assert(o2[i] == order[oi]);
            }
            assert forall|k: int, i: int| 0 <= k < self.spare@.len() && 0 <= i < o2.len()
                implies #[trigger] self.spare@[k] != #[trigger] o2[i] by {
                let oi = if i < p { i } else { i + 1 };
                assert(o2[i] == order[oi]);
                if k < old(self).spare@.len() {
                    assert(self.spare@[k] == old(self).spare@[k]);
                }
            }
            assert forall|k: int, l: int| 0 <= k < self.spare@.len() && 0 <= l < self.spare@.len() && k != l
                implies #[trigger] self.spare@[k] != #[trigger] self.spare@[l] by {
                if k < old(self).spare@.len() {
                    assert(self.spare@[k] == old(self).spare@[k]);
                }
                if l < old(self).spare@.len() {
                    assert(self.spare@[l] == old(self).spare@[l]);
                }
            }
            assert(self@ =~= old(self)@.remove(p));
        }
        node.unwrap()
    }
}

impl<N> List<N> {
    /// Push a node to the head of the list.
    pub fn push_front_node(&mut self, node: N) -> (r: &mut Self)
        requires
            old(self).wf(),
        ensures
            r.wf(),
            r@ == seq![node] + old(self)@,
            *final(self) == *final(r),
    {
        let ghost n = self@.len();
        proof {
            reveal(chained);
        }
        let head = self.head;
        self.link_in(node, Link::none(), head, Ghost(0));
        assert(self@ =~= seq![node] + old(self)@);
        self
    }

    /// Push a node to the back of the list.
    pub fn push_back_node(&mut self, node: N) -> (r: &mut Self)
        requires
            old(self).wf(),
        ensures
            r.wf(),
            r@ == old(self)@.push(node),
            *final(self) == *final(r),
    {
        let ghost n = self@.len();
        proof {
            reveal(chained);
        }
        let tail = self.tail;
        let len = self.len;
        self.link_in(node, tail, Link::none(), Ghost(len as int));
        assert(self@ =~= old(self)@.push(node));
        self
    }

    /// Pop a node from the front of the list.
    pub fn pop_front_node(&mut self) -> (r: Option<N>)
        requires
            old(self).wf(),
        ensures
            final(self).wf(),
            old(self)@.len() == 0 ==> r.is_none() && final(self)@ == old(self)@,
            old(self)@.len() > 0 ==> r == Some(old(self)@[0]) && final(self)@ == old(self)@.drop_first(),
    {
        proof {
            reveal(chained);
        }
        match self.head.slot {
            Some(s) => {
                let node = self.unlink(s, Ghost(0));
                assert(self@ =~= old(self)@.drop_first());
                Some(node)
            },
            None => None,
        }
    }

    /// Pop a node from the back of the list.
    pub fn pop_back_node(&mut self) -> (r: Option<N>)
        requires
            old(self).wf(),
        ensures
            final(self).wf(),
            old(self)@.len() == 0 ==> r.is_none() && final(self)@ == old(self)@,
            old(self)@.len() > 0 ==> r == Some(old(self)@.last()) && final(self)@ == old(self)@.drop_last(),
    {
        proof {
            reveal(chained);
        }
        match self.tail.slot {
            Some(s) => {
                let len = self.len;
                let node = self.unlink(s, Ghost(len - 1));
                assert(self@ =~= old(self)@.drop_last());
                Some(node)
            },
            None => None,
        }
    }

    /// Mutably borrows the node held in slot `s`, at position `p`.
    fn node_mut(&mut self, s: usize, Ghost(p): Ghost<int>) -> (r: &mut N)
        requires
            old(self).wf(),
            0 <= p < old(self)@.len(),
            s == old(self).order@[p],
        ensures
            *r == old(self)@[p],
            final(self).wf(),
            final(self)@ == old(self)@.update(p, *final(r)),
            final(self).order == old(self).order,
    {
        proof {
            reveal(distinct_within);
            reveal(all_filled);
            reveal(chained);
            reveal(spare_ok);
            assert(self.slots@[s as int].is_some());
        }
        proof {
            assert forall|i: int| 0 <= i < old(self).order@.len() && i != p implies old(self).order@[i] != s by {}
        }
        let node = self.slots[s].as_mut().unwrap();
        proof {
            assert(after_borrow(self).slots@ == old(self).slots@.update(s as int, Some(*final(node))));
            assert(after_borrow(self)@ =~= old(self)@.update(p, *final(node)));
        }
        node
    }

    /// Mutably borrows the first node of the list, if there is one.
    pub fn head_mut(&mut self) -> (r: Option<&mut N>)
        requires
            old(self).wf(),
        ensures
            old(self)@.len() == 0 ==> r.is_none() && *final(self) == *old(self),
            old(self)@.len() > 0 ==> r.is_some() && *r.unwrap() == old(self)@[0]
                && final(self).wf() && final(self)@ == old(self)@.update(0, *final(r.unwrap())),
    {
        proof {
            reveal(chained);
        }
        match self.head.slot {
            Some(s) => Some(self.node_mut(s, Ghost(0))),
            None => None,
        }
    }
}

impl<N> List<N> {
    /// Mutably borrows the last node of the list, if there is one.
    pub fn tail_mut(&mut self) -> (r: Option<&mut N>)
        requires
            old(self).wf(),
        ensures
            old(self)@.len() == 0 ==> r.is_none() && *final(self) == *old(self),
            old(self)@.len() > 0 ==> r.is_some() && *r.unwrap() == old(self)@.last()
                && final(self).wf() && final(self)@ == old(self)@.update(old(self)@.len() - 1, *final(r.unwrap())),
    {
        proof {
            reveal(chained);
        }
        match self.tail.slot {
            Some(s) => {
                let len = self.len;
                Some(self.node_mut(s, Ghost(len - 1)))
            },
            None => None,
        }
    }
}

impl<N> List<N> {
    /// Finds the first node, in list order, that satisfies `pred`, unlinks
    /// it and returns it.
    pub fn remove_first_node<P: Fn(&N) -> bool>(&mut self, pred: P) -> (r: Option<N>)
        requires
            old(self).wf(),
            forall|n: &N| pred.requires((n,)),
        ensures
            final(self).wf(),
            r is None ==> final(self)@ == old(self)@ && forall|i: int|
                0 <= i < old(self)@.len() ==> pred.ensures((&old(self)@[i],), false),
            r is Some ==> exists|i: int|
                0 <= i < old(self)@.len() && r == Some(old(self)@[i]) && pred.ensures((&old(self)@[i],), true)
                    && (forall|j: int| 0 <= j < i ==> pred.ensures((&old(self)@[j],), false))
                    && final(self)@ == old(self)@.remove(i),
    {
        let mut cur = self.head;
        let ghost mut i: int = 0;
        proof {
            reveal(chained);
        }
        loop
            invariant
                *self == *old(self),
                self.wf(),
                forall|n: &N| pred.requires((n,)),
                0 <= i <= self@.len(),
                cur.slot == (if i < self@.len() { Some(self.order@[i]) } else { None }),
                forall|j: int| 0 <= j < i ==> pred.ensures((&self@[j],), false),
            decreases self@.len() - i,
        {
            match cur.slot {
                None => {
                    return None;
                },
                Some(s) => {
                    proof {
                        reveal(distinct_within);
                        reveal(all_filled);
                        reveal(chained);
                        assert(self.slots@[self.order@[i] as int].is_some());
                        assert(self.links@[self.order@[i] as int].next.slot == after(self.order@, i));
                    }
                    let node = self.slots[s].as_ref().unwrap();
                    let hit = pred(node);
                    if hit {
                        let n = self.unlink(s, Ghost(i));
                        return Some(n);
                    }
                    cur = self.links[s].next;
                    proof {
                        i = i + 1;
                    }
                },
            }
        }
    }
}

impl<N: Node> List<N> {
    /// A list of new nodes that carry `items`, in order.
    pub fn from_iter(items: Vec<N::Item>) -> (r: Self)
        ensures
            r.wf(),
            items_of(r@) == items@,
    {
        let mut list = List::new();
        list.extend(items);
        assert(list@.subrange(0, list@.len() as int) =~= list@);
        list
    }

    /// Borrows the first item of the list, if there is one.
    pub fn front(&self) -> (r: Option<&N::Item>)
        requires
            self.wf(),
        ensures
            self@.len() == 0 ==> r.is_none(),
            self@.len() > 0 ==> r == Some(&self@[0].item_of()),
    {
        match self.head() {
            Some(n) => Some(n.item()),
            None => None,
        }
    }

    /// Borrows the last item of the list, if there is one.
    pub fn back(&self) -> (r: Option<&N::Item>)
        requires
            self.wf(),
        ensures
            self@.len() == 0 ==> r.is_none(),
            self@.len() > 0 ==> r == Some(&self@.last().item_of()),
    {
        match self.tail() {
            Some(n) => Some(n.item()),
            None => None,
        }
    }

    /// Mutably borrows the first item of the list, if there is one.
    pub fn front_mut(&mut self) -> (r: Option<&mut N::Item>)
        requires
            old(self).wf(),
        ensures
            old(self)@.len() == 0 ==> r.is_none() && *final(self) == *old(self),
            old(self)@.len() > 0 ==> r.is_some() && *r.unwrap() == old(self)@[0].item_of() && final(self).wf()
                && final(self)@.len() == old(self)@.len()
                && final(self)@[0].item_of() == *final(r.unwrap())
                && forall|i: int| 0 < i < old(self)@.len() ==> final(self)@[i] == old(self)@[i],
    {
        match self.head_mut() {
            Some(n) => Some(n.item_mut()),
            None => None,
        }
    }

    /// Mutably borrows the last item of the list, if there is one.
    pub fn back_mut(&mut self) -> (r: Option<&mut N::Item>)
        requires
            old(self).wf(),
        ensures
            old(self)@.len() == 0 ==> r.is_none() && *final(self) == *old(self),
            old(self)@.len() > 0 ==> r.is_some() && *r.unwrap() == old(self)@.last().item_of() && final(self).wf()
                && final(self)@.len() == old(self)@.len()
                && final(self)@.last().item_of() == *final(r.unwrap())
                && forall|i: int| 0 <= i < old(self)@.len() - 1 ==> final(self)@[i] == old(self)@[i],
    {
        match self.tail_mut() {
            Some(n) => Some(n.item_mut()),
            None => None,
        }
    }

    /// Push an item to the front of the list, in a new node.
    pub fn push_front(&mut self, item: N::Item) -> (r: &mut Self)
        requires
            old(self).wf(),
        ensures
            r.wf(),
            r@.len() == old(self)@.len() + 1,
            r@[0].item_of() == item,
            r@.drop_first() == old(self)@,
            *final(self) == *final(r),
    {
        let node = N::from_item(item);
        self.push_front_node(node);
        assert(self@.drop_first() =~= old(self)@);
        self
    }

    /// Push an item to the back of the list, in a new node.
    pub fn push_back(&mut self, item: N::Item) -> (r: &mut Self)
        requires
            old(self).wf(),
        ensures
            r.wf(),
            r@.len() == old(self)@.len() + 1,
            r@.last().item_of() == item,
            r@.drop_last() == old(self)@,
            *final(self) == *final(r),
    {
        let node = N::from_item(item);
        self.push_back_node(node);
        assert(self@.drop_last() =~= old(self)@);
        self
    }

    /// Pop an item from the front of the list.
    pub fn pop_front(&mut self) -> (r: Option<N::Item>)
        requires
            old(self).wf(),
        ensures
            final(self).wf(),
            old(self)@.len() == 0 ==> r.is_none() && final(self)@ == old(self)@,
            old(self)@.len() > 0 ==> r == Some(old(self)@[0].item_of()) && final(self)@ == old(self)@.drop_first(),
    {
        match self.pop_front_node() {
            Some(n) => Some(n.into_item()),
            None => None,
        }
    }

    /// Pop an item from the back of the list.
    pub fn pop_back(&mut self) -> (r: Option<N::Item>)
        requires
            old(self).wf(),
        ensures
            final(self).wf(),
            old(self)@.len() == 0 ==> r.is_none() && final(self)@ == old(self)@,
            old(self)@.len() > 0 ==> r == Some(old(self)@.last().item_of()) && final(self)@ == old(self)@.drop_last(),
    {
        match self.pop_back_node() {
            Some(n) => Some(n.into_item()),
            None => None,
        }
    }

    /// Pushes each of `items` to the back of the list, in order.
    pub fn extend(&mut self, items: Vec<N::Item>)
        requires
            old(self).wf(),
        ensures
            final(self).wf(),
            final(self)@.len() == old(self)@.len() + items@.len(),
            final(self)@.subrange(0, old(self)@.len() as int) == old(self)@,
            items_of(final(self)@.subrange(old(self)@.len() as int, final(self)@.len() as int)) == items@,
    {
        let ghost start = self@;
        let ghost all = items@;
        let mut items = items;
        let mut rest: Vec<N::Item> = Vec::new();
        while items.len() > 0
            invariant
                items@ + rest@.reverse() == all,
            decreases items@.len(),
        {
            let ghost (i0, r0) = (items@, rest@);
            let x = items.pop().unwrap();
            rest.push(x);
            proof {
                assert(rest@.reverse() =~= seq![x] + r0.reverse());
                assert(items@ + rest@.reverse() =~= i0 + r0.reverse());
            }
        }
        assert(rest@.reverse() =~= all);
        while rest.len() > 0
            invariant
                self.wf(),
                self@.len() <= start.len() + all.len(),
                self@.subrange(0, start.len() as int) == start,
                start.len() <= self@.len(),
                items_of(self@.subrange(start.len() as int, self@.len() as int)) + rest@.reverse() == all,
            decreases rest@.len(),
        {
            let ghost (before, r0) = (self@, rest@);
            let x = rest.pop().unwrap();
            proof {
                assert(items_of(before.subrange(start.len() as int, before.len() as int)).len() + r0.len() == all.len());
            }
            self.push_back(x);
            proof {
                let sl = start.len() as int;
                assert(self@.drop_last() == before);
                assert(self@.subrange(0, sl) =~= before.subrange(0, sl));
                assert(self@.subrange(sl, self@.len() as int) =~= before.subrange(sl, before.len() as int).push(self@.last()));
                assert(items_of(self@.subrange(sl, self@.len() as int)) =~= items_of(before.subrange(sl, before.len() as int)).push(x));
                assert(r0.reverse() =~= seq![x] + rest@.reverse());
                assert(items_of(self@.subrange(sl, self@.len() as int)) + rest@.reverse() =~= items_of(before.subrange(sl, before.len() as int)) + r0.reverse());
            }
        }
        assert(rest@.reverse() =~= Seq::<N::Item>::empty());
        assert(items_of(self@.subrange(start.len() as int, self@.len() as int)) =~= all);
    }
}

impl<N> List<N> {
    /// Following `next` links from the node at position `i` meets the
    /// remaining `len - i` nodes.
    proof fn lemma_walk_from(&self, i: int, fuel: nat)
        requires
            self.wf(),
            0 <= i <= self@.len(),
            fuel >= self@.len() - i,
        ensures
            forward_count(self.next_links(), after(self.order@, i - 1), fuel) == self@.len() - i,
        decreases self@.len() - i,
    {
        reveal(chained);
        reveal(distinct_within);
        let n = self.order@.len();
        if i < n {
            let s = self.order@[i];
            assert(after(self.order@, i - 1) == Some(s));
            assert(self.next_links().contains_key(s));
            assert(self.next_links()[s] == self.links@[s as int].next.slot);
            assert(self.links@[self.order@[i] as int].next.slot == after(self.order@, i));
            self.lemma_walk_from(i + 1, (fuel - 1) as nat);
        } else {
            assert(after(self.order@, i - 1) is None);
        }
    }

    /// At every observable point the list's links agree with its order:
    /// the head has no `prev` and the tail no `next`, every interior node's
    /// neighbours link back to it, and following `next` links from the
    /// head meets exactly `len` nodes.
    pub proof fn lemma_links_consistent(&self)
        requires
            self.wf(),
        ensures
            self@.len() == 0 ==> self.head_link() is None && self.tail_link() is None,
            self@.len() > 0 ==> self.head_link() == self.link_at(0) && self.tail_link() == self.link_at(
                self@.len() - 1,
            ) && self.prev_link_at(0) is None && self.next_link_at(self@.len() - 1) is None,
            forall|i: int| 0 < i < self@.len() ==> #[trigger] self.prev_link_at(i) == self.link_at(i - 1),
            forall|i: int| 0 <= i < self@.len() - 1 ==> #[trigger] self.next_link_at(i) == self.link_at(i + 1),
            forward_count(self.next_links(), self.head_link(), (self@.len() + 1) as nat) == self@.len(),
    {
        reveal(chained);
        let n = self.order@.len();
        if n > 0 {
            assert(self.links@[self.order@[0] as int].prev.slot == before(self.order@, 0));
            assert(self.links@[self.order@[n - 1] as int].next.slot == after(self.order@, n - 1));
        }
        assert forall|i: int| 0 < i < n implies #[trigger] self.prev_link_at(i) == self.link_at(i - 1) by {
            assert(self.links@[self.order@[i] as int].prev.slot == before(self.order@, i));
        }
        assert forall|i: int| 0 <= i < n - 1 implies #[trigger] self.next_link_at(i) == self.link_at(i + 1) by {
            assert(self.links@[self.order@[i] as int].next.slot == after(self.order@, i));
        }
        self.lemma_walk_from(0, (n + 1) as nat);
        assert(after(self.order@, -1) == first(self.order@));
    }
}

/// The link to position `i` of `order`, or no link past its end.
spec fn link_to(order: Seq<usize>, i: int) -> Option<usize> {
    if 0 <= i < order.len() {
        Some(order[i])
    } else {
        None
    }
}

/// The elements of `s` whose mark in `marks` is `want`, in order.
pub open spec fn select<N>(s: Seq<N>, marks: Seq<bool>, want: bool) -> Seq<N>
    decreases s.len(),
{
    if s.len() == 0 || marks.len() == 0 {
        Seq::empty()
    } else {
        let rest = select(s.drop_last(), marks.drop_last(), want);
        if marks.last() == want {
            rest.push(s.last())
        } else {
            rest
        }
    }
}

/// A read-only cursor over the nodes of a `List`.
///
/// The cursor stands on a node, or past the end of the list; from past the
/// end it moves nowhere.
pub struct Cursor<'a, N> {
    list: &'a List<N>,
    current: Link,
    index: Ghost<int>,
}

impl<'a, N> Cursor<'a, N> {
    /// The nodes of the list under the cursor.
    pub closed spec fn items(&self) -> Seq<N> {
        self.list@
    }

    /// The position of the cursor; the length of the list when it stands
    /// past the end.
    pub closed spec fn index(&self) -> int {
        self.index@
    }

    pub closed spec fn wf(&self) -> bool {
        &&& self.list.wf()
        &&& 0 <= self.index@ <= self.list@.len()
        &&& self.current.slot == link_to(self.list.order@, self.index@)
    }

    /// Move the cursor one node forward.
    pub fn move_forward(&mut self) -> (r: &mut Self)
        requires
            old(self).wf(),
        ensures
            r.wf(),
            r.items() == old(self).items(),
            r.index() == (if old(self).index() < old(self).items().len() { old(self).index() + 1 } else { old(self).index() }),
            *final(self) == *final(r),
    {
        proof {
            reveal(chained);
            reveal(distinct_within);
        }
        match self.current.slot {
            Some(s) => {
                proof {
                    assert(self.list.links@[self.list.order@[self.index@] as int].next.slot == after(self.list.order@, self.index@));
                }
                self.current = self.list.links[s].next;
                self.index = Ghost(self.index@ + 1);
            },
            None => {},
        }
        self
    }

    /// Move the cursor one node back; from the head it moves past the end.
    pub fn move_back(&mut self) -> (r: &mut Self)
        requires
            old(self).wf(),
        ensures
            r.wf(),
            r.items() == old(self).items(),
            r.index() == (if 0 < old(self).index() < old(self).items().len() { old(self).index() - 1 } else { old(self).items().len() as int }),
            *final(self) == *final(r),
    {
        proof {
            reveal(chained);
            reveal(distinct_within);
        }
        match self.current.slot {
            Some(s) => {
                proof {
                    assert(self.list.links@[self.list.order@[self.index@] as int].prev.slot == before(self.list.order@, self.index@));
                }
                self.current = self.list.links[s].prev;
                self.index = Ghost(if self.index@ > 0 { self.index@ - 1 } else { self.list@.len() as int });
            },
            None => {},
        }
        self
    }

    /// Move the cursor `n` nodes forward.
    pub fn seek_forward(&mut self, n: usize) -> (r: &mut Self)
        requires
            old(self).wf(),
        ensures
            r.wf(),
            r.items() == old(self).items(),
            r.index() == (if old(self).index() + n <= old(self).items().len() { old(self).index() + n } else { old(self).items().len() as int }),
            *final(self) == *final(r),
    {
        let mut k: usize = 0;
        while k < n
            invariant
                self.wf(),
                self.items() == old(self).items(),
                k <= n,
                self.index() == (if old(self).index() + k <= old(self).items().len() { old(self).index() + k } else { old(self).items().len() as int }),
            decreases n - k,
        {
            self.move_forward();
            k = k + 1;
        }
        self
    }

    /// Move the cursor `n` nodes back.
    pub fn seek_back(&mut self, n: usize) -> (r: &mut Self)
        requires
            old(self).wf(),
        ensures
            r.wf(),
            r.items() == old(self).items(),
            r.index() == (if old(self).index() < old(self).items().len() && n <= old(self).index() { old(self).index() - n } else { old(self).items().len() as int }),
            *final(self) == *final(r),
    {
        let mut k: usize = 0;
        while k < n
            invariant
                self.wf(),
                self.items() == old(self).items(),
                k <= n,
                self.index() == (if old(self).index() < old(self).items().len() && k <= old(self).index() { old(self).index() - k } else { old(self).items().len() as int }),
            decreases n - k,
        {
            self.move_back();
            k = k + 1;
        }
        self
    }

    /// Borrows the node under the cursor.
    pub fn get(&self) -> (r: Option<&N>)
        requires
            self.wf(),
        ensures
            self.index() < self.items().len() ==> r == Some(&self.items()[self.index()]),
            self.index() == self.items().len() ==> r.is_none(),
    {
        proof {
            reveal(all_filled);
            reveal(distinct_within);
        }
        match self.current.slot {
            Some(s) => {
                proof {
                    assert(self.list.slots@[self.list.order@[self.index@] as int].is_some());
                }
                self.list.slots[s].as_ref()
            },
            None => None,
        }
    }

    /// Borrows the node after the cursor.
    pub fn peek_next(&self) -> (r: Option<&N>)
        requires
            self.wf(),
        ensures
            self.index() + 1 < self.items().len() ==> r == Some(&self.items()[self.index() + 1]),
            self.index() + 1 >= self.items().len() ==> r.is_none(),
    {
        proof {
            reveal(all_filled);
            reveal(distinct_within);
            reveal(chained);
        }
        match self.current.slot {
            Some(s) => {
                proof {
                    assert(self.list.links@[self.list.order@[self.index@] as int].next.slot == after(self.list.order@, self.index@));
                    if self.index@ + 1 < self.list@.len() {
                        assert(self.list.slots@[self.list.order@[self.index@ + 1] as int].is_some());
                    }
                }
                match self.list.links[s].next.slot {
                    Some(t) => self.list.slots[t].as_ref(),
                    None => None,
                }
            },
            None => None,
        }
    }

    /// Borrows the node before the cursor.
    pub fn peek_back(&self) -> (r: Option<&N>)
        requires
            self.wf(),
        ensures
            0 < self.index() < self.items().len() ==> r == Some(&self.items()[self.index() - 1]),
            !(0 < self.index() < self.items().len()) ==> r.is_none(),
    {
        proof {
            reveal(all_filled);
            reveal(distinct_within);
            reveal(chained);
        }
        match self.current.slot {
            Some(s) => {
                proof {
                    assert(self.list.links@[self.list.order@[self.index@] as int].prev.slot == before(self.list.order@, self.index@));
                    if self.index@ > 0 {
                        assert(self.list.slots@[self.list.order@[self.index@ - 1] as int].is_some());
                    }
                }
                match self.list.links[s].prev.slot {
                    Some(t) => self.list.slots[t].as_ref(),
                    None => None,
                }
            },
            None => None,
        }
    }

    /// Advances the cursor one node and borrows the node it lands on.
    pub fn next_item(&mut self) -> (r: Option<&N>)
        requires
            old(self).wf(),
        ensures
            final(self).wf(),
            final(self).items() == old(self).items(),
            old(self).index() + 1 < old(self).items().len() ==> r == Some(&old(self).items()[old(self).index() + 1])
                && final(self).index() == old(self).index() + 1,
            old(self).index() + 1 >= old(self).items().len() ==> r.is_none() && final(self).index() == old(self).items().len(),
    {
        self.move_forward();
        self.get()
    }

    /// Moves the cursor back one node and borrows the node it lands on.
    pub fn prev_item(&mut self) -> (r: Option<&N>)
        requires
            old(self).wf(),
        ensures
            final(self).wf(),
            final(self).items() == old(self).items(),
            0 < old(self).index() < old(self).items().len() ==> r == Some(&old(self).items()[old(self).index() - 1])
                && final(self).index() == old(self).index() - 1,
            !(0 < old(self).index() < old(self).items().len()) ==> r.is_none() && final(self).index() == old(self).items().len(),
    {
        self.move_back();
        self.get()
    }
}

impl<N> List<N> {
    /// Returns a read-only cursor standing on the head of this list.
    pub fn cursor(&self) -> (r: Cursor<'_, N>)
        requires
            self.wf(),
        ensures
            r.wf(),
            r.items() == self@,
            r.index() == 0,
    {
        proof {
            reveal(chained);
        }
        Cursor { list: self, current: self.head, index: Ghost(0) }
    }
}

/// A cursor that can mutate the list it walks.
///
/// Like [`Cursor`], it stands on a node or past the end of the list.
/// Inserting before the position past the end appends to the list;
/// inserting after it prepends.
pub struct CursorMut<'a, N> {
    /// The list under the cursor.
    pub list: &'a mut List<N>,
    /// The link to the node under the cursor.
    pub current: Link,
    /// The position of the cursor in the list.
    pub index: Ghost<int>,
}

impl<'a, N> CursorMut<'a, N> {
    /// The position of the cursor; the length of the list when it stands
    /// past the end.
    pub closed spec fn index(&self) -> int {
        self.index@
    }

    pub closed spec fn wf(&self) -> bool {
        &&& self.list.wf()
        &&& 0 <= self.index@ <= self.list@.len()
        &&& self.current.slot == link_to(self.list.order@, self.index@)
    }

    /// A cursor in good shape stands on a well-formed list, at a position
    /// inside it or just past its end, and walks the list's nodes.
    pub proof fn lemma_wf_list(&self)
        requires
            self.wf(),
        ensures
            self.list_value().wf(),
            self.items() == self.list_value()@,
            0 <= self.index() <= self.items().len(),
    {
    }

    /// The list under the cursor, as it stands now.
    pub open spec fn list_value(&self) -> List<N> {
        *self.list
    }

    /// Move the cursor one node forward.
    pub fn move_forward(&mut self)
        requires
            old(self).wf(),
        ensures
            final(self).wf(),
            final(self).items() == old(self).items(),
            final(self).index() == (if old(self).index() < old(self).items().len() { old(self).index() + 1 } else { old(self).index() }),
            *final(old(self).list) == *final(final(self).list),
    {
        proof {
            reveal(chained);
            reveal(distinct_within);
        }
        match self.current.slot {
            Some(s) => {
                proof {
                    assert(self.list.links@[self.list.order@[self.index@] as int].next.slot == after(self.list.order@, self.index@));
                }
                self.current = self.list.links[s].next;
                self.index = Ghost(self.index@ + 1);
            },
            None => {},
        }
    }

    /// Move the cursor one node back; from the head it moves past the end.
    pub fn move_back(&mut self)
        requires
            old(self).wf(),
        ensures
            final(self).wf(),
            final(self).items() == old(self).items(),
            final(self).index() == (if 0 < old(self).index() < old(self).items().len() { old(self).index() - 1 } else { old(self).items().len() as int }),
            *final(old(self).list) == *final(final(self).list),
    {
        proof {
            reveal(chained);
            reveal(distinct_within);
        }
        match self.current.slot {
            Some(s) => {
                proof {
                    assert(self.list.links@[self.list.order@[self.index@] as int].prev.slot == before(self.list.order@, self.index@));
                }
                self.current = self.list.links[s].prev;
                self.index = Ghost(if self.index@ > 0 { self.index@ - 1 } else { self.list@.len() as int });
            },
            None => {},
        }
    }

    /// The nodes of the list under the cursor.
    pub closed spec fn items(&self) -> Seq<N> {
        self.list@
    }

    /// Borrows the node under the cursor.
    pub fn get(&self) -> (r: Option<&N>)
        requires
            self.wf(),
        ensures
            self.index() < self.items().len() ==> r == Some(&self.items()[self.index()]),
            self.index() == self.items().len() ==> r.is_none(),
    {
        proof {
            reveal(all_filled);
            reveal(distinct_within);
        }
        match self.current.slot {
            Some(s) => {
                proof {
                    assert(self.list.slots@[self.list.order@[self.index@] as int].is_some());
                }
                self.list.slots[s].as_ref()
            },
            None => None,
        }
    }

    /// Mutably borrows the node under the cursor.
    pub fn get_mut(&mut self) -> (r: Option<&mut N>)
        requires
            old(self).wf(),
        ensures
            old(self).index() == old(self).items().len() ==> r.is_none() && *final(self) == *old(self),
            old(self).index() < old(self).items().len() ==> r.is_some() && *r.unwrap() == old(self).items()[old(self).index()]
                && final(self).wf() && final(self).index() == old(self).index()
                && final(self).items() == old(self).items().update(old(self).index(), *final(r.unwrap())),
            *final(old(self).list) == *final(final(self).list),
    {
        match self.current.slot {
            Some(s) => {
                let ghost p = self.index@;
                let node = self.list.node_mut(s, Ghost(p));
                proof {
                    assert(after_borrow(self).items() == old(self).items().update(p, *final(node)));
                }
                Some(node)
            },
            None => None,
        }
    }

    /// Mutably borrows the node after the cursor.
    pub fn peek_next_mut(&mut self) -> (r: Option<&mut N>)
        requires
            old(self).wf(),
        ensures
            old(self).index() + 1 >= old(self).items().len() ==> r.is_none() && *final(self) == *old(self),
            old(self).index() + 1 < old(self).items().len() ==> r.is_some() && *r.unwrap() == old(self).items()[old(self).index() + 1]
                && final(self).wf() && final(self).index() == old(self).index()
                && final(self).items() == old(self).items().update(old(self).index() + 1, *final(r.unwrap())),
            *final(old(self).list) == *final(final(self).list),
    {
        proof {
            reveal(chained);
            reveal(distinct_within);
        }
        match self.current.slot {
            Some(s) => {
                let ghost p = self.index@;
                proof {
                    assert(self.list.links@[self.list.order@[p] as int].next.slot == after(self.list.order@, p));
                }
                match self.list.links[s].next.slot {
                    Some(t) => {
                        let node = self.list.node_mut(t, Ghost(p + 1));
                        proof {
                            assert(after_borrow(self).items() == old(self).items().update(p + 1, *final(node)));
                        }
                        Some(node)
                    },
                    None => None,
                }
            },
            None => None,
        }
    }

    /// Mutably borrows the node before the cursor.
    pub fn peek_back_mut(&mut self) -> (r: Option<&mut N>)
        requires
            old(self).wf(),
        ensures
            !(0 < old(self).index() < old(self).items().len()) ==> r.is_none() && *final(self) == *old(self),
            0 < old(self).index() < old(self).items().len() ==> r.is_some() && *r.unwrap() == old(self).items()[old(self).index() - 1]
                && final(self).wf() && final(self).index() == old(self).index()
                && final(self).items() == old(self).items().update(old(self).index() - 1, *final(r.unwrap())),
            *final(old(self).list) == *final(final(self).list),
    {
        proof {
            reveal(chained);
            reveal(distinct_within);
        }
        match self.current.slot {
            Some(s) => {
                let ghost p = self.index@;
                proof {
                    assert(self.list.links@[self.list.order@[p] as int].prev.slot == before(self.list.order@, p));
                }
                match self.list.links[s].prev.slot {
                    Some(t) => {
                        let node = self.list.node_mut(t, Ghost(p - 1));
                        proof {
                            assert(after_borrow(self).items() == old(self).items().update(p - 1, *final(node)));
                        }
                        Some(node)
                    },
                    None => None,
                }
            },
            None => None,
        }
    }

    /// Advances the cursor one node and mutably borrows the node it lands
    /// on.
    pub fn next_item_mut(&mut self) -> (r: Option<&mut N>)
        requires
            old(self).wf(),
        ensures
            old(self).index() + 1 >= old(self).items().len() ==> r.is_none() && final(self).wf()
                && final(self).items() == old(self).items() && final(self).index() == old(self).items().len(),
            old(self).index() + 1 < old(self).items().len() ==> r.is_some() && *r.unwrap() == old(self).items()[old(self).index() + 1]
                && final(self).wf() && final(self).index() == old(self).index() + 1
                && final(self).items() == old(self).items().update(old(self).index() + 1, *final(r.unwrap())),
            *final(old(self).list) == *final(final(self).list),
    {
        self.move_forward();
        self.get_mut()
    }

    /// Moves the cursor back one node and mutably borrows the node it lands
    /// on.
    pub fn prev_item_mut(&mut self) -> (r: Option<&mut N>)
        requires
            old(self).wf(),
        ensures
            !(0 < old(self).index() < old(self).items().len()) ==> r.is_none() && final(self).wf()
                && final(self).items() == old(self).items() && final(self).index() == old(self).items().len(),
            0 < old(self).index() < old(self).items().len() ==> r.is_some() && *r.unwrap() == old(self).items()[old(self).index() - 1]
                && final(self).wf() && final(self).index() == old(self).index() - 1
                && final(self).items() == old(self).items().update(old(self).index() - 1, *final(r.unwrap())),
            *final(old(self).list) == *final(final(self).list),
    {
        self.move_back();
        self.get_mut()
    }

    /// Removes the node under the cursor, which moves on to the node that
    /// followed it.
    pub fn remove_node(&mut self) -> (r: Option<N>)
        requires
            old(self).wf(),
        ensures
            final(self).wf(),
            final(self).index() == old(self).index(),
            old(self).index() < old(self).items().len() ==> r == Some(old(self).items()[old(self).index()])
                && final(self).items() == old(self).items().remove(old(self).index()),
            old(self).index() == old(self).items().len() ==> r.is_none() && final(self).items() == old(self).items(),
            *final(old(self).list) == *final(final(self).list),
    {
        proof {
            reveal(chained);
            reveal(distinct_within);
        }
        match self.current.slot {
            Some(s) => {
                proof {
                    assert(self.index@ < self.list.order@.len());
                    assert(self.list.links@[self.list.order@[self.index@] as int].next.slot == after(self.list.order@, self.index@));
                }
                let next = self.list.links[s].next;
                let ghost order = self.list.order@;
                let node = self.list.unlink(s, Ghost(self.index@));
                self.current = next;
                proof {
                    assert(link_to(order.remove(self.index@), self.index@) == after(order, self.index@));
                }
                Some(node)
            },
            None => None,
        }
    }

    /// Inserts `node` before the cursor, which then stands on it.
    pub fn insert_node_before(&mut self, node: N)
        requires
            old(self).wf(),
        ensures
            final(self).wf(),
            final(self).items() == old(self).items().insert(old(self).index(), node),
            final(self).index() == old(self).index(),
            *final(old(self).list) == *final(final(self).list),
    {
        proof {
            reveal(chained);
            reveal(distinct_within);
        }
        let prev = match self.current.slot {
            Some(s) => {
                proof {
                    assert(self.list.links@[self.list.order@[self.index@] as int].prev.slot == before(self.list.order@, self.index@));
                }
                self.list.links[s].prev
            },
            None => self.list.tail,
        };
        let next = self.current;
        let s = self.list.link_in(node, prev, next, Ghost(self.index@));
        self.current = Link::to_slot(s);
    }

    /// Inserts `node` after the cursor, which stays where it is.
    pub fn insert_node_after(&mut self, node: N)
        requires
            old(self).wf(),
        ensures
            final(self).wf(),
            old(self).index() < old(self).items().len() ==> final(self).items() == old(self).items().insert(old(self).index() + 1, node)
                && final(self).index() == old(self).index(),
            old(self).index() == old(self).items().len() ==> final(self).items() == seq![node] + old(self).items() && final(self).index()
                == final(self).items().len(),
            *final(old(self).list) == *final(final(self).list),
    {
        proof {
            reveal(chained);
            reveal(distinct_within);
        }
        match self.current.slot {
            Some(s) => {
                proof {
                    assert(self.list.links@[self.list.order@[self.index@] as int].next.slot == after(self.list.order@, self.index@));
                }
                let next = self.list.links[s].next;
                let ghost order = self.list.order@;
                let cur = self.current;
                self.list.link_in(node, cur, next, Ghost(self.index@ + 1));
                proof {
                    assert(self.list.order@[self.index@] == order[self.index@]);
                }
            },
            None => {
                let head = self.list.head;
                self.list.link_in(node, Link::none(), head, Ghost(0));
                self.index = Ghost(self.list@.len() as int);
                proof {
                    assert(self.list@ =~= seq![node] + old(self).items());
                }
            },
        }
    }

    /// Finds the first node at or after the cursor that satisfies `pred`
    /// and removes it; the cursor stops on the node that followed it, or
    /// past the end when no node matched.
    pub fn remove_first_node<P: Fn(&N) -> bool>(&mut self, pred: P) -> (r: Option<N>)
        requires
            old(self).wf(),
            forall|n: &N| pred.requires((n,)),
        ensures
            final(self).wf(),
            r is None ==> final(self).items() == old(self).items() && final(self).index() == old(self).items().len()
                && forall|i: int| old(self).index() <= i < old(self).items().len() ==> pred.ensures((&old(self).items()[i],), false),
            r is Some ==> exists|i: int|
                old(self).index() <= i < old(self).items().len() && r == Some(old(self).items()[i])
                    && pred.ensures((&old(self).items()[i],), true)
                    && (forall|j: int| old(self).index() <= j < i ==> pred.ensures((&old(self).items()[j],), false))
                    && final(self).items() == old(self).items().remove(i) && final(self).index() == i,
            *final(old(self).list) == *final(final(self).list),
    {
        loop
            invariant
                self.wf(),
                self.items() == old(self).items(),
                forall|n: &N| pred.requires((n,)),
                old(self).index() <= self.index() <= self.list@.len(),
                forall|j: int| old(self).index() <= j < self.index() ==> pred.ensures((&self.list@[j],), false),
                *final(old(self).list) == *final(self.list),
            decreases self.list@.len() - self.index(),
        {
            let hit = match self.get() {
                Some(n) => pred(n),
                None => {
                    return None;
                },
            };
            if hit {
                return self.remove_node();
            }
            self.move_forward();
        }
    }
}

impl<'a, N> CursorMut<'a, N> {
    /// Borrows the node after the cursor.
    pub fn peek_next(&self) -> (r: Option<&N>)
        requires
            self.wf(),
        ensures
            self.index() + 1 < self.items().len() ==> r == Some(&self.items()[self.index() + 1]),
            self.index() + 1 >= self.items().len() ==> r.is_none(),
    {
        proof {
            reveal(all_filled);
            reveal(distinct_within);
            reveal(chained);
        }
        match self.current.slot {
            Some(s) => {
                proof {
                    assert(self.list.links@[self.list.order@[self.index@] as int].next.slot == after(self.list.order@, self.index@));
                    if self.index@ + 1 < self.list@.len() {
                        assert(self.list.slots@[self.list.order@[self.index@ + 1] as int].is_some());
                    }
                }
                match self.list.links[s].next.slot {
                    Some(t) => self.list.slots[t].as_ref(),
                    None => None,
                }
            },
            None => None,
        }
    }

    /// Borrows the node before the cursor.
    pub fn peek_back(&self) -> (r: Option<&N>)
        requires
            self.wf(),
        ensures
            0 < self.index() < self.items().len() ==> r == Some(&self.items()[self.index() - 1]),
            !(0 < self.index() < self.items().len()) ==> r.is_none(),
    {
        proof {
            reveal(all_filled);
            reveal(distinct_within);
            reveal(chained);
        }
        match self.current.slot {
            Some(s) => {
                proof {
                    assert(self.list.links@[self.list.order@[self.index@] as int].prev.slot == before(self.list.order@, self.index@));
                    if self.index@ > 0 {
                        assert(self.list.slots@[self.list.order@[self.index@ - 1] as int].is_some());
                    }
                }
                match self.list.links[s].prev.slot {
                    Some(t) => self.list.slots[t].as_ref(),
                    None => None,
                }
            },
            None => None,
        }
    }
}

impl<'a, N> CursorMut<'a, N> {
    /// Removes every node at or after the cursor that satisfies `pred`,
    /// and returns them in list order; the cursor ends past the end.
    pub fn remove_all_nodes<P: Fn(&N) -> bool>(&mut self, pred: P) -> (r: Vec<N>)
        requires
            old(self).wf(),
            forall|n: &N| pred.requires((n,)),
        ensures
            final(self).wf(),
            final(self).index() == final(self).items().len(),
            ({
                let prefix = old(self).items().subrange(0, old(self).index());
                let suffix = old(self).items().subrange(old(self).index(), old(self).items().len() as int);
                exists|marks: Seq<bool>|
                    marks.len() == suffix.len() && (forall|i: int|
                        0 <= i < suffix.len() ==> pred.ensures((&suffix[i],), #[trigger] marks[i])) && r@ == select(
                        suffix,
                        marks,
                        true,
                    ) && final(self).items() == prefix + select(suffix, marks, false)
            }),
            *final(old(self).list) == *final(final(self).list),
    {
        let ghost prefix = self.items().subrange(0, self.index());
        let ghost suffix = self.items().subrange(self.index(), self.items().len() as int);
        let ghost mut marks: Seq<bool> = Seq::empty();
        let mut removed: Vec<N> = Vec::new();
        proof {
            assert(suffix.take(0) =~= Seq::<N>::empty());
            assert(suffix.skip(0) =~= suffix);
            assert(self.items() =~= prefix + Seq::<N>::empty() + suffix);
        }
        loop
            invariant
                self.wf(),
                forall|n: &N| pred.requires((n,)),
                prefix == old(self).items().subrange(0, old(self).index()),
                suffix == old(self).items().subrange(old(self).index(), old(self).items().len() as int),
                0 <= marks.len() <= suffix.len(),
                self.items() == prefix + select(suffix.take(marks.len() as int), marks, false) + suffix.skip(marks.len() as int),
                self.index() == prefix.len() + select(suffix.take(marks.len() as int), marks, false).len(),
                removed@ == select(suffix.take(marks.len() as int), marks, true),
                forall|i: int| 0 <= i < marks.len() ==> pred.ensures((&suffix[i],), #[trigger] marks[i]),
                *final(old(self).list) == *final(self.list),
            decreases suffix.len() - marks.len(),
        {
            let ghost d = marks.len() as int;
            let ghost kept = select(suffix.take(d), marks, false);
            let ghost gone = select(suffix.take(d), marks, true);
            let hit = match self.get() {
                Some(n) => pred(n),
                None => {
                    proof {
                        assert(suffix.skip(d).len() == 0);
                        assert(d == suffix.len());
                        assert(suffix.take(d) =~= suffix);
                        assert(self.items() =~= prefix + kept);
                        assert(prefix == old(self).items().subrange(0, old(self).index()));
                        assert(suffix == old(self).items().subrange(old(self).index(), old(self).items().len() as int));
                        assert(marks.len() == suffix.len() && (forall|i: int|
                            0 <= i < suffix.len() ==> pred.ensures((&suffix[i],), #[trigger] marks[i])) && removed@ == select(
                            suffix,
                            marks,
                            true,
                        ) && self.items() == prefix + select(suffix, marks, false));
                    }
                    return removed;
                },
            };
            proof {
                assert(self.items()[self.index()] == suffix[d]);
                assert(suffix.take(d + 1).drop_last() =~= suffix.take(d));
                assert(suffix.take(d + 1).last() == suffix[d]);
                assert(marks.push(hit).drop_last() =~= marks);
            }
            if hit {
                let n = self.remove_node().unwrap();
                removed.push(n);
                proof {
                    marks = marks.push(hit);
                    assert(select(suffix.take(d + 1), marks, false) == kept);
                    assert(select(suffix.take(d + 1), marks, true) == gone.push(suffix[d]));
                    assert(self.items() =~= prefix + kept + suffix.skip(d + 1));
                }
            } else {
                self.move_forward();
                proof {
                    marks = marks.push(hit);
                    assert(select(suffix.take(d + 1), marks, false) == kept.push(suffix[d]));
                    assert(select(suffix.take(d + 1), marks, true) == gone);
                    assert(self.items() =~= prefix + kept.push(suffix[d]) + suffix.skip(d + 1));
                }
            }
        }
    }
}

impl<'a, N: Node> CursorMut<'a, N> {
    /// Replaces the item of every node from the cursor to the end of the
    /// list by what `f` makes of it; the cursor ends past the end.
    pub fn map_in_place<F: Fn(&N::Item) -> N::Item>(&mut self, f: F)
        requires
            old(self).wf(),
            forall|x: &N::Item| f.requires((x,)),
        ensures
            final(self).wf(),
            final(self).index() == final(self).items().len(),
            final(self).items().len() == old(self).items().len(),
            forall|i: int| 0 <= i < old(self).index() ==> final(self).items()[i] == old(self).items()[i],
            forall|i: int|
                old(self).index() <= i < old(self).items().len() ==> f.ensures(
                    (&old(self).items()[i].item_of(),),
                    #[trigger] final(self).items()[i].item_of(),
                ),
            *final(old(self).list) == *final(final(self).list),
    {
        proof {
            reveal(chained);
            reveal(distinct_within);
        }
        loop
            invariant
                self.wf(),
                forall|x: &N::Item| f.requires((x,)),
                0 <= old(self).index() <= self.index() <= self.items().len(),
                self.items().len() == old(self).items().len(),
                forall|i: int| 0 <= i < old(self).index() ==> self.items()[i] == old(self).items()[i],
                forall|i: int| self.index() <= i < self.items().len() ==> self.items()[i] == old(self).items()[i],
                forall|i: int|
                    old(self).index() <= i < self.index() ==> f.ensures(
                        (&old(self).items()[i].item_of(),),
                        #[trigger] self.items()[i].item_of(),
                    ),
                *final(old(self).list) == *final(self.list),
            decreases self.items().len() - self.index(),
        {
            match self.current.slot {
                Some(s) => {
                    let ghost p = self.index@;
                    let ghost before = self.items();
                    assert(0 <= p < before.len());
                    let node = self.list.node_mut(s, Ghost(p));
                    let item = node.item_mut();
                    let next_item = f(&*item);
                    *item = next_item;
                    proof {
                        assert(self.items()[p].item_of() == next_item);
                        assert(f.ensures((&old(self).items()[p].item_of(),), self.items()[p].item_of()));
                        assert(self.items() == before.update(p, self.items()[p]));
                    }
                    let ghost after = self.items();
                    self.move_forward();
                    proof {
                        assert forall|i: int| old(self).index() <= i < p implies f.ensures(
                            (&old(self).items()[i].item_of(),),
                            #[trigger] self.items()[i].item_of(),
                        ) by {
                            assert(after == before.update(p, after[p]));
                            assert(after[i] == before[i]);
                            assert(self.items()[i] == after[i]);
                            assert(f.ensures((&old(self).items()[i].item_of(),), before[i].item_of()));
                        }
                    }
                },
                None => {
                    return;
                },
            }
        }
    }
}

impl<N> List<N> {
    /// Returns a cursor standing on the head of this list that can mutate
    /// it.
    pub fn cursor_mut(&mut self) -> (r: CursorMut<'_, N>)
        requires
            old(self).wf(),
        ensures
            r.wf(),
            r.items() == old(self)@,
            r.index() == 0,
            *final(self) == *final(r.list),
    {
        proof {
            reveal(chained);
        }
        let head = self.head;
        CursorMut { list: self, current: head, index: Ghost(0) }
    }
}

/// A pair of links that name no node.
spec fn unlinked() -> Links {
    Links { next: Link { slot: None }, prev: Link { slot: None } }
}

} // verus!
