//! An intrusive singly-linked list.
//!
//! As in the doubly-linked list, nodes live in slots of the list's own
//! storage, and each slot carries the link to the node that follows it.
use vstd::prelude::*;
use crate::link::Link;
use crate::list::{after, all_filled, distinct_within, first, lemma_distinct_len, spare_ok};
use crate::node::Node;

verus! {

/// An intrusive singly-linked list of nodes of type `N`.
pub struct List<N> {
    /// Node storage; a slot that holds no node is listed in `spare`.
    slots: Vec<Option<N>>,
    /// The link to the following node, for the node in each slot.
    nexts: Vec<Link>,
    /// Vacated slots, reused before the storage grows.
    spare: Vec<usize>,
    /// Link to the head node of the list.
    head: Link,
    /// Length of the list.
    len: usize,
    /// The slots of the linked nodes, in list order.
    order: Ghost<Seq<usize>>,
}

impl<N> View for List<N> {
    type V = Seq<N>;

    /// The nodes of the list, from head to last.
    closed spec fn view(&self) -> Seq<N> {
        Seq::new(self.order@.len(), |i: int| self.slots@[self.order@[i] as int]->Some_0)
    }
}

impl<N> List<N> {
    /// The list's internal invariant: every linked slot holds a node, the
    /// stored links chain the nodes in list order from the head, and the
    /// length is the number of linked nodes.
    pub closed spec fn wf(&self) -> bool {
        &&& self.len == self.order@.len()
        &&& self.nexts@.len() == self.slots@.len()
        &&& distinct_within(self.order@, self.slots@.len())
        &&& all_filled(self.order@, self.slots@)
        &&& self.head.slot == first(self.order@)
        &&& forall|i: int| 0 <= i < self.order@.len() ==> (#[trigger] self.nexts@[self.order@[i] as int]).slot == after(self.order@, i)
        &&& spare_ok(self.spare@, self.order@, self.slots@.len())
    }

    /// Create a new `List` with 0 elements.
    pub fn new() -> (r: Self)
        ensures
            r.wf(),
            r@ == Seq::<N>::empty(),
    {
        let r = List {
            slots: Vec::new(),
            nexts: Vec::new(),
            spare: Vec::new(),
            head: Link::none(),
            len: 0,
            order: Ghost(Seq::empty()),
        };
        proof {
            reveal(distinct_within);
            reveal(all_filled);
            reveal(spare_ok);
        }
        assert(r@ =~= Seq::<N>::empty());
        r
    }

    /// Returns the length of the list.
    pub fn len(&self) -> (r: usize)
        requires
            self.wf(),
        ensures
            r == self@.len(),
    {
        self.len
    }

    /// Returns true if the list is empty, false otherwise.
    pub fn is_empty(&self) -> (r: bool)
        requires
            self.wf(),
        ensures
            r == (self@.len() == 0),
    {
        self.len == 0
    }

    /// Borrows the first node of the list, if there is one.
    pub fn peek(&self) -> (r: Option<&N>)
        requires
            self.wf(),
        ensures
            self@.len() == 0 ==> r.is_none(),
            self@.len() > 0 ==> r == Some(&self@[0]),
    {
        proof {
            reveal(distinct_within);
            reveal(all_filled);
        }
        match self.head.slot {
            Some(s) => {
                proof {
                    assert(self.slots@[self.order@[0] as int].is_some());
                }
                self.slots[s].as_ref()
            },
            None => None,
        }
    }

    /// Mutably borrows the first node of the list, if there is one.
    pub fn peek_mut(&mut self) -> (r: Option<&mut N>)
        requires
            old(self).wf(),
        ensures
            old(self)@.len() == 0 ==> r.is_none() && *final(self) == *old(self),
            old(self)@.len() > 0 ==> r.is_some() && *r.unwrap() == old(self)@[0] && final(self).wf()
                && final(self)@ == old(self)@.update(0, *final(r.unwrap())),
    {
        proof {
            reveal(distinct_within);
            reveal(all_filled);
            reveal(spare_ok);
        }
        match self.head.slot {
            Some(s) => {
                proof {
                    assert(self.slots@[self.order@[0] as int].is_some());
                    assert forall|i: int| 0 < i < self.order@.len() implies self.order@[i] != s by {
                        assert(self.order@[i] != self.order@[0]);
                    }
                }
                let node = self.slots[s].as_mut().unwrap();
                proof {
                    assert(after_borrow(self).slots@ == old(self).slots@.update(s as int, Some(*final(node))));
                    assert(after_borrow(self)@ =~= old(self)@.update(0, *final(node)));
                }
                Some(node)
            },
            None => None,
        }
    }

    /// Push a node to the front of the list.
    pub fn push_node(&mut self, node: N) -> (r: &mut Self)
        requires
            old(self).wf(),
        ensures
            r.wf(),
            r@ == seq![node] + old(self)@,
            *final(self) == *final(r),
    {
        let ghost order = self.order@;
        proof {
            reveal(distinct_within);
            reveal(all_filled);
            reveal(spare_ok);
        }
        let s = match self.spare.pop() {
            Some(s) => {
                proof {
                    assert(self.spare@ == old(self).spare@.drop_last());
                    assert(s == old(self).spare@[old(self).spare@.len() - 1]);
                }
                self.slots.set(s, Some(node));
                s
            },
            None => {
                let s = self.slots.len();
                self.slots.push(Some(node));
                self.nexts.push(Link::none());
                s
            },
        };
        let head = self.head;
        self.nexts.set(s, head);
        self.head = Link::to_slot(s);
        let o2 = Ghost(seq![s] + order);
        // The length of the node storage bounds the number of linked nodes.
        let cap_now = self.slots.len();
        proof {
            assert forall|i: int, j: int| 0 <= i < o2@.len() && 0 <= j < o2@.len() && i != j implies #[trigger] o2@[i]
                != #[trigger] o2@[j] by {
                if i > 0 && j > 0 {
                    assert(o2@[i] == order[i - 1] && o2@[j] == order[j - 1]);
                }
            }
            assert(distinct_within(o2@, self.slots@.len()));
            lemma_distinct_len(o2@, self.slots@.len());
            assert(o2@.len() <= cap_now);
        }
        self.len = self.len + 1;
        self.order = o2;
        proof {
            assert forall|i: int| 0 <= i < o2@.len() implies (#[trigger] self.nexts@[o2@[i] as int]).slot == after(o2@, i) by {
                if i > 0 {
                    assert(o2@[i] == order[i - 1]);
                    assert(old(self).nexts@[order[i - 1] as int].slot == after(order, i - 1));
                } else {
                    assert(after(o2@, 0) == first(order));
                }
            }
            assert forall|i: int| 0 <= i < o2@.len() implies (#[trigger] self.slots@[o2@[i] as int]).is_some() by {
                if i > 0 {
                    assert(o2@[i] == order[i - 1]);
                }
            }
            assert forall|k: int, i: int| 0 <= k < self.spare@.len() && 0 <= i < o2@.len()
                implies #[trigger] self.spare@[k] != #[trigger] o2@[i] by {
                assert(self.spare@[k] == old(self).spare@[k]);
                if i > 0 {
                    assert(o2@[i] == order[i - 1]);
                }
            }
            assert(self@ =~= seq![node] + old(self)@);
        }
        self
    }

    /// Pop a node from the front of the list.
    pub fn pop_node(&mut self) -> (r: Option<N>)
        requires
            old(self).wf(),
        ensures
            final(self).wf(),
            old(self)@.len() == 0 ==> r.is_none() && final(self)@ == old(self)@,
            old(self)@.len() > 0 ==> r == Some(old(self)@[0]) && final(self)@ == old(self)@.drop_first(),
    {
        let ghost order = self.order@;
        proof {
            reveal(distinct_within);
            reveal(all_filled);
            reveal(spare_ok);
        }
        match self.head.slot {
            Some(s) => {
                proof {
                    assert(self.nexts@[order[0] as int].slot == after(order, 0));
                    assert(self.slots@[order[0] as int].is_some());
                }
                let next = self.nexts[s];
                let node = self.slots[s].take();
                self.nexts.set(s, Link::none());
                self.spare.push(s);
                self.head = next;
                self.len = self.len - 1;
                self.order = Ghost(order.drop_first());
                proof {
                    let o2 = self.order@;
                    assert forall|i: int| 0 <= i < o2.len() implies #[trigger] o2[i] < self.slots@.len() by {
                        assert(o2[i] == order[i + 1]);
                    }
                    assert forall|i: int, j: int| 0 <= i < o2.len() && 0 <= j < o2.len() && i != j implies #[trigger] o2[i]
                        != #[trigger] o2[j] by {
                        assert(o2[i] == order[i + 1] && o2[j] == order[j + 1]);
                    }
                    assert forall|i: int| 0 <= i < o2.len() implies (#[trigger] self.nexts@[o2[i] as int]).slot == after(o2, i) by {
                        assert(o2[i] == order[i + 1]);
                        assert(order[i + 1] != s);
                        assert(old(self).nexts@[order[i + 1] as int].slot == after(order, i + 1));
                    }
                    assert forall|i: int| 0 <= i < o2.len() implies (#[trigger] self.slots@[o2[i] as int]).is_some() by {
                        assert(o2[i] == order[i + 1]);
                        assert(order[i + 1] != s);
                    }
                    assert forall|k: int, i: int| 0 <= k < self.spare@.len() && 0 <= i < o2.len()
                        implies #[trigger] self.spare@[k] != #[trigger] o2[i] by {
                        assert(o2[i] == order[i + 1]);
                        if k < old(self).spare@.len() {
                            assert(self.spare@[k] == old(self).spare@[k]);
                        } else {
                            assert(order[i + 1] != order[0]);
                        }
                    }
                    assert forall|k: int, l: int| 0 <= k < self.spare@.len() && 0 <= l < self.spare@.len() && k != l
                        implies #[trigger] self.spare@[k] != #[trigger] self.spare@[l] by {
                        if k < old(self).spare@.len() {
                            assert(self.spare@[k] == old(self).spare@[k]);
                        }
                        if l < old(self).spare@.len() {
                            assert(self.spare@[l] == old(self).spare@[l]);
                        }
                    }
                    assert(self.head.slot == first(o2));
                    assert(self@ =~= old(self)@.drop_first());
                }
                node
            },
            None => None,
        }
    }
}

impl<N: Node> List<N> {
    /// Borrows the item of the head node, if there is one.
    pub fn front(&self) -> (r: Option<&N::Item>)
        requires
            self.wf(),
        ensures
            self@.len() == 0 ==> r.is_none(),
            self@.len() > 0 ==> r == Some(&self@[0].item_of()),
    {
        match self.peek() {
            Some(n) => Some(n.item()),
            None => None,
        }
    }

    /// Mutably borrows the item of the head node, if there is one.
    pub fn head_mut(&mut self) -> (r: Option<&mut N::Item>)
        requires
            old(self).wf(),
        ensures
            old(self)@.len() == 0 ==> r.is_none() && *final(self) == *old(self),
            old(self)@.len() > 0 ==> r.is_some() && *r.unwrap() == old(self)@[0].item_of() && final(self).wf()
                && final(self)@.len() == old(self)@.len() && final(self)@[0].item_of() == *final(r.unwrap())
                && forall|i: int| 0 < i < old(self)@.len() ==> final(self)@[i] == old(self)@[i],
    {
        match self.peek_mut() {
            Some(n) => Some(n.item_mut()),
            None => None,
        }
    }

    /// Push an item to the front of the list, in a new node.
    pub fn push(&mut self, item: N::Item) -> (r: &mut Self)
        requires
            old(self).wf(),
        ensures
            r.wf(),
            r@.len() == old(self)@.len() + 1,
            r@[0].item_of() == item,
            r@.drop_first() == old(self)@,
            *final(self) == *final(r),
    {
        let node = N::from_item(item);
        self.push_node(node);
        assert(self@.drop_first() =~= old(self)@);
        self
    }

    /// Pop an item from the front of the list.
    pub fn pop(&mut self) -> (r: Option<N::Item>)
        requires
            old(self).wf(),
        ensures
            final(self).wf(),
            old(self)@.len() == 0 ==> r.is_none() && final(self)@ == old(self)@,
            old(self)@.len() > 0 ==> r == Some(old(self)@[0].item_of()) && final(self)@ == old(self)@.drop_first(),
    {
        match self.pop_node() {
            Some(n) => Some(n.into_item()),
            None => None,
        }
    }
}

} // verus!
