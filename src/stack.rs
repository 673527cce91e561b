//! A stack on an intrusive singly-linked list.
use vstd::prelude::*;
use crate::node::Node;
use crate::singly;

verus! {

/// A stack implementation using an intrusive singly-linked list.
pub struct Stack<N> {
    list: singly::List<N>,
}

impl<N> View for Stack<N> {
    type V = Seq<N>;

    /// The nodes of the stack, from the top down.
    closed spec fn view(&self) -> Seq<N> {
        self.list@
    }
}

impl<N> Stack<N> {
    pub closed spec fn wf(&self) -> bool {
        self.list.wf()
    }

    /// Create a new `Stack` with 0 elements.
    pub fn new() -> (r: Self)
        ensures
            r.wf(),
            r@ == Seq::<N>::empty(),
    {
        Stack { list: singly::List::new() }
    }

    /// Returns the size of the stack.
    pub fn len(&self) -> (r: usize)
        requires
            self.wf(),
        ensures
            r == self@.len(),
    {
        self.list.len()
    }

    /// Returns true if the stack is empty, false otherwise.
    pub fn is_empty(&self) -> (r: bool)
        requires
            self.wf(),
        ensures
            r == (self@.len() == 0),
    {
        self.list.is_empty()
    }

    /// Borrows the top node of the stack, if there is one.
    pub fn peek(&self) -> (r: Option<&N>)
        requires
            self.wf(),
        ensures
            self@.len() == 0 ==> r.is_none(),
            self@.len() > 0 ==> r == Some(&self@[0]),
    {
        self.list.peek()
    }

    /// Mutably borrows the top node of the stack, if there is one.
    pub fn peek_mut(&mut self) -> (r: Option<&mut N>)
        requires
            old(self).wf(),
        ensures
            old(self)@.len() == 0 ==> r.is_none() && final(self)@ == old(self)@ && final(self).wf(),
            old(self)@.len() > 0 ==> r.is_some() && *r.unwrap() == old(self)@[0] && final(self).wf()
                && final(self)@ == old(self)@.update(0, *final(r.unwrap())),
    {
        self.list.peek_mut()
    }

    /// Push a node on to the stack.
    pub fn push_node(&mut self, node: N)
        requires
            old(self).wf(),
        ensures
            final(self).wf(),
            final(self)@ == seq![node] + old(self)@,
    {
        self.list.push_node(node);
    }

    /// Pop a node from the stack.
    pub fn pop_node(&mut self) -> (r: Option<N>)
        requires
            old(self).wf(),
        ensures
            final(self).wf(),
            old(self)@.len() == 0 ==> r.is_none() && final(self)@ == old(self)@,
            old(self)@.len() > 0 ==> r == Some(old(self)@[0]) && final(self)@ == old(self)@.drop_first(),
    {
        self.list.pop_node()
    }

    /// Pushes each of `nodes` on to the stack, in order: the last one ends
    /// on top.
    pub fn extend(&mut self, nodes: Vec<N>)
        requires
            old(self).wf(),
        ensures
            final(self).wf(),
            final(self)@ == nodes@.reverse() + old(self)@,
    {
        let ghost start = self@;
        let ghost all = nodes@;
        let mut nodes = nodes;
        let mut rest: Vec<N> = Vec::new();
        while nodes.len() > 0
            invariant
                nodes@ + rest@.reverse() == all,
            decreases nodes@.len(),
        {
            let ghost (i0, r0) = (nodes@, rest@);
            let x = nodes.pop().unwrap();
            rest.push(x);
            proof {
                assert(rest@.reverse() =~= seq![x] + r0.reverse());
                assert(nodes@ + rest@.reverse() =~= i0 + r0.reverse());
            }
        }
        assert(rest@.reverse() =~= all);
        while rest.len() > 0
            invariant
                self.wf(),
                rest@.len() <= all.len(),
                rest@.reverse() == all.subrange(all.len() - rest@.len(), all.len() as int),
                self@ == all.subrange(0, all.len() - rest@.len()).reverse() + start,
            decreases rest@.len(),
        {
            let ghost (before, r0) = (self@, rest@);
            let x = rest.pop().unwrap();
            self.push_node(x);
            proof {
                let d = all.len() - r0.len();
                assert(r0.reverse()[0] == x);
                assert(all[d] == x) by {
                    assert(r0.reverse()[0] == all.subrange(d, all.len() as int)[0]);
                }
                assert(rest@.reverse() =~= r0.reverse().drop_first());
                assert(rest@.reverse() =~= all.subrange(all.len() - rest@.len(), all.len() as int));
                assert(all.subrange(0, d + 1).reverse() =~= seq![x] + all.subrange(0, d).reverse());
            }
        }
        assert(all.subrange(0, all.len() as int) =~= all);
    }

    /// A stack of `nodes`, pushed in order: the last one ends on top.
    pub fn from_iter(nodes: Vec<N>) -> (r: Self)
        ensures
            r.wf(),
            r@ == nodes@.reverse(),
    {
        let mut stack = Stack::new();
        stack.extend(nodes);
        assert(nodes@.reverse() + Seq::<N>::empty() =~= nodes@.reverse());
        stack
    }
}

impl<N: Node> Stack<N> {
    /// Borrows the top item of the stack, if there is one.
    pub fn top(&self) -> (r: Option<&N::Item>)
        requires
            self.wf(),
        ensures
            self@.len() == 0 ==> r.is_none(),
            self@.len() > 0 ==> r == Some(&self@[0].item_of()),
    {
        self.list.front()
    }

    /// Mutably borrows the top item of the stack, if there is one.
    pub fn top_mut(&mut self) -> (r: Option<&mut N::Item>)
        requires
            old(self).wf(),
        ensures
            old(self)@.len() == 0 ==> r.is_none() && final(self)@ == old(self)@ && final(self).wf(),
            old(self)@.len() > 0 ==> r.is_some() && *r.unwrap() == old(self)@[0].item_of() && final(self).wf()
                && final(self)@.len() == old(self)@.len() && final(self)@[0].item_of() == *final(r.unwrap())
                && forall|i: int| 0 < i < old(self)@.len() ==> final(self)@[i] == old(self)@[i],
    {
        self.list.head_mut()
    }

    /// Push an item on to the stack, in a new node.
    pub fn push(&mut self, item: N::Item)
        requires
            old(self).wf(),
        ensures
            final(self).wf(),
            final(self)@.len() == old(self)@.len() + 1,
            final(self)@[0].item_of() == item,
            final(self)@.drop_first() == old(self)@,
    {
        self.list.push(item);
    }

    /// Pop an item from the stack.
    pub fn pop(&mut self) -> (r: Option<N::Item>)
        requires
            old(self).wf(),
        ensures
            final(self).wf(),
            old(self)@.len() == 0 ==> r.is_none() && final(self)@ == old(self)@,
            old(self)@.len() > 0 ==> r == Some(old(self)@[0].item_of()) && final(self)@ == old(self)@.drop_first(),
    {
        self.list.pop()
    }
}

} // verus!
