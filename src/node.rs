//! Nodes that carry an item.
use vstd::prelude::*;

verus! {

/// Nodes that carry an item: the item can be borrowed, and a node can be
/// made from an item and turned back into it.
pub trait Node: Sized {
    type Item;

    spec fn item_of(&self) -> Self::Item;

    /// Borrows the item that this node carries.
    fn item(&self) -> (r: &Self::Item)
        ensures
            *r == self.item_of(),
    ;

    /// Mutably borrows the item that this node carries.
    fn item_mut(&mut self) -> (r: &mut Self::Item)
        ensures
            *r == old(self).item_of(),
            final(self).item_of() == *final(r),
    ;

    /// Makes a new, unlinked node that carries `item`.
    fn from_item(item: Self::Item) -> (r: Self)
        ensures
            r.item_of() == item,
    ;

    /// Turns the node back into the item it carries.
    fn into_item(self) -> (r: Self::Item)
        ensures
            r == self.item_of(),
    ;
}

/// The items that the nodes of `nodes` carry.
pub open spec fn items_of<N: Node>(nodes: Seq<N>) -> Seq<N::Item> {
    nodes.map_values(|n: N| n.item_of())
}

/// A node that carries a number.
#[derive(Clone, Copy, Debug, PartialEq, Eq, Structural)]
pub struct NumberedNode {
    pub number: usize,
}

impl NumberedNode {
    /// A new node that carries `number`.
    pub fn new(number: usize) -> (r: Self)
        ensures
            r.number == number,
    {
        NumberedNode { number }
    }
}

impl Node for NumberedNode {
    type Item = usize;

    open spec fn item_of(&self) -> usize {
        self.number
    }

    fn item(&self) -> (r: &usize) {
        &self.number
    }

    fn item_mut(&mut self) -> (r: &mut usize) {
        &mut self.number
    }

    fn from_item(item: usize) -> (r: Self) {
        NumberedNode { number: item }
    }

    fn into_item(self) -> (r: usize) {
        self.number
    }
}

} // verus!
