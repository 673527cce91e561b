//! Handles that name a node inside an intrusive collection.
use vstd::prelude::*;

verus! {

/// An `Option`-like handle to a node: the slot that holds it in the
/// collection's node storage, or nothing.
///
/// A `Link` is a plain address and owns nothing; the collection that
/// handed it out decides what it names.
#[derive(Clone, Copy, Debug, PartialEq, Eq, Structural)]
pub struct Link {
    pub slot: Option<usize>,
}

impl Link {
    /// A link that names no node.
    pub fn none() -> (r: Link)
        ensures
            r.slot.is_none(),
    {
        Link { slot: None }
    }

    /// A link to the node held in slot `slot`.
    pub fn to_slot(slot: usize) -> (r: Link)
        ensures
            r.slot == Some(slot),
    {
        Link { slot: Some(slot) }
    }

    /// Returns true if this link is empty.
    pub fn is_none(&self) -> (r: bool)
        ensures
            r == self.slot.is_none(),
    {
        self.slot.is_none()
    }

    /// Returns true if this link names a node.
    pub fn is_some(&self) -> (r: bool)
        ensures
            r == self.slot.is_some(),
    {
        self.slot.is_some()
    }

    /// Takes the link out, leaving an empty one in its place.
    pub fn take(&mut self) -> (r: Option<Link>)
        ensures
            final(self).slot.is_none(),
            r == (if old(self).slot.is_some() { Some(*old(self)) } else { None::<Link> }),
    {
        match self.slot {
            Some(s) => {
                self.slot = None;
                Some(Link { slot: Some(s) })
            },
            None => None,
        }
    }
}

/// The pair of links that join a node to its neighbours.
#[derive(Clone, Copy, Debug, PartialEq, Eq, Structural)]
pub struct Links {
    pub next: Link,
    pub prev: Link,
}

impl Links {
    /// A new, unlinked pair of links.
    pub fn new() -> (r: Links)
        ensures
            r.next.slot.is_none(),
            r.prev.slot.is_none(),
    {
        Links { next: Link::none(), prev: Link::none() }
    }

    /// The link to the following node.
    pub fn next(&self) -> (r: Link)
        ensures
            r == self.next,
    {
        self.next
    }

    /// The link to the preceding node.
    pub fn prev(&self) -> (r: Link)
        ensures
            r == self.prev,
    {
        self.prev
    }

    /// Mutably borrows the link to the following node.
    pub fn next_mut(&mut self) -> (r: &mut Link)
        ensures
            *r == old(self).next,
            *final(self) == (Links { next: *final(r), prev: old(self).prev }),
    {
        &mut self.next
    }

    /// Mutably borrows the link to the preceding node.
    pub fn prev_mut(&mut self) -> (r: &mut Link)
        ensures
            *r == old(self).prev,
            *final(self) == (Links { next: old(self).next, prev: *final(r) }),
    {
        &mut self.prev
    }

    /// Returns true if either link names a node.
    pub fn is_linked(&self) -> (r: bool)
        ensures
            r == (self.next.slot.is_some() || self.prev.slot.is_some()),
    {
        self.next.is_some() || self.prev.is_some()
    }
}

} // verus!
