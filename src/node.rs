//! `Node`, one slot of a sequence: a key and, unless the slot is vacant, an element.

use vstd::prelude::*;

use crate::pos::Pos;

verus! {

/// A slot of a sequence. A node without an element is a tombstone: it keeps its
/// key, and with it its place in the order, but holds no element.
#[derive(Debug, PartialEq)]
pub struct Node<T> {
    pub position: Pos,
    pub element: Option<T>,
}

impl<T> Node<T> {
    /// A node that holds `element` at `position`.
    pub fn new(position: Pos, element: T) -> (r: Node<T>)
        ensures
            r == (Node { position, element: Some(element) }),
    {
        Node { position, element: Some(element) }
    }

    /// A vacant node at `position`.
    pub fn new_empty(position: Pos) -> (r: Node<T>)
        ensures
            r == (Node::<T> { position, element: None }),
    {
        Node { position, element: None }
    }

    /// The node's key.
    pub fn position(&self) -> (r: Pos)
        ensures
            r == self.position,
    {
        self.position
    }

    /// The node's key as `(numerator, denominator)`.
    pub fn pos(&self) -> (r: (u64, u64))
        ensures
            r == (self.position.num, self.position.denom),
    {
        (self.position.num, self.position.denom)
    }

    /// The numerator of the node's key.
    pub fn num(&self) -> (r: u64)
        ensures
            r == self.position.num,
    {
        self.position.num
    }

    /// The denominator of the node's key.
    pub fn denom(&self) -> (r: u64)
        ensures
            r == self.position.denom,
    {
        self.position.denom
    }

    /// Consumes the node and hands out its element, if any.
    pub fn element(self) -> (r: Option<T>)
        ensures
            r == self.element,
    {
        self.element
    }

    /// The element, by reference.
    pub fn element_as_ref(&self) -> (r: Option<&T>)
        ensures
            r is Some <==> self.element is Some,
            r is Some ==> *r->0 == self.element->0,
    {
        self.element.as_ref()
    }

    /// The element, by mutable reference; the node stays occupied or vacant.
    pub fn element_as_mut(&mut self) -> (r: Option<&mut T>)
        ensures
            r is Some <==> old(self).element is Some,
            final(self).position == old(self).position,
            r is None ==> final(self).element is None,
            r is Some ==> *r->0 == old(self).element->0 && final(self).element == Some(*final(r->0)),
    {
        self.element.as_mut()
    }

    /// The node is vacant.
    pub fn is_none(&self) -> (r: bool)
        ensures
            r == self.element is None,
    {
        self.element.is_none()
    }

    /// The node holds an element.
    pub fn is_some(&self) -> (r: bool)
        ensures
            r == self.element is Some,
    {
        self.element.is_some()
    }

    /// Puts `element` into the node, whether it was vacant or not.
    pub fn set(&mut self, element: T)
        ensures
            *final(self) == (Node { position: old(self).position, element: Some(element) }),
    {
        self.element = Some(element);
    }
}

} // verus!
