//! `Sequence`, an ordered set whose order is given by position keys.

use vstd::prelude::*;

use crate::node::Node;
use crate::pos::Pos;
use crate::position::Min;
use crate::slots::{
    cloned_slots, filled, find_from, first_not_before, insert_at_fits, insert_fits, inserted,
    inserted_at, keys_valid, lemma_clone_counts, lemma_count_bound, lemma_find_from,
    lemma_insert_present, lemma_insert_valid, lemma_mediant_between,
    lemma_next_present, lemma_prev_present, lemma_update, lemma_update_valid, next_present,
    prev_present, present_count, present_nodes, push_fits, pushed, removed, spec_get, spec_last,
    valid_slots,
};

verus! {

/// Relies on `Vec::capacity`: how many elements the vector can hold without
/// reallocating, which is never below its length.
#[verifier::external_body]
fn vec_capacity<T>(v: &Vec<T>) -> (r: usize)
    ensures
        r >= v@.len(),
{
    v.capacity()
}

/// The mutable slice iterator of std, which vstd leaves undeclared; it is only
/// handed out, never read here.
#[verifier::external_type_specification]
#[verifier::external_body]
#[verifier::reject_recursive_types(E)]
pub struct ExIterMut<'a, E: 'a>(std::slice::IterMut<'a, E>);

/// Relies on `<[T]>::iter_mut`: it returns an iterator over the vector's nodes by
/// mutable reference. Nothing is claimed of it, and nothing of the nodes afterwards.
#[verifier::external_body]
fn nodes_iter_mut<'a, T>(nodes: &'a mut Vec<Node<T>>) -> std::slice::IterMut<'a, Node<T>> {
    nodes.iter_mut()
}

/// A sequence whose elements sit at position keys that never change once given.
///
/// The storage is a vector of nodes kept sorted by key. Removing an element leaves a
/// tombstone with its key in place, so that nothing moves and the key can be used
/// again; the storage never shrinks. Logical indices (those of `get`, `insert` and
/// `remove`) start scanning at the node whose storage index equals them.
///
/// Keys are never allowed to overflow: each operation that makes a key asks, in its
/// precondition, that the key fits in `u64` (see `slots::push_fits` and `slots::insert_fits`).
///
/// Walking a `&Sequence` (or a `&mut Sequence`) yields every node, tombstones
/// included; walking a `Sequence` by value yields only the nodes that hold an element.
#[derive(Debug, PartialEq)]
pub struct Sequence<T> {
    nodes: Vec<Node<T>>,
    len: usize,
}

impl<T> View for Sequence<T> {
    type V = Seq<Node<T>>;

    /// The nodes of the storage, tombstones included, in key order.
    closed spec fn view(&self) -> Seq<Node<T>> {
        self.nodes@
    }
}

impl<T> Sequence<T> {
    /// The storage is sorted by valid keys and the length counts the present nodes.
    pub closed spec fn wf(&self) -> bool {
        &&& valid_slots(self.nodes@)
        &&& self.len == present_count(self.nodes@)
    }

    /// What a well-formed sequence shows of its storage.
    pub proof fn lemma_wf(&self)
        requires
            self.wf(),
        ensures
            valid_slots(self@),
            present_count(self@) <= self@.len(),
    {
        lemma_count_bound(self.nodes@);
    }

    /// An empty sequence.
    pub fn new() -> (r: Sequence<T>)
        ensures
            r.wf(),
            r@ == Seq::<Node<T>>::empty(),
    {
        let r = Sequence { nodes: Vec::new(), len: 0 };
        assert(r.nodes@.len() == 0);
        r
    }

    /// A sequence over `nodes` as they stand, tombstones included, when their keys are
    /// valid, have positive numerators and strictly increase; `None` otherwise.
    pub fn from_nodes(nodes: Vec<Node<T>>) -> (r: Option<Sequence<T>>)
        ensures
            r is Some <==> valid_slots(nodes@),
            r is Some ==> r->0.wf() && r->0@ == nodes@,
    {
        let mut count: usize = 0;
        let mut i: usize = 0;
        while i < nodes.len()
            invariant
                i <= nodes@.len(),
                valid_slots(nodes@.subrange(0, i as int)),
                count == present_count(nodes@.subrange(0, i as int)),
            decreases nodes@.len() - i,
        {
            let ghost s = nodes@;
            let ghost p = s.subrange(0, i as int);
            let position = nodes[i].position;
            if position.num < 1 || position.denom < 1 {
                assert(!keys_valid(s));
                return None;
            }
            if i > 0 && !(nodes[i - 1].position < position) {
                assert(!s[i - 1].position.before(s[i as int].position));
                return None;
            }
            proof {
                let q = s.subrange(0, i + 1);
                assert(q =~= p.insert(i as int, s[i as int]));
                lemma_insert_valid(p, i as int, s[i as int]);
                assert(q.drop_last() =~= p);
                lemma_count_bound(p);
                assert(p.len() == i);
            }
            if nodes[i].element.is_some() {
                count = count + 1;
            }
            i = i + 1;
        }
        assert(nodes@.subrange(0, i as int) =~= nodes@);
        Some(Sequence { nodes, len: count })
    }

    /// An empty sequence with room for `capacity` nodes.
    pub fn with_capacity(capacity: usize) -> (r: Sequence<T>)
        ensures
            r.wf(),
            r@ == Seq::<Node<T>>::empty(),
    {
        Sequence { nodes: Vec::with_capacity(capacity), len: 0 }
    }

    /// How many nodes the storage can hold without reallocating.
    pub fn capacity(&self) -> (r: usize)
        ensures
            r >= self@.len(),
    {
        vec_capacity(&self.nodes)
    }

    /// No node holds an element.
    pub fn is_empty(&self) -> (r: bool)
        requires
            self.wf(),
        ensures
            r == (present_count(self@) == 0),
    {
        self.len == 0
    }

    /// The number of elements, tombstones not counted.
    pub fn len(&self) -> (r: usize)
        requires
            self.wf(),
        ensures
            r == present_count(self@),
    {
        self.len
    }

    /// The storage index of the first node at or after `index` that holds an element.
    fn scan_present(&self, index: usize) -> (j: usize)
        requires
            self.wf(),
            index < present_count(self@),
        ensures
            j == next_present(self@, index as int),
            j < self@.len(),
            self@[j as int].element is Some,
    {
        proof {
            lemma_count_bound(self.nodes@);
            lemma_next_present(self.nodes@, index as int);
        }
        let mut j: usize = index;
        while j < self.nodes.len() && self.nodes[j].is_none()
            invariant
                index <= j <= self.nodes@.len(),
                next_present(self.nodes@, index as int) == next_present(self.nodes@, j as int),
            decreases self.nodes@.len() - j,
        {
            j = j + 1;
        }
        j
    }

    /// The first element, scanning from the front; `None` when there is none.
    pub fn first(&self) -> (r: Option<&T>)
        requires
            self.wf(),
        ensures
            r is Some <==> spec_get(self@, 0) is Some,
            r is Some ==> *r->0 == spec_get(self@, 0)->0,
    {
        if self.len == 0 {
            return None;
        }
        let j = self.scan_present(0);
        self.nodes[j].element_as_ref()
    }

    /// The last element, scanning from the back; `None` when there is none.
    pub fn last(&self) -> (r: Option<&T>)
        requires
            self.wf(),
        ensures
            r is Some <==> spec_last(self@) is Some,
            r is Some ==> *r->0 == spec_last(self@)->0,
    {
        if self.len == 0 {
            return None;
        }
        proof {
            lemma_prev_present(self.nodes@, self.nodes@.len() as int);
        }
        let mut j: usize = self.nodes.len();
        while j > 0 && self.nodes[j - 1].is_none()
            invariant
                j <= self.nodes@.len(),
                prev_present(self.nodes@, self.nodes@.len() as int) == prev_present(
                    self.nodes@,
                    j as int,
                ),
            decreases j,
        {
            j = j - 1;
        }
        self.nodes[j - 1].element_as_ref()
    }

    /// The element that logical index `index` reaches: `None` when `index` is not
    /// below the length, else the first element found scanning forward from the
    /// node at storage index `index`.
    pub fn get(&self, index: usize) -> (r: Option<&T>)
        requires
            self.wf(),
        ensures
            r is Some <==> spec_get(self@, index as int) is Some,
            r is Some ==> *r->0 == spec_get(self@, index as int)->0,
    {
        if index >= self.len {
            return None;
        }
        let j = self.scan_present(index);
        self.nodes[j].element_as_ref()
    }

    /// As [`Sequence::get`], by mutable reference; keys and tombstones stay as they are.
    pub fn get_mut(&mut self, index: usize) -> (r: Option<&mut T>)
        requires
            old(self).wf(),
        ensures
            final(self).wf(),
            r is Some <==> spec_get(old(self)@, index as int) is Some,
            r is None ==> final(self)@ == old(self)@,
            r is Some ==> {
                let j = next_present(old(self)@, index as int);
                &&& *r->0 == spec_get(old(self)@, index as int)->0
                &&& final(self)@ == filled(old(self)@, j, *final(r->0))
            },
    {
        if index >= self.len {
            return None;
        }
        let j = self.scan_present(index);
        proof {
            let s = self.nodes@;
            assert forall|n: Node<T>|
                n.position == s[j as int].position && n.element is Some implies valid_slots(
                    #[trigger] s.update(j as int, n),
                ) && present_count(s.update(j as int, n)) == present_count(s) by {
                lemma_update(s, j as int, n);
                lemma_update_valid(s, j as int, n);
            }
        }
        self.nodes[j].element_as_mut()
    }

    /// The storage index of the node whose key is the same position as `position`.
    pub fn index_from(&self, position: Pos) -> (r: Option<usize>)
        ensures
            0 <= find_from(self@, position, 0) <= self@.len(),
            find_from(self@, position, 0) < self@.len() ==> self@[find_from(
                self@,
                position,
                0,
            )].position.same(position),
            match r {
                Some(i) => i == find_from(self@, position, 0) && i < self@.len(),
                None => find_from(self@, position, 0) == self@.len(),
            },
    {
        proof {
            lemma_find_from(self.nodes@, position, 0);
        }
        let mut i: usize = 0;
        while i < self.nodes.len()
            invariant
                i <= self.nodes@.len(),
                find_from(self.nodes@, position, 0) == find_from(self.nodes@, position, i as int),
            decreases self.nodes@.len() - i,
        {
            if self.nodes[i].position == position {
                return Some(i);
            }
            i = i + 1;
        }
        None
    }

    /// The first storage index whose key is not strictly before `position`.
    fn insertion_index(&self, position: Pos) -> (r: usize)
        ensures
            r == first_not_before(self@, position, 0),
    {
        let mut i: usize = 0;
        while i < self.nodes.len()
            invariant
                i <= self.nodes@.len(),
                first_not_before(self.nodes@, position, 0) == first_not_before(
                    self.nodes@,
                    position,
                    i as int,
                ),
            decreases self.nodes@.len() - i,
        {
            if !(self.nodes[i].position < position) {
                return i;
            }
            i = i + 1;
        }
        i
    }

    /// The key of the last node of the storage, tombstone or not.
    fn last_position(&self) -> (r: Option<Pos>)
        ensures
            r == (if self@.len() == 0 {
                None
            } else {
                Some(self@.last().position)
            }),
    {
        if self.nodes.len() == 0 {
            None
        } else {
            Some(self.nodes[self.nodes.len() - 1].position())
        }
    }

    /// Appends `element` with a key one above the last key (`1/1` when the storage is
    /// empty): the numerator grows by one, the denominator stays.
    pub fn push(&mut self, element: T)
        requires
            old(self).wf(),
            push_fits(old(self)@),
        ensures
            final(self).wf(),
            final(self)@ == pushed(old(self)@, element),
            present_count(final(self)@) == present_count(old(self)@) + 1,
            old(self)@.len() > 0 ==> old(self)@.last().position.before(final(self)@.last().position),
    {
        let pos = match self.last_position() {
            None => Pos::new(1, 1),
            Some(pos) => pos + Pos::n1d0(),
        };
        let node = Node::new(pos, element);
        proof {
            let s = self.nodes@;
            lemma_count_bound(s);
            lemma_insert_present(s, s.len() as int, node);
            assert(s.insert(s.len() as int, node) =~= s.push(node));
            if s.len() > 0 {
                let l = s.last().position;
                assert(l.before(pos)) by (nonlinear_arith)
                    requires
                        pos.num == l.num + 1,
                        pos.denom == l.denom,
                        l.denom >= 1,
                ;
                assert(s[s.len() - 1] == s.last());
            }
            lemma_insert_valid(s, s.len() as int, node);
        }
        self.nodes.push(node);
        self.len = self.len + 1;
    }

    /// Inserts `element` at logical index `index`.
    ///
    /// Past the end of the storage this is a [`Sequence::push`]. Where the node at
    /// storage index `index` holds an element, a new node keyed with the mediant of
    /// its neighbours' keys (`0/1` standing left of the first) goes in before it,
    /// and the later nodes shift right. Where it is a tombstone, the tombstone takes
    /// the element and keeps its key.
    pub fn insert(&mut self, index: usize, element: T)
        requires
            old(self).wf(),
            insert_fits(old(self)@, index as int),
        ensures
            final(self).wf(),
            final(self)@ == inserted(old(self)@, index as int, element),
            present_count(final(self)@) == present_count(old(self)@) + 1,
    {
        if index >= self.nodes.len() {
            self.push(element);
        } else {
            let ghost s = self.nodes@;
            proof {
                lemma_count_bound(s);
            }
            if self.nodes[index].is_some() {
                let pos = if index == 0 {
                    Pos::mid(Pos::minimum(), self.nodes[0].position())
                } else {
                    Pos::mid(self.nodes[index - 1].position(), self.nodes[index].position())
                };
                let node = Node::new(pos, element);
                proof {
                    let l = if index == 0 {
                        Pos { num: 0, denom: 1 }
                    } else {
                        s[index - 1].position
                    };
                    assert(l.before(s[index as int].position));
                    lemma_mediant_between(l, s[index as int].position);
                    lemma_insert_valid(s, index as int, node);
                    lemma_insert_present(s, index as int, node);
                }
                self.nodes.insert(index, node);
            } else {
                proof {
                    let n = Node { position: s[index as int].position, element: Some(element) };
                    lemma_update(s, index as int, n);
                    lemma_update_valid(s, index as int, n);
                    lemma_count_bound(s.update(index as int, n));
                }
                self.nodes[index].set(element);
            }
            self.len = self.len + 1;
        }
    }

    /// Puts `element` at `position`. Where a node has the same key, it takes the
    /// element (the length grows only if it was a tombstone); otherwise `element` is
    /// inserted at the first storage index whose key is not before `position`.
    pub fn insert_at(&mut self, position: Pos, element: T)
        requires
            old(self).wf(),
            insert_at_fits(old(self)@, position),
        ensures
            final(self).wf(),
            final(self)@ == inserted_at(old(self)@, position, element),
    {
        match self.index_from(position) {
            None => {
                let index = self.insertion_index(position);
                self.insert(index, element);
            },
            Some(index) => {
                let ghost s = self.nodes@;
                proof {
                    assert(index as int == find_from(s, position, 0));
                    let n = Node { position: s[index as int].position, element: Some(element) };
                    lemma_count_bound(s);
                    lemma_update(s, index as int, n);
                    lemma_update_valid(s, index as int, n);
                    lemma_count_bound(s.update(index as int, n));
                    assert(s.len() == self.nodes.len());
                }
                if self.nodes[index].is_none() {
                    self.len = self.len + 1;
                }
                self.nodes[index].set(element);
            },
        }
    }

    /// The key of the node at storage index `index`.
    pub fn position_from(&self, index: usize) -> (r: Option<Pos>)
        ensures
            r == (if index < self@.len() {
                Some(self@[index as int].position)
            } else {
                None
            }),
    {
        if index >= self.nodes.len() {
            None
        } else {
            Some(self.nodes[index].position())
        }
    }

    /// The key of the node at storage index `index`, as `(numerator, denominator)`.
    pub fn pos_from(&self, index: usize) -> (r: Option<(u64, u64)>)
        ensures
            r == (if index < self@.len() {
                Some((self@[index as int].position.num, self@[index as int].position.denom))
            } else {
                None
            }),
    {
        if index >= self.nodes.len() {
            None
        } else {
            Some(self.nodes[index].pos())
        }
    }

    /// Removes and returns the element that `get(index)` reads. Its node becomes a
    /// tombstone with the same key: a vacant node with that key is pushed, swapped
    /// into the node's place, and the node taken out from the end, so nothing else
    /// moves.
    pub fn remove(&mut self, index: usize) -> (r: Option<T>)
        requires
            old(self).wf(),
        ensures
            final(self).wf(),
            r == spec_get(old(self)@, index as int),
            final(self)@ == removed(old(self)@, index as int),
            index < present_count(old(self)@) ==> r is Some && present_count(final(self)@)
                == present_count(old(self)@) - 1,
            index >= present_count(old(self)@) ==> r is None && final(self)@ == old(self)@,
    {
        if index >= self.len {
            return None;
        }
        let j = self.scan_present(index);
        let ghost s = self.nodes@;
        let node = Node::new_empty(self.nodes[j].position());
        proof {
            lemma_update(s, j as int, node);
            lemma_update_valid(s, j as int, node);
            assert(s.push(node).update(j as int, node).drop_last() =~= s.update(j as int, node));
        }
        self.nodes.push(node);
        let taken = self.nodes.swap_remove(j);
        self.len = self.len - 1;
        taken.element()
    }

    /// Removes the element at the storage index of `position`, as `remove` does with
    /// that index; `None` when no key is the same position.
    pub fn remove_at(&mut self, position: Pos) -> (r: Option<T>)
        requires
            old(self).wf(),
        ensures
            final(self).wf(),
            find_from(old(self)@, position, 0) < old(self)@.len() ==> {
                let i = find_from(old(self)@, position, 0);
                &&& r == spec_get(old(self)@, i)
                &&& final(self)@ == removed(old(self)@, i)
            },
            find_from(old(self)@, position, 0) >= old(self)@.len() ==> r is None && final(self)@
                == old(self)@,
    {
        match self.index_from(position) {
            None => None,
            Some(index) => {
                assert(index as int == find_from(self@, position, 0));
                self.remove(index)
            },
        }
    }
}

impl<T> Default for Sequence<T> {
    /// An empty sequence.
    fn default() -> (r: Sequence<T>)
        ensures
            r.wf(),
            r@ == Seq::<Node<T>>::empty(),
    {
        Sequence::new()
    }
}

impl<T> vstd::std_specs::core::IndexSpecImpl<usize> for Sequence<T> {
    open spec fn index_req(&self, index: &usize) -> bool {
        *index < self@.len()
    }
}

impl<T> core::ops::Index<usize> for Sequence<T> {
    type Output = Node<T>;

    /// The node at storage index `index`, tombstone or not.
    fn index(&self, index: usize) -> (r: &Node<T>)
        ensures
            *r == self@[index as int],
    {
        &self.nodes[index]
    }
}

impl<T> core::ops::IndexMut<usize> for Sequence<T> {
    /// The node at storage index `index`, by mutable reference. Changing its key, or
    /// whether it holds an element, can break the key order or the length; the
    /// sequence stays well formed when the key and the occupancy are kept.
    fn index_mut(&mut self, index: usize) -> (r: &mut Node<T>)
        requires
            index < old(self)@.len(),
        ensures
            *r == old(self)@[index as int],
            final(self)@ == old(self)@.update(index as int, *final(r)),
            old(self).wf() && final(r).position == old(self)@[index as int].position && (
            final(r).element is Some <==> old(self)@[index as int].element is Some)
                ==> final(self).wf(),
    {
        proof {
            let s = self.nodes@;
            let i = index as int;
            assert forall|n: Node<T>|
                n.position == s[i].position && (n.element is Some <==> s[i].element is Some)
                    && valid_slots(s) implies valid_slots(#[trigger] s.update(i, n))
                && present_count(s.update(i, n)) == present_count(s) by {
                lemma_update(s, i, n);
                lemma_update_valid(s, i, n);
            }
        }
        &mut self.nodes[index]
    }
}

impl<T: Clone> Clone for Sequence<T> {
    /// A copy with the same keys and tombstones and a clone of each element.
    fn clone(&self) -> (r: Sequence<T>)
        ensures
            cloned_slots(self@, r@),
            self.wf() ==> r.wf() && present_count(r@) == present_count(self@),
    {
        let mut nodes: Vec<Node<T>> = Vec::new();
        let mut i: usize = 0;
        while i < self.nodes.len()
            invariant
                i <= self.nodes@.len(),
                cloned_slots(self.nodes@.subrange(0, i as int), nodes@),
            decreases self.nodes@.len() - i,
        {
            let node = &self.nodes[i];
            let copy = match &node.element {
                None => Node::new_empty(node.position),
                Some(element) => Node::new(node.position, element.clone()),
            };
            nodes.push(copy);
            i = i + 1;
            proof {
                let a = self.nodes@.subrange(0, i as int);
                assert forall|k: int| 0 <= k < a.len() implies #[trigger] a[k] == self.nodes@[k] by {}
            }
        }
        assert(self.nodes@.subrange(0, i as int) =~= self.nodes@);
        proof {
            lemma_clone_counts(self.nodes@, nodes@);
        }
        Sequence { nodes, len: self.len }
    }
}

impl<T> Sequence<T> {
    /// Consumes the sequence and hands out its occupied nodes in key order;
    /// tombstones are dropped.
    pub fn into_nodes(self) -> (r: Vec<Node<T>>)
        ensures
            r@ == present_nodes(self@),
    {
        let mut nodes = self.nodes;
        let ghost s = nodes@;
        // First pass: the occupied nodes, last first.
        let mut backward: Vec<Node<T>> = Vec::new();
        while nodes.len() > 0
            invariant
                nodes@.len() <= s.len(),
                nodes@ == s.subrange(0, nodes@.len() as int),
                present_nodes(s) == present_nodes(nodes@) + backward@.reverse(),
            decreases nodes@.len(),
        {
            let ghost before = nodes@;
            let node = nodes.pop().unwrap();
            proof {
                assert(before.drop_last() =~= nodes@);
                assert(s.subrange(0, nodes@.len() as int) =~= nodes@);
            }
            if node.element.is_some() {
                let ghost b = backward@;
                backward.push(node);
                assert(b.push(node).reverse() =~= seq![node] + b.reverse());
                assert(present_nodes(nodes@).push(node) + b.reverse() =~= present_nodes(nodes@)
                    + (seq![node] + b.reverse()));
            }
        }
        assert(present_nodes(nodes@) =~= Seq::<Node<T>>::empty());
        assert(present_nodes(s) =~= backward@.reverse());
        // Second pass: back into key order.
        let mut forward: Vec<Node<T>> = Vec::new();
        while backward.len() > 0
            invariant
                present_nodes(s) == forward@ + backward@.reverse(),
            decreases backward@.len(),
        {
            let ghost b = backward@;
            let node = backward.pop().unwrap();
            assert(b =~= backward@.push(node));
            assert(b.reverse() =~= seq![node] + backward@.reverse());
            forward.push(node);
            assert(forward@ + backward@.reverse() =~= (forward@.drop_last() + b.reverse()));
        }
        assert(backward@.reverse() =~= Seq::<Node<T>>::empty());
        assert(forward@ + backward@.reverse() =~= forward@);
        forward
    }
}

impl<T> IntoIterator for Sequence<T> {
    type Item = Node<T>;
    type IntoIter = std::vec::IntoIter<Node<T>>;

    /// Consumes the sequence and walks its occupied nodes in key order.
    fn into_iter(self) -> (r: std::vec::IntoIter<Node<T>>)
        ensures
            vstd::std_specs::iter::IteratorSpec::remaining(&r) == present_nodes(self@),
    {
        self.into_nodes().into_iter()
    }
}

impl<'a, T> IntoIterator for &'a Sequence<T> {
    type Item = &'a Node<T>;
    type IntoIter = std::slice::Iter<'a, Node<T>>;

    /// Walks every node, tombstones included, in key order.
    fn into_iter(self) -> (r: std::slice::Iter<'a, Node<T>>)
        ensures
            vstd::std_specs::iter::IteratorSpec::remaining(&r) == self@.as_ref(),
    {
        self.nodes.iter()
    }
}

impl<'a, T> IntoIterator for &'a mut Sequence<T> {
    type Item = &'a mut Node<T>;
    type IntoIter = std::slice::IterMut<'a, Node<T>>;

    /// Walks every node by mutable reference, tombstones included, in key order.
    /// As with `IndexMut`, the sequence stays well formed only where the walk keeps
    /// each node's key and occupancy.
    fn into_iter(self) -> (r: std::slice::IterMut<'a, Node<T>>) {
        nodes_iter_mut(&mut self.nodes)
    }
}

} // verus!
