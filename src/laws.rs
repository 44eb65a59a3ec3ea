//! Laws that relate several operations of a sequence, stated over the storage model.

use vstd::prelude::*;

use crate::fraction::lemma_same_fraction_same_value;
use crate::node::Node;
use crate::pos::Pos;
use crate::slots::{
    cloned_slots, filled, find_from, inserted, inserted_at, lemma_find_from_first,
    lemma_find_from_keys, lemma_insert_present, lemma_next_present, lemma_next_present_skip,
    lemma_next_present_tail, lemma_prefix_occupied, lemma_prefix_step, lemma_prefix_vacant,
    lemma_present_at, lemma_update, next_present, present_count, present_elements, present_nodes,
    removed, spec_get, valid_slots,
};

verus! {

/// Inserting at a logical index no greater than the length adds exactly one element,
/// `get` at that index then reads the new element, and the elements that were there
/// keep their relative order, the new one going in among them.
pub proof fn law_insert_then_get<T>(s: Seq<Node<T>>, i: int, v: T)
    requires
        0 <= i <= present_count(s),
    ensures
        present_count(inserted(s, i, v)) == present_count(s) + 1,
        spec_get(inserted(s, i, v), i) == Some(v),
        present_elements(inserted(s, i, v)) == present_elements(s).insert(
            present_count(s.subrange(0, i)) as int,
            v,
        ),
{
    crate::slots::lemma_count_bound(s);
    let t = inserted(s, i, v);
    let n = t[i];
    if i >= s.len() {
        let n = Node { position: crate::slots::next_key(s), element: Some(v) };
        lemma_insert_present(s, i, n);
        assert(s.insert(i, n) =~= t);
    } else if s[i].element is Some {
        let n = Node { position: crate::slots::left_key(s, i).mediant(s[i].position), element: Some(v) };
        lemma_insert_present(s, i, n);
    } else {
        let n = Node { position: s[i].position, element: Some(v) };
        lemma_update(s, i, n);
    }
    assert(next_present(t, i) == i);
    let f = |m: Node<T>| m.element->0;
    assert(present_nodes(s).insert(present_count(s.subrange(0, i)) as int, n).map_values(f)
        =~= present_nodes(s).map_values(f).insert(present_count(s.subrange(0, i)) as int, v));
}

/// Removing at a logical index below the length, where the node at that storage
/// index is occupied, takes exactly one element, the one `get` read there; `get` at
/// that index then reads what `get` read at the next index before.
pub proof fn law_remove_then_get<T>(s: Seq<Node<T>>, i: int)
    requires
        0 <= i < present_count(s),
        s[i].element is Some,
    ensures
        spec_get(s, i) == s[i].element,
        present_count(removed(s, i)) == present_count(s) - 1,
        spec_get(removed(s, i), i) == spec_get(s, i + 1),
{
    crate::slots::lemma_count_bound(s);
    let t = removed(s, i);
    assert(next_present(s, i) == i);
    let n = Node { position: s[i].position, element: None::<T> };
    lemma_update(s, i, n);
    assert(t == s.update(i, n));
    lemma_next_present_tail(s, t, i + 1);
    lemma_next_present(s, i + 1);
}

/// Removing at a logical index below the length, where no tombstone lies before that
/// storage index, takes the element at that logical position; `get` at that index
/// then reads the element that stood at the next logical position, or nothing when
/// none did.
pub proof fn law_remove_then_get_next_element<T>(s: Seq<Node<T>>, i: int)
    requires
        0 <= i < present_count(s),
        forall|k: int| 0 <= k < i ==> (#[trigger] s[k]).element is Some,
    ensures
        spec_get(s, i) == Some(present_elements(s)[i]),
        present_count(removed(s, i)) == present_count(s) - 1,
        spec_get(removed(s, i), i) == if i + 1 < present_count(s) {
            Some(present_elements(s)[i + 1])
        } else {
            None
        },
{
    crate::slots::lemma_count_bound(s);
    lemma_next_present(s, i);
    let j = next_present(s, i);
    lemma_prefix_occupied(s, i);
    lemma_prefix_vacant(s, i, j);
    lemma_present_at(s, j);
    let n = Node { position: s[j].position, element: None::<T> };
    lemma_update(s, j, n);
    let t = removed(s, i);
    assert(t == s.update(j, n));
    if i + 1 < present_count(s) {
        lemma_next_present_skip(t, i, j + 1);
        lemma_next_present_tail(s, t, j + 1);
        lemma_next_present(s, j + 1);
        let k = next_present(s, j + 1);
        lemma_prefix_step(s, j);
        if k == s.len() {
            lemma_prefix_vacant(s, j + 1, s.len() as int);
            assert(s.subrange(0, s.len() as int) =~= s);
        }
        lemma_prefix_vacant(s, j + 1, k);
        lemma_present_at(s, k);
        assert(t[k] == s[k]);
    }
}

/// Removing at an occupied storage index and inserting there again fills the
/// tombstone: the new element gets the removed element's key and nothing moves.
pub proof fn law_remove_then_insert_reuses_key<T>(s: Seq<Node<T>>, i: int, v: T)
    requires
        0 <= i < present_count(s),
        s[i].element is Some,
    ensures
        inserted(removed(s, i), i, v) == filled(s, i, v),
        inserted(removed(s, i), i, v).len() == s.len(),
        inserted(removed(s, i), i, v)[i].position == s[i].position,
{
    crate::slots::lemma_count_bound(s);
    assert(next_present(s, i) == i);
    let t = inserted(removed(s, i), i, v);
    assert(t =~= filled(s, i, v));
}

/// Two keys that name the same position are not ordered either way.
pub proof fn law_same_position_unordered(a: Pos, b: Pos)
    requires
        a.denom >= 1,
        b.denom >= 1,
        a.same(b),
    ensures
        !a.before(b),
        !b.before(a),
{
    lemma_same_fraction_same_value(a.num, a.denom, b.num, b.denom);
}

/// Putting an element at a key that is the same position as an occupied node's key
/// replaces that node's element in place: the length and the keys stay, and
/// `index_from` finds the same index before and after.
pub proof fn law_insert_at_occupied<T>(s: Seq<Node<T>>, j: int, key: Pos, v: T)
    requires
        valid_slots(s),
        0 <= j < s.len(),
        s[j].element is Some,
        s[j].position.same(key),
    ensures
        find_from(s, key, 0) == j,
        find_from(inserted_at(s, key, v), key, 0) == j,
        inserted_at(s, key, v) == filled(s, j, v),
        present_count(inserted_at(s, key, v)) == present_count(s),
{
    assert forall|k: int| 0 <= k < j implies !(#[trigger] s[k]).position.same(key) by {
        if s[k].position.same(key) {
            assert(s[k].position.same(s[j].position));
            law_same_position_unordered(s[k].position, s[j].position);
        }
    }
    lemma_find_from_first(s, key, 0, j);
    let t = inserted_at(s, key, v);
    let n = Node { position: s[j].position, element: Some(v) };
    lemma_update(s, j, n);
    assert forall|k: int| 0 <= k < s.len() implies (#[trigger] t[k]).position == s[k].position by {}
    lemma_find_from_keys(s, t, key, 0);
}

/// A clone has as many elements as the sequence it copies, and its owning traversal yields,
/// node for node, the same keys and clones of the same elements; where cloning an
/// element gives back an equal value, the two traversals are identical.
pub proof fn law_clone_traversal<T: Clone>(s: Seq<Node<T>>, c: Seq<Node<T>>)
    requires
        cloned_slots(s, c),
    ensures
        present_count(c) == present_count(s),
        cloned_slots(present_nodes(s), present_nodes(c)),
        (forall|a: T, b: T| cloned(a, b) ==> a == b) ==> present_nodes(c) == present_nodes(s),
    decreases s.len(),
{
    if s.len() > 0 {
        let (ds, dc) = (s.drop_last(), c.drop_last());
        assert forall|i: int| 0 <= i < ds.len() implies #[trigger] dc[i].position == ds[i].position
            && (dc[i].element is Some <==> ds[i].element is Some) && (ds[i].element is Some
            ==> cloned(ds[i].element->0, dc[i].element->0)) by {
            assert(dc[i] == c[i] && ds[i] == s[i]);
        }
        law_clone_traversal(ds, dc);
        assert(c.last() == c[c.len() - 1] && s.last() == s[s.len() - 1]);
        let (ps, pc) = (present_nodes(ds), present_nodes(dc));
        if s.last().element is Some {
            assert(forall|i: int| 0 <= i < ps.len() ==> #[trigger] ps.push(s.last())[i] == ps[i]);
            assert(forall|i: int| 0 <= i < pc.len() ==> #[trigger] pc.push(c.last())[i] == pc[i]);
        }
        if forall|a: T, b: T| cloned(a, b) ==> a == b {
            if s.last().element is Some {
                assert(c.last() == s.last());
            }
        }
    } else {
        assert(present_nodes(c) =~= present_nodes(s));
    }
    if forall|a: T, b: T| cloned(a, b) ==> a == b {
        let (ps, pc) = (present_nodes(s), present_nodes(c));
        assert forall|i: int| 0 <= i < ps.len() implies #[trigger] pc[i] == ps[i] by {
            if ps[i].element is Some {
                assert(pc[i].element->0 == ps[i].element->0);
            }
        }
        assert(pc =~= ps);
    }
}

} // verus!
