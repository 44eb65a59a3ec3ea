//! The mathematical model of a sequence's storage: a `Seq` of nodes, ordered by key,
//! some of them vacant. Spec functions here say what each operation does to it.

use vstd::prelude::*;

use crate::node::Node;
use crate::pos::Pos;

verus! {

/// The nodes of `s` that hold an element, in storage order.
pub open spec fn present_nodes<T>(s: Seq<Node<T>>) -> Seq<Node<T>>
    decreases s.len(),
{
    if s.len() == 0 {
        Seq::empty()
    } else if s.last().element is Some {
        present_nodes(s.drop_last()).push(s.last())
    } else {
        present_nodes(s.drop_last())
    }
}

/// The elements of `s`, tombstones left out, in storage order.
pub open spec fn present_elements<T>(s: Seq<Node<T>>) -> Seq<T> {
    present_nodes(s).map_values(|n: Node<T>| n.element->0)
}

/// How many nodes of `s` hold an element: the sequence's length.
pub open spec fn present_count<T>(s: Seq<Node<T>>) -> nat {
    present_nodes(s).len()
}

/// Every key is a valid one with a positive numerator, so that it lies above `0/1`.
pub open spec fn keys_valid<T>(s: Seq<Node<T>>) -> bool {
    forall|i: int| 0 <= i < s.len() ==> #[trigger] s[i].position.num >= 1 && s[i].position.denom >= 1
}

/// The keys strictly increase along the storage.
pub open spec fn keys_ordered<T>(s: Seq<Node<T>>) -> bool {
    forall|i: int, j: int|
        0 <= i < j < s.len() ==> (#[trigger] s[i].position).before(#[trigger] s[j].position)
}

/// The storage invariant: valid keys in strictly increasing order.
pub open spec fn valid_slots<T>(s: Seq<Node<T>>) -> bool {
    keys_valid(s) && keys_ordered(s)
}

/// The first index at or after `i` whose node holds an element, or `s.len()`.
pub open spec fn next_present<T>(s: Seq<Node<T>>, i: int) -> int
    decreases s.len() - i,
{
    if i >= s.len() {
        s.len() as int
    } else if s[i].element is Some {
        i
    } else {
        next_present(s, i + 1)
    }
}

/// The last index before `i` whose node holds an element, or `-1`.
pub open spec fn prev_present<T>(s: Seq<Node<T>>, i: int) -> int
    decreases i,
{
    if i <= 0 {
        -1
    } else if s[i - 1].element is Some {
        i - 1
    } else {
        prev_present(s, i - 1)
    }
}

/// What `get(i)` returns: nothing when `i` is not below the length; otherwise the
/// first element found scanning the storage forward from index `i`.
pub open spec fn spec_get<T>(s: Seq<Node<T>>, i: int) -> Option<T> {
    if 0 <= i < present_count(s) {
        s[next_present(s, i)].element
    } else {
        None
    }
}

/// What `last()` returns: the first element found scanning from the end.
pub open spec fn spec_last<T>(s: Seq<Node<T>>) -> Option<T> {
    if present_count(s) > 0 {
        s[prev_present(s, s.len() as int)].element
    } else {
        None
    }
}

/// The first index at or after `i` whose key is the same position as `key`, or `s.len()`.
pub open spec fn find_from<T>(s: Seq<Node<T>>, key: Pos, i: int) -> int
    decreases s.len() - i,
{
    if i >= s.len() {
        s.len() as int
    } else if s[i].position.same(key) {
        i
    } else {
        find_from(s, key, i + 1)
    }
}

/// The first index at or after `i` whose key is not strictly before `key`, or `s.len()`.
pub open spec fn first_not_before<T>(s: Seq<Node<T>>, key: Pos, i: int) -> int
    decreases s.len() - i,
{
    if i >= s.len() {
        s.len() as int
    } else if !s[i].position.before(key) {
        i
    } else {
        first_not_before(s, key, i + 1)
    }
}

/// The key `1/0`, whose component-wise addition raises a numerator by one.
pub open spec fn increment() -> Pos {
    Pos { num: 1, denom: 0 }
}

/// The key that `push` gives: `1/1` in an empty storage, else the last key plus `1/0`.
pub open spec fn next_key<T>(s: Seq<Node<T>>) -> Pos {
    if s.len() == 0 {
        Pos { num: 1, denom: 1 }
    } else {
        s.last().position.mediant(increment())
    }
}

/// The key left of index `i`: `0/1` before the first node.
pub open spec fn left_key<T>(s: Seq<Node<T>>, i: int) -> Pos {
    if i == 0 {
        Pos { num: 0, denom: 1 }
    } else {
        s[i - 1].position
    }
}

/// `push` can make its key and grow the storage without overflow.
pub open spec fn push_fits<T>(s: Seq<Node<T>>) -> bool {
    &&& s.len() < usize::MAX
    &&& (s.len() == 0 || s.last().position.num < u64::MAX)
}

/// `insert(i, _)` can make its key and grow the storage without overflow.
pub open spec fn insert_fits<T>(s: Seq<Node<T>>, i: int) -> bool {
    if i >= s.len() {
        push_fits(s)
    } else if s[i].element is Some {
        s.len() < usize::MAX && left_key(s, i).mediant_fits(s[i].position)
    } else {
        true
    }
}

/// The storage with the node at `j` holding `v`, its key kept.
pub open spec fn filled<T>(s: Seq<Node<T>>, j: int, v: T) -> Seq<Node<T>> {
    s.update(j, Node { position: s[j].position, element: Some(v) })
}

/// The storage after `push(v)`.
pub open spec fn pushed<T>(s: Seq<Node<T>>, v: T) -> Seq<Node<T>> {
    s.push(Node { position: next_key(s), element: Some(v) })
}

/// The storage after `insert(i, v)`: past the end, a push; at an occupied node, a new
/// node with the mediant of its neighbours' keys, placed before it; at a tombstone,
/// the tombstone filled in place.
pub open spec fn inserted<T>(s: Seq<Node<T>>, i: int, v: T) -> Seq<Node<T>> {
    if i >= s.len() {
        pushed(s, v)
    } else if s[i].element is Some {
        s.insert(i, Node { position: left_key(s, i).mediant(s[i].position), element: Some(v) })
    } else {
        filled(s, i, v)
    }
}

/// The storage after `insert_at(key, v)`: the node with the same key gets `v`, or
/// `v` is inserted at the first index whose key is not before `key`.
pub open spec fn inserted_at<T>(s: Seq<Node<T>>, key: Pos, v: T) -> Seq<Node<T>> {
    let j = find_from(s, key, 0);
    if j < s.len() {
        filled(s, j, v)
    } else {
        inserted(s, first_not_before(s, key, 0), v)
    }
}

/// `insert_at(key, _)` runs without overflow.
pub open spec fn insert_at_fits<T>(s: Seq<Node<T>>, key: Pos) -> bool {
    find_from(s, key, 0) < s.len() || insert_fits(s, first_not_before(s, key, 0))
}

/// The storage after `remove(i)`: the node that `get(i)` reads becomes a tombstone
/// with the same key; nothing moves.
pub open spec fn removed<T>(s: Seq<Node<T>>, i: int) -> Seq<Node<T>> {
    if 0 <= i < present_count(s) {
        let j = next_present(s, i);
        s.update(j, Node { position: s[j].position, element: None })
    } else {
        s
    }
}

/// `c` holds the same keys as `s`, tombstones in the same places, and a clone of
/// each element of `s`.
pub open spec fn cloned_slots<T: Clone>(s: Seq<Node<T>>, c: Seq<Node<T>>) -> bool {
    &&& c.len() == s.len()
    &&& forall|i: int|
        0 <= i < s.len() ==> {
            &&& (#[trigger] c[i]).position == s[i].position
            &&& (c[i].element is Some <==> s[i].element is Some)
            &&& (s[i].element is Some ==> cloned(s[i].element->0, c[i].element->0))
        }
}


// ---------------------------------------------------------------------------
// Counting present nodes
// ---------------------------------------------------------------------------

pub proof fn lemma_count_bound<T>(s: Seq<Node<T>>)
    ensures
        present_count(s) <= s.len(),
    decreases s.len(),
{
    if s.len() > 0 {
        lemma_count_bound(s.drop_last());
    }
}

/// Filling a slot past the prefix `s[0..i]` puts the node at index
/// `present_count(s[0..i])` of the present nodes.
pub proof fn lemma_insert_present<T>(s: Seq<Node<T>>, i: int, n: Node<T>)
    requires
        0 <= i <= s.len(),
        n.element is Some,
    ensures
        present_count(s.subrange(0, i)) <= present_count(s),
        present_nodes(s.insert(i, n)) == present_nodes(s).insert(
            present_count(s.subrange(0, i)) as int,
            n,
        ),
    decreases s.len(),
{
    if i == s.len() {
        assert(s.subrange(0, i) =~= s);
        assert(s.insert(i, n).drop_last() =~= s);
        assert(present_nodes(s).push(n) =~= present_nodes(s).insert(present_count(s) as int, n));
    } else {
        let d = s.drop_last();
        lemma_insert_present(d, i, n);
        assert(s.subrange(0, i) =~= d.subrange(0, i));
        assert(s.insert(i, n).drop_last() =~= d.insert(i, n));
        assert(s.insert(i, n).last() == s.last());
        let k = present_count(d.subrange(0, i)) as int;
        if s.last().element is Some {
            assert(present_nodes(d).insert(k, n).push(s.last()) =~= present_nodes(d).push(
                s.last(),
            ).insert(k, n));
        }
    }
}

/// How the present nodes change when the node at index `i` is replaced.
pub proof fn lemma_update<T>(s: Seq<Node<T>>, i: int, n: Node<T>)
    requires
        0 <= i < s.len(),
    ensures
        present_count(s.subrange(0, i)) <= present_count(s),
        s[i].element is Some ==> present_count(s.subrange(0, i)) < present_count(s),
        s[i].element is None && n.element is Some ==> present_nodes(s.update(i, n))
            == present_nodes(s).insert(present_count(s.subrange(0, i)) as int, n),
        s[i].element is Some && n.element is None ==> present_nodes(s.update(i, n))
            == present_nodes(s).remove(present_count(s.subrange(0, i)) as int),
        s[i].element is Some && n.element is Some ==> present_nodes(s.update(i, n))
            == present_nodes(s).update(present_count(s.subrange(0, i)) as int, n),
        s[i].element is None && n.element is None ==> present_nodes(s.update(i, n))
            == present_nodes(s),
    decreases s.len(),
{
    let d = s.drop_last();
    if i == s.len() - 1 {
        assert(s.subrange(0, i) =~= d);
        assert(s.update(i, n).drop_last() =~= d);
        let p = present_nodes(d);
        assert(p.push(n) =~= p.insert(p.len() as int, n));
        assert(p.push(s.last()).remove(p.len() as int) =~= p);
        assert(p.push(s.last()).update(p.len() as int, n) =~= p.push(n));
    } else {
        lemma_update(d, i, n);
        assert(s.subrange(0, i) =~= d.subrange(0, i));
        assert(s.update(i, n).drop_last() =~= d.update(i, n));
        assert(s.update(i, n).last() == s.last());
        assert(d[i] == s[i]);
        let k = present_count(d.subrange(0, i)) as int;
        let p = present_nodes(d);
        if s.last().element is Some {
            assert(p.insert(k, n).push(s.last()) =~= p.push(s.last()).insert(k, n));
            if s[i].element is Some {
                assert(p.remove(k).push(s.last()) =~= p.push(s.last()).remove(k));
                assert(p.update(k, n).push(s.last()) =~= p.push(s.last()).update(k, n));
            }
        }
    }
}

// ---------------------------------------------------------------------------
// Scanning
// ---------------------------------------------------------------------------

/// When no node at or after `i` holds an element, at most `i` nodes do.
pub proof fn lemma_vacant_tail<T>(s: Seq<Node<T>>, i: int)
    requires
        0 <= i,
        forall|k: int| i <= k < s.len() ==> (#[trigger] s[k]).element is None,
    ensures
        present_count(s) <= i,
    decreases s.len(),
{
    if s.len() > i {
        lemma_vacant_tail(s.drop_last(), i);
    } else {
        lemma_count_bound(s);
    }
}

pub proof fn lemma_next_present<T>(s: Seq<Node<T>>, i: int)
    requires
        0 <= i <= s.len(),
    ensures
        i <= next_present(s, i) <= s.len(),
        next_present(s, i) < s.len() ==> s[next_present(s, i)].element is Some,
        forall|k: int| i <= k < next_present(s, i) ==> (#[trigger] s[k]).element is None,
        i < present_count(s) ==> next_present(s, i) < s.len(),
    decreases s.len() - i,
{
    if i < s.len() {
        lemma_next_present(s, i + 1);
    }
    if i < present_count(s) && next_present(s, i) == s.len() {
        lemma_vacant_tail(s, i);
    }
}

pub proof fn lemma_prev_present<T>(s: Seq<Node<T>>, i: int)
    requires
        0 <= i <= s.len(),
    ensures
        -1 <= prev_present(s, i) < i,
        prev_present(s, i) >= 0 ==> s[prev_present(s, i)].element is Some,
        forall|k: int| prev_present(s, i) < k < i ==> (#[trigger] s[k]).element is None,
        i == s.len() && present_count(s) > 0 ==> prev_present(s, i) >= 0,
    decreases i,
{
    if i > 0 {
        lemma_prev_present(s, i - 1);
    }
    if i == s.len() && present_count(s) > 0 && prev_present(s, i) < 0 {
        lemma_vacant_tail(s, 0);
    }
}

/// The scan forward from `i` only reads the nodes from `i` on.
pub proof fn lemma_next_present_tail<T>(s: Seq<Node<T>>, t: Seq<Node<T>>, i: int)
    requires
        0 <= i <= s.len(),
        t.len() == s.len(),
        forall|k: int| i <= k < s.len() ==> (#[trigger] t[k]).element == s[k].element,
    ensures
        next_present(t, i) == next_present(s, i),
    decreases s.len() - i,
{
    if i < s.len() {
        lemma_next_present_tail(s, t, i + 1);
    }
}

/// `find_from` only reads the keys.
pub proof fn lemma_find_from_keys<T>(s: Seq<Node<T>>, t: Seq<Node<T>>, key: Pos, i: int)
    requires
        0 <= i <= s.len(),
        t.len() == s.len(),
        forall|k: int| 0 <= k < s.len() ==> (#[trigger] t[k]).position == s[k].position,
    ensures
        find_from(t, key, i) == find_from(s, key, i),
    decreases s.len() - i,
{
    if i < s.len() {
        lemma_find_from_keys(s, t, key, i + 1);
    }
}

pub proof fn lemma_find_from<T>(s: Seq<Node<T>>, key: Pos, i: int)
    requires
        0 <= i <= s.len(),
    ensures
        i <= find_from(s, key, i) <= s.len(),
        find_from(s, key, i) < s.len() ==> s[find_from(s, key, i)].position.same(key),
    decreases s.len() - i,
{
    if i < s.len() {
        lemma_find_from(s, key, i + 1);
    }
}

/// `find_from` stops at the first match.
pub proof fn lemma_find_from_first<T>(s: Seq<Node<T>>, key: Pos, i: int, j: int)
    requires
        0 <= i <= j < s.len(),
        s[j].position.same(key),
        forall|k: int| i <= k < j ==> !(#[trigger] s[k]).position.same(key),
    ensures
        find_from(s, key, i) == j,
    decreases j - i,
{
    if i < j {
        lemma_find_from_first(s, key, i + 1, j);
    }
}

/// The scan forward passes over vacant nodes.
pub proof fn lemma_next_present_skip<T>(s: Seq<Node<T>>, a: int, b: int)
    requires
        0 <= a <= b <= s.len(),
        forall|k: int| a <= k < b ==> (#[trigger] s[k]).element is None,
    ensures
        next_present(s, a) == next_present(s, b),
    decreases b - a,
{
    if a < b {
        lemma_next_present_skip(s, a + 1, b);
    }
}

// ---------------------------------------------------------------------------
// Counting prefixes
// ---------------------------------------------------------------------------

pub proof fn lemma_prefix_step<T>(s: Seq<Node<T>>, k: int)
    requires
        0 <= k < s.len(),
    ensures
        present_count(s.subrange(0, k + 1)) == present_count(s.subrange(0, k)) + if s[k].element
            is Some {
            1int
        } else {
            0int
        },
{
    assert(s.subrange(0, k + 1).drop_last() =~= s.subrange(0, k));
}

/// A prefix of occupied nodes counts its own length.
pub proof fn lemma_prefix_occupied<T>(s: Seq<Node<T>>, i: int)
    requires
        0 <= i <= s.len(),
        forall|k: int| 0 <= k < i ==> (#[trigger] s[k]).element is Some,
    ensures
        present_count(s.subrange(0, i)) == i,
    decreases i,
{
    if i > 0 {
        lemma_prefix_occupied(s, i - 1);
        lemma_prefix_step(s, i - 1);
    } else {
        assert(s.subrange(0, 0) =~= Seq::<Node<T>>::empty());
    }
}

/// Vacant nodes add nothing to the count of a prefix.
pub proof fn lemma_prefix_vacant<T>(s: Seq<Node<T>>, a: int, b: int)
    requires
        0 <= a <= b <= s.len(),
        forall|k: int| a <= k < b ==> (#[trigger] s[k]).element is None,
    ensures
        present_count(s.subrange(0, b)) == present_count(s.subrange(0, a)),
    decreases b - a,
{
    if a < b {
        lemma_prefix_vacant(s, a, b - 1);
        lemma_prefix_step(s, b - 1);
    }
}

/// An occupied node stands among the present nodes at the count of what precedes it.
pub proof fn lemma_present_at<T>(s: Seq<Node<T>>, k: int)
    requires
        0 <= k < s.len(),
        s[k].element is Some,
    ensures
        present_count(s.subrange(0, k)) < present_count(s),
        present_nodes(s)[present_count(s.subrange(0, k)) as int] == s[k],
{
    lemma_update(s, k, s[k]);
    assert(s.update(k, s[k]) =~= s);
}

// ---------------------------------------------------------------------------
// Key order
// ---------------------------------------------------------------------------

pub proof fn lemma_before_transitive(a: Pos, b: Pos, c: Pos)
    requires
        a.denom >= 1,
        b.denom >= 1,
        c.denom >= 1,
        a.before(b),
        b.before(c),
    ensures
        a.before(c),
{
    let (an, ad, bn, bd, cn, cd) = (
        a.num as int,
        a.denom as int,
        b.num as int,
        b.denom as int,
        c.num as int,
        c.denom as int,
    );
    assert(an * cd < cn * ad) by (nonlinear_arith)
        requires
            an * bd < bn * ad,
            bn * cd < cn * bd,
            ad >= 1,
            bd >= 1,
            cd >= 1,
    ;
}

/// The mediant of two ordered keys lies strictly between them.
pub proof fn lemma_mediant_between(a: Pos, b: Pos)
    requires
        a.denom >= 1,
        b.denom >= 1,
        a.before(b),
        a.mediant_fits(b),
    ensures
        a.before(a.mediant(b)),
        a.mediant(b).before(b),
{
    let (an, ad, bn, bd) = (a.num as int, a.denom as int, b.num as int, b.denom as int);
    assert(an * (ad + bd) < (an + bn) * ad) by (nonlinear_arith)
        requires
            an * bd < bn * ad,
    ;
    assert((an + bn) * bd < bn * (ad + bd)) by (nonlinear_arith)
        requires
            an * bd < bn * ad,
    ;
}

/// A key placed between its neighbours keeps the storage valid.
pub proof fn lemma_insert_valid<T>(s: Seq<Node<T>>, i: int, n: Node<T>)
    requires
        valid_slots(s),
        0 <= i <= s.len(),
        n.position.num >= 1,
        n.position.denom >= 1,
        i > 0 ==> s[i - 1].position.before(n.position),
        i < s.len() ==> n.position.before(s[i].position),
    ensures
        valid_slots(s.insert(i, n)),
{
    let t = s.insert(i, n);
    assert forall|a: int, b: int| 0 <= a < b < t.len() implies (#[trigger] t[a].position).before(
        #[trigger] t[b].position,
    ) by {
        if b < i {
            assert(t[a] == s[a] && t[b] == s[b]);
        } else if b == i {
            assert(t[a] == s[a]);
            if a < i - 1 {
                lemma_before_transitive(s[a].position, s[i - 1].position, n.position);
            }
        } else if a > i {
            assert(t[a] == s[a - 1] && t[b] == s[b - 1]);
        } else if a == i {
            assert(t[b] == s[b - 1]);
            if b - 1 > i {
                lemma_before_transitive(n.position, s[i].position, s[b - 1].position);
            }
        } else {
            assert(t[a] == s[a] && t[b] == s[b - 1]);
        }
    }
    assert forall|a: int| 0 <= a < t.len() implies #[trigger] t[a].position.num >= 1
        && t[a].position.denom >= 1 by {
        if a < i {
            assert(t[a] == s[a]);
        } else if a > i {
            assert(t[a] == s[a - 1]);
        }
    }
}

/// Replacing a node by one with the same key keeps the storage valid.
pub proof fn lemma_update_valid<T>(s: Seq<Node<T>>, i: int, n: Node<T>)
    requires
        valid_slots(s),
        0 <= i < s.len(),
        n.position == s[i].position,
    ensures
        valid_slots(s.update(i, n)),
{
    let t = s.update(i, n);
    assert forall|a: int| 0 <= a < t.len() implies #[trigger] t[a].position == s[a].position by {}
}

/// Cloned storages have the same count and the same keys and tombstones.
pub proof fn lemma_clone_counts<T: Clone>(s: Seq<Node<T>>, c: Seq<Node<T>>)
    requires
        cloned_slots(s, c),
    ensures
        present_count(c) == present_count(s),
        valid_slots(s) ==> valid_slots(c),
    decreases s.len(),
{
    if s.len() > 0 {
        let (ds, dc) = (s.drop_last(), c.drop_last());
        assert forall|i: int| 0 <= i < ds.len() implies #[trigger] dc[i].position == ds[i].position
            && (dc[i].element is Some <==> ds[i].element is Some) && (ds[i].element is Some
            ==> cloned(ds[i].element->0, dc[i].element->0)) by {
            assert(dc[i] == c[i] && ds[i] == s[i]);
        }
        lemma_clone_counts(ds, dc);
        assert(c.last() == c[c.len() - 1] && s.last() == s[s.len() - 1]);
    }
    if valid_slots(s) {
        assert forall|i: int| 0 <= i < c.len() implies #[trigger] c[i].position == s[i].position by {}
    }
}

} // verus!
