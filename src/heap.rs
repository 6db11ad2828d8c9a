//! A binary min-heap of nodes keyed on their leads: the adjacency resolver
//! that always yields the node with the smallest lead still waiting.

use vstd::prelude::*;
use vstd::multiset::Multiset;
use core::cmp::Ordering;
use crate::node::Node;
use crate::order::{le, total_order, lemma_obeys, lemma_le_total, lemma_le_trans, lemma_le_refl};
use crate::pool::{values, drawn_from, lemma_drawn_from_trans, lemma_values_swap, lemma_values_update,
    lemma_values_one};

verus! {

broadcast use vstd::multiset::group_multiset_axioms;

/// Position of the parent of position `k > 0`.
pub open spec fn parent(k: int) -> int {
    (k - 1) / 2
}

/// Every node's lead comes after its parent's.
pub open spec fn heap_ordered<T: Ord>(s: Seq<Node<T>>) -> bool {
    forall|k: int| 0 < k < s.len() ==> le(s[parent(k)].lead, (#[trigger] s[k]).lead)
}

/// The root's lead stands before every lead of a heap.
pub proof fn lemma_root_le<T: Ord>(s: Seq<Node<T>>, i: int)
    requires
        total_order::<T>(),
        heap_ordered(s),
        0 <= i < s.len(),
    ensures
        le(s[0].lead, s[i].lead),
    decreases i,
{
    if i == 0 {
        lemma_le_refl(s[0].lead);
    } else {
        lemma_root_le(s, parent(i));
        lemma_le_trans(s[0].lead, s[parent(i)].lead, s[i].lead);
    }
}

/// Swapping two elements draws from the sequence.
pub proof fn lemma_drawn_from_swap<A>(s: Seq<A>, i: int, j: int)
    requires
        0 <= i < s.len(),
        0 <= j < s.len(),
    ensures
        drawn_from(s.update(i, s[j]).update(j, s[i]), s, 0),
{
    let t = s.update(i, s[j]).update(j, s[i]);
    let ss = s.subrange(0, s.len() as int);
    assert forall|k: int| 0 <= k < t.len() implies ss.contains(#[trigger] t[k]) by {
        if k == j {
            assert(ss[i] == t[k]);
        } else if k == i {
            assert(ss[j] == t[k]);
        } else {
            assert(ss[k] == t[k]);
        }
    }
}

/// Swaps the nodes at positions `i` and `j`.
fn swap_nodes<T: Ord + Copy>(h: &mut Vec<Node<T>>, i: usize, j: usize)
    requires
        i < old(h)@.len(),
        j < old(h)@.len(),
    ensures
        final(h)@ == old(h)@.update(i as int, old(h)@[j as int]).update(j as int, old(h)@[i as int]),
        values(final(h)@) == values(old(h)@),
        drawn_from(final(h)@, old(h)@, 0),
{
    let a = h[i];
    let b = h[j];
    h.set(i, b);
    h.set(j, a);
    proof {
        lemma_values_swap(old(h)@, i as int, j as int);
        lemma_drawn_from_swap(old(h)@, i as int, j as int);
    }
}

/// Moves the node at position `start` down until the heap is in order again,
/// when only that node was out of place.
fn sift_down<T: Ord + Copy>(h: &mut Vec<Node<T>>, start: usize)
    requires
        start < old(h)@.len(),
        total_order::<T>() ==> {
            &&& forall|k: int|
                0 < k < old(h)@.len() && parent(k) != start ==> le(
                    old(h)@[parent(k)].lead,
                    (#[trigger] old(h)@[k]).lead,
                )
            &&& forall|k: int|
                0 < k < old(h)@.len() && parent(k) == start && start > 0 ==> le(
                    old(h)@[parent(start as int)].lead,
                    (#[trigger] old(h)@[k]).lead,
                )
        },
    ensures
        final(h)@.len() == old(h)@.len(),
        values(final(h)@) == values(old(h)@),
        drawn_from(final(h)@, old(h)@, 0),
        total_order::<T>() ==> heap_ordered(final(h)@),
{
    let ghost orig = h@;
    let len = h.len();
    let mut i: usize = start;
    proof {
        crate::pool::lemma_drawn_from_self(orig);
    }
    loop
        invariant
            h@.len() == len == orig.len(),
            i < len,
            values(h@) == values(orig),
            drawn_from(h@, orig, 0),
            total_order::<T>() ==> forall|k: int|
                0 < k < len && parent(k) != i ==> le(h@[parent(k)].lead, (#[trigger] h@[k]).lead),
            total_order::<T>() ==> forall|k: int|
                0 < k < len && parent(k) == i && i > 0 ==> le(
                    h@[parent(i as int)].lead,
                    (#[trigger] h@[k]).lead,
                ),
        ensures
            h@.len() == len,
            values(h@) == values(orig),
            drawn_from(h@, orig, 0),
            total_order::<T>() ==> heap_ordered(h@),
        decreases len - i,
    {
        if i >= len / 2 {
            proof {
                if total_order::<T>() {
                    assert forall|k: int| 0 < k < len implies le(
                        h@[parent(k)].lead,
                        (#[trigger] h@[k]).lead,
                    ) by {
                        assert(parent(k) != i);
                    }
                }
            }
            break;
        }
        let l = 2 * i + 1;
        let r = 2 * i + 2;
        let mut m = l;
        if r < len {
            match h[l].lead.cmp(&h[r].lead) {
                Ordering::Greater => {
                    m = r;
                },
                _ => {},
            }
        }
        let ghost s = h@;
        proof {
            if total_order::<T>() {
                lemma_obeys::<T>();
                // `m` is the child with the smaller lead
                if r < len {
                    lemma_le_total(s[l as int].lead, s[r as int].lead);
                    lemma_le_refl(s[m as int].lead);
                }
            }
        }
        let down = match h[i].lead.cmp(&h[m].lead) {
            Ordering::Greater => true,
            _ => false,
        };
        if !down {
            proof {
                if total_order::<T>() {
                    lemma_obeys::<T>();
                    assert forall|k: int| 0 < k < len implies le(
                        h@[parent(k)].lead,
                        (#[trigger] h@[k]).lead,
                    ) by {
                        if parent(k) == i {
                            assert(k == l || k == r);
                            if r < len && k != m {
                                lemma_le_trans(s[i as int].lead, s[m as int].lead, s[k].lead);
                            }
                        }
                    }
                }
            }
            break;
        }
        swap_nodes(h, i, m);
        proof {
            lemma_drawn_from_trans(h@, s, orig);
            if total_order::<T>() {
                lemma_obeys::<T>();
                lemma_le_total(s[i as int].lead, s[m as int].lead);
                assert forall|k: int| 0 < k < len && parent(k) != m implies le(
                    h@[parent(k)].lead,
                    (#[trigger] h@[k]).lead,
                ) by {
                    if k == m {
                    } else if parent(k) == i {
                        assert(k == l || k == r);
                        assert(h@[k] == s[k]);
                    } else if k == i {
                        assert(parent(m as int) == i);
                        assert(le(s[parent(i as int)].lead, s[m as int].lead));
                    } else {
                        assert(h@[k] == s[k]);
                        assert(parent(k) != i);
                        if parent(k) == m as int {
                        } else {
                            assert(h@[parent(k)] == s[parent(k)]);
                        }
                    }
                }
                assert forall|k: int| 0 < k < len && parent(k) == m && m > 0 implies le(
                    h@[parent(m as int)].lead,
                    (#[trigger] h@[k]).lead,
                ) by {
                    assert(parent(m as int) == i);
                    assert(h@[k] == s[k]);
                    assert(k != m);
                }
            }
        }
        i = m;
    }
}

/// Moves the node at position `start` up until the heap is in order again,
/// when only that node was out of place.
fn sift_up<T: Ord + Copy>(h: &mut Vec<Node<T>>, start: usize)
    requires
        start < old(h)@.len(),
        total_order::<T>() ==> {
            &&& forall|k: int|
                0 < k < old(h)@.len() && k != start ==> le(
                    old(h)@[parent(k)].lead,
                    (#[trigger] old(h)@[k]).lead,
                )
            &&& forall|k: int|
                0 < k < old(h)@.len() && parent(k) == start && start > 0 ==> le(
                    old(h)@[parent(start as int)].lead,
                    (#[trigger] old(h)@[k]).lead,
                )
        },
    ensures
        final(h)@.len() == old(h)@.len(),
        values(final(h)@) == values(old(h)@),
        drawn_from(final(h)@, old(h)@, 0),
        total_order::<T>() ==> heap_ordered(final(h)@),
{
    let ghost orig = h@;
    let len = h.len();
    let mut i: usize = start;
    proof {
        crate::pool::lemma_drawn_from_self(orig);
    }
    while i > 0
        invariant
            h@.len() == len == orig.len(),
            i < len,
            values(h@) == values(orig),
            drawn_from(h@, orig, 0),
            total_order::<T>() ==> forall|k: int|
                0 < k < len && k != i ==> le(h@[parent(k)].lead, (#[trigger] h@[k]).lead),
            total_order::<T>() ==> forall|k: int|
                0 < k < len && parent(k) == i && i > 0 ==> le(
                    h@[parent(i as int)].lead,
                    (#[trigger] h@[k]).lead,
                ),
        ensures
            h@.len() == len,
            values(h@) == values(orig),
            drawn_from(h@, orig, 0),
            total_order::<T>() ==> heap_ordered(h@),
        decreases i,
    {
        let p = (i - 1) / 2;
        let up = match h[p].lead.cmp(&h[i].lead) {
            Ordering::Greater => true,
            _ => false,
        };
        let ghost s = h@;
        if !up {
            proof {
                if total_order::<T>() {
                    lemma_obeys::<T>();
                }
            }
            break;
        }
        swap_nodes(h, i, p);
        proof {
            lemma_drawn_from_trans(h@, s, orig);
            if total_order::<T>() {
                lemma_obeys::<T>();
                lemma_le_total(s[p as int].lead, s[i as int].lead);
                assert forall|k: int| 0 < k < len && k != p implies le(
                    h@[parent(k)].lead,
                    (#[trigger] h@[k]).lead,
                ) by {
                    if k == i {
                    } else if parent(k) == i {
                        assert(h@[k] == s[k]);
                    } else if parent(k) == p {
                        assert(h@[k] == s[k]);
                        lemma_le_trans(s[i as int].lead, s[p as int].lead, s[k].lead);
                    } else {
                        assert(h@[k] == s[k]);
                        if parent(k) != i && parent(k) != p {
                            assert(h@[parent(k)] == s[parent(k)]);
                        }
                    }
                }
                assert forall|k: int| 0 < k < len && parent(k) == p && p > 0 implies le(
                    h@[parent(p as int)].lead,
                    (#[trigger] h@[k]).lead,
                ) by {
                    assert(h@[parent(p as int)] == s[parent(p as int)]);
                    assert(le(s[parent(p as int)].lead, s[p as int].lead));
                    if k != i {
                        assert(h@[k] == s[k]);
                        lemma_le_trans(s[parent(p as int)].lead, s[p as int].lead, s[k].lead);
                    }
                }
            }
        }
        i = p;
    }
}

/// Adds a node to the heap.
pub fn push_node<T: Ord + Copy>(h: &mut Vec<Node<T>>, n: Node<T>)
    requires
        old(h)@.len() < usize::MAX,
        total_order::<T>() ==> heap_ordered(old(h)@),
    ensures
        final(h)@.len() == old(h)@.len() + 1,
        values(final(h)@) == values(old(h)@).add(n.values()),
        drawn_from(final(h)@, old(h)@.push(n), 0),
        total_order::<T>() ==> heap_ordered(final(h)@),
{
    let ghost before = h@;
    h.push(n);
    proof {
        assert(h@.drop_last() =~= before);
        if total_order::<T>() {
            assert forall|k: int| 0 < k < h@.len() && k != before.len() implies le(
                h@[parent(k)].lead,
                (#[trigger] h@[k]).lead,
            ) by {
                assert(h@[k] == before[k]);
                assert(h@[parent(k)] == before[parent(k)]);
            }
        }
    }
    let last = h.len() - 1;
    sift_up(h, last);
}

/// The root's lead stands before every lead drawn from a heap.
proof fn lemma_root_below<T: Ord>(after: Seq<Node<T>>, before: Seq<Node<T>>)
    requires
        total_order::<T>(),
        heap_ordered(before),
        drawn_from(after, before, 0),
        before.len() > 0,
    ensures
        forall|j: int| 0 <= j < after.len() ==> le(before[0].lead, (#[trigger] after[j]).lead),
{
    assert forall|j: int| 0 <= j < after.len() implies le(
        before[0].lead,
        (#[trigger] after[j]).lead,
    ) by {
        let ss = before.subrange(0, before.len() as int);
        assert(ss.contains(after[j]));
        let k = choose|k: int| 0 <= k < ss.len() && ss[k] == after[j];
        lemma_root_le(before, k);
    }
}

/// A heap with its root replaced by its last node, which is dropped.
proof fn lemma_last_to_root<T: Ord>(before: Seq<Node<T>>, placed: Seq<Node<T>>)
    requires
        before.len() > 1,
        placed == before.drop_last().update(0, before.last()),
    ensures
        values(before) == values(placed).add(before[0].values()),
        drawn_from(placed, before, 0),
        total_order::<T>() && heap_ordered(before) ==> forall|k: int|
            0 < k < placed.len() && parent(k) != 0 ==> le(
                placed[parent(k)].lead,
                (#[trigger] placed[k]).lead,
            ),
{
    let rest = before.drop_last();
    let last = before.last();
    assert(values(before) == values(rest).add(last.values()));
    lemma_values_update(rest, 0, last);
    assert(values(before) =~= values(placed).add(before[0].values()));
    let ss = before.subrange(0, before.len() as int);
    assert forall|k: int| 0 <= k < placed.len() implies ss.contains(#[trigger] placed[k]) by {
        if k == 0 {
            assert(ss[before.len() - 1] == placed[k]);
        } else {
            assert(ss[k] == placed[k]);
        }
    }
    if total_order::<T>() && heap_ordered(before) {
        assert forall|k: int| 0 < k < placed.len() && parent(k) != 0 implies le(
            placed[parent(k)].lead,
            (#[trigger] placed[k]).lead,
        ) by {
            assert(placed[k] == before[k]);
            assert(placed[parent(k)] == before[parent(k)]);
        }
    }
}

/// Takes out a node with the smallest lead.
pub fn pop_min<T: Ord + Copy>(h: &mut Vec<Node<T>>) -> (n: Node<T>)
    requires
        old(h)@.len() > 0,
        total_order::<T>() ==> heap_ordered(old(h)@),
    ensures
        final(h)@.len() == old(h)@.len() - 1,
        n == old(h)@[0],
        values(old(h)@) == values(final(h)@).add(n.values()),
        drawn_from(final(h)@, old(h)@, 0),
        total_order::<T>() ==> heap_ordered(final(h)@),
        total_order::<T>() ==> forall|j: int|
            0 <= j < final(h)@.len() ==> le(n.lead, (#[trigger] final(h)@[j]).lead),
{
    let ghost before = h@;
    let top = h[0];
    let last = h.pop().unwrap();
    proof {
        assert(before.drop_last() =~= h@);
    }
    if h.len() > 0 {
        h.set(0, last);
        let ghost placed = h@;
        proof {
            lemma_last_to_root(before, placed);
        }
        sift_down(h, 0);
        proof {
            lemma_drawn_from_trans(h@, placed, before);
            if total_order::<T>() {
                lemma_root_below(h@, before);
            }
        }
    } else {
        proof {
            assert(before =~= seq![top]);
            lemma_values_one(top);
            assert(values(h@) =~= Multiset::<T>::empty());
            assert(values(before) =~= values(h@).add(top.values()));
        }
    }
    top
}

} // verus!
