//! The node-pairing sorts.

use vstd::prelude::*;
use vstd::multiset::Multiset;
use core::cmp::Ordering;
use crate::node::{Node, exchange, lemma_ordered_wf, lemma_exchange_orders, lemma_seq_values,
    lemma_lead_le_last};
use crate::order::{le, sorted, total_order, lemma_obeys, lemma_le_total, lemma_le_trans,
    lemma_le_refl};
use crate::heap::{heap_ordered, push_node, pop_min};
use crate::pool::{values, drawn_from, lemma_drawn_from_self, lemma_drawn_from_trans,
    lemma_drawn_from_widen, wf_from, leads_sorted_from,
    done_below, lemma_drawn_from_keeps, lemma_values_first, lemma_values_update, lemma_values_swap,
    lemma_values_concat};

verus! {

broadcast use vstd::multiset::group_multiset_axioms;

/// The sorts refuse an empty sequence.
#[derive(Clone, Copy, Debug, PartialEq, Eq, Structural)]
pub struct EmptyInputError;

/// Groups `array` into nodes of two consecutive elements, each put in order;
/// an odd last element makes a node of its own at the end.
pub fn make_nodes<T: Ord + Copy>(array: &Vec<T>) -> (nodes: Vec<Node<T>>)
    ensures
        values(nodes@) == array@.to_multiset(),
        nodes@.len() == (array@.len() + 1) / 2,
        total_order::<T>() ==> wf_from(nodes@, 0),
{
    broadcast use vstd::seq_lib::group_to_multiset_ensures;

    let n = array.len();
    let mut nodes: Vec<Node<T>> = Vec::new();
    let mut i: usize = 0;
    proof {
        assert(array@.take(0) =~= Seq::<T>::empty());
        assert(values(nodes@) =~= array@.take(0).to_multiset());
    }
    while i + 1 < n
        invariant
            i <= n == array@.len(),
            i % 2 == 0,
            nodes@.len() == i / 2,
            values(nodes@) == array@.take(i as int).to_multiset(),
            total_order::<T>() ==> wf_from(nodes@, 0),
        decreases n - i,
    {
        let mut node = Node::new(array[i], Some(array[i + 1]));
        let ghost before = node;
        node.order();
        proof {
            assert(before.values() == Multiset::singleton(array@[i as int]).insert(array@[i + 1]));
            if total_order::<T>() {
                lemma_obeys::<T>();
                lemma_ordered_wf(before);
            }
            assert(array@.take(i + 2) =~= array@.take(i as int).push(array@[i as int]).push(
                array@[i + 1],
            ));
            assert(nodes@.push(node).drop_last() =~= nodes@);
        }
        let ghost prev = nodes@;
        nodes.push(node);
        i = i + 2;
        proof {
            assert(values(nodes@) == values(prev).add(node.values()));
            let t0 = array@.take(i - 2);
            vstd::seq_lib::to_multiset_build(t0, array@[i - 2]);
            vstd::seq_lib::to_multiset_build(t0.push(array@[i - 2]), array@[i - 1]);
            assert(values(nodes@) =~= array@.take(i as int).to_multiset());
        }
    }
    if i < n {
        let node = Node::new(array[i], None);
        proof {
            assert(array@.take(i + 1) =~= array@.take(i as int).push(array@[i as int]));
            assert(nodes@.push(node).drop_last() =~= nodes@);
        }
        nodes.push(node);
        i = i + 1;
        proof {
            assert(values(nodes@) =~= array@.take(i as int).to_multiset());
        }
    }
    proof {
        assert(array@.take(n as int) =~= array@);
    }
    nodes
}

/// Moves node `start` rightwards past every node whose lead it comes after,
/// so that nodes `start..` come in order of their leads when nodes
/// `start + 1..` did.
pub fn settle<T: Ord + Copy>(nodes: &mut Vec<Node<T>>, start: usize)
    requires
        start < old(nodes)@.len(),
        total_order::<T>() ==> leads_sorted_from(old(nodes)@, start + 1),
    ensures
        final(nodes)@.len() == old(nodes)@.len(),
        forall|j: int| 0 <= j < start ==> final(nodes)@[j] == old(nodes)@[j],
        drawn_from(final(nodes)@, old(nodes)@, start as int),
        values(final(nodes)@.skip(start as int)) == values(old(nodes)@.skip(start as int)),
        total_order::<T>() ==> leads_sorted_from(final(nodes)@, start as int),
{
    let len = nodes.len();
    let ghost orig = nodes@;
    let ghost moving = orig[start as int];
    let mut i: usize = start;
    while i + 1 < len
        invariant
            nodes@.len() == len == orig.len(),
            start <= i < len,
            nodes@[i as int] == moving,
            forall|j: int| 0 <= j < start ==> nodes@[j] == orig[j],
            forall|j: int| start <= j < i ==> nodes@[j] == orig[j + 1],
            forall|j: int| i < j < len ==> nodes@[j] == orig[j],
            values(nodes@.skip(start as int)) == values(orig.skip(start as int)),
            total_order::<T>() ==> forall|j: int|
                start <= j < i ==> le((#[trigger] nodes@[j]).lead, moving.lead),
        ensures
            total_order::<T>() && i + 1 < len ==> le(moving.lead, nodes@[i + 1].lead),
        decreases len - i,
    {
        let here = nodes[i];
        let next = nodes[i + 1];
        let after = match here.lead.cmp(&next.lead) {
            Ordering::Greater => true,
            _ => false,
        };
        if !after {
            proof {
                if total_order::<T>() {
                    lemma_obeys::<T>();
                }
            }
            break;
        }
        proof {
            let s = nodes@.skip(start as int);
            lemma_values_swap(s, i - start, i + 1 - start);
            assert(nodes@.update(i as int, next).update(i + 1, here).skip(start as int)
                =~= s.update(i - start, s[i + 1 - start]).update(i + 1 - start, s[i - start]));
            if total_order::<T>() {
                lemma_obeys::<T>();
                lemma_le_total(moving.lead, next.lead);
            }
        }
        nodes.set(i, next);
        nodes.set(i + 1, here);
        i = i + 1;
    }
    proof {
        let o = orig.subrange(start as int, len as int);
        assert forall|j: int| start <= j < len implies o.contains(#[trigger] nodes@[j]) by {
            if j < i {
                assert(o[j + 1 - start] == nodes@[j]);
            } else if j == i {
                assert(o[0] == nodes@[j]);
            } else {
                assert(o[j - start] == nodes@[j]);
            }
        }
        if total_order::<T>() {
            lemma_obeys::<T>();
            assert forall|p: int, q: int| start <= p < q < len implies le(
                (#[trigger] nodes@[p]).lead,
                (#[trigger] nodes@[q]).lead,
            ) by {
                if q < i {
                    assert(nodes@[p] == orig[p + 1] && nodes@[q] == orig[q + 1]);
                } else if q == i {
                } else if p < i {
                    assert(nodes@[p] == orig[p + 1] && nodes@[q] == orig[q]);
                } else if p == i {
                    let nx = nodes@[i + 1];
                    assert(le(moving.lead, nx.lead));
                    if q > i + 1 {
                        assert(nx == orig[i + 1] && nodes@[q] == orig[q]);
                        lemma_le_trans(moving.lead, nx.lead, nodes@[q].lead);
                    }
                } else {
                    assert(nodes@[p] == orig[p] && nodes@[q] == orig[q]);
                }
            }
        }
    }
}

/// Puts the nodes in order of their leads.
pub fn sort_by_lead<T: Ord + Copy>(nodes: &mut Vec<Node<T>>)
    ensures
        final(nodes)@.len() == old(nodes)@.len(),
        drawn_from(final(nodes)@, old(nodes)@, 0),
        values(final(nodes)@) == values(old(nodes)@),
        total_order::<T>() ==> leads_sorted_from(final(nodes)@, 0),
{
    let ghost orig = nodes@;
    let len = nodes.len();
    let mut i: usize = len;
    proof {
        lemma_drawn_from_self(orig);
    }
    while i > 0
        invariant
            i <= len == nodes@.len() == orig.len(),
            drawn_from(nodes@, orig, 0),
            values(nodes@) == values(orig),
            total_order::<T>() ==> leads_sorted_from(nodes@, i as int),
        decreases i,
    {
        i = i - 1;
        let ghost before = nodes@;
        settle(nodes, i);
        proof {
            lemma_drawn_from_widen(nodes@, before, i as int);
            lemma_drawn_from_trans(nodes@, before, orig);
            assert(before =~= before.take(i as int) + before.skip(i as int));
            assert(nodes@ =~= nodes@.take(i as int) + nodes@.skip(i as int));
            assert(nodes@.take(i as int) =~= before.take(i as int));
            lemma_values_concat(before.take(i as int), before.skip(i as int));
            lemma_values_concat(nodes@.take(i as int), nodes@.skip(i as int));
        }
    }
}

/// Puts the two elements of `array` in order with one node.
pub(crate) fn sort_pair<T: Ord + Copy>(array: &mut Vec<T>)
    requires
        old(array)@.len() == 2,
    ensures
        final(array)@.to_multiset() == old(array)@.to_multiset(),
        final(array)@.len() == 2,
        total_order::<T>() ==> sorted(final(array)@),
{
    let mut node = Node::new(array[0], Some(array[1]));
    let ghost first = node;
    node.order();
    node.change_vector(array, 0);
    proof {
        lemma_seq_values(node);
        lemma_seq_values(first);
        assert(final(array)@ =~= node.seq());
        assert(old(array)@ =~= first.seq());
        if total_order::<T>() {
            lemma_obeys::<T>();
            lemma_ordered_wf(first);
        }
    }
}

/// Writing out a node after a pool of nodes and values written before.
pub(crate) proof fn lemma_write_node<T: Ord>(before: Seq<T>, after: Seq<T>, index: int, n: Node<T>)
    requires
        0 <= index,
        index + n.size() <= before.len(),
        after == before.subrange(0, index) + n.seq() + before.subrange(
            index + n.size(),
            before.len() as int,
        ),
    ensures
        after.len() == before.len(),
        after.take(index + n.size()) == before.take(index) + n.seq(),
        after.take(index + n.size()).to_multiset() == before.take(index).to_multiset().add(
            n.values(),
        ),
{
    lemma_seq_values(n);
    assert(after.take(index + n.size()) =~= before.take(index) + n.seq());
    vstd::seq_lib::lemma_multiset_commutative(before.take(index), n.seq());
}

/// Appending a well formed node whose lead stands after every value of a
/// sorted sequence keeps it sorted.
pub(crate) proof fn lemma_sorted_append<T: Ord>(done: Seq<T>, n: Node<T>)
    requires
        total_order::<T>(),
        sorted(done),
        n.wf(),
        forall|p: int| 0 <= p < done.len() ==> le(#[trigger] done[p], n.lead),
    ensures
        sorted(done + n.seq()),
{
    let all = done + n.seq();
    lemma_lead_le_last(n);
    assert forall|p: int, q: int| 0 <= p < q < all.len() implies le(
        #[trigger] all[p],
        #[trigger] all[q],
    ) by {
        if q < done.len() {
            assert(all[p] == done[p] && all[q] == done[q]);
        } else if p < done.len() {
            assert(all[p] == done[p]);
            if q > done.len() {
                lemma_le_trans(done[p], n.lead, n.last());
            }
        } else {
            assert(p == done.len() && q == done.len() + 1);
        }
    }
}

/// Sorts `array` in place.
///
/// The elements are grouped into nodes of two, each put in order, and the
/// nodes are kept in order of their leads. The first node exchanges its
/// facing value with the lead of the second when the two are out of order;
/// after that its values are final and are written out, and the second node,
/// if its lead grew, moves right to its place. The last node left is written
/// out as it is.
///
/// An empty `array` is refused and left as it is. Whatever `T`'s `Ord` does,
/// the elements are only moved about; where it is a total order, they end
/// up sorted.
pub fn double_sort<T: Ord + Copy>(array: &mut Vec<T>) -> (r: Result<(), EmptyInputError>)
    ensures
        r is Err <==> old(array)@.len() == 0,
        r is Err ==> final(array)@ == old(array)@,
        final(array)@.len() == old(array)@.len(),
        final(array)@.to_multiset() == old(array)@.to_multiset(),
        total_order::<T>() ==> sorted(final(array)@),
{
    broadcast use vstd::seq_lib::group_to_multiset_ensures;

    let n = array.len();
    if n == 0 {
        return Err(EmptyInputError);
    }
    if n == 1 {
        return Ok(());
    }
    if n == 2 {
        sort_pair(array);
        return Ok(());
    }
    let ghost input = array@;
    let mut nodes = make_nodes(array);
    sort_by_lead(&mut nodes);
    let len = nodes.len();
    let mut c: usize = 0;
    let mut index: usize = 0;
    proof {
        assert(array@.take(0) =~= Seq::<T>::empty());
        assert(nodes@.skip(0) =~= nodes@);
        assert(array@.take(0).to_multiset().add(values(nodes@.skip(0))) =~= input.to_multiset());
        if total_order::<T>() {
            lemma_drawn_from_keeps(nodes@, nodes@, 0, Seq::<T>::empty());
        }
    }
    while c + 1 < len
        invariant
            0 < len == nodes@.len(),
            c < len,
            array@.len() == n == input.len(),
            index <= n,
            array@.take(index as int).to_multiset().add(values(nodes@.skip(c as int)))
                == input.to_multiset(),
            total_order::<T>() ==> sorted(array@.take(index as int)),
            total_order::<T>() ==> wf_from(nodes@, c as int),
            total_order::<T>() ==> leads_sorted_from(nodes@, c as int),
            total_order::<T>() ==> done_below(array@.take(index as int), nodes@, c as int),
        decreases len - c,
    {
        let mut left = nodes[c];
        let mut right = nodes[c + 1];
        let ghost l0 = left;
        let ghost r0 = right;
        let ghost pre = array@;
        let ghost nodes0 = nodes@;
        let ghost index0 = index as int;
        let ghost c0 = c as int;
        let swapped = exchange(&mut left, &mut right);
        proof {
            let pool = nodes0.skip(c0);
            lemma_values_first(pool);
            assert(pool.drop_first() =~= nodes0.skip(c0 + 1));
            assert(pool[0] == l0);
            crate::node::lemma_values_len(l0);
            crate::node::lemma_values_len(left);
            vstd::seq_lib::to_multiset_len(pre.take(index0));
            vstd::seq_lib::to_multiset_len(input);
        }
        left.change_vector(array, index);
        let step: usize = if left.none_present() { 1 } else { 2 };
        index = index + step;
        nodes.set(c + 1, right);
        let ghost nodes1 = nodes@;
        c = c + 1;
        if swapped {
            proof {
                if total_order::<T>() {
                    assert forall|p: int, q: int| c + 1 <= p < q < len implies le(
                        (#[trigger] nodes1[p]).lead,
                        (#[trigger] nodes1[q]).lead,
                    ) by {
                        assert(nodes1[p] == nodes0[p] && nodes1[q] == nodes0[q]);
                    }
                    assert(leads_sorted_from(nodes1, c + 1));
                }
            }
            settle(&mut nodes, c);
        }
        proof {
            let done0 = pre.take(index0);
            let q0 = nodes0.skip(c0 + 1);
            let q1 = nodes1.skip(c0 + 1);
            lemma_write_node(pre, array@, index0, left);
            assert(q1 =~= q0.update(0, right));
            lemma_values_update(q0, 0, right);
            assert(q0[0] == r0);
            if !swapped {
                assert(nodes@ == nodes1);
            }
            assert(values(nodes@.skip(c as int)) == values(q1));
            let pool = nodes0.skip(c0);
            assert(pool.drop_first() =~= q0);
            lemma_values_first(pool);
            let done_ms = array@.take(index as int).to_multiset();
            assert forall|v: T| #[trigger] done_ms.add(values(q1)).count(v) == input.to_multiset().count(v) by {
                assert(values(q1).add(r0.values()).count(v) == values(q0).add(right.values()).count(v));
                assert(left.values().add(right.values()).count(v) == l0.values().add(r0.values()).count(v));
                assert(values(pool).count(v) == l0.values().add(values(q0)).count(v));
                assert(done0.to_multiset().add(values(pool)).count(v) == input.to_multiset().count(v));
                assert(done_ms.count(v) == done0.to_multiset().add(left.values()).count(v));
            }
            assert(array@.take(index as int).to_multiset().add(values(nodes@.skip(c as int)))
                =~= input.to_multiset());
            if total_order::<T>() {
                lemma_obeys::<T>();
                assert(nodes0[c0] == l0 && nodes0[c0 + 1] == r0);
                lemma_exchange_orders(l0, r0);
                lemma_lead_le_last(left);
                // the values written out stay sorted
                assert forall|p: int| 0 <= p < done0.len() implies le(#[trigger] done0[p], left.lead) by {
                    assert(done0[p] == pre.take(index0)[p]);
                }
                lemma_sorted_append(done0, left);
                // every node left is well formed and leads after what was written
                let done = array@.take(index as int);
                assert forall|p: int, j: int| 0 <= p < done.len() && c <= j < len implies le(
                    #[trigger] done[p],
                    (#[trigger] nodes1[j]).lead,
                ) by {
                    let v = done[p];
                    let w = nodes1[j].lead;
                    if j == c {
                        assert(nodes1[j] == right);
                        if p < index0 {
                            assert(v == done0[p]);
                            lemma_le_trans(v, r0.lead, w);
                        } else if p == index0 {
                            assert(v == left.lead);
                            lemma_le_trans(v, left.last(), w);
                        } else {
                            assert(v == left.last());
                        }
                    } else {
                        assert(nodes1[j] == nodes0[j]);
                        assert(le(r0.lead, w));
                        if p < index0 {
                            assert(v == done0[p]);
                        } else if p == index0 {
                            assert(v == left.lead);
                            lemma_le_trans(left.last(), r0.lead, w);
                            lemma_le_trans(v, left.last(), w);
                        } else {
                            assert(v == left.last());
                            lemma_le_trans(v, r0.lead, w);
                        }
                    }
                }
                assert(done_below(done, nodes1, c as int));
                assert(wf_from(nodes1, c as int));
                if swapped {
                    lemma_drawn_from_keeps(nodes@, nodes1, c as int, done);
                } else {
                    assert(leads_sorted_from(nodes@, c as int));
                }
            }
        }
    }
    let last = nodes[c];
    proof {
        let pool = nodes@.skip(c as int);
        assert(pool =~= seq![last]);
        crate::pool::lemma_values_one(last);
        crate::node::lemma_values_len(last);
        vstd::seq_lib::to_multiset_len(array@.take(index as int));
        vstd::seq_lib::to_multiset_len(input);
    }
    let ghost pre = array@;
    last.change_vector(array, index);
    proof {
        lemma_write_node(pre, array@, index as int, last);
        assert(array@.take(n as int) =~= array@);
        if total_order::<T>() {
            let done0 = pre.take(index as int);
            assert forall|p: int| 0 <= p < done0.len() implies le(#[trigger] done0[p], last.lead) by {
                assert(nodes@[c as int] == last);
            }
            lemma_sorted_append(done0, last);
        }
    }
    Ok(())
}

/// After a node is written out, every value written stands before the lead
/// of every node still waiting, the exchanged right node included.
pub(crate) proof fn lemma_commit_keeps<T: Ord>(
    done0: Seq<T>,
    left: Node<T>,
    r0: Node<T>,
    right: Node<T>,
    rest: Seq<Node<T>>,
)
    requires
        total_order::<T>(),
        left.wf(),
        forall|p: int| 0 <= p < done0.len() ==> le(#[trigger] done0[p], r0.lead),
        le(left.last(), r0.lead),
        le(left.last(), right.lead),
        le(r0.lead, right.lead),
        forall|j: int| 0 <= j < rest.len() ==> le(r0.lead, (#[trigger] rest[j]).lead),
        done_below(done0, rest, 0),
    ensures
        done_below(done0 + left.seq(), rest.push(right), 0),
{
    let done = done0 + left.seq();
    let all = rest.push(right);
    lemma_lead_le_last(left);
    assert forall|p: int, j: int| 0 <= p < done.len() && 0 <= j < all.len() implies le(
        #[trigger] done[p],
        (#[trigger] all[j]).lead,
    ) by {
        let v = done[p];
        let w = all[j].lead;
        if j == rest.len() {
            assert(all[j] == right);
            if p < done0.len() {
                assert(v == done0[p]);
                lemma_le_trans(v, r0.lead, w);
            } else if p == done0.len() {
                lemma_le_trans(v, left.last(), w);
            } else {
                assert(v == left.last());
            }
        } else {
            assert(all[j] == rest[j]);
            if p < done0.len() {
                assert(v == done0[p]);
            } else if p == done0.len() {
                lemma_le_trans(left.last(), r0.lead, w);
                lemma_le_trans(v, left.last(), w);
            } else {
                assert(v == left.last());
                lemma_le_trans(v, r0.lead, w);
            }
        }
    }
}

/// Sorts `array` in place, like [`double_sort`], with the waiting nodes
/// kept in a binary min-heap keyed on their leads.
///
/// The two nodes with the smallest leads are taken out; the first exchanges
/// its facing value with the lead of the second when the two are out of
/// order, after which its values are final and are written out, and the
/// second goes back into the heap. The last node left is written out as it
/// is.
///
/// An empty `array` is refused and left as it is. Whatever `T`'s `Ord` does,
/// the elements are only moved about; where it is a total order, they end
/// up sorted.
pub fn double_heap_sort<T: Ord + Copy>(array: &mut Vec<T>) -> (r: Result<(), EmptyInputError>)
    ensures
        r is Err <==> old(array)@.len() == 0,
        r is Err ==> final(array)@ == old(array)@,
        final(array)@.len() == old(array)@.len(),
        final(array)@.to_multiset() == old(array)@.to_multiset(),
        total_order::<T>() ==> sorted(final(array)@),
{
    let n = array.len();
    if n == 0 {
        return Err(EmptyInputError);
    }
    if n == 1 {
        return Ok(());
    }
    if n == 2 {
        sort_pair(array);
        return Ok(());
    }
    let ghost input = array@;
    let nodes = make_nodes(array);
    let mut heap: Vec<Node<T>> = Vec::new();
    let mut k: usize = 0;
    proof {
        assert(nodes@.take(0) =~= Seq::<Node<T>>::empty());
    }
    while k < nodes.len()
        invariant
            k <= nodes@.len() < n,
            heap@.len() == k,
            values(heap@) == values(nodes@.take(k as int)),
            values(nodes@) == input.to_multiset(),
            total_order::<T>() ==> wf_from(nodes@, 0),
            total_order::<T>() ==> heap_ordered(heap@),
            total_order::<T>() ==> wf_from(heap@, 0),
        decreases nodes@.len() - k,
    {
        let node = nodes[k];
        let ghost before = heap@;
        push_node(&mut heap, node);
        proof {
            assert(nodes@.take(k + 1).drop_last() =~= nodes@.take(k as int));
            if total_order::<T>() {
                assert(wf_from(before.push(node), 0));
                lemma_drawn_from_keeps(heap@, before.push(node), 0, Seq::<T>::empty());
            }
        }
        k = k + 1;
    }
    let mut index: usize = 0;
    proof {
        assert(nodes@.take(k as int) =~= nodes@);
        assert(array@.take(0) =~= Seq::<T>::empty());
        vstd::seq_lib::to_multiset_len(array@.take(0));
        assert(array@.take(0).to_multiset() =~= Multiset::<T>::empty());
        assert(values(heap@) == input.to_multiset());
        assert(array@.take(0).to_multiset().add(values(heap@)) =~= input.to_multiset());
    }
    while heap.len() > 1
        invariant
            array@.len() == n == input.len(),
            index <= n,
            heap@.len() > 0,
            array@.take(index as int).to_multiset().add(values(heap@)) == input.to_multiset(),
            total_order::<T>() ==> sorted(array@.take(index as int)),
            total_order::<T>() ==> heap_ordered(heap@),
            total_order::<T>() ==> wf_from(heap@, 0),
            total_order::<T>() ==> done_below(array@.take(index as int), heap@, 0),
        decreases heap@.len(),
    {
        let ghost h0 = heap@;
        let mut left = pop_min(&mut heap);
        let ghost h1 = heap@;
        let mut right = pop_min(&mut heap);
        let ghost h2 = heap@;
        let ghost l0 = left;
        let ghost r0 = right;
        let ghost pre = array@;
        let ghost index0 = index as int;
        let ghost done0 = pre.take(index0);
        exchange(&mut left, &mut right);
        proof {
            crate::node::lemma_values_len(l0);
            crate::node::lemma_values_len(left);
            vstd::seq_lib::to_multiset_len(done0);
            vstd::seq_lib::to_multiset_len(input);
        }
        left.change_vector(array, index);
        let step: usize = if left.none_present() { 1 } else { 2 };
        index = index + step;
        push_node(&mut heap, right);
        proof {
            lemma_write_node(pre, array@, index0, left);
            let done_ms = array@.take(index as int).to_multiset();
            assert forall|v: T| #[trigger] done_ms.add(values(heap@)).count(v)
                == input.to_multiset().count(v) by {
                assert(values(h0).count(v) == values(h1).add(l0.values()).count(v));
                assert(values(h1).count(v) == values(h2).add(r0.values()).count(v));
                assert(left.values().add(right.values()).count(v) == l0.values().add(
                    r0.values(),
                ).count(v));
                assert(done0.to_multiset().add(values(h0)).count(v) == input.to_multiset().count(
                    v,
                ));
                assert(done_ms.count(v) == done0.to_multiset().add(left.values()).count(v));
            }
            assert(done_ms.add(values(heap@)) =~= input.to_multiset());
            if total_order::<T>() {
                lemma_obeys::<T>();
                lemma_drawn_from_keeps(h1, h0, 0, done0);
                lemma_drawn_from_trans(h2, h1, h0);
                lemma_drawn_from_keeps(h2, h0, 0, done0);
                assert(h0[0] == l0 && h1[0] == r0);
                assert(l0.wf() && r0.wf());
                assert(le(l0.lead, h1[0].lead));
                lemma_exchange_orders(l0, r0);
                lemma_lead_le_last(left);
                assert forall|p: int| 0 <= p < done0.len() implies le(
                    #[trigger] done0[p],
                    left.lead,
                ) by {
                    assert(le(done0[p], h0[0].lead));
                }
                lemma_sorted_append(done0, left);
                assert forall|p: int| 0 <= p < done0.len() implies le(
                    #[trigger] done0[p],
                    r0.lead,
                ) by {
                    assert(le(done0[p], h1[0].lead));
                }
                lemma_commit_keeps(done0, left, r0, right, h2);
                assert(array@.take(index as int) == done0 + left.seq());
                assert(wf_from(h2.push(right), 0));
                lemma_drawn_from_keeps(heap@, h2.push(right), 0, array@.take(index as int));
            }
        }
    }
    let ghost h0 = heap@;
    let last = pop_min(&mut heap);
    proof {
        assert(h0 =~= seq![last]);
        crate::pool::lemma_values_one(last);
        crate::node::lemma_values_len(last);
        vstd::seq_lib::to_multiset_len(array@.take(index as int));
        vstd::seq_lib::to_multiset_len(input);
    }
    let ghost pre = array@;
    last.change_vector(array, index);
    proof {
        lemma_write_node(pre, array@, index as int, last);
        assert(array@.take(n as int) =~= array@);
        if total_order::<T>() {
            let done0 = pre.take(index as int);
            assert forall|p: int| 0 <= p < done0.len() implies le(#[trigger] done0[p], last.lead) by {
                assert(h0[0] == last);
            }
            lemma_sorted_append(done0, last);
        }
    }
    Ok(())
}

/// Sorting an already sorted sequence gives it back unchanged: under a total
/// order, a sorted sequence is the only sorted arrangement of its elements,
/// so any result that [`double_sort`] or [`double_heap_sort`] may give for a
/// sorted input (a sorted sequence with the same elements) equals the input.
pub proof fn lemma_sorted_input_unchanged<T: Ord>(before: Seq<T>, after: Seq<T>)
    requires
        total_order::<T>(),
        sorted(before),
        sorted(after),
        after.to_multiset() == before.to_multiset(),
    ensures
        after == before,
    decreases before.len(),
{
    vstd::seq_lib::to_multiset_len(before);
    vstd::seq_lib::to_multiset_len(after);
    if before.len() == 0 {
        assert(after =~= before);
    } else {
        let a = before[0];
        let b = after[0];
        vstd::seq_lib::to_multiset_contains(before, b);
        vstd::seq_lib::to_multiset_contains(after, b);
        vstd::seq_lib::to_multiset_contains(before, a);
        vstd::seq_lib::to_multiset_contains(after, a);
        assert(after.contains(b));
        assert(before.contains(b));
        let k = choose|k: int| 0 <= k < before.len() && before[k] == b;
        if k == 0 {
            lemma_le_refl(a);
        }
        assert(le(a, b));
        assert(before.contains(a));
        assert(after.contains(a));
        let m = choose|m: int| 0 <= m < after.len() && after[m] == a;
        if m == 0 {
            lemma_le_refl(b);
        }
        assert(le(b, a));
        crate::order::lemma_le_antisym(a, b);
        vstd::seq_lib::to_multiset_remove(before, 0);
        vstd::seq_lib::to_multiset_remove(after, 0);
        assert(before.remove(0) =~= before.drop_first());
        assert(after.remove(0) =~= after.drop_first());
        lemma_sorted_input_unchanged(before.drop_first(), after.drop_first());
        assert(after.len() == before.len());
        assert forall|i: int| 0 <= i < after.len() implies after[i] == before[i] by {
            if i > 0 {
                assert(after[i] == after.drop_first()[i - 1]);
                assert(before[i] == before.drop_first()[i - 1]);
            }
        }
        assert(after =~= before);
    }
}

} // verus!
