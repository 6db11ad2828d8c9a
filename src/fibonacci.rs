//! The node-pairing sort on `u32` values with the waiting nodes kept in
//! rudac's Fibonacci min-heap.

use vstd::prelude::*;
use vstd::multiset::Multiset;
use rudac::heap::FibonacciHeap;
use crate::node::{Node, exchange, lemma_exchange_orders, lemma_lead_le_last};
use crate::order::{le, sorted, lemma_total_order_u32, lemma_le_u32, lemma_obeys};
use crate::pool::{values, wf_from, done_below, lemma_values_node_len, lemma_values_one};
use crate::sort::{EmptyInputError, make_nodes, sort_pair, lemma_write_node, lemma_sorted_append,
    lemma_commit_keeps};

verus! {

broadcast use vstd::multiset::group_multiset_axioms;

/// rudac's Fibonacci heap, held opaque.
#[verifier::external_type_specification]
#[verifier::external_body]
#[verifier::reject_recursive_types(T)]
pub struct ExFibonacciHeap<T: core::cmp::Ord>(FibonacciHeap<T>);

/// The items a heap of node keys holds.
pub uninterp spec fn heap_items(h: FibonacciHeap<(u32, u64)>) -> Multiset<(u32, u64)>;

/// The heap was made as a min-heap: its highest priority is its smallest item.
pub uninterp spec fn heap_is_min(h: FibonacciHeap<(u32, u64)>) -> bool;

/// `a` comes no later than `b` in the order of tuples: by lead, then by the
/// code of the trail.
pub open spec fn key_le(a: (u32, u64), b: (u32, u64)) -> bool {
    a.0 < b.0 || (a.0 == b.0 && a.1 <= b.1)
}

/// Relies on `FibonacciHeap::init_min`: a new min-heap holds nothing.
#[verifier::external_body]
fn new_heap() -> (h: FibonacciHeap<(u32, u64)>)
    ensures
        heap_items(h) == Multiset::<(u32, u64)>::empty(),
        heap_is_min(h),
{
    FibonacciHeap::init_min()
}

/// Relies on `FibonacciHeap::push`: the item is added to what the heap holds.
#[verifier::external_body]
fn push_key(h: &mut FibonacciHeap<(u32, u64)>, key: (u32, u64))
    requires
        heap_items(*old(h)).len() < usize::MAX,
    ensures
        heap_items(*final(h)) == heap_items(*old(h)).insert(key),
        heap_is_min(*final(h)) == heap_is_min(*old(h)),
{
    h.push(key)
}

/// Relies on `FibonacciHeap::pop` on a min-heap: it hands out an item no
/// greater than any other the heap holds and removes it, or `None` when the
/// heap is empty.
#[verifier::external_body]
fn pop_key(h: &mut FibonacciHeap<(u32, u64)>) -> (r: Option<(u32, u64)>)
    requires
        heap_is_min(*old(h)),
    ensures
        heap_is_min(*final(h)),
        heap_items(*old(h)).len() == 0 ==> r is None && heap_items(*final(h)) == heap_items(
            *old(h),
        ),
        heap_items(*old(h)).len() > 0 ==> r is Some && heap_items(*old(h)).contains(r->0)
            && heap_items(*final(h)) == heap_items(*old(h)).remove(r->0) && forall|y: (u32, u64)|
            #[trigger] heap_items(*old(h)).contains(y) ==> key_le(r->0, y),
{
    h.pop()
}

/// Relies on `FibonacciHeap::size`: the number of items the heap holds.
#[verifier::external_body]
fn heap_size(h: &FibonacciHeap<(u32, u64)>) -> (r: usize)
    ensures
        r == heap_items(*h).len(),
{
    h.size()
}

/// The trail code of a leftover single element: above every `u32`.
pub const SINGLE: u64 = 0x1_0000_0000;

/// The key a node is kept under: its lead, and its trail or, for a leftover
/// single element, [`SINGLE`].
pub open spec fn key_of(n: Node<u32>) -> (u32, u64) {
    match n.trail {
        Some(t) => (n.lead, t as u64),
        None => (n.lead, SINGLE),
    }
}

/// The node a key stands for.
pub open spec fn node_of(k: (u32, u64)) -> Node<u32> {
    if k.1 < SINGLE {
        Node { lead: k.0, trail: Some(k.1 as u32) }
    } else {
        Node { lead: k.0, trail: None }
    }
}

/// The key of a node.
pub fn to_key(n: Node<u32>) -> (k: (u32, u64))
    ensures
        k == key_of(n),
        node_of(k) == n,
{
    match n.trail {
        Some(t) => (n.lead, t as u64),
        None => (n.lead, SINGLE),
    }
}

/// The node of a key.
pub fn from_key(k: (u32, u64)) -> (n: Node<u32>)
    ensures
        n == node_of(k),
{
    if k.1 < SINGLE {
        Node { lead: k.0, trail: Some(k.1 as u32) }
    } else {
        Node { lead: k.0, trail: None }
    }
}

/// The keys of the nodes of `pool`, in order.
pub open spec fn keys(pool: Seq<Node<u32>>) -> Seq<(u32, u64)> {
    pool.map_values(|m: Node<u32>| key_of(m))
}

/// Takes the item with the smallest key out of a heap that holds the keys of
/// `pool`; hands back its node and the node's position in `pool`.
fn take_min(heap: &mut FibonacciHeap<(u32, u64)>, Ghost(pool): Ghost<Seq<Node<u32>>>) -> (r: (
    Node<u32>,
    Ghost<int>,
))
    requires
        heap_items(*old(heap)) == keys(pool).to_multiset(),
        heap_is_min(*old(heap)),
        pool.len() > 0,
    ensures
        heap_is_min(*final(heap)),
        0 <= r.1@ < pool.len(),
        r.0 == pool[r.1@],
        heap_items(*final(heap)) == keys(pool.remove(r.1@)).to_multiset(),
        forall|j: int| 0 <= j < pool.len() ==> le(r.0.lead, (#[trigger] pool[j]).lead),
{
    proof {
        vstd::seq_lib::to_multiset_len(keys(pool));
    }
    let key = pop_key(heap).unwrap();
    let node = from_key(key);
    let ghost ks = keys(pool);
    proof {
        vstd::seq_lib::to_multiset_contains(ks, key);
        assert(ks.contains(key));
    }
    let ghost i = choose|i: int| 0 <= i < ks.len() && ks[i] == key;
    proof {
        assert(key_of(pool[i]) == key);
        assert(node_of(key_of(pool[i])) == pool[i]);
        assert(keys(pool.remove(i)) =~= ks.remove(i));
        vstd::seq_lib::to_multiset_remove(ks, i);
        assert forall|j: int| 0 <= j < pool.len() implies le(node.lead, (#[trigger] pool[j]).lead) by {
            assert(ks[j] == key_of(pool[j]));
            vstd::seq_lib::to_multiset_contains(ks, ks[j]);
            assert(ks.contains(ks[j]));
            assert(ks.to_multiset().contains(ks[j]));
            assert(heap_items(*old(heap)).contains(ks[j]));
            assert(key_le(key, ks[j]));
            lemma_le_u32(node.lead, pool[j].lead);
        }
    }
    (node, Ghost(i))
}

/// A node taken out of a pool leaves the rest of the pool well formed and
/// above what was written out.
proof fn lemma_remove_keeps(pool: Seq<Node<u32>>, i: int, done: Seq<u32>)
    requires
        0 <= i < pool.len(),
        wf_from(pool, 0),
        done_below(done, pool, 0),
    ensures
        wf_from(pool.remove(i), 0),
        done_below(done, pool.remove(i), 0),
        values(pool) == values(pool.remove(i)).add(pool[i].values()),
{
    let rest = pool.remove(i);
    assert forall|j: int| 0 <= j < rest.len() implies (#[trigger] rest[j]).wf() && forall|p: int|
        0 <= p < done.len() ==> le(#[trigger] done[p], rest[j].lead) by {
        if j < i {
            assert(rest[j] == pool[j]);
        } else {
            assert(rest[j] == pool[j + 1]);
        }
    }
    lemma_values_node_len(pool, i);
}

/// Sorts `list` in place by node pairing, with the waiting nodes kept in a
/// Fibonacci min-heap under their keys.
///
/// The two nodes with the smallest leads are taken out; the first exchanges
/// its trail with the lead of the second when the two are out of order,
/// after which its values are final and are written out, and the second goes
/// back into the heap. The last node left is written out as it is.
///
/// An empty `list` is refused and left as it is.
pub fn tuple_sort(list: &mut Vec<u32>) -> (r: Result<(), EmptyInputError>)
    ensures
        r is Err <==> old(list)@.len() == 0,
        r is Err ==> final(list)@ == old(list)@,
        final(list)@.len() == old(list)@.len(),
        final(list)@.to_multiset() == old(list)@.to_multiset(),
        sorted(final(list)@),
{
    proof {
        lemma_total_order_u32();
        lemma_obeys::<u32>();
    }
    let n = list.len();
    if n == 0 {
        return Err(EmptyInputError);
    }
    if n == 1 {
        return Ok(());
    }
    if n == 2 {
        sort_pair(list);
        return Ok(());
    }
    let ghost input = list@;
    let nodes = make_nodes(list);
    let mut heap = new_heap();
    let mut k: usize = 0;
    proof {
        assert(keys(nodes@.take(0)) =~= Seq::<(u32, u64)>::empty());
        vstd::seq_lib::to_multiset_len(keys(nodes@.take(0)));
        assert(keys(nodes@.take(0)).to_multiset() =~= Multiset::<(u32, u64)>::empty());
    }
    while k < nodes.len()
        invariant
            k <= nodes@.len() < n,
            heap_items(heap) == keys(nodes@.take(k as int)).to_multiset(),
            heap_is_min(heap),
        decreases nodes@.len() - k,
    {
        let key = to_key(nodes[k]);
        proof {
            vstd::seq_lib::to_multiset_len(keys(nodes@.take(k as int)));
        }
        push_key(&mut heap, key);
        proof {
            assert(keys(nodes@.take(k + 1)) =~= keys(nodes@.take(k as int)).push(key));
            vstd::seq_lib::to_multiset_build(keys(nodes@.take(k as int)), key);
        }
        k = k + 1;
    }
    let ghost mut pool = nodes@;
    let mut index: usize = 0;
    proof {
        assert(nodes@.take(k as int) =~= nodes@);
        assert(list@.take(0) =~= Seq::<u32>::empty());
        vstd::seq_lib::to_multiset_len(list@.take(0));
        assert(list@.take(0).to_multiset() =~= Multiset::<u32>::empty());
        assert(list@.take(0).to_multiset().add(values(pool)) =~= input.to_multiset());
        vstd::seq_lib::to_multiset_len(keys(pool));
    }
    while heap_size(&heap) > 1
        invariant
            list@.len() == n == input.len(),
            index <= n,
            pool.len() > 0,
            heap_items(heap) == keys(pool).to_multiset(),
            heap_is_min(heap),
            list@.take(index as int).to_multiset().add(values(pool)) == input.to_multiset(),
            sorted(list@.take(index as int)),
            wf_from(pool, 0),
            done_below(list@.take(index as int), pool, 0),
        decreases pool.len(),
    {
        proof {
            vstd::seq_lib::to_multiset_len(keys(pool));
        }
        let ghost pool0 = pool;
        let (mut left, Ghost(i0)) = take_min(&mut heap, Ghost(pool0));
        let ghost pool1 = pool0.remove(i0);
        let (mut right, Ghost(i1)) = take_min(&mut heap, Ghost(pool1));
        let ghost pool2 = pool1.remove(i1);
        let ghost l0 = left;
        let ghost r0 = right;
        let ghost pre = list@;
        let ghost index0 = index as int;
        let ghost done0 = pre.take(index0);
        proof {
            lemma_total_order_u32();
            lemma_remove_keeps(pool0, i0, done0);
            lemma_remove_keeps(pool1, i1, done0);
        }
        exchange(&mut left, &mut right);
        proof {
            crate::node::lemma_values_len(l0);
            crate::node::lemma_values_len(left);
            vstd::seq_lib::to_multiset_len(done0);
            vstd::seq_lib::to_multiset_len(input);
        }
        left.change_vector(list, index);
        let step: usize = if left.none_present() { 1 } else { 2 };
        index = index + step;
        let key = to_key(right);
        proof {
            vstd::seq_lib::to_multiset_len(keys(pool2));
        }
        push_key(&mut heap, key);
        proof {
            pool = pool2.push(right);
            assert(keys(pool) =~= keys(pool2).push(key));
            vstd::seq_lib::to_multiset_build(keys(pool2), key);
            assert(pool.drop_last() =~= pool2);
            lemma_write_node(pre, list@, index0, left);
            let done_ms = list@.take(index as int).to_multiset();
            assert forall|v: u32| #[trigger] done_ms.add(values(pool)).count(v)
                == input.to_multiset().count(v) by {
                assert(values(pool).count(v) == values(pool2).add(right.values()).count(v));
                assert(values(pool0).count(v) == values(pool1).add(l0.values()).count(v));
                assert(values(pool1).count(v) == values(pool2).add(r0.values()).count(v));
                assert(left.values().add(right.values()).count(v) == l0.values().add(
                    r0.values(),
                ).count(v));
                assert(done0.to_multiset().add(values(pool0)).count(v) == input.to_multiset().count(
                    v,
                ));
                assert(done_ms.count(v) == done0.to_multiset().add(left.values()).count(v));
            }
            assert(done_ms.add(values(pool)) =~= input.to_multiset());
            assert(l0.wf() && r0.wf());
            assert(r0 == pool1[i1]);
            if i1 < i0 {
                assert(pool1[i1] == pool0[i1]);
            } else {
                assert(pool1[i1] == pool0[i1 + 1]);
            }
            lemma_exchange_orders(l0, r0);
            lemma_lead_le_last(left);
            assert forall|p: int| 0 <= p < done0.len() implies le(#[trigger] done0[p], left.lead) by {
                assert(le(done0[p], pool0[i0].lead));
            }
            lemma_sorted_append(done0, left);
            assert forall|p: int| 0 <= p < done0.len() implies le(#[trigger] done0[p], r0.lead) by {
                assert(le(done0[p], pool1[i1].lead));
            }
            assert forall|j: int| 0 <= j < pool2.len() implies le(r0.lead, (#[trigger] pool2[j]).lead) by {
                if j < i1 {
                    assert(pool2[j] == pool1[j]);
                } else {
                    assert(pool2[j] == pool1[j + 1]);
                }
            }
            lemma_commit_keeps(done0, left, r0, right, pool2);
            assert(list@.take(index as int) == done0 + left.seq());
            assert(wf_from(pool, 0));
        }
    }
    proof {
        vstd::seq_lib::to_multiset_len(keys(pool));
    }
    let ghost pool0 = pool;
    let (last, Ghost(i0)) = take_min(&mut heap, Ghost(pool0));
    proof {
        assert(keys(pool0).len() == 1);
        assert(pool0 =~= seq![last]);
        lemma_values_one(last);
        crate::node::lemma_values_len(last);
        vstd::seq_lib::to_multiset_len(list@.take(index as int));
        vstd::seq_lib::to_multiset_len(input);
    }
    let ghost pre = list@;
    last.change_vector(list, index);
    proof {
        lemma_write_node(pre, list@, index as int, last);
        assert(list@.take(n as int) =~= list@);
        let done0 = pre.take(index as int);
        assert forall|p: int| 0 <= p < done0.len() implies le(#[trigger] done0[p], last.lead) by {
            assert(pool0[0] == last);
        }
        lemma_sorted_append(done0, last);
    }
    Ok(())
}

} // verus!
