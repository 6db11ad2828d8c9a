//! Pools: the nodes not yet written out, and the values they hold.

use vstd::prelude::*;
use vstd::multiset::Multiset;
use crate::node::Node;
use crate::order::le;

verus! {

/// All values held by the nodes of `s`.
pub open spec fn values<T: Ord>(s: Seq<Node<T>>) -> Multiset<T>
    decreases s.len(),
{
    if s.len() == 0 {
        Multiset::empty()
    } else {
        values(s.drop_last()).add(s.last().values())
    }
}

/// Each element of `t` from position `lo` on is an element of `s` from
/// position `lo` on.
pub open spec fn drawn_from<A>(t: Seq<A>, s: Seq<A>, lo: int) -> bool {
    forall|j: int| lo <= j < t.len() ==> s.subrange(lo, s.len() as int).contains(#[trigger] t[j])
}

/// Every sequence is drawn from itself.
pub proof fn lemma_drawn_from_self<A>(s: Seq<A>)
    ensures
        drawn_from(s, s, 0),
{
    assert forall|j: int| 0 <= j < s.len() implies s.subrange(0, s.len() as int).contains(
        #[trigger] s[j],
    ) by {
        assert(s.subrange(0, s.len() as int)[j] == s[j]);
    }
}

/// Drawing from a sequence drawn from `u` draws from `u`.
pub proof fn lemma_drawn_from_trans<A>(t: Seq<A>, s: Seq<A>, u: Seq<A>)
    requires
        drawn_from(t, s, 0),
        drawn_from(s, u, 0),
    ensures
        drawn_from(t, u, 0),
{
    assert forall|j: int| 0 <= j < t.len() implies u.subrange(0, u.len() as int).contains(
        #[trigger] t[j],
    ) by {
        let ss = s.subrange(0, s.len() as int);
        assert(ss.contains(t[j]));
        let k = choose|k: int| 0 <= k < ss.len() && ss[k] == t[j];
        assert(s[k] == t[j]);
        assert(u.subrange(0, u.len() as int).contains(s[k]));
    }
}

/// A sequence that keeps the first `lo` elements and draws the rest from
/// the rest of `s` draws from `s`.
pub proof fn lemma_drawn_from_widen<A>(t: Seq<A>, s: Seq<A>, lo: int)
    requires
        0 <= lo <= s.len(),
        drawn_from(t, s, lo),
        forall|j: int| 0 <= j < lo ==> t[j] == s[j],
    ensures
        drawn_from(t, s, 0),
{
    let whole = s.subrange(0, s.len() as int);
    let tail = s.subrange(lo, s.len() as int);
    assert forall|j: int| 0 <= j < t.len() implies whole.contains(#[trigger] t[j]) by {
        if j < lo {
            assert(whole[j] == t[j]);
        } else {
            assert(tail.contains(t[j]));
            let k = choose|k: int| 0 <= k < tail.len() && tail[k] == t[j];
            assert(whole[lo + k] == t[j]);
        }
    }
}

/// Nodes `lo..` of `s` are well formed.
pub open spec fn wf_from<T: Ord>(s: Seq<Node<T>>, lo: int) -> bool {
    forall|j: int| lo <= j < s.len() ==> (#[trigger] s[j]).wf()
}

/// Nodes `lo..` of `s` come in order of their leads.
pub open spec fn leads_sorted_from<T: Ord>(s: Seq<Node<T>>, lo: int) -> bool {
    forall|i: int, j: int|
        lo <= i < j < s.len() ==> le((#[trigger] s[i]).lead, (#[trigger] s[j]).lead)
}

/// Every value of `done` stands before the lead of every node `lo..` of `s`.
pub open spec fn done_below<T: Ord>(done: Seq<T>, s: Seq<Node<T>>, lo: int) -> bool {
    forall|p: int, j: int|
        0 <= p < done.len() && lo <= j < s.len() ==> le(#[trigger] done[p], (#[trigger] s[j]).lead)
}

/// What holds of every node `lo..` of `s` holds of every node `lo..` of a
/// sequence drawn from it.
pub proof fn lemma_drawn_from_keeps<T: Ord>(t: Seq<Node<T>>, s: Seq<Node<T>>, lo: int, done: Seq<T>)
    requires
        0 <= lo <= s.len(),
        drawn_from(t, s, lo),
        wf_from(s, lo),
        done_below(done, s, lo),
    ensures
        wf_from(t, lo),
        done_below(done, t, lo),
{
    let sub = s.subrange(lo, s.len() as int);
    assert forall|j: int| lo <= j < t.len() implies (#[trigger] t[j]).wf() && forall|p: int|
        0 <= p < done.len() ==> le(#[trigger] done[p], t[j].lead) by {
        assert(sub.contains(t[j]));
        let k = choose|k: int| 0 <= k < sub.len() && sub[k] == t[j];
        assert(s[lo + k] == t[j]);
    }
}

/// The values of a pool of one node are that node's.
pub proof fn lemma_values_one<T: Ord>(n: Node<T>)
    ensures
        values(seq![n]) == n.values(),
{
    assert(seq![n].drop_last() =~= Seq::<Node<T>>::empty());
    assert(values(Seq::<Node<T>>::empty()) == Multiset::<T>::empty());
    assert(values(seq![n]) =~= n.values());
}

/// The values of two pools laid end to end are the values of each.
pub proof fn lemma_values_concat<T: Ord>(a: Seq<Node<T>>, b: Seq<Node<T>>)
    ensures
        values(a + b) == values(a).add(values(b)),
    decreases b.len(),
{
    if b.len() == 0 {
        assert(a + b =~= a);
        assert(values(a).add(values(b)) =~= values(a));
    } else {
        assert((a + b).drop_last() =~= a + b.drop_last());
        assert((a + b).last() == b.last());
        lemma_values_concat(a, b.drop_last());
        assert(values(a + b) =~= values(a).add(values(b)));
    }
}

/// The values of a pool are those of the nodes before `i`, of node `i`, and
/// of the nodes after it.
pub proof fn lemma_values_split<T: Ord>(s: Seq<Node<T>>, i: int)
    requires
        0 <= i < s.len(),
    ensures
        values(s) == values(s.take(i)).add(s[i].values()).add(values(s.skip(i + 1))),
{
    assert(s =~= s.take(i) + seq![s[i]] + s.skip(i + 1));
    lemma_values_concat(s.take(i) + seq![s[i]], s.skip(i + 1));
    lemma_values_concat(s.take(i), seq![s[i]]);
    lemma_values_one(s[i]);
}

/// A node of a pool holds no more values than the pool.
pub proof fn lemma_values_node_len<T: Ord>(s: Seq<Node<T>>, i: int)
    requires
        0 <= i < s.len(),
    ensures
        s[i].size() <= values(s).len(),
        values(s) == values(s.remove(i)).add(s[i].values()),
{
    lemma_values_split(s, i);
    assert(s.remove(i) =~= s.take(i) + s.skip(i + 1));
    lemma_values_concat(s.take(i), s.skip(i + 1));
    assert(values(s) =~= values(s.remove(i)).add(s[i].values()));
}

/// The first node of a pool and the rest.
pub proof fn lemma_values_first<T: Ord>(s: Seq<Node<T>>)
    requires
        s.len() > 0,
    ensures
        values(s) == s[0].values().add(values(s.drop_first())),
{
    lemma_values_node_len(s, 0);
    assert(s.remove(0) =~= s.drop_first());
    assert(values(s) =~= s[0].values().add(values(s.drop_first())));
}

/// Replacing node `i` by `n` trades its values for those of `n`.
pub proof fn lemma_values_update<T: Ord>(s: Seq<Node<T>>, i: int, n: Node<T>)
    requires
        0 <= i < s.len(),
    ensures
        values(s.update(i, n)).add(s[i].values()) == values(s).add(n.values()),
{
    let t = s.update(i, n);
    lemma_values_split(s, i);
    lemma_values_split(t, i);
    assert(t.take(i) =~= s.take(i));
    assert(t.skip(i + 1) =~= s.skip(i + 1));
    assert(values(t).add(s[i].values()) =~= values(s).add(n.values()));
}

/// Swapping two nodes keeps the values of the pool.
pub proof fn lemma_values_swap<T: Ord>(s: Seq<Node<T>>, i: int, j: int)
    requires
        0 <= i < s.len(),
        0 <= j < s.len(),
    ensures
        values(s.update(i, s[j]).update(j, s[i])) == values(s),
{
    let t = s.update(i, s[j]);
    lemma_values_update(s, i, s[j]);
    lemma_values_update(t, j, s[i]);
    assert(t[j] == s[j]);
    let u = t.update(j, s[i]);
    assert(values(u).add(s[j].values()) == values(s).add(s[j].values()));
    assert forall|v: T| values(u).count(v) == values(s).count(v) by {
        assert(values(u).add(s[j].values()).count(v) == values(s).add(s[j].values()).count(v));
    }
    assert(values(u) =~= values(s));
}

} // verus!
