//! Nodes: one or two elements kept in order by a single comparison.

use vstd::prelude::*;
use vstd::multiset::Multiset;
use vstd::std_specs::cmp::OrdSpec;
use core::cmp::Ordering;
use crate::order::{gt, le, total_order, lemma_le_total};

verus! {

/// One working unit of the sort: a leading value and, except for the single
/// leftover element of an odd-length input, a trailing one.
#[derive(Clone, Copy, Debug)]
pub struct Node<T> {
    pub lead: T,
    pub trail: Option<T>,
}

impl<T: Ord> Node<T> {
    /// The values the node holds, lead first.
    pub open spec fn seq(self) -> Seq<T> {
        match self.trail {
            Some(t) => seq![self.lead, t],
            None => seq![self.lead],
        }
    }

    /// The values the node holds, as a multiset.
    pub open spec fn values(self) -> Multiset<T> {
        match self.trail {
            Some(t) => Multiset::singleton(self.lead).insert(t),
            None => Multiset::singleton(self.lead),
        }
    }

    pub open spec fn size(self) -> nat {
        if self.trail is Some { 2 } else { 1 }
    }

    /// The value that faces the next node: the trail, or the lead of a
    /// leftover node.
    pub open spec fn last(self) -> T {
        match self.trail {
            Some(t) => t,
            None => self.lead,
        }
    }

    /// The lead stands before the trail.
    pub open spec fn wf(self) -> bool {
        match self.trail {
            Some(t) => le(self.lead, t),
            None => true,
        }
    }

    /// The node with its two values in order.
    pub open spec fn ordered(self) -> Node<T> {
        match self.trail {
            Some(t) => if gt(self.lead, t) {
                Node { lead: t, trail: Some(self.lead) }
            } else {
                self
            },
            None => self,
        }
    }

    /// The node with its facing value replaced by `v`.
    pub open spec fn with_last(self, v: T) -> Node<T> {
        match self.trail {
            Some(_) => Node { lead: self.lead, trail: Some(v) },
            None => Node { lead: v, trail: None },
        }
    }

    /// Whether an exchange between `self` and the next node `next` swaps
    /// values: the facing value comes after the next lead.
    pub open spec fn swaps_with(self, next: Node<T>) -> bool {
        gt(self.last(), next.lead)
    }

    /// `self` after an exchange with the next node `next`.
    pub open spec fn exchanged_left(self, next: Node<T>) -> Node<T> {
        if self.swaps_with(next) {
            self.with_last(next.lead).ordered()
        } else {
            self
        }
    }

    /// `next` after an exchange with the node `self` before it.
    pub open spec fn exchanged_right(self, next: Node<T>) -> Node<T> {
        if self.swaps_with(next) {
            Node { lead: self.last(), trail: next.trail }.ordered()
        } else {
            next
        }
    }
}

/// Puts the smaller of two values on the left; says whether it swapped them.
pub fn switch<T: Ord>(left: &mut T, right: &mut T) -> (swapped: bool)
    ensures
        T::obeys_cmp_spec() ==> swapped == gt(*old(left), *old(right)),
        swapped ==> *final(left) == *old(right) && *final(right) == *old(left),
        !swapped ==> *final(left) == *old(left) && *final(right) == *old(right),
{
    let greater = match (*left).cmp(&*right) {
        Ordering::Greater => true,
        _ => false,
    };
    if greater {
        core::mem::swap(left, right);
    }
    greater
}

impl<T: Ord + Copy> Node<T> {
    /// Builds a node from its values.
    pub fn new(lead: T, trail: Option<T>) -> (n: Node<T>)
        ensures
            n.lead == lead,
            n.trail == trail,
    {
        Node { lead, trail }
    }

    /// Puts the node's two values in order.
    pub fn order(&mut self)
        ensures
            T::obeys_cmp_spec() ==> *final(self) == old(self).ordered(),
            final(self).values() == old(self).values(),
            final(self).trail is Some == old(self).trail is Some,
    {
        match self.trail {
            Some(t) => {
                let mut lead = self.lead;
                let mut trail = t;
                switch(&mut lead, &mut trail);
                self.lead = lead;
                self.trail = Some(trail);
                proof {
                    assert(Multiset::singleton(lead).insert(trail) =~= Multiset::singleton(
                        trail,
                    ).insert(lead));
                }
            },
            None => {},
        }
    }

    /// The node is a leftover single element.
    pub fn none_present(&self) -> (r: bool)
        ensures
            r == (self.trail is None),
    {
        self.trail.is_none()
    }

    /// Writes the node's values into `array` from position `index` on.
    pub fn change_vector(&self, array: &mut Vec<T>, index: usize)
        requires
            index + self.size() <= old(array)@.len(),
        ensures
            final(array)@ == old(array)@.subrange(0, index as int) + self.seq()
                + old(array)@.subrange(index + self.size(), old(array)@.len() as int),
    {
        array.set(index, self.lead);
        match self.trail {
            Some(t) => {
                assert(self.size() == 2 && index + 1 < array.len());
                array.set(index + 1, t);
            },
            None => {},
        }
        proof {
            assert(final(array)@ =~= old(array)@.subrange(0, index as int) + self.seq()
                + old(array)@.subrange(index + self.size(), old(array)@.len() as int));
        }
    }

    /// The node's values, lead first.
    pub fn slices(&self) -> (v: Vec<T>)
        ensures
            v@ == self.seq(),
    {
        let mut v: Vec<T> = Vec::new();
        v.push(self.lead);
        match self.trail {
            Some(t) => v.push(t),
            None => {},
        }
        proof {
            assert(v@ =~= self.seq());
        }
        v
    }
}

/// Exchanges the facing value of `left` with the lead of the next node
/// `right` when they are out of order, and puts both nodes back in order.
/// Says whether values were swapped.
pub fn exchange<T: Ord + Copy>(left: &mut Node<T>, right: &mut Node<T>) -> (swapped: bool)
    ensures
        T::obeys_cmp_spec() ==> swapped == old(left).swaps_with(*old(right)),
        T::obeys_cmp_spec() ==> *final(left) == old(left).exchanged_left(*old(right)),
        T::obeys_cmp_spec() ==> *final(right) == old(left).exchanged_right(*old(right)),
        final(left).values().add(final(right).values()) == old(left).values().add(
            old(right).values(),
        ),
        final(left).trail is Some == old(left).trail is Some,
        final(right).trail is Some == old(right).trail is Some,
{
    let mut facing = match left.trail {
        Some(t) => t,
        None => left.lead,
    };
    let mut next_lead = right.lead;
    let swapped = switch(&mut facing, &mut next_lead);
    if swapped {
        match left.trail {
            Some(_) => left.trail = Some(facing),
            None => left.lead = facing,
        }
        right.lead = next_lead;
        left.order();
        right.order();
    }
    proof {
        assert(final(left).values().add(final(right).values()) =~= old(left).values().add(
            old(right).values(),
        ));
    }
    swapped
}

/// An ordered node is well formed.
pub proof fn lemma_ordered_wf<T: Ord>(n: Node<T>)
    requires
        total_order::<T>(),
    ensures
        n.ordered().wf(),
        n.ordered().values() == n.values(),
        n.ordered().trail is Some == n.trail is Some,
{
    if let Some(t) = n.trail {
        lemma_le_total(n.lead, t);
        assert(Multiset::singleton(t).insert(n.lead) =~= Multiset::singleton(n.lead).insert(t));
    }
}

/// A node holds as many values as its size.
pub proof fn lemma_values_len<T: Ord>(n: Node<T>)
    ensures
        n.values().len() == n.size(),
{
}

/// The lead of a well formed node stands before its facing value.
pub proof fn lemma_lead_le_last<T: Ord>(n: Node<T>)
    requires
        total_order::<T>(),
        n.wf(),
    ensures
        le(n.lead, n.last()),
{
    if n.trail is None {
        crate::order::lemma_le_refl(n.lead);
    }
}

/// After an exchange between two well formed nodes taken in order of their
/// leads, both are well formed, the left one keeps its lead, and every value
/// of the left one stands before the right one's old and new lead, which has
/// not moved down.
pub proof fn lemma_exchange_orders<T: Ord>(l: Node<T>, r: Node<T>)
    requires
        total_order::<T>(),
        l.wf(),
        r.wf(),
        le(l.lead, r.lead),
    ensures
        l.exchanged_left(r).wf(),
        l.exchanged_right(r).wf(),
        l.exchanged_left(r).lead == l.lead,
        l.exchanged_left(r).trail is Some == l.trail is Some,
        l.exchanged_right(r).trail is Some == r.trail is Some,
        le(l.exchanged_left(r).last(), r.lead),
        le(l.exchanged_left(r).last(), l.exchanged_right(r).lead),
        le(r.lead, l.exchanged_right(r).lead),
        l.exchanged_left(r).values().add(l.exchanged_right(r).values()) == l.values().add(
            r.values(),
        ),
{
    let l2 = l.exchanged_left(r);
    let r2 = l.exchanged_right(r);
    if l.swaps_with(r) {
        match l.trail {
            Some(t) => {
                assert(l.with_last(r.lead).ordered() == l.with_last(r.lead));
                crate::order::lemma_le_refl(r.lead);
                lemma_le_total(t, r.lead);
                let m = Node { lead: t, trail: r.trail };
                lemma_ordered_wf(m);
                match r.trail {
                    Some(d) => {
                        lemma_le_total(t, d);
                    },
                    None => {},
                }
                assert(l2.values().add(r2.values()) =~= l.values().add(r.values()));
            },
            None => {
                lemma_le_total(l.lead, r.lead);
            },
        }
    } else {
        crate::order::lemma_le_refl(r.lead);
        lemma_le_total(l.last(), r.lead);
    }
}

/// A node's values, read off in order, are its values.
pub proof fn lemma_seq_values<T: Ord>(n: Node<T>)
    ensures
        n.seq().to_multiset() == n.values(),
        n.seq().len() == n.size(),
{
    broadcast use vstd::seq_lib::group_to_multiset_ensures;

    assert(seq![n.lead] =~= Seq::<T>::empty().push(n.lead));
    assert(Seq::<T>::empty().to_multiset() =~= Multiset::<T>::empty());
    match n.trail {
        Some(t) => {
            assert(n.seq() =~= seq![n.lead].push(t));
            assert(n.seq().to_multiset() =~= n.values());
        },
        None => {
            assert(n.seq().to_multiset() =~= n.values());
        },
    }
}

} // verus!
