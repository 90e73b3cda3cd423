//! Bins: capacity-bounded containers of item weights.

use vstd::prelude::*;

use crate::weights::{lemma_weight_sum_nonneg, lemma_weight_sum_push, weight_sum};

verus! {

/// A capacity-bounded container of item weights.
///
/// `capacity` is the residual capacity: the capacity the bin was created
/// with, minus the sum of the items currently assigned to it.
#[derive(Clone, Debug, Default, PartialEq, Eq)]
pub struct Bin {
    pub capacity: u32,
    pub items: Vec<u32>,
}

/// Mathematical model of a bin: residual capacity and assigned items, in
/// the order they were assigned.
#[verifier::ext_equal]
pub ghost struct BinModel {
    pub cap: int,
    pub items: Seq<u32>,
}

impl View for Bin {
    type V = BinModel;

    open spec fn view(&self) -> BinModel {
        BinModel { cap: self.capacity as int, items: self.items@ }
    }
}

impl Bin {
    /// The capacity the bin was created with: the residual capacity plus
    /// the weight already assigned.
    pub open spec fn original_capacity(self) -> int {
        bin_original_capacity(self@)
    }

    /// Well-formed: the original capacity fits in the weight domain, so
    /// popping an item can restore the residual capacity without overflow.
    pub open spec fn wf(self) -> bool {
        bin_wf(self@)
    }

    pub fn new(capacity: u32) -> (r: Self)
        ensures
            r@.cap == capacity,
            r@.items == Seq::<u32>::empty(),
            r.wf(),
            r.original_capacity() == capacity,
    {
        Self { capacity, items: Vec::new() }
    }

    /// Whether the item still fits: the residual capacity is at least its
    /// weight.
    pub fn fits(&self, item: &u32) -> (r: bool)
        ensures
            r == (self@.cap >= *item),
    {
        &self.capacity >= item
    }

    /// Assigns the item to this bin. The caller must check `fits` first:
    /// pushing an item that does not fit is a contract violation, not a
    /// recoverable condition.
    pub fn push(&mut self, item: u32)
        requires
            old(self)@.cap >= item,
        ensures
            final(self)@.cap == old(self)@.cap - item,
            final(self)@.items == old(self)@.items.push(item),
            final(self).original_capacity() == old(self).original_capacity(),
            old(self).wf() ==> final(self).wf(),
    {
        proof {
            lemma_weight_sum_push(self@.items, item);
        }
        self.capacity -= item;
        self.items.push(item);
    }

    /// Removes and returns the most recently assigned item, restoring the
    /// residual capacity; `None` if the bin is empty. The exact inverse of
    /// the most recent `push`.
    pub fn pop(&mut self) -> (r: Option<u32>)
        requires
            old(self).wf(),
        ensures
            old(self)@.items.len() == 0 ==> r == None::<u32> && final(self)@ == old(self)@,
            old(self)@.items.len() > 0 ==> r == Some(old(self)@.items.last())
                && final(self)@.items == old(self)@.items.drop_last()
                && final(self)@.cap == old(self)@.cap + old(self)@.items.last(),
            final(self).original_capacity() == old(self).original_capacity(),
            final(self).wf(),
    {
        proof {
            if self@.items.len() > 0 {
                lemma_weight_sum_nonneg(self@.items.drop_last());
            }
        }
        match self.items.pop() {
            None => None,
            Some(item) => {
                self.capacity += item;
                Some(item)
            },
        }
    }

    pub fn is_empty(&self) -> (r: bool)
        ensures
            r == (self@.items.len() == 0),
    {
        self.items.is_empty()
    }

    /// Read-only view of the assigned items, in assignment order.
    pub fn items(&self) -> (r: &Vec<u32>)
        ensures
            r@ == self@.items,
    {
        &self.items
    }
}

/// The capacity a modelled bin was created with.
pub open spec fn bin_original_capacity(b: BinModel) -> int {
    b.cap + weight_sum(b.items)
}

/// Well-formedness of a modelled bin: the residual capacity is not
/// negative, and the original capacity fits in the weight domain.
pub open spec fn bin_wf(b: BinModel) -> bool {
    &&& 0 <= b.cap
    &&& bin_original_capacity(b) <= u32::MAX
}

/// The weight assigned to a bin never exceeds the capacity it was created
/// with: the residual capacity is non-negative by construction.
pub proof fn lemma_bin_capacity(b: Bin)
    ensures
        weight_sum(b@.items) <= b.original_capacity(),
{
}

} // verus!
