//! Valid packings in the abstract: what any assignment of items to
//! capacity-bounded bins must satisfy, independent of how the search
//! finds one.

use vstd::multiset::Multiset;
use vstd::prelude::*;

use crate::weights::{lemma_weight_sum_concat, lemma_weight_sum_multiset, weight_sum};

verus! {

/// The multiset of items across an assignment's bins.
pub open spec fn contents_items(contents: Seq<Seq<u32>>) -> Multiset<u32>
    decreases contents.len(),
{
    if contents.len() == 0 {
        Multiset::empty()
    } else {
        contents_items(contents.drop_last()).add(contents.last().to_multiset())
    }
}

/// The total weight across an assignment's bins.
pub open spec fn contents_weight(contents: Seq<Seq<u32>>) -> int
    decreases contents.len(),
{
    if contents.len() == 0 {
        0
    } else {
        contents_weight(contents.drop_last()) + weight_sum(contents.last())
    }
}

/// All of an assignment's bins, laid out one after another.
pub open spec fn contents_flat(contents: Seq<Seq<u32>>) -> Seq<u32>
    decreases contents.len(),
{
    if contents.len() == 0 {
        Seq::empty()
    } else {
        contents_flat(contents.drop_last()) + contents.last()
    }
}

/// A valid packing of the given items: one item sequence per bin, no
/// bin loaded beyond its capacity, and the bins together holding
/// exactly the items.
pub open spec fn valid_packing(contents: Seq<Seq<u32>>, caps: Seq<u32>, items: Seq<u32>) -> bool {
    &&& contents.len() == caps.len()
    &&& forall|j: int| 0 <= j < contents.len() ==> weight_sum(#[trigger] contents[j]) <= caps[j]
    &&& contents_items(contents) == items.to_multiset()
}

proof fn lemma_contents_update(contents: Seq<Seq<u32>>, j: int, x: Seq<u32>)
    requires
        0 <= j < contents.len(),
    ensures
        contents_items(contents.update(j, x)).add(contents[j].to_multiset()) == contents_items(
            contents,
        ).add(x.to_multiset()),
    decreases contents.len(),
{
    broadcast use vstd::multiset::group_multiset_axioms;

    if j == contents.len() - 1 {
        assert(contents.update(j, x).drop_last() =~= contents.drop_last());
        assert(contents.update(j, x).last() == x);
        let lhs = contents_items(contents.update(j, x)).add(contents[j].to_multiset());
        let rhs = contents_items(contents).add(x.to_multiset());
        assert forall|v: u32| lhs.count(v) == rhs.count(v) by {
            assert(lhs.count(v) == contents_items(contents.drop_last()).count(v)
                + x.to_multiset().count(v) + contents[j].to_multiset().count(v));
            assert(rhs.count(v) == contents_items(contents.drop_last()).count(v)
                + contents.last().to_multiset().count(v) + x.to_multiset().count(v));
        }
        assert(lhs =~= rhs);
    } else {
        assert(contents.update(j, x).drop_last() =~= contents.drop_last().update(j, x));
        assert(contents.update(j, x).last() == contents.last());
        assert(contents.drop_last()[j] == contents[j]);
        lemma_contents_update(contents.drop_last(), j, x);
        let lhs = contents_items(contents.update(j, x)).add(contents[j].to_multiset());
        let rhs = contents_items(contents).add(x.to_multiset());
        assert forall|v: u32| lhs.count(v) == rhs.count(v) by {
            assert(contents_items(contents.drop_last().update(j, x)).add(
                contents.drop_last()[j].to_multiset(),
            ).count(v) == contents_items(contents.drop_last()).add(x.to_multiset()).count(v));
            assert(contents_items(contents.drop_last().update(j, x)).count(v)
                + contents[j].to_multiset().count(v) == contents_items(
                contents.drop_last(),
            ).count(v) + x.to_multiset().count(v));
            assert(lhs.count(v) == contents_items(contents.drop_last().update(j, x)).count(v)
                + contents.last().to_multiset().count(v) + contents[j].to_multiset().count(v));
            assert(rhs.count(v) == contents_items(contents.drop_last()).count(v)
                + contents.last().to_multiset().count(v) + x.to_multiset().count(v));
        }
        assert(lhs =~= rhs);
    }
}

/// Bins of equal capacity are interchangeable: swapping the full item
/// sequences of two equal-capacity bins in a valid packing yields
/// another valid packing of the same items. This is what justifies the
/// symmetry rule of the search, which tries only one bin per distinct
/// residual capacity at each decision point.
pub proof fn lemma_swap_equal_bins(
    contents: Seq<Seq<u32>>,
    caps: Seq<u32>,
    items: Seq<u32>,
    a: int,
    b: int,
)
    requires
        valid_packing(contents, caps, items),
        0 <= a < contents.len(),
        0 <= b < contents.len(),
        caps[a] == caps[b],
    ensures
        valid_packing(contents.update(a, contents[b]).update(b, contents[a]), caps, items),
{
    broadcast use vstd::multiset::group_multiset_axioms;

    let c1 = contents.update(a, contents[b]);
    let c2 = c1.update(b, contents[a]);
    if a == b {
        assert(c2 =~= contents);
    } else {
        lemma_contents_update(contents, a, contents[b]);
        lemma_contents_update(c1, b, contents[a]);
        assert(c1[b] == contents[b]);
        let lhs = contents_items(c2);
        let rhs = contents_items(contents);
        assert forall|v: u32| lhs.count(v) == rhs.count(v) by {
            assert(contents_items(c1).add(contents[a].to_multiset()).count(v) == contents_items(
                contents,
            ).add(contents[b].to_multiset()).count(v));
            assert(contents_items(c2).add(c1[b].to_multiset()).count(v) == contents_items(
                c1,
            ).add(contents[a].to_multiset()).count(v));
        }
        assert(lhs =~= rhs);
    }
}

proof fn lemma_contents_flat(contents: Seq<Seq<u32>>)
    ensures
        contents_flat(contents).to_multiset() == contents_items(contents),
        weight_sum(contents_flat(contents)) == contents_weight(contents),
    decreases contents.len(),
{
    broadcast use vstd::multiset::group_multiset_axioms, vstd::seq_lib::lemma_multiset_commutative,
        vstd::seq_lib::group_to_multiset_ensures, vstd::multiset::lemma_multiset_empty_len;

    if contents.len() == 0 {
        assert(contents_flat(contents).to_multiset().len() == 0);
        assert(contents_flat(contents).to_multiset() =~= Multiset::<u32>::empty());
    } else {
        lemma_contents_flat(contents.drop_last());
        lemma_weight_sum_concat(contents_flat(contents.drop_last()), contents.last());
        let lhs = contents_flat(contents).to_multiset();
        let rhs = contents_items(contents);
        assert forall|v: u32| lhs.count(v) == rhs.count(v) by {
            assert((contents_flat(contents.drop_last()) + contents.last()).to_multiset().count(v)
                == contents_flat(contents.drop_last()).to_multiset().add(
                contents.last().to_multiset(),
            ).count(v));
        }
        assert(lhs =~= rhs);
    }
}

proof fn lemma_contents_weight_bound(contents: Seq<Seq<u32>>, caps: Seq<u32>)
    requires
        contents.len() == caps.len(),
        forall|j: int| 0 <= j < contents.len() ==> weight_sum(#[trigger] contents[j]) <= caps[j],
    ensures
        contents_weight(contents) <= weight_sum(caps),
    decreases contents.len(),
{
    if contents.len() > 0 {
        assert forall|j: int| 0 <= j < contents.drop_last().len() implies weight_sum(
            #[trigger] contents.drop_last()[j],
        ) <= caps.drop_last()[j] by {
            assert(contents.drop_last()[j] == contents[j]);
            assert(caps.drop_last()[j] == caps[j]);
        }
        lemma_contents_weight_bound(contents.drop_last(), caps.drop_last());
        assert(weight_sum(contents.last()) <= caps.last());
    }
}

/// No packing can beat the aggregate capacity: whenever a valid packing
/// of the items exists, their total weight is at most the capacities'
/// total. Contrapositive: items outweighing the aggregate capacity are
/// unsolvable, which is what the driver's pre-check relies on.
pub proof fn lemma_packing_weight_bound(contents: Seq<Seq<u32>>, caps: Seq<u32>, items: Seq<u32>)
    requires
        valid_packing(contents, caps, items),
    ensures
        weight_sum(items) <= weight_sum(caps),
{
    lemma_contents_flat(contents);
    lemma_weight_sum_multiset(items, contents_flat(contents));
    lemma_contents_weight_bound(contents, caps);
}

} // verus!
