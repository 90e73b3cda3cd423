//! Mathematical model of the backtracking search.
//!
//! A search state is a pending-item sequence, a bin sequence, and a stack
//! of decision frames. `spec_step` is the one-step transition function of
//! the search; the engine's executable `step` is proved to implement it
//! exactly, which makes the search deterministic and resumable by
//! construction.

use vstd::arithmetic::power::pow;
use vstd::multiset::Multiset;
use vstd::prelude::*;

use crate::bins::{bin_original_capacity, bin_wf, BinModel};
use crate::weights::{
    lemma_lex_lt_trans, lemma_lex_push, lemma_lex_trichotomy, lemma_weight_sum_push, lex_lt,
    sorted_asc, weight_sum,
};

verus! {

broadcast use vstd::seq_lib::group_to_multiset_ensures, vstd::multiset::group_multiset_axioms;

/// What a decision frame is about to do: place the next pending item
/// (`Try`), or first un-place the item this frame placed (`Backtrack`).
#[derive(Clone, Copy, Debug, PartialEq, Eq)]
pub enum Action {
    Try,
    Backtrack,
}

/// One saved decision point of the search, replacing a recursive call.
///
/// `next` is the next bin index to try; `tried` is the set of residual
/// capacities already attempted at this decision point, so that a second
/// bin with an equal residual capacity is skipped (symmetry rule: such
/// bins are interchangeable).
#[verifier::ext_equal]
pub ghost struct Frame {
    pub tried: Set<int>,
    pub next: int,
    pub action: Action,
}

/// A frame that has tried nothing yet.
pub open spec fn frame_default() -> Frame {
    Frame { tried: Set::empty(), next: 0, action: Action::Try }
}

/// A full search state.
#[verifier::ext_equal]
pub ghost struct Model {
    pub items: Seq<u32>,
    pub bins: Seq<BinModel>,
    pub stack: Seq<Frame>,
}

/// 1 when the frame is a `Backtrack` frame that placed its item into bin
/// `j` (frames record the bin they used as `next - 1`), else 0.
pub open spec fn frame_places(f: Frame, j: int) -> int {
    if f.action == Action::Backtrack && f.next - 1 == j {
        1
    } else {
        0
    }
}

/// How many frames of the stack placed their item into bin `j`.
pub open spec fn placed_count(stack: Seq<Frame>, j: int) -> int
    decreases stack.len(),
{
    if stack.len() == 0 {
        0
    } else {
        placed_count(stack.drop_last(), j) + frame_places(stack.last(), j)
    }
}

/// The number of items currently assigned across all bins.
pub open spec fn bins_item_count(bins: Seq<BinModel>) -> int
    decreases bins.len(),
{
    if bins.len() == 0 {
        0
    } else {
        bins_item_count(bins.drop_last()) + bins.last().items.len()
    }
}

/// The multiset of items currently assigned across all bins.
pub open spec fn bins_items_ms(bins: Seq<BinModel>) -> Multiset<u32>
    decreases bins.len(),
{
    if bins.len() == 0 {
        Multiset::empty()
    } else {
        bins_items_ms(bins.drop_last()).add(bins.last().items.to_multiset())
    }
}

/// The total weight currently assigned across all bins.
pub open spec fn bins_weight(bins: Seq<BinModel>) -> int
    decreases bins.len(),
{
    if bins.len() == 0 {
        0
    } else {
        bins_weight(bins.drop_last()) + weight_sum(bins.last().items)
    }
}

/// Every item of the state, pending or assigned, as a multiset.
pub open spec fn all_items(m: Model) -> Multiset<u32> {
    m.items.to_multiset().add(bins_items_ms(m.bins))
}

/// The total weight of the state, pending plus assigned.
pub open spec fn total_weight(m: Model) -> int {
    weight_sum(m.items) + bins_weight(m.bins)
}

/// Whether the top of the stack is a fresh `Try` frame.
pub open spec fn top_is_try(stack: Seq<Frame>) -> bool {
    stack.len() > 0 && stack.last().action == Action::Try
}

/// The bin a `Backtrack` frame placed its item into.
pub open spec fn frame_bin(f: Frame) -> int {
    f.next - 1
}

/// The position in its bin of the item this frame placed: the frames at
/// or below it that used the same bin filled exactly its prefix.
pub open spec fn frame_pos(stack: Seq<Frame>, i: int) -> int {
    placed_count(stack.take(i + 1), frame_bin(stack[i])) - 1
}

/// The item a `Backtrack` frame placed.
pub open spec fn frame_item(m: Model, i: int) -> u32 {
    m.bins[frame_bin(m.stack[i])].items[frame_pos(m.stack, i)]
}

/// Placements happen in non-increasing weight order: a frame higher on
/// the stack placed an item no heavier than any frame below it placed.
pub open spec fn frames_ordered(m: Model) -> bool {
    forall|i1: int, i2: int|
        #![trigger frame_item(m, i1), frame_item(m, i2)]
        0 <= i1 <= i2 < m.stack.len() && m.stack[i1].action == Action::Backtrack
            && m.stack[i2].action == Action::Backtrack ==> frame_item(m, i2) <= frame_item(m, i1)
}

/// Every assigned item outweighs every pending item: the search assigns
/// heavier items first.
pub open spec fn bins_dominate_pending(m: Model) -> bool {
    forall|j: int, q: int, p: int|
        #![trigger m.bins[j].items[q], m.items[p]]
        0 <= j < m.bins.len() && 0 <= q < m.bins[j].items.len() && 0 <= p < m.items.len()
            ==> m.items[p] <= m.bins[j].items[q]
}

/// Bin `k`'s content as it stood when only the first `i` frames of the
/// stack had placed their items.
pub open spec fn bin_prefix(m: Model, i: int, k: int) -> Seq<u32> {
    m.bins[k].items.take(placed_count(m.stack.take(i), k))
}

/// Adjacent bins stand in non-increasing lexicographic order — not only
/// now but at every decision still on the stack, so backtracking always
/// restores an ordered state. Placements that would break the order of
/// the current state are rejected by the scan.
pub open spec fn bins_ordered_throughout(m: Model) -> bool {
    forall|i: int, k: int|
        #![trigger bin_prefix(m, i, k)]
        0 <= i <= m.stack.len() && 1 <= k < m.bins.len() ==> !lex_lt(
            bin_prefix(m, i, k - 1),
            bin_prefix(m, i, k),
        )
}

/// Well-formedness of a search state; established at construction and
/// preserved by every step.
pub open spec fn wf(m: Model) -> bool {
    &&& forall|j: int| 0 <= j < m.bins.len() ==> bin_wf(#[trigger] m.bins[j])
    &&& forall|i: int|
        0 <= i < m.stack.len() - 1 ==> (#[trigger] m.stack[i]).action == Action::Backtrack
    &&& forall|i: int|
        0 <= i < m.stack.len() && (#[trigger] m.stack[i]).action == Action::Try ==> m.stack[i]
            == frame_default()
    &&& forall|i: int|
        0 <= i < m.stack.len() && (#[trigger] m.stack[i]).action == Action::Backtrack ==> 1
            <= m.stack[i].next <= m.bins.len()
    &&& forall|j: int|
        0 <= j < m.bins.len() ==> (#[trigger] m.bins[j]).items.len() == placed_count(m.stack, j)
    &&& m.stack.len() == bins_item_count(m.bins) + (if top_is_try(m.stack) {
        1int
    } else {
        0int
    })
    &&& sorted_asc(m.items)
    &&& bins_dominate_pending(m)
    &&& frames_ordered(m)
    &&& bins_ordered_throughout(m)
}

/// Pops the top frame and extracts the item it is about to place: in
/// `Backtrack` mode, the item most recently placed by that frame's bin;
/// in `Try` mode, the largest pending item. Meaningful only when the
/// stack is non-empty and, in `Try` mode, items remain.
pub open spec fn step_take(m: Model) -> (Model, u32) {
    let f = m.stack.last();
    let rest = m.stack.drop_last();
    if f.action == Action::Backtrack {
        let j = f.next - 1;
        let b = m.bins[j];
        let it = b.items.last();
        (
            Model {
                items: m.items,
                bins: m.bins.update(j, BinModel { cap: b.cap + it, items: b.items.drop_last() }),
                stack: rest,
            },
            it,
        )
    } else {
        (Model { items: m.items.drop_last(), bins: m.bins, stack: rest }, m.items.last())
    }
}

/// The canonical-order shortcut: when the item does not exceed the item
/// most recently placed by the frame below, bins before that frame's bin
/// need not be tried again, so the scan may start at that bin.
pub open spec fn step_adjust(m1: Model, f: Frame, item: u32) -> Frame {
    if m1.stack.len() > 0 {
        let cb = m1.stack.last().next - 1;
        if m1.bins[cb].items.last() <= item {
            Frame {
                next: if f.next >= cb {
                    f.next
                } else {
                    cb
                },
                ..f
            }
        } else {
            f
        }
    } else {
        f
    }
}

/// Scans bin indices upward from `f.next` for the first acceptable bin:
/// it must fit the item, must not repeat a residual capacity already
/// tried at this frame, and placing must keep adjacent bins in canonical
/// (non-increasing lexicographic) order. On success the item is placed
/// and the frame is pushed back in `Backtrack` mode together with a fresh
/// `Try` frame; if no bin is acceptable the item returns to pending and
/// the frame is dropped.
pub open spec fn spec_scan(m: Model, f: Frame, item: u32) -> Model
    decreases m.bins.len() - f.next,
{
    if f.next < 0 || f.next >= m.bins.len() {
        Model { items: m.items.push(item), bins: m.bins, stack: m.stack }
    } else {
        let j = f.next;
        let b = m.bins[j];
        let f2 = Frame { next: j + 1, ..f };
        if b.cap < item {
            spec_scan(m, f2, item)
        } else if f.tried.contains(b.cap) {
            spec_scan(m, f2, item)
        } else if j >= 1 && lex_lt(m.bins[j - 1].items, b.items.push(item)) {
            spec_scan(m, f2, item)
        } else {
            Model {
                items: m.items,
                bins: m.bins.update(j, BinModel { cap: b.cap - item, items: b.items.push(item) }),
                stack: m.stack.push(
                    Frame { tried: f.tried.insert(b.cap), next: j + 1, action: Action::Backtrack },
                ).push(frame_default()),
            }
        }
    }
}

/// One step of the search. The boolean is false exactly when no work was
/// possible: the stack was empty (search exhausted), or the top frame was
/// a `Try` frame with no pending item left (solved).
pub open spec fn spec_step(m: Model) -> (Model, bool) {
    if m.stack.len() == 0 {
        (m, false)
    } else if m.stack.last().action == Action::Try && m.items.len() == 0 {
        (Model { items: m.items, bins: m.bins, stack: m.stack.drop_last() }, false)
    } else {
        let taken = step_take(m);
        let f1 = step_adjust(taken.0, m.stack.last(), taken.1);
        (spec_scan(taken.0, f1, taken.1), true)
    }
}

/// The state after `n` steps.
pub open spec fn spec_run(m: Model, n: nat) -> Model
    decreases n,
{
    if n == 0 {
        m
    } else {
        spec_run(spec_step(m).0, (n - 1) as nat)
    }
}

pub proof fn lemma_placed_count_nonneg(stack: Seq<Frame>, j: int)
    ensures
        0 <= placed_count(stack, j),
    decreases stack.len(),
{
    if stack.len() > 0 {
        lemma_placed_count_nonneg(stack.drop_last(), j);
    }
}

pub proof fn lemma_placed_count_push(stack: Seq<Frame>, f: Frame, j: int)
    ensures
        placed_count(stack.push(f), j) == placed_count(stack, j) + frame_places(f, j),
{
    assert(stack.push(f).drop_last() =~= stack);
    assert(stack.push(f).last() == f);
}

pub proof fn lemma_bins_item_count_update(bins: Seq<BinModel>, j: int, b2: BinModel)
    requires
        0 <= j < bins.len(),
    ensures
        bins_item_count(bins.update(j, b2)) == bins_item_count(bins) - bins[j].items.len()
            + b2.items.len(),
    decreases bins.len(),
{
    if j == bins.len() - 1 {
        assert(bins.update(j, b2).drop_last() =~= bins.drop_last());
        assert(bins.update(j, b2).last() == b2);
    } else {
        assert(bins.update(j, b2).drop_last() =~= bins.drop_last().update(j, b2));
        assert(bins.update(j, b2).last() == bins.last());
        lemma_bins_item_count_update(bins.drop_last(), j, b2);
    }
}

pub proof fn lemma_bins_weight_update(bins: Seq<BinModel>, j: int, b2: BinModel)
    requires
        0 <= j < bins.len(),
    ensures
        bins_weight(bins.update(j, b2)) == bins_weight(bins) - weight_sum(bins[j].items)
            + weight_sum(b2.items),
    decreases bins.len(),
{
    if j == bins.len() - 1 {
        assert(bins.update(j, b2).drop_last() =~= bins.drop_last());
        assert(bins.update(j, b2).last() == b2);
    } else {
        assert(bins.update(j, b2).drop_last() =~= bins.drop_last().update(j, b2));
        assert(bins.update(j, b2).last() == bins.last());
        lemma_bins_weight_update(bins.drop_last(), j, b2);
    }
}

pub proof fn lemma_bins_ms_update(bins: Seq<BinModel>, j: int, b2: BinModel)
    requires
        0 <= j < bins.len(),
    ensures
        bins_items_ms(bins.update(j, b2)).add(bins[j].items.to_multiset()) == bins_items_ms(
            bins,
        ).add(b2.items.to_multiset()),
    decreases bins.len(),
{
    broadcast use vstd::multiset::group_multiset_axioms, vstd::multiset::group_multiset_properties;

    if j == bins.len() - 1 {
        assert(bins.update(j, b2).drop_last() =~= bins.drop_last());
        assert(bins.update(j, b2).last() == b2);
        assert(bins.update(j, b2).len() == bins.len());
        assert(bins_items_ms(bins.update(j, b2)) == bins_items_ms(
            bins.update(j, b2).drop_last(),
        ).add(bins.update(j, b2).last().items.to_multiset()));
        assert(bins_items_ms(bins) == bins_items_ms(bins.drop_last()).add(
            bins.last().items.to_multiset(),
        ));
        assert(bins.last() == bins[j]);
        let lhs = bins_items_ms(bins.update(j, b2)).add(bins[j].items.to_multiset());
        let rhs = bins_items_ms(bins).add(b2.items.to_multiset());
        assert forall|v: u32| lhs.count(v) == rhs.count(v) by {
            assert(lhs.count(v) == bins_items_ms(bins.drop_last()).count(v)
                + b2.items.to_multiset().count(v) + bins[j].items.to_multiset().count(v));
            assert(rhs.count(v) == bins_items_ms(bins.drop_last()).count(v)
                + bins[j].items.to_multiset().count(v) + b2.items.to_multiset().count(v));
        }
        assert(lhs =~= rhs);
    } else {
        assert(bins.update(j, b2).drop_last() =~= bins.drop_last().update(j, b2));
        assert(bins.update(j, b2).last() == bins.last());
        assert(bins.drop_last()[j] == bins[j]);
        lemma_bins_ms_update(bins.drop_last(), j, b2);
        assert(bins_items_ms(bins.update(j, b2)) == bins_items_ms(
            bins.drop_last().update(j, b2),
        ).add(bins.last().items.to_multiset()));
        let lhs = bins_items_ms(bins.update(j, b2)).add(bins[j].items.to_multiset());
        let rhs = bins_items_ms(bins).add(b2.items.to_multiset());
        assert forall|v: u32| lhs.count(v) == rhs.count(v) by {
            assert(bins_items_ms(bins.drop_last().update(j, b2)).add(
                bins.drop_last()[j].items.to_multiset(),
            ).count(v) == bins_items_ms(bins.drop_last()).add(b2.items.to_multiset()).count(v));
            assert(bins_items_ms(bins.drop_last().update(j, b2)).count(v)
                + bins[j].items.to_multiset().count(v) == bins_items_ms(bins.drop_last()).count(v)
                + b2.items.to_multiset().count(v));
            assert(lhs.count(v) == bins_items_ms(bins.drop_last().update(j, b2)).count(v)
                + bins.last().items.to_multiset().count(v) + bins[j].items.to_multiset().count(v));
            assert(rhs.count(v) == bins_items_ms(bins.drop_last()).count(v)
                + bins.last().items.to_multiset().count(v) + b2.items.to_multiset().count(v));
        }
        assert(lhs =~= rhs);
    }
}

pub proof fn lemma_placed_count_prefix_le(stack: Seq<Frame>, a: int, b: int, j: int)
    requires
        0 <= a <= b <= stack.len(),
    ensures
        placed_count(stack.take(a), j) <= placed_count(stack.take(b), j),
    decreases b - a,
{
    if a < b {
        assert(stack.take(b).drop_last() =~= stack.take(b - 1));
        assert(stack.take(b).last() == stack[b - 1]);
        lemma_placed_count_prefix_le(stack, a, b - 1, j);
    }
}

/// Every position of every bin is the placement of some frame: the
/// per-bin counts cover the bins exactly.
pub proof fn lemma_bin_pos_frame(stack: Seq<Frame>, j: int, q: int)
    requires
        0 <= q < placed_count(stack, j),
    ensures
        exists|i: int|
            0 <= i < stack.len() && (#[trigger] stack[i]).action == Action::Backtrack && frame_bin(
                stack[i],
            ) == j && frame_pos(stack, i) == q,
    decreases stack.len(),
{
    lemma_placed_count_nonneg(stack.drop_last(), j);
    assert(stack.len() > 0);
    let last = stack.last();
    if last.action == Action::Backtrack && frame_bin(last) == j && q == placed_count(stack, j)
        - 1 {
        let i = stack.len() - 1;
        assert(stack.take(i + 1) =~= stack);
        assert(frame_pos(stack, i) == q);
        assert(stack[i].action == Action::Backtrack && frame_bin(stack[i]) == j && frame_pos(
            stack,
            i,
        ) == q);
    } else {
        assert(q < placed_count(stack.drop_last(), j));
        lemma_bin_pos_frame(stack.drop_last(), j, q);
        let i = choose|i: int|
            0 <= i < stack.drop_last().len() && (#[trigger] stack.drop_last()[i]).action
                == Action::Backtrack && frame_bin(stack.drop_last()[i]) == j && frame_pos(
                stack.drop_last(),
                i,
            ) == q;
        assert(stack.drop_last()[i] == stack[i]);
        assert(stack.drop_last().take(i + 1) =~= stack.take(i + 1));
        assert(stack[i].action == Action::Backtrack && frame_bin(stack[i]) == j && frame_pos(
            stack,
            i,
        ) == q);
    }
}

/// Two states agree on a bin's prefix when their stacks agree up to `i`
/// and the bin's items agree on that many positions.
proof fn lemma_bin_prefix_agree(m: Model, m1: Model, i: int, k: int)
    requires
        0 <= i <= m.stack.len(),
        i <= m1.stack.len(),
        m1.stack.take(i) == m.stack.take(i),
        0 <= k < m.bins.len(),
        k < m1.bins.len(),
        placed_count(m.stack.take(i), k) <= m1.bins[k].items.len(),
        placed_count(m.stack.take(i), k) <= m.bins[k].items.len(),
        forall|q: int|
            0 <= q < placed_count(m.stack.take(i), k) ==> m1.bins[k].items[q] == (
            #[trigger] m.bins[k].items[q]),
    ensures
        bin_prefix(m1, i, k) == bin_prefix(m, i, k),
{
    lemma_placed_count_nonneg(m.stack.take(i), k);
    assert(m1.bins[k].items.take(placed_count(m1.stack.take(i), k)) =~= m.bins[k].items.take(
        placed_count(m.stack.take(i), k),
    ));
}

/// The conditions under which the scan is entered: every frame on the
/// stack is a `Backtrack` frame (the popped frame is held aside), and the
/// counting invariants hold.
pub open spec fn scan_pre(m: Model, f: Frame) -> bool {
    &&& forall|j: int| 0 <= j < m.bins.len() ==> bin_wf(#[trigger] m.bins[j])
    &&& forall|i: int|
        0 <= i < m.stack.len() ==> (#[trigger] m.stack[i]).action == Action::Backtrack
    &&& forall|i: int|
        0 <= i < m.stack.len() ==> 1 <= (#[trigger] m.stack[i]).next <= m.bins.len()
    &&& forall|j: int|
        0 <= j < m.bins.len() ==> (#[trigger] m.bins[j]).items.len() == placed_count(m.stack, j)
    &&& m.stack.len() == bins_item_count(m.bins)
    &&& 0 <= f.next
    &&& sorted_asc(m.items)
    &&& bins_dominate_pending(m)
    &&& frames_ordered(m)
    &&& bins_ordered_throughout(m)
}

#[verifier::rlimit(60)]
pub proof fn lemma_scan_props(m: Model, f: Frame, item: u32)
    requires
        scan_pre(m, f),
        forall|p: int| 0 <= p < m.items.len() ==> m.items[p] <= item,
        forall|j2: int, q: int|
            0 <= j2 < m.bins.len() && 0 <= q < m.bins[j2].items.len() ==> item <= (
            #[trigger] m.bins[j2].items[q]),
    ensures
        ({
            let m2 = spec_scan(m, f, item);
            &&& wf(m2)
            &&& all_items(m2) == all_items(m).insert(item)
            &&& total_weight(m2) == total_weight(m) + item
            &&& total_count(m2) == total_count(m) + 1
            &&& m2.bins.len() == m.bins.len()
            &&& forall|j: int|
                0 <= j < m.bins.len() ==> bin_original_capacity(m2.bins[j])
                    == bin_original_capacity(#[trigger] m.bins[j])
            &&& (m2.stack == m.stack && m2.bins == m.bins && m2.items == m.items.push(item)) || (
            exists|g: Frame|
                g.action == Action::Backtrack && f.next < g.next <= m.bins.len() && m2.stack
                    == m.stack.push(g).push(frame_default()) && m2.items == m.items)
        }),
    decreases m.bins.len() - f.next,
{
    broadcast use vstd::multiset::group_multiset_axioms, vstd::multiset::group_multiset_properties;

    let m2 = spec_scan(m, f, item);
    if f.next < 0 || f.next >= m.bins.len() {
        lemma_weight_sum_push(m.items, item);
        assert(all_items(m2) =~= all_items(m).insert(item));
        assert(!top_is_try(m.stack));
        assert forall|a: int, b: int| 0 <= a < b < m2.items.len() implies m2.items[a]
            <= m2.items[b] by {
            if b < m.items.len() {
                assert(m2.items[a] == m.items[a] && m2.items[b] == m.items[b]);
            } else {
                assert(m2.items[b] == item);
                assert(m2.items[a] == m.items[a]);
            }
        }
        assert(sorted_asc(m2.items));
        assert forall|j2: int, q: int, p: int|
            0 <= j2 < m2.bins.len() && 0 <= q < m2.bins[j2].items.len() && 0 <= p
                < m2.items.len() implies m2.items[p] <= m2.bins[j2].items[q] by {
            if p < m.items.len() {
                assert(m2.items[p] == m.items[p]);
                assert(m.items[p] <= m.bins[j2].items[q]);
            } else {
                assert(m2.items[p] == item);
            }
        }
        assert(bins_dominate_pending(m2));
        assert forall|i1: int, i2: int|
            0 <= i1 <= i2 < m2.stack.len() && m2.stack[i1].action == Action::Backtrack
                && m2.stack[i2].action == Action::Backtrack implies #[trigger] frame_item(m2, i2)
            <= #[trigger] frame_item(m2, i1) by {
            assert(m2.stack == m.stack && m2.bins == m.bins);
            assert(frame_item(m2, i1) == frame_item(m, i1));
            assert(frame_item(m2, i2) == frame_item(m, i2));
        }
        assert(frames_ordered(m2));
        assert forall|i: int, k: int|
            0 <= i <= m2.stack.len() && 1 <= k < m2.bins.len() implies !lex_lt(
            bin_prefix(m2, i, k - 1),
            #[trigger] bin_prefix(m2, i, k),
        ) by {
            assert(m2.stack == m.stack && m2.bins == m.bins);
            assert(bin_prefix(m2, i, k) == bin_prefix(m, i, k));
            assert(bin_prefix(m2, i, k - 1) == bin_prefix(m, i, k - 1));
            assert(!lex_lt(bin_prefix(m, i, k - 1), bin_prefix(m, i, k)));
        }
        assert(bins_ordered_throughout(m2));
        assert(wf(m2));
    } else {
        let j = f.next;
        let b = m.bins[j];
        let f2 = Frame { next: j + 1, ..f };
        if b.cap < item || f.tried.contains(b.cap) || (j >= 1 && lex_lt(
            m.bins[j - 1].items,
            b.items.push(item),
        )) {
            lemma_scan_props(m, f2, item);
        } else {
            let nb = BinModel { cap: b.cap - item, items: b.items.push(item) };
            let g = Frame { tried: f.tried.insert(b.cap), next: j + 1, action: Action::Backtrack };
            let stack2 = m.stack.push(g).push(frame_default());
            lemma_weight_sum_push(b.items, item);
            assert(bin_wf(nb));
            assert(bin_original_capacity(nb) == bin_original_capacity(b));
            lemma_bins_item_count_update(m.bins, j, nb);
            lemma_bins_weight_update(m.bins, j, nb);
            lemma_bins_ms_update(m.bins, j, nb);
            assert(nb.items.to_multiset() =~= b.items.to_multiset().insert(item));
            assert(m2.bins == m.bins.update(j, nb));
            assert(bins_items_ms(m.bins.update(j, nb)).add(b.items.to_multiset())
                == bins_items_ms(m.bins).add(nb.items.to_multiset()));
            let lhs = bins_items_ms(m2.bins);
            let rhs = bins_items_ms(m.bins).insert(item);
            assert forall|v: u32| lhs.count(v) == rhs.count(v) by {
                assert(bins_items_ms(m.bins.update(j, nb)).add(b.items.to_multiset()).count(v)
                    == bins_items_ms(m.bins).add(nb.items.to_multiset()).count(v));
                assert(bins_items_ms(m.bins.update(j, nb)).count(v)
                    + b.items.to_multiset().count(v) == bins_items_ms(m.bins).count(v)
                    + nb.items.to_multiset().count(v));
            }
            assert(lhs =~= rhs);
            let lhs2 = all_items(m2);
            let rhs2 = all_items(m).insert(item);
            assert forall|v: u32| lhs2.count(v) == rhs2.count(v) by {}
            assert(lhs2 =~= rhs2);
            // the two pushed frames keep the per-bin counts consistent
            assert forall|j2: int| 0 <= j2 < m2.bins.len() implies (#[trigger] m2.bins[j2]).items.len()
                == placed_count(stack2, j2) by {
                lemma_placed_count_push(m.stack, g, j2);
                lemma_placed_count_push(m.stack.push(g), frame_default(), j2);
            }
            assert forall|i: int|
                0 <= i < stack2.len() && (#[trigger] stack2[i]).action == Action::Try implies stack2[i]
                == frame_default() by {
                if i < m.stack.len() {
                    assert(stack2[i] == m.stack[i]);
                }
            }
            assert(top_is_try(stack2));
            assert forall|j2: int, q: int, p: int|
                0 <= j2 < m2.bins.len() && 0 <= q < m2.bins[j2].items.len() && 0 <= p
                    < m2.items.len() implies m2.items[p] <= m2.bins[j2].items[q] by {
                if j2 == j && q == b.items.len() {
                    assert(m2.bins[j2].items[q] == item);
                    assert(m2.items[p] == m.items[p] && m.items[p] <= item);
                } else {
                    assert(m2.bins[j2].items[q] == m.bins[j2].items[q]);
                    assert(m.items[p] <= m.bins[j2].items[q]);
                }
            }
            assert(bins_dominate_pending(m2));
            assert forall|i: int|
                0 <= i < m.stack.len() && (#[trigger] m.stack[i]).action
                    == Action::Backtrack implies frame_item(m2, i) == frame_item(m, i) && item
                <= frame_item(m, i) by {
                assert(stack2[i] == m.stack[i]);
                assert(stack2.take(i + 1) =~= m.stack.take(i + 1));
                let fb = frame_bin(m.stack[i]);
                lemma_placed_count_nonneg(m.stack.take(i + 1).drop_last(), fb);
                assert(m.stack.take(i + 1).drop_last() =~= m.stack.take(i));
                assert(m.stack.take(i + 1).last() == m.stack[i]);
                lemma_placed_count_prefix_le(m.stack, i + 1, m.stack.len() as int, fb);
                assert(m.stack.take(m.stack.len() as int) =~= m.stack);
                assert(0 <= frame_pos(m.stack, i) < m.bins[fb].items.len());
                if fb == j {
                    assert(m2.bins[fb].items[frame_pos(m.stack, i)] == m.bins[fb].items[frame_pos(
                        m.stack,
                        i,
                    )]);
                }
                assert(item <= m.bins[fb].items[frame_pos(m.stack, i)]);
            }
            assert forall|i1: int, i2: int|
                0 <= i1 <= i2 < stack2.len() && stack2[i1].action == Action::Backtrack
                    && stack2[i2].action == Action::Backtrack implies #[trigger] frame_item(
                m2,
                i2,
            ) <= #[trigger] frame_item(m2, i1) by {
                if i2 < m.stack.len() {
                    assert(stack2[i1] == m.stack[i1] && stack2[i2] == m.stack[i2]);
                    assert(frame_item(m, i2) <= frame_item(m, i1));
                } else if i2 == m.stack.len() {
                    assert(stack2[i2] == g);
                    assert(stack2.take(i2 + 1) =~= m.stack.push(g));
                    lemma_placed_count_push(m.stack, g, j);
                    assert(frame_pos(stack2, i2) == b.items.len());
                    assert(frame_item(m2, i2) == item);
                    if i1 < m.stack.len() {
                        assert(stack2[i1] == m.stack[i1]);
                        assert(item <= frame_item(m, i1));
                    }
                } else {
                    assert(stack2[i2] == frame_default());
                    assert(stack2[i2].action == Action::Try);
                }
            }
            assert(frames_ordered(m2));
            // the new placement keeps every recorded state ordered: old
            // prefixes are untouched, and the full state was checked
            // against the left neighbour and only grew against the right
            assert forall|i: int, k: int|
                0 <= i <= stack2.len() && 1 <= k < m2.bins.len() implies !lex_lt(
                bin_prefix(m2, i, k - 1),
                #[trigger] bin_prefix(m2, i, k),
            ) by {
                assert(m.stack.take(m.stack.len() as int) =~= m.stack);
                if i <= m.stack.len() {
                    assert(stack2.take(i) =~= m.stack.take(i));
                    lemma_placed_count_prefix_le(m.stack, i, m.stack.len() as int, k);
                    lemma_placed_count_prefix_le(m.stack, i, m.stack.len() as int, k - 1);
                    lemma_bin_prefix_agree(m, m2, i, k);
                    lemma_bin_prefix_agree(m, m2, i, k - 1);
                    assert(!lex_lt(bin_prefix(m, i, k - 1), bin_prefix(m, i, k)));
                } else {
                    assert(stack2.take(m.stack.len() as int + 1) =~= m.stack.push(g));
                    assert(stack2.take(m.stack.len() as int + 2) =~= stack2);
                    assert forall|k2: int| 0 <= k2 < m2.bins.len() implies bin_prefix(m2, i, k2)
                        == m2.bins[k2].items by {
                        lemma_placed_count_push(m.stack, g, k2);
                        lemma_placed_count_push(m.stack.push(g), frame_default(), k2);
                        assert(placed_count(stack2.take(i), k2) == m2.bins[k2].items.len());
                        assert(m2.bins[k2].items.take(m2.bins[k2].items.len() as int)
                            =~= m2.bins[k2].items);
                    }
                    assert(bin_prefix(m, m.stack.len() as int, k) =~= m.bins[k].items);
                    assert(bin_prefix(m, m.stack.len() as int, k - 1) =~= m.bins[k - 1].items);
                    assert(!lex_lt(m.bins[k - 1].items, m.bins[k].items));
                    if k == j {
                        assert(m2.bins[k - 1].items == m.bins[k - 1].items);
                        assert(m2.bins[k].items == b.items.push(item));
                        assert(!lex_lt(m.bins[j - 1].items, b.items.push(item)));
                    } else if k - 1 == j {
                        assert(m2.bins[k].items == m.bins[k].items);
                        assert(m2.bins[k - 1].items == b.items.push(item));
                        lemma_lex_push(b.items, item);
                        if lex_lt(b.items.push(item), m.bins[k].items) {
                            lemma_lex_trichotomy(m.bins[k].items, b.items);
                            if lex_lt(m.bins[k].items, b.items) {
                                lemma_lex_lt_trans(
                                    b.items.push(item),
                                    m.bins[k].items,
                                    b.items,
                                );
                            }
                            assert(false);
                        }
                    } else {
                        assert(m2.bins[k].items == m.bins[k].items);
                        assert(m2.bins[k - 1].items == m.bins[k - 1].items);
                    }
                }
            }
            assert(bins_ordered_throughout(m2));
            assert(wf(m2));
        }
    }
}

pub proof fn lemma_take_props(m: Model)
    requires
        wf(m),
        m.stack.len() > 0,
        m.stack.last().action == Action::Try ==> m.items.len() > 0,
    ensures
        ({
            let m1 = step_take(m).0;
            let item = step_take(m).1;
            let f = m.stack.last();
            &&& scan_pre(m1, step_adjust(m1, f, item))
            &&& step_adjust(m1, f, item).next <= m.bins.len()
            &&& forall|p: int| 0 <= p < m1.items.len() ==> m1.items[p] <= item
            &&& forall|j2: int, q: int|
                0 <= j2 < m1.bins.len() && 0 <= q < m1.bins[j2].items.len() ==> item <= (
                #[trigger] m1.bins[j2].items[q])
            &&& all_items(m1).insert(item) == all_items(m)
            &&& total_weight(m1) == total_weight(m) - item
            &&& total_count(m1) == total_count(m) - 1
            &&& m1.bins.len() == m.bins.len()
            &&& m1.items.len() <= m.items.len()
            &&& m1.stack == m.stack.drop_last()
            &&& forall|j: int|
                0 <= j < m.bins.len() ==> bin_original_capacity(m1.bins[j])
                    == bin_original_capacity(#[trigger] m.bins[j])
            &&& f.action == Action::Backtrack ==> 1 <= f.next <= m.bins.len() && m.bins[f.next
                - 1].items.len() > 0
            &&& m1.stack.len() > 0 ==> {
                let cb = m1.stack.last().next - 1;
                0 <= cb < m.bins.len() && m1.bins[cb].items.len() > 0
            }
        }),
{
    broadcast use vstd::multiset::group_multiset_axioms, vstd::multiset::group_multiset_properties;

    let f = m.stack.last();
    let rest = m.stack.drop_last();
    let m1 = step_take(m).0;
    let item = step_take(m).1;
    assert forall|i: int| 0 <= i < rest.len() implies (#[trigger] rest[i]).action
        == Action::Backtrack by {
        assert(rest[i] == m.stack[i]);
    }
    assert(m.stack.drop_last().push(f) =~= m.stack);
    lemma_placed_count_push(rest, f, f.next - 1);
    if f.action == Action::Backtrack {
        let j = f.next - 1;
        let b = m.bins[j];
        assert(1 <= f.next <= m.bins.len());
        lemma_placed_count_nonneg(rest, j);
        assert(placed_count(m.stack, j) == placed_count(rest, j) + 1);
        assert(b.items.len() > 0);
        let nb = BinModel { cap: b.cap + item, items: b.items.drop_last() };
        assert(b.items.drop_last().push(item) =~= b.items);
        lemma_weight_sum_push(b.items.drop_last(), item);
        assert(bin_original_capacity(nb) == bin_original_capacity(b));
        lemma_bins_item_count_update(m.bins, j, nb);
        lemma_bins_weight_update(m.bins, j, nb);
        lemma_bins_ms_update(m.bins, j, nb);
        assert(b.items.to_multiset() =~= nb.items.to_multiset().insert(item));
        assert(m1.bins == m.bins.update(j, nb));
        assert(bins_items_ms(m.bins.update(j, nb)).add(b.items.to_multiset()) == bins_items_ms(
            m.bins,
        ).add(nb.items.to_multiset()));
        let lhs = bins_items_ms(m1.bins).insert(item);
        let rhs = bins_items_ms(m.bins);
        assert forall|v: u32| lhs.count(v) == rhs.count(v) by {
            assert(bins_items_ms(m.bins.update(j, nb)).add(b.items.to_multiset()).count(v)
                == bins_items_ms(m.bins).add(nb.items.to_multiset()).count(v));
            assert(bins_items_ms(m.bins.update(j, nb)).count(v) + b.items.to_multiset().count(v)
                == bins_items_ms(m.bins).count(v) + nb.items.to_multiset().count(v));
        }
        assert(lhs =~= rhs);
        let lhs2 = all_items(m1).insert(item);
        let rhs2 = all_items(m);
        assert forall|v: u32| lhs2.count(v) == rhs2.count(v) by {}
        assert(lhs2 =~= rhs2);
        assert forall|j2: int| 0 <= j2 < m1.bins.len() implies (#[trigger] m1.bins[j2]).items.len()
            == placed_count(rest, j2) by {
            lemma_placed_count_push(rest, f, j2);
        }
        assert(!top_is_try(m.stack));
        assert(rest.len() == bins_item_count(m1.bins));
        // the un-placed item is the most recent placement, so it is no
        // heavier than anything still assigned and no lighter than
        // anything pending
        let top = m.stack.len() - 1;
        assert(m.stack.take(top + 1) =~= m.stack);
        assert(frame_pos(m.stack, top) == b.items.len() - 1);
        assert(item == frame_item(m, top));
        assert(item <= b.items[b.items.len() - 1]);
        assert forall|p: int| 0 <= p < m1.items.len() implies m1.items[p] <= item by {
            assert(m.items[p] <= m.bins[j].items[b.items.len() - 1]);
        }
        assert forall|j2: int, q: int|
            0 <= j2 < m1.bins.len() && 0 <= q < m1.bins[j2].items.len() implies item <= (
        #[trigger] m1.bins[j2].items[q]) by {
            assert(m1.bins[j2].items[q] == m.bins[j2].items[q]);
            assert(q < placed_count(m.stack, j2));
            lemma_bin_pos_frame(m.stack, j2, q);
            let i = choose|i: int|
                0 <= i < m.stack.len() && (#[trigger] m.stack[i]).action == Action::Backtrack
                    && frame_bin(m.stack[i]) == j2 && frame_pos(m.stack, i) == q;
            assert(frame_item(m, i) == m.bins[j2].items[q]);
            assert(frame_item(m, top) <= frame_item(m, i));
        }
        assert forall|a: int, b2: int| 0 <= a < b2 < m1.items.len() implies m1.items[a]
            <= m1.items[b2] by {}
        assert(sorted_asc(m1.items));
        assert forall|j2: int, q: int, p: int|
            0 <= j2 < m1.bins.len() && 0 <= q < m1.bins[j2].items.len() && 0 <= p
                < m1.items.len() implies m1.items[p] <= m1.bins[j2].items[q] by {
            assert(m1.bins[j2].items[q] == m.bins[j2].items[q]);
            assert(m.items[p] <= m.bins[j2].items[q]);
        }
        assert(bins_dominate_pending(m1));
        assert forall|i: int| 0 <= i < rest.len() && (#[trigger] rest[i]).action
            == Action::Backtrack implies frame_item(m1, i) == frame_item(m, i) by {
            assert(rest[i] == m.stack[i]);
            assert(rest.take(i + 1) =~= m.stack.take(i + 1));
            let fb = frame_bin(m.stack[i]);
            lemma_placed_count_nonneg(m.stack.take(i + 1).drop_last(), fb);
            assert(m.stack.take(i + 1).drop_last() =~= m.stack.take(i));
            assert(m.stack.take(i + 1).last() == m.stack[i]);
            lemma_placed_count_prefix_le(m.stack, i + 1, m.stack.len() - 1, fb);
            assert(m.stack.take(m.stack.len() - 1) =~= rest);
            assert(placed_count(rest, fb) == m1.bins[fb].items.len());
            assert(0 <= frame_pos(m.stack, i) < m1.bins[fb].items.len());
            if fb == j {
                assert(m1.bins[fb].items[frame_pos(m.stack, i)] == m.bins[fb].items[frame_pos(
                    m.stack,
                    i,
                )]);
            }
        }
        assert forall|i1: int, i2: int|
            0 <= i1 <= i2 < m1.stack.len() && m1.stack[i1].action == Action::Backtrack
                && m1.stack[i2].action == Action::Backtrack implies #[trigger] frame_item(m1, i2)
            <= #[trigger] frame_item(m1, i1) by {
            assert(frame_item(m1, i1) == frame_item(m, i1));
            assert(frame_item(m1, i2) == frame_item(m, i2));
            assert(frame_item(m, i2) <= frame_item(m, i1));
        }
        assert(frames_ordered(m1));
        assert forall|i: int, k: int|
            0 <= i <= m1.stack.len() && 1 <= k < m1.bins.len() implies !lex_lt(
            bin_prefix(m1, i, k - 1),
            #[trigger] bin_prefix(m1, i, k),
        ) by {
            assert(m1.stack.take(i) =~= m.stack.take(i));
            assert(m.stack.take(m.stack.len() - 1) =~= rest);
            assert(m.stack.take(m.stack.len() as int) =~= m.stack);
            lemma_placed_count_prefix_le(m.stack, i, m.stack.len() - 1, k);
            lemma_placed_count_prefix_le(m.stack, i, m.stack.len() - 1, k - 1);
            lemma_placed_count_prefix_le(m.stack, i, m.stack.len() as int, k);
            lemma_placed_count_prefix_le(m.stack, i, m.stack.len() as int, k - 1);
            assert(placed_count(rest, k) == m1.bins[k].items.len());
            assert(placed_count(rest, k - 1) == m1.bins[k - 1].items.len());
            lemma_bin_prefix_agree(m, m1, i, k);
            lemma_bin_prefix_agree(m, m1, i, k - 1);
            assert(!lex_lt(bin_prefix(m, i, k - 1), bin_prefix(m, i, k)));
        }
        assert(bins_ordered_throughout(m1));
    } else {
        assert(m.items.drop_last().push(item) =~= m.items);
        lemma_weight_sum_push(m.items.drop_last(), item);
        assert(m.items.to_multiset() =~= m.items.drop_last().to_multiset().insert(item));
        assert(all_items(m1).insert(item) =~= all_items(m));
        assert forall|j2: int| 0 <= j2 < m1.bins.len() implies (#[trigger] m1.bins[j2]).items.len()
            == placed_count(rest, j2) by {
            lemma_placed_count_push(rest, f, j2);
        }
        assert(top_is_try(m.stack));
        assert(rest.len() == bins_item_count(m1.bins));
        // the item drawn is the largest pending one
        assert forall|p: int| 0 <= p < m1.items.len() implies m1.items[p] <= item by {
            assert(m1.items[p] == m.items[p]);
            assert(m.items[p] <= m.items[m.items.len() - 1]);
        }
        assert forall|j2: int, q: int|
            0 <= j2 < m1.bins.len() && 0 <= q < m1.bins[j2].items.len() implies item <= (
        #[trigger] m1.bins[j2].items[q]) by {
            assert(m1.bins[j2] == m.bins[j2]);
            assert(m.items[m.items.len() - 1] <= m.bins[j2].items[q]);
        }
        assert forall|a: int, b2: int| 0 <= a < b2 < m1.items.len() implies m1.items[a]
            <= m1.items[b2] by {
            assert(m1.items[a] == m.items[a] && m1.items[b2] == m.items[b2]);
        }
        assert(sorted_asc(m1.items));
        assert forall|j2: int, q: int, p: int|
            0 <= j2 < m1.bins.len() && 0 <= q < m1.bins[j2].items.len() && 0 <= p
                < m1.items.len() implies m1.items[p] <= m1.bins[j2].items[q] by {
            assert(m1.bins[j2] == m.bins[j2]);
            assert(m1.items[p] == m.items[p]);
            assert(m.items[p] <= m.bins[j2].items[q]);
        }
        assert(bins_dominate_pending(m1));
        assert forall|i1: int, i2: int|
            0 <= i1 <= i2 < m1.stack.len() && m1.stack[i1].action == Action::Backtrack
                && m1.stack[i2].action == Action::Backtrack implies #[trigger] frame_item(m1, i2)
            <= #[trigger] frame_item(m1, i1) by {
            assert(rest[i1] == m.stack[i1] && rest[i2] == m.stack[i2]);
            assert(rest.take(i1 + 1) =~= m.stack.take(i1 + 1));
            assert(rest.take(i2 + 1) =~= m.stack.take(i2 + 1));
            assert(frame_item(m1, i1) == frame_item(m, i1));
            assert(frame_item(m1, i2) == frame_item(m, i2));
            assert(frame_item(m, i2) <= frame_item(m, i1));
        }
        assert(frames_ordered(m1));
        assert forall|i: int, k: int|
            0 <= i <= m1.stack.len() && 1 <= k < m1.bins.len() implies !lex_lt(
            bin_prefix(m1, i, k - 1),
            #[trigger] bin_prefix(m1, i, k),
        ) by {
            assert(m1.stack.take(i) =~= m.stack.take(i));
            assert(m.stack.take(m.stack.len() - 1) =~= rest);
            assert(m.stack.take(m.stack.len() as int) =~= m.stack);
            lemma_placed_count_prefix_le(m.stack, i, m.stack.len() - 1, k);
            lemma_placed_count_prefix_le(m.stack, i, m.stack.len() - 1, k - 1);
            lemma_placed_count_prefix_le(m.stack, i, m.stack.len() as int, k);
            lemma_placed_count_prefix_le(m.stack, i, m.stack.len() as int, k - 1);
            assert(placed_count(rest, k) == m1.bins[k].items.len());
            assert(placed_count(rest, k - 1) == m1.bins[k - 1].items.len());
            lemma_bin_prefix_agree(m, m1, i, k);
            lemma_bin_prefix_agree(m, m1, i, k - 1);
            assert(!lex_lt(bin_prefix(m, i, k - 1), bin_prefix(m, i, k)));
        }
        assert(bins_ordered_throughout(m1));
    }
    if m1.stack.len() > 0 {
        let p = m1.stack.last();
        let cb = p.next - 1;
        assert(p == m.stack[m.stack.len() - 2]);
        assert(p.action == Action::Backtrack);
        assert(0 <= cb < m.bins.len());
        lemma_placed_count_nonneg(m1.stack.drop_last(), cb);
        lemma_placed_count_push(m1.stack.drop_last(), p, cb);
        assert(m1.stack.drop_last().push(p) =~= m1.stack);
        assert(placed_count(m1.stack, cb) >= 1);
    }
}

pub proof fn lemma_step_props(m: Model)
    requires
        wf(m),
    ensures
        ({
            let m2 = spec_step(m).0;
            &&& wf(m2)
            &&& all_items(m2) == all_items(m)
            &&& total_weight(m2) == total_weight(m)
            &&& m2.bins.len() == m.bins.len()
            &&& forall|j: int|
                0 <= j < m.bins.len() ==> bin_original_capacity(m2.bins[j])
                    == bin_original_capacity(#[trigger] m.bins[j])
        }),
{
    broadcast use vstd::multiset::group_multiset_axioms;

    if m.stack.len() == 0 {
    } else if m.stack.last().action == Action::Try && m.items.len() == 0 {
        let rest = m.stack.drop_last();
        let m2 = spec_step(m).0;
        assert forall|j2: int| 0 <= j2 < m2.bins.len() implies (#[trigger] m2.bins[j2]).items.len()
            == placed_count(rest, j2) by {
            lemma_placed_count_push(rest, m.stack.last(), j2);
            assert(rest.push(m.stack.last()) =~= m.stack);
        }
        assert forall|i: int| 0 <= i < rest.len() implies (#[trigger] rest[i]).action
            == Action::Backtrack by {
            assert(rest[i] == m.stack[i]);
        }
        assert(top_is_try(m.stack));
        assert(!top_is_try(rest));
        assert(sorted_asc(m2.items));
        assert forall|j2: int, q: int, p: int|
            0 <= j2 < m2.bins.len() && 0 <= q < m2.bins[j2].items.len() && 0 <= p
                < m2.items.len() implies m2.items[p] <= m2.bins[j2].items[q] by {
            assert(m2.bins[j2] == m.bins[j2]);
            assert(m2.items[p] == m.items[p]);
            assert(m.items[p] <= m.bins[j2].items[q]);
        }
        assert(bins_dominate_pending(m2));
        assert forall|i1: int, i2: int|
            0 <= i1 <= i2 < m2.stack.len() && m2.stack[i1].action == Action::Backtrack
                && m2.stack[i2].action == Action::Backtrack implies #[trigger] frame_item(m2, i2)
            <= #[trigger] frame_item(m2, i1) by {
            assert(rest[i1] == m.stack[i1] && rest[i2] == m.stack[i2]);
            assert(rest.take(i1 + 1) =~= m.stack.take(i1 + 1));
            assert(rest.take(i2 + 1) =~= m.stack.take(i2 + 1));
            assert(frame_item(m2, i1) == frame_item(m, i1));
            assert(frame_item(m2, i2) == frame_item(m, i2));
            assert(frame_item(m, i2) <= frame_item(m, i1));
        }
        assert(frames_ordered(m2));
        assert forall|i: int, k: int|
            0 <= i <= m2.stack.len() && 1 <= k < m2.bins.len() implies !lex_lt(
            bin_prefix(m2, i, k - 1),
            #[trigger] bin_prefix(m2, i, k),
        ) by {
            assert(rest.take(i) =~= m.stack.take(i));
            assert(m.stack.take(m.stack.len() as int) =~= m.stack);
            lemma_placed_count_prefix_le(m.stack, i, m.stack.len() as int, k);
            lemma_placed_count_prefix_le(m.stack, i, m.stack.len() as int, k - 1);
            lemma_bin_prefix_agree(m, m2, i, k);
            lemma_bin_prefix_agree(m, m2, i, k - 1);
            assert(!lex_lt(bin_prefix(m, i, k - 1), bin_prefix(m, i, k)));
        }
        assert(bins_ordered_throughout(m2));
        assert(wf(m2));
    } else {
        let taken = step_take(m);
        let f1 = step_adjust(taken.0, m.stack.last(), taken.1);
        lemma_take_props(m);
        lemma_scan_props(taken.0, f1, taken.1);
        let m2 = spec_step(m).0;
        assert(all_items(m2) =~= all_items(m));
    }
}

pub proof fn lemma_run_props(m: Model, n: nat)
    requires
        wf(m),
    ensures
        ({
            let m2 = spec_run(m, n);
            &&& wf(m2)
            &&& all_items(m2) == all_items(m)
            &&& total_weight(m2) == total_weight(m)
            &&& m2.bins.len() == m.bins.len()
            &&& forall|j: int|
                0 <= j < m.bins.len() ==> bin_original_capacity(m2.bins[j])
                    == bin_original_capacity(#[trigger] m.bins[j])
        }),
    decreases n,
{
    if n > 0 {
        lemma_step_props(m);
        lemma_run_props(spec_step(m).0, (n - 1) as nat);
    }
}

/// Running `n + 1` steps is one more step after running `n`: the basis of
/// resumability.
pub proof fn lemma_run_snoc(m: Model, n: nat)
    ensures
        spec_run(m, n + 1) == spec_step(spec_run(m, n)).0,
    decreases n,
{
    if n == 0 {
        assert(spec_run(m, 1) == spec_run(spec_step(m).0, 0));
    } else {
        lemma_run_snoc(spec_step(m).0, (n - 1) as nat);
        assert(spec_run(m, n + 1) == spec_run(spec_step(m).0, n));
        assert(spec_run(m, n) == spec_run(spec_step(m).0, (n - 1) as nat));
    }
}

/// The state a fresh engine starts from: the items sorted ascending,
/// `nbins` empty bins of one uniform capacity, and a single fresh frame.
pub open spec fn start_model(sorted_items: Seq<u32>, nbins: int, cap: u32) -> Model {
    Model {
        items: sorted_items,
        bins: Seq::new(
            nbins as nat,
            |j: int| BinModel { cap: cap as int, items: Seq::<u32>::empty() },
        ),
        stack: seq![frame_default()],
    }
}

/// A run from this start that ended exhausted: the frame stack emptied
/// while items were still pending at every step along the way — the
/// search's proof that it explored every arrangement of this
/// configuration without ever reaching a solved state.
pub open spec fn exhausted_run(sorted_items: Seq<u32>, nbins: int, cap: u32) -> bool {
    exists|n: nat|
        {
            let mf = #[trigger] spec_run(start_model(sorted_items, nbins, cap), n);
            &&& mf.stack.len() == 0
            &&& forall|k: nat|
                k <= n ==> (#[trigger] spec_run(
                    start_model(sorted_items, nbins, cap),
                    k,
                )).items.len() > 0
        }
}

/// A progressing step consumes at most one pending item, and when it
/// does consume one it leaves a fresh `Try` frame on top.
pub proof fn lemma_step_pending(m: Model)
    requires
        wf(m),
        spec_step(m).1,
    ensures
        spec_step(m).0.items.len() + 1 >= m.items.len(),
        spec_step(m).0.items.len() < m.items.len() ==> top_is_try(spec_step(m).0.stack),
{
    let taken = step_take(m);
    let f1 = step_adjust(taken.0, m.stack.last(), taken.1);
    lemma_take_props(m);
    lemma_scan_props(taken.0, f1, taken.1);
    let m2 = spec_step(m).0;
    if m2.items.len() < m.items.len() {
        assert(m2.stack == taken.0.stack.push(
            choose|g: Frame|
                g.action == Action::Backtrack && f1.next < g.next <= taken.0.bins.len()
                    && m2.stack == taken.0.stack.push(g).push(frame_default()) && m2.items
                    == taken.0.items,
        ).push(frame_default()) || m2.items == taken.0.items.push(taken.1));
        assert(m2.stack.len() > 0 && m2.stack.last() == frame_default());
    }
}

/// Along a run whose every step reported further work, the pending list
/// never empties before the end: the search never passed a solved state.
pub proof fn lemma_run_pending(m0: Model, n: nat, k: nat)
    requires
        wf(m0),
        m0.items.len() > 0,
        forall|j: nat| j + 1 < n ==> (#[trigger] spec_step(spec_run(m0, j))).1,
        spec_run(m0, n).items.len() > 0,
        k <= n,
    ensures
        spec_run(m0, k).items.len() > 0,
    decreases k,
{
    if k > 0 && k < n {
        lemma_run_pending(m0, n, (k - 1) as nat);
        lemma_run_props(m0, (k - 1) as nat);
        lemma_run_snoc(m0, (k - 1) as nat);
        let prev = spec_run(m0, (k - 1) as nat);
        let here = spec_run(m0, k);
        assert(spec_step(prev).1);
        lemma_step_pending(prev);
        if here.items.len() == 0 {
            assert(top_is_try(here.stack));
            assert(!spec_step(here).1);
            if k + 1 < n {
                assert(spec_step(spec_run(m0, k)).1);
                assert(false);
            } else {
                lemma_run_snoc(m0, k);
                assert(spec_run(m0, (k + 1) as nat).items.len() == 0);
                assert(false);
            }
        }
    }
}

/// Conservation: every state reachable from a well-formed state holds
/// exactly the same items, pending plus assigned, and hence the same
/// total weight.
pub proof fn lemma_reachable_conservation(m: Model, n: nat)
    requires
        wf(m),
    ensures
        all_items(spec_run(m, n)) == all_items(m),
        total_weight(spec_run(m, n)) == total_weight(m),
{
    lemma_run_props(m, n);
}

/// Capacity: in every state reachable from a well-formed state, no bin
/// is loaded beyond the capacity it was created with.
pub proof fn lemma_reachable_capacity(m: Model, n: nat)
    requires
        wf(m),
    ensures
        spec_run(m, n).bins.len() == m.bins.len(),
        forall|j: int|
            0 <= j < m.bins.len() ==> weight_sum(spec_run(m, n).bins[j].items)
                <= bin_original_capacity(#[trigger] m.bins[j]),
{
    lemma_run_props(m, n);
    let m2 = spec_run(m, n);
    assert forall|j: int| 0 <= j < m.bins.len() implies weight_sum(m2.bins[j].items)
        <= bin_original_capacity(#[trigger] m.bins[j]) by {
        assert(bin_wf(m2.bins[j]));
        assert(bin_original_capacity(m2.bins[j]) == bin_original_capacity(m.bins[j]));
    }
}

/// Soundness of a solved state: when a reachable state has no pending
/// items, its bins hold exactly the items the initial state held.
pub proof fn lemma_solved_partition(m: Model, n: nat)
    requires
        wf(m),
        spec_run(m, n).items.len() == 0,
    ensures
        bins_items_ms(spec_run(m, n).bins) == all_items(m),
{
    broadcast use vstd::multiset::group_multiset_axioms;

    lemma_run_props(m, n);
    let m2 = spec_run(m, n);
    assert(m2.items.to_multiset().len() == 0);
    let lhs = bins_items_ms(m2.bins);
    assert forall|v: u32| lhs.count(v) == all_items(m).count(v) by {
        assert(all_items(m2).count(v) == m2.items.to_multiset().count(v) + lhs.count(v));
        assert(m2.items.to_multiset().count(v) == 0);
    }
    assert(lhs =~= all_items(m));
}

/// A completed run stops at a unique point: if two step counts both
/// made progress at every step but their last, and both end on a step
/// that reported no work, they are the same count — so the outcome of
/// running a well-formed engine to completion is a function of its
/// starting state alone.
pub proof fn lemma_complete_run_unique(m: Model, n1: nat, n2: nat)
    requires
        n1 >= 1,
        n2 >= 1,
        forall|k: nat| k + 1 < n1 ==> (#[trigger] spec_step(spec_run(m, k))).1,
        forall|k: nat| k + 1 < n2 ==> (#[trigger] spec_step(spec_run(m, k))).1,
        !spec_step(spec_run(m, (n1 - 1) as nat)).1,
        !spec_step(spec_run(m, (n2 - 1) as nat)).1,
    ensures
        n1 == n2,
        spec_run(m, n1) == spec_run(m, n2),
{
    if n1 < n2 {
        assert(((n1 - 1) as nat) + 1 < n2);
        assert(spec_step(spec_run(m, (n1 - 1) as nat)).1);
    }
    if n2 < n1 {
        assert(((n2 - 1) as nat) + 1 < n1);
        assert(spec_step(spec_run(m, (n2 - 1) as nat)).1);
    }
}

/// Interrupting a run and resuming it to completion ends exactly where
/// the uninterrupted complete run ends: interruption changes nothing
/// about the final outcome.
pub proof fn lemma_resume_outcome(m: Model, a: nat, b: nat, n: nat)
    requires
        forall|k: nat| k < a ==> (#[trigger] spec_step(spec_run(m, k))).1,
        b >= 1,
        forall|k: nat| k + 1 < b ==> (#[trigger] spec_step(spec_run(spec_run(m, a), k))).1,
        !spec_step(spec_run(spec_run(m, a), (b - 1) as nat)).1,
        n >= 1,
        forall|k: nat| k + 1 < n ==> (#[trigger] spec_step(spec_run(m, k))).1,
        !spec_step(spec_run(m, (n - 1) as nat)).1,
    ensures
        a + b == n,
        spec_run(spec_run(m, a), b) == spec_run(m, n),
{
    assert forall|k: nat| k + 1 < a + b implies (#[trigger] spec_step(spec_run(m, k))).1 by {
        if k >= a {
            lemma_run_compose(m, a, (k - a) as nat);
            assert(spec_step(spec_run(spec_run(m, a), (k - a) as nat)).1);
        }
    }
    lemma_run_compose(m, a, (b - 1) as nat);
    assert(!spec_step(spec_run(m, (a + b - 1) as nat)).1);
    lemma_complete_run_unique(m, a + b, n);
    lemma_run_compose(m, a, b);
}

/// In every well-formed state the bins stand in canonical order:
/// adjacent bins' item sequences are non-increasing lexicographically.
/// `step` preserves well-formedness, so this holds at every step
/// boundary of the search.
pub proof fn lemma_current_bin_order(m: Model)
    requires
        wf(m),
    ensures
        forall|k: int|
            1 <= k < m.bins.len() ==> !lex_lt(m.bins[k - 1].items, (#[trigger] m.bins[k]).items),
{
    assert forall|k: int| 1 <= k < m.bins.len() implies !lex_lt(
        m.bins[k - 1].items,
        (#[trigger] m.bins[k]).items,
    ) by {
        let full = m.stack.len() as int;
        assert(m.stack.take(full) =~= m.stack);
        assert(bin_prefix(m, full, k) =~= m.bins[k].items);
        assert(bin_prefix(m, full, k - 1) =~= m.bins[k - 1].items);
        assert(!lex_lt(bin_prefix(m, full, k - 1), bin_prefix(m, full, k)));
    }
}

/// Interrupting after `a` steps and resuming for `b` more reaches exactly
/// the state of an uninterrupted `a + b`-step run: interruption never
/// corrupts the search.
pub proof fn lemma_run_compose(m: Model, a: nat, b: nat)
    ensures
        spec_run(spec_run(m, a), b) == spec_run(m, a + b),
    decreases a,
{
    if a > 0 {
        lemma_run_compose(spec_step(m).0, (a - 1) as nat, b);
    }
}

/// Freshly built bins hold nothing.
pub proof fn lemma_bins_empty(bins: Seq<BinModel>)
    requires
        forall|j: int| 0 <= j < bins.len() ==> (#[trigger] bins[j]).items.len() == 0,
    ensures
        bins_item_count(bins) == 0,
        bins_weight(bins) == 0,
        bins_items_ms(bins) == Multiset::<u32>::empty(),
    decreases bins.len(),
{
    broadcast use vstd::multiset::group_multiset_axioms, vstd::multiset::lemma_multiset_empty_len;

    if bins.len() > 0 {
        assert forall|j: int| 0 <= j < bins.drop_last().len() implies (#[trigger] bins.drop_last()[j]).items.len()
            == 0 by {
            assert(bins.drop_last()[j] == bins[j]);
        }
        lemma_bins_empty(bins.drop_last());
        assert(bins.last().items.to_multiset().len() == 0);
        assert(bins.last().items.to_multiset() =~= Multiset::<u32>::empty());
        assert(bins_items_ms(bins) =~= Multiset::<u32>::empty());
    }
}

/// The weight across all bins is at most `c` per bin when each bin's
/// original capacity is at most `c` and no bin is overfull.
pub proof fn lemma_bins_weight_bound(bins: Seq<BinModel>, c: int)
    requires
        forall|j: int| 0 <= j < bins.len() ==> 0 <= (#[trigger] bins[j]).cap,
        forall|j: int| 0 <= j < bins.len() ==> bin_original_capacity(#[trigger] bins[j]) <= c,
        0 <= c,
    ensures
        bins_weight(bins) <= c * bins.len(),
    decreases bins.len(),
{
    if bins.len() == 0 {
    } else {
        assert forall|j: int| 0 <= j < bins.drop_last().len() implies 0 <= (
        #[trigger] bins.drop_last()[j]).cap && bin_original_capacity(bins.drop_last()[j])
            <= c by {
            assert(bins.drop_last()[j] == bins[j]);
        }
        lemma_bins_weight_bound(bins.drop_last(), c);
        assert(weight_sum(bins.last().items) <= c);
        assert(c * bins.len() == c * (bins.len() - 1) + c) by (nonlinear_arith);
    }
}

/// The number of items of the state, pending plus assigned; constant
/// across steps.
pub open spec fn total_count(m: Model) -> int {
    m.items.len() + bins_item_count(m.bins)
}

/// Clamps an integer to a natural exponent.
pub open spec fn bnat(b: int) -> nat {
    if b >= 0 {
        b as nat
    } else {
        0
    }
}

/// The termination measure of a frame stack: each frame contributes the
/// number of bin indices it has not yet tried, weighted so that a frame
/// deeper in the stack counts for less than one untried index of any
/// frame above it. Placing an item advances a frame's index, which
/// outweighs the fresh frame pushed below; dropping a frame removes a
/// positive term. Either way the measure strictly falls.
pub open spec fn stack_measure(s: Seq<Frame>, cap: int, budget: int) -> int
    decreases s.len(),
{
    if s.len() == 0 {
        0
    } else {
        (cap + 1 - s.first().next) * pow(cap + 2, bnat(budget)) + stack_measure(
            s.drop_first(),
            cap,
            budget - 1,
        )
    }
}

/// The termination measure of a search state.
pub open spec fn model_measure(m: Model) -> int {
    stack_measure(m.stack, m.bins.len() as int, total_count(m) + 1)
}

pub proof fn lemma_stack_measure_push(s: Seq<Frame>, f: Frame, cap: int, budget: int)
    ensures
        stack_measure(s.push(f), cap, budget) == stack_measure(s, cap, budget) + (cap + 1
            - f.next) * pow(cap + 2, bnat(budget - s.len())),
    decreases s.len(),
{
    if s.len() == 0 {
        assert(s.push(f).first() == f);
        assert(s.push(f).drop_first() =~= s);
        assert(stack_measure(s.push(f), cap, budget) == (cap + 1 - f.next) * pow(
            cap + 2,
            bnat(budget),
        ) + stack_measure(s, cap, budget - 1));
        assert(stack_measure(s, cap, budget - 1) == 0);
    } else {
        assert(s.push(f).first() == s.first());
        assert(s.push(f).drop_first() =~= s.drop_first().push(f));
        assert(stack_measure(s.push(f), cap, budget) == (cap + 1 - s.first().next) * pow(
            cap + 2,
            bnat(budget),
        ) + stack_measure(s.drop_first().push(f), cap, budget - 1));
        assert(stack_measure(s, cap, budget) == (cap + 1 - s.first().next) * pow(
            cap + 2,
            bnat(budget),
        ) + stack_measure(s.drop_first(), cap, budget - 1));
        lemma_stack_measure_push(s.drop_first(), f, cap, budget - 1);
        assert(bnat(budget - 1 - s.drop_first().len()) == bnat(budget - s.len()));
    }
}

pub proof fn lemma_stack_measure_nonneg(s: Seq<Frame>, cap: int, budget: int)
    requires
        0 <= cap,
        forall|i: int| 0 <= i < s.len() ==> (#[trigger] s[i]).next <= cap,
    ensures
        0 <= stack_measure(s, cap, budget),
    decreases s.len(),
{
    broadcast use vstd::arithmetic::power::lemma_pow_positive;

    if s.len() > 0 {
        let c = cap + 1 - s.first().next;
        let p = pow(cap + 2, bnat(budget));
        assert(s[0].next <= cap);
        assert(c >= 1);
        assert(p >= 1);
        assert(c * p >= 1) by (nonlinear_arith)
            requires
                c >= 1,
                p >= 1,
        ;
        assert forall|i: int| 0 <= i < s.drop_first().len() implies (#[trigger] s.drop_first()[i]).next
            <= cap by {
            assert(s.drop_first()[i] == s[i + 1]);
        }
        lemma_stack_measure_nonneg(s.drop_first(), cap, budget - 1);
    }
}

pub proof fn lemma_stack_measure_drop(s: Seq<Frame>, cap: int, budget: int)
    requires
        s.len() >= 1,
        0 <= cap,
        s.last().next <= cap,
    ensures
        stack_measure(s.drop_last(), cap, budget) < stack_measure(s, cap, budget),
{
    broadcast use vstd::arithmetic::power::lemma_pow_positive;

    assert(s.drop_last().push(s.last()) =~= s);
    lemma_stack_measure_push(s.drop_last(), s.last(), cap, budget);
    let c = cap + 1 - s.last().next;
    let p = pow(cap + 2, bnat(budget - s.drop_last().len()));
    assert(p >= 1);
    assert(c * p >= 1) by (nonlinear_arith)
        requires
            c >= 1,
            p >= 1,
    ;
}

pub proof fn lemma_stack_measure_place(s: Seq<Frame>, f: Frame, g: Frame, cap: int, budget: int)
    requires
        0 <= cap,
        0 <= f.next,
        f.next < g.next <= cap,
        budget >= s.len() + 1,
    ensures
        stack_measure(s.push(g).push(frame_default()), cap, budget) < stack_measure(
            s.push(f),
            cap,
            budget,
        ),
{
    broadcast use vstd::arithmetic::power::lemma_pow_positive;

    lemma_stack_measure_push(s, f, cap, budget);
    lemma_stack_measure_push(s, g, cap, budget);
    lemma_stack_measure_push(s.push(g), frame_default(), cap, budget);
    let e = bnat(budget - s.len());
    let e2 = bnat(budget - s.len() - 1);
    let p1 = pow(cap + 2, e);
    let p2 = pow(cap + 2, e2);
    assert(e >= 1 && e2 == e - 1);
    assert(p1 == (cap + 2) * p2) by {
        reveal(pow);
        assert(p1 == (cap + 2) * pow(cap + 2, (e - 1) as nat));
    }
    assert(p2 >= 1);
    assert((cap + 1 - g.next) * p1 + (cap + 1) * p2 < (cap + 1 - f.next) * p1)
        by (nonlinear_arith)
        requires
            p1 == (cap + 2) * p2,
            p2 >= 1,
            g.next - f.next >= 1,
            g.next <= cap,
            cap >= 0,
    ;
    assert(frame_default().next == 0);
}

pub proof fn lemma_model_measure_nonneg(m: Model)
    requires
        wf(m),
    ensures
        0 <= model_measure(m),
{
    assert forall|i: int| 0 <= i < m.stack.len() implies (#[trigger] m.stack[i]).next
        <= m.bins.len() as int by {
        if m.stack[i].action == Action::Try {
            assert(m.stack[i] == frame_default());
        }
    }
    lemma_stack_measure_nonneg(m.stack, m.bins.len() as int, total_count(m) + 1);
}

/// Every step that reports further work strictly decreases the measure:
/// the search always terminates.
pub proof fn lemma_step_measure(m: Model)
    requires
        wf(m),
        spec_step(m).1,
    ensures
        model_measure(spec_step(m).0) < model_measure(m),
{
    let m2 = spec_step(m).0;
    let f = m.stack.last();
    let rest = m.stack.drop_last();
    let taken = step_take(m);
    let m1 = taken.0;
    let item = taken.1;
    let f1 = step_adjust(m1, f, item);
    lemma_take_props(m);
    lemma_scan_props(m1, f1, item);
    let cap = m.bins.len() as int;
    let bud = total_count(m) + 1;
    assert(total_count(m2) == total_count(m));
    assert(m2.bins.len() == m.bins.len());
    assert(rest.push(f) =~= m.stack);
    assert(f.next >= 0 && f.next <= cap) by {
        if f.action == Action::Try {
            assert(f == frame_default());
        }
    }
    assert(f1.next >= f.next);
    if m2.stack.len() == rest.len() {
        assert(m2.stack == rest);
        lemma_stack_measure_drop(m.stack, cap, bud);
    } else {
        let g = choose|g: Frame|
            g.action == Action::Backtrack && f1.next < g.next <= m1.bins.len() && m2.stack
                == m1.stack.push(g).push(frame_default()) && m2.items == m1.items;
        assert(rest.len() == bins_item_count(m1.bins));
        assert(m1.items.len() <= total_count(m1));
        assert(total_count(m1) == total_count(m) - 1);
        assert(bud >= rest.len() + 2);
        lemma_stack_measure_place(rest, f, g, cap, bud);
    }
}

} // verus!
