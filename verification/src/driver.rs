//! The minimization driver: repeatedly runs the solver engine with a
//! shrinking number of uniform-capacity bins until it proves
//! infeasibility or is interrupted.

use vstd::multiset::Multiset;
use vstd::prelude::*;

use crate::bins::{bin_original_capacity, Bin, BinModel};
use crate::engine::Fitter;
use crate::model::{
    all_items, bins_items_ms, exhausted_run, lemma_bins_empty, lemma_bins_weight_bound,
    lemma_current_bin_order, lemma_run_pending, lemma_run_props, spec_run, spec_step,
    start_model,
};
use crate::weights::{
    lemma_lex_ge_trans, lemma_weight_sum_take_le, lemma_weight_sum_take_step, lex_lt, sorted_asc,
    weight_sum,
};

verus! {

/// The outcome of one driver invocation: nothing proven either way, no
/// assignment possible, or a proven assignment.
#[derive(Copy, Clone, Debug, Default, PartialEq, Eq, PartialOrd, Ord)]
pub enum SolutionState<S> {
    #[default]
    Unknown,
    Unsolvable,
    Solved(S),
}

impl<S> SolutionState<S> {
    /// Keeps the first decided outcome: a later status only replaces
    /// `Unknown`.
    pub fn insert(&mut self, status: Self)
        ensures
            *old(self) is Unknown ==> *final(self) == status,
            !(*old(self) is Unknown) ==> *final(self) == *old(self),
    {
        match self {
            SolutionState::Unknown => {
                *self = status;
            },
            _ => {},
        }
    }
}

/// The multiset of items across a sequence of bins.
pub open spec fn solution_items(bins: Seq<Bin>) -> Multiset<u32>
    decreases bins.len(),
{
    if bins.len() == 0 {
        Multiset::empty()
    } else {
        solution_items(bins.drop_last()).add(bins.last()@.items.to_multiset())
    }
}

/// What a solved count certifies about minimality when the run was never
/// interrupted: one fewer bin was genuinely attempted — either the
/// weight pre-check already excluded it, or a whole search at that count
/// ran to exhaustion without ever passing a solved state.
pub open spec fn minimal_attempt(bins_len: int, weights: Seq<u32>, cap: u32) -> bool {
    bins_len >= 2 ==> weight_sum(weights) > cap * (bins_len - 1) || (exists|s: Seq<u32>|
        sorted_asc(s) && s.to_multiset() == weights.to_multiset() && #[trigger] exhausted_run(
            s,
            bins_len - 1,
            cap,
        ))
}

/// The search gave the whole problem up: either the weight pre-check
/// excluded the full bin count, or a run over it emptied its frame stack
/// while items were pending at every step — it never passed a solved
/// state on the way.
pub open spec fn unsolvable_certificate(weights: Seq<u32>, cap: u32) -> bool {
    weight_sum(weights) > cap * weights.len() || (exists|s: Seq<u32>|
        sorted_asc(s) && s.to_multiset() == weights.to_multiset() && #[trigger] exhausted_run(
            s,
            weights.len() as int,
            cap,
        ))
}

/// What a `Solved` outcome promises: the bins' items are exactly the
/// input items, every reported bin is non-empty, no bin's load exceeds
/// the uniform capacity, and the bins come in the engine's canonical
/// order: non-increasing lexicographically by item sequence.
pub open spec fn good_solution(r: SolutionState<Vec<Bin>>, weights: Seq<u32>, cap: u32) -> bool {
    match r {
        SolutionState::Solved(bins) => {
            &&& solution_items(bins@) == weights.to_multiset()
            &&& forall|i: int| 0 <= i < bins@.len() ==> (#[trigger] bins@[i])@.items.len() > 0
            &&& forall|i: int|
                0 <= i < bins@.len() ==> weight_sum((#[trigger] bins@[i])@.items) <= cap
            &&& forall|i: int|
                1 <= i < bins@.len() ==> !lex_lt(bins@[i - 1]@.items, (#[trigger] bins@[i])@.items)
        },
        _ => true,
    }
}

/// Adjacent order gives pairwise order: in a non-increasing bin
/// sequence, any earlier bin is at least any later one.
proof fn lemma_bins_pairwise(bins: Seq<Bin>, a: int, b: int)
    requires
        forall|i: int| 1 <= i < bins.len() ==> !lex_lt(bins[i - 1]@.items, (#[trigger] bins[i])@.items),
        0 <= a <= b < bins.len(),
    ensures
        !lex_lt(bins[a]@.items, bins[b]@.items),
    decreases b - a,
{
    if a < b {
        lemma_bins_pairwise(bins, a, b - 1);
        lemma_lex_ge_trans(bins[a]@.items, bins[b - 1]@.items, bins[b]@.items);
    } else {
        crate::weights::lemma_lex_irrefl(bins[a]@.items);
    }
}

proof fn lemma_solution_items_models(bins: Seq<Bin>, models: Seq<BinModel>)
    requires
        bins.len() == models.len(),
        forall|j: int| 0 <= j < bins.len() ==> (#[trigger] bins[j])@ == models[j],
    ensures
        solution_items(bins) == bins_items_ms(models),
    decreases bins.len(),
{
    if bins.len() > 0 {
        assert forall|j: int| 0 <= j < bins.drop_last().len() implies (#[trigger] bins.drop_last()[j])@
            == models.drop_last()[j] by {
            assert(bins.drop_last()[j] == bins[j]);
            assert(models.drop_last()[j] == models[j]);
        }
        lemma_solution_items_models(bins.drop_last(), models.drop_last());
        assert(bins.last()@ == models.last());
    }
}

proof fn lemma_solution_items_push(bins: Seq<Bin>, b: Bin)
    ensures
        solution_items(bins.push(b)) == solution_items(bins).add(b@.items.to_multiset()),
{
    assert(bins.push(b).drop_last() =~= bins);
    assert(bins.push(b).last() == b);
}

/// No single item of a reported solution can outweigh the capacity: an
/// input holding a weight above the capacity therefore never yields a
/// `Solved` answer.
pub proof fn lemma_solved_weight_bound(bins: Seq<Bin>, cap: u32, w: u32)
    requires
        forall|i: int| 0 <= i < bins.len() ==> weight_sum((#[trigger] bins[i])@.items) <= cap,
        solution_items(bins).count(w) > 0,
    ensures
        w <= cap,
    decreases bins.len(),
{
    broadcast use vstd::multiset::group_multiset_axioms;

    if bins.len() == 0 {
        assert(false);
    } else if bins.last()@.items.to_multiset().count(w) > 0 {
        crate::weights::lemma_weight_sum_member(bins.last()@.items, w);
    } else {
        assert(solution_items(bins.drop_last()).count(w) > 0);
        assert forall|i: int| 0 <= i < bins.drop_last().len() implies weight_sum(
            (#[trigger] bins.drop_last()[i])@.items,
        ) <= cap by {
            assert(bins.drop_last()[i] == bins[i]);
        }
        lemma_solved_weight_bound(bins.drop_last(), cap, w);
    }
}

/// Sums the weights; the caller guarantees the total fits the machine.
fn sum_weights(weights: &Vec<u32>) -> (r: u64)
    requires
        weight_sum(weights@) <= u64::MAX,
    ensures
        r == weight_sum(weights@),
{
    let mut acc: u64 = 0;
    let mut i: usize = 0;
    proof {
        assert(weights@.take(0) =~= Seq::<u32>::empty());
    }
    while i < weights.len()
        invariant
            i <= weights@.len(),
            acc == weight_sum(weights@.take(i as int)),
            weight_sum(weights@) <= u64::MAX,
        decreases weights@.len() - i,
    {
        proof {
            lemma_weight_sum_take_step(weights@, i as int);
            lemma_weight_sum_take_le(weights@, i as int + 1);
        }
        acc = acc + (weights[i] as u64);
        i = i + 1;
    }
    proof {
        assert(weights@.take(weights@.len() as int) =~= weights@);
    }
    acc
}

fn clone_weights(v: &Vec<u32>) -> (r: Vec<u32>)
    ensures
        r@ == v@,
{
    let mut out: Vec<u32> = Vec::new();
    let mut i: usize = 0;
    proof {
        assert(v@.take(0) =~= Seq::<u32>::empty());
    }
    while i < v.len()
        invariant
            i <= v@.len(),
            out@ == v@.take(i as int),
        decreases v@.len() - i,
    {
        out.push(v[i]);
        proof {
            assert(v@.take(i as int).push(v@[i as int]) =~= v@.take(i as int + 1));
        }
        i = i + 1;
    }
    proof {
        assert(v@.take(v@.len() as int) =~= v@);
    }
    out
}

fn uniform_caps(capacity: u32, count: usize) -> (r: Vec<u32>)
    ensures
        r@.len() == count,
        forall|i: int| 0 <= i < count ==> r@[i] == capacity,
{
    let mut out: Vec<u32> = Vec::new();
    let mut i: usize = 0;
    while i < count
        invariant
            i <= count,
            out@.len() == i,
            forall|k: int| 0 <= k < i ==> out@[k] == capacity,
        decreases count - i,
    {
        out.push(capacity);
        i = i + 1;
    }
    out
}

/// Searches for an assignment of the weights into bins of one uniform
/// capacity, using as few bins as possible when `minimize` is set, and
/// stepping the engine only while `predicate()` returns true.
///
/// A `Solved` answer carries non-empty bins, in canonical non-increasing
/// order, whose items are exactly the input weights, none loaded beyond
/// the capacity. An `Unsolvable` answer carries a certificate: either
/// the total weight exceeds the aggregate capacity of one bin per item,
/// or a whole search over the full bin count ran to exhaustion without
/// ever passing a solved state. `Unknown` can only be reported when the
/// predicate was able to interrupt the run. When the run was never
/// interrupted and minimization was requested, a solved bin count is
/// also certified: one fewer bin was excluded by weight or searched to
/// exhaustion without a solve.
pub fn solve_packing<F: Fn() -> bool + Copy>(
    weights: &Vec<u32>,
    bin_capacity: u32,
    minimize: bool,
    predicate: F,
) -> (r: SolutionState<Vec<Bin>>)
    requires
        weight_sum(weights@) <= u64::MAX,
        call_requires(predicate, ()),
    ensures
        good_solution(r, weights@, bin_capacity),
        weight_sum(weights@) > bin_capacity * weights@.len() ==> r is Unsolvable,
        (forall|ret: bool| call_ensures(predicate, (), ret) ==> ret) ==> !(r is Unknown),
        r is Unsolvable ==> unsolvable_certificate(weights@, bin_capacity),
        (forall|ret: bool| call_ensures(predicate, (), ret) ==> ret) && minimize ==> (r matches
        SolutionState::Solved(bins) ==> minimal_attempt(bins@.len() as int, weights@, bin_capacity)),
{
    let total_weight = sum_weights(weights);
    let mut solution: SolutionState<Vec<Bin>> = SolutionState::Unknown;
    let mut max_bins: usize = weights.len();
    let ghost wms = weights@.to_multiset();
    loop
        invariant_except_break
            call_requires(predicate, ()),
            total_weight == weight_sum(weights@),
            wms == weights@.to_multiset(),
            max_bins <= weights@.len(),
            good_solution(solution, weights@, bin_capacity),
            weight_sum(weights@) > bin_capacity * weights@.len() ==> solution is Unknown
                && max_bins == weights@.len(),
            !(solution is Unsolvable),
            solution is Unknown ==> max_bins == weights@.len(),
            solution matches SolutionState::Solved(b) ==> minimize && b@.len() >= 2 && max_bins
                == b@.len() - 1,
        ensures
            good_solution(solution, weights@, bin_capacity),
            weight_sum(weights@) > bin_capacity * weights@.len() ==> solution is Unsolvable,
            (forall|ret: bool| call_ensures(predicate, (), ret) ==> ret) ==> !(solution
                is Unknown),
            solution is Unsolvable ==> unsolvable_certificate(weights@, bin_capacity),
            (forall|ret: bool| call_ensures(predicate, (), ret) ==> ret) && minimize ==> (solution
            matches SolutionState::Solved(b) ==> minimal_attempt(
                b@.len() as int,
                weights@,
                bin_capacity,
            )),
        decreases max_bins,
    {
        proof {
            assert((bin_capacity as u128) * (max_bins as u128) <= u128::MAX) by (nonlinear_arith)
                requires
                    (bin_capacity as u128) < 0x1_0000_0000,
                    (max_bins as u128) < 0x1_0000_0000_0000_0000_0000_0000,
            ;
        }
        let infeasible = (total_weight as u128) > (bin_capacity as u128) * (max_bins as u128);
        if infeasible {
            proof {
                assert(weight_sum(weights@) > bin_capacity * max_bins);
            }
            solution.insert(SolutionState::Unsolvable);
            break;
        }
        proof {
            assert(weight_sum(weights@) <= bin_capacity * max_bins);
            assert(bin_capacity * max_bins <= bin_capacity * weights@.len()) by (nonlinear_arith)
                requires
                    0 <= bin_capacity,
                    max_bins <= weights@.len(),
            ;
        }
        let bin_caps = uniform_caps(bin_capacity, max_bins);
        let weights_copy = clone_weights(weights);
        let mut solver = Fitter::new(weights_copy, bin_caps);
        let ghost init = solver@;
        proof {
            lemma_bins_empty(init.bins);
            assert(crate::model::total_weight(init) == weight_sum(weights@));
        }
        let finished = solver.solve_until(predicate);
        let ghost n = choose|n: nat| solver@ == spec_run(init, n);
        proof {
            lemma_run_props(init, n);
            assert(all_items(solver@) == wms);
            assert(crate::model::total_weight(solver@) == weight_sum(weights@));
            assert forall|j: int| 0 <= j < solver@.bins.len() implies bin_original_capacity(
                #[trigger] solver@.bins[j],
            ) == bin_capacity && 0 <= solver@.bins[j].cap by {
                assert(bin_original_capacity(init.bins[j]) == bin_capacity);
                assert(crate::bins::bin_wf(solver@.bins[j]));
            }
        }
        if !finished {
            break;
        }
        if solver.is_solved() {
            let ghost final_models = solver@.bins;
            proof {
                broadcast use vstd::multiset::group_multiset_axioms, vstd::seq_lib::group_to_multiset_ensures;

                assert(solver@.items.to_multiset().len() == 0);
                assert(weight_sum(solver@.items) == 0);
                let lhs = bins_items_ms(final_models);
                assert forall|v: u32| lhs.count(v) == wms.count(v) by {
                    assert(all_items(solver@).count(v) == solver@.items.to_multiset().count(v)
                        + lhs.count(v));
                    assert(solver@.items.to_multiset().count(v) == 0);
                }
                assert(lhs =~= wms);
                lemma_bins_weight_bound(final_models, bin_capacity as int);
                assert(crate::model::bins_weight(final_models) == weight_sum(weights@));
                assert(weight_sum(weights@) <= bin_capacity * max_bins);
                lemma_current_bin_order(solver@);
            }
            let bins_all = solver.into_bins();
            proof {
                lemma_solution_items_models(bins_all@, final_models);
                assert(solution_items(bins_all@) == wms);
                assert forall|i: int| 1 <= i < bins_all@.len() implies !lex_lt(
                    bins_all@[i - 1]@.items,
                    (#[trigger] bins_all@[i])@.items,
                ) by {
                    assert(bins_all@[i]@ == final_models[i]);
                    assert(bins_all@[i - 1]@ == final_models[i - 1]);
                }
            }
            let mut src = bins_all;
            let mut rev: Vec<Bin> = Vec::new();
            proof {
                let lhs = solution_items(rev@).add(solution_items(src@));
                assert forall|v: u32| lhs.count(v) == wms.count(v) by {
                    broadcast use vstd::multiset::group_multiset_axioms;

                }
                assert(lhs =~= wms);
                assert forall|a: int, b: int|
                    #![trigger src@[a], src@[b]]
                    0 <= a <= b < src@.len() implies !lex_lt(src@[a]@.items, src@[b]@.items) by {
                    lemma_bins_pairwise(src@, a, b);
                }
            }
            while src.len() > 0
                invariant
                    solution_items(rev@).add(solution_items(src@)) == wms,
                    forall|i: int| 0 <= i < rev@.len() ==> (#[trigger] rev@[i])@.items.len() > 0,
                    forall|i: int|
                        0 <= i < rev@.len() ==> weight_sum((#[trigger] rev@[i])@.items)
                            <= bin_capacity,
                    forall|i: int|
                        0 <= i < src@.len() ==> weight_sum((#[trigger] src@[i])@.items)
                            <= bin_capacity,
                    rev@.len() + src@.len() <= max_bins,
                    forall|a: int, b: int|
                        #![trigger src@[a], src@[b]]
                        0 <= a <= b < src@.len() ==> !lex_lt(src@[a]@.items, src@[b]@.items),
                    forall|a: int, b: int|
                        #![trigger rev@[a], rev@[b]]
                        0 <= a <= b < rev@.len() ==> !lex_lt(rev@[b]@.items, rev@[a]@.items),
                    forall|a: int, b: int|
                        #![trigger src@[a], rev@[b]]
                        0 <= a < src@.len() && 0 <= b < rev@.len() ==> !lex_lt(
                            src@[a]@.items,
                            rev@[b]@.items,
                        ),
                decreases src@.len(),
            {
                let ghost src_pre = src@;
                let ghost rev_pre = rev@;
                let b = src.pop().unwrap();
                proof {
                    assert(src@ =~= src_pre.drop_last());
                    assert(solution_items(src_pre) == solution_items(src@).add(
                        b@.items.to_multiset(),
                    ));
                    assert forall|x: int| 0 <= x < src@.len() implies #[trigger] src@[x]
                        == src_pre[x] by {}
                    assert(b == src_pre[src_pre.len() - 1]);
                }
                if !b.is_empty() {
                    rev.push(b);
                    proof {
                        broadcast use vstd::multiset::group_multiset_axioms;

                        assert forall|x: int| 0 <= x < rev_pre.len() implies #[trigger] rev@[x]
                            == rev_pre[x] by {}
                        assert(rev@[rev@.len() - 1] == b);
                        lemma_solution_items_push(rev_pre, b);
                        let lhs = solution_items(rev@).add(solution_items(src@));
                        assert forall|v: u32| lhs.count(v) == wms.count(v) by {
                            assert(solution_items(rev_pre).add(solution_items(src_pre)).count(v)
                                == wms.count(v));
                        }
                        assert(lhs =~= wms);
                    }
                } else {
                    proof {
                        broadcast use vstd::multiset::group_multiset_axioms,
                            vstd::seq_lib::group_to_multiset_ensures,
                            vstd::multiset::lemma_multiset_empty_len;

                        assert(b@.items.to_multiset().len() == 0);
                        let lhs = solution_items(rev@).add(solution_items(src@));
                        assert forall|v: u32| lhs.count(v) == wms.count(v) by {
                            assert(solution_items(rev_pre).add(solution_items(src_pre)).count(v)
                                == wms.count(v));
                            assert(b@.items.to_multiset().count(v) == 0);
                        }
                        assert(lhs =~= wms);
                    }
                }
            }
            let mut kept: Vec<Bin> = Vec::new();
            proof {
                broadcast use vstd::multiset::group_multiset_axioms;

                let lhs = solution_items(kept@).add(solution_items(rev@));
                assert forall|v: u32| lhs.count(v) == wms.count(v) by {
                    assert(solution_items(rev@).add(solution_items(src@)).count(v) == wms.count(
                        v,
                    ));
                    assert(solution_items(src@).count(v) == 0);
                    assert(solution_items(kept@).count(v) == 0);
                }
                assert(lhs =~= wms);
            }
            while rev.len() > 0
                invariant
                    solution_items(kept@).add(solution_items(rev@)) == wms,
                    forall|i: int| 0 <= i < kept@.len() ==> (#[trigger] kept@[i])@.items.len() > 0,
                    forall|i: int|
                        0 <= i < kept@.len() ==> weight_sum((#[trigger] kept@[i])@.items)
                            <= bin_capacity,
                    forall|i: int| 0 <= i < rev@.len() ==> (#[trigger] rev@[i])@.items.len() > 0,
                    forall|i: int|
                        0 <= i < rev@.len() ==> weight_sum((#[trigger] rev@[i])@.items)
                            <= bin_capacity,
                    kept@.len() + rev@.len() <= max_bins,
                    forall|a: int, b: int|
                        #![trigger kept@[a], kept@[b]]
                        0 <= a <= b < kept@.len() ==> !lex_lt(kept@[a]@.items, kept@[b]@.items),
                    forall|a: int, b: int|
                        #![trigger rev@[a], rev@[b]]
                        0 <= a <= b < rev@.len() ==> !lex_lt(rev@[b]@.items, rev@[a]@.items),
                    forall|a: int, b: int|
                        #![trigger kept@[a], rev@[b]]
                        0 <= a < kept@.len() && 0 <= b < rev@.len() ==> !lex_lt(
                            kept@[a]@.items,
                            rev@[b]@.items,
                        ),
                decreases rev@.len(),
            {
                let ghost rev_pre = rev@;
                let ghost kept_pre = kept@;
                let b = rev.pop().unwrap();
                proof {
                    assert(rev@ =~= rev_pre.drop_last());
                    assert(solution_items(rev_pre) == solution_items(rev@).add(
                        b@.items.to_multiset(),
                    ));
                    assert forall|x: int| 0 <= x < rev@.len() implies #[trigger] rev@[x]
                        == rev_pre[x] by {}
                    assert(b == rev_pre[rev_pre.len() - 1]);
                }
                kept.push(b);
                proof {
                    broadcast use vstd::multiset::group_multiset_axioms;

                    assert forall|x: int| 0 <= x < kept_pre.len() implies #[trigger] kept@[x]
                        == kept_pre[x] by {}
                    assert(kept@[kept@.len() - 1] == b);
                    lemma_solution_items_push(kept_pre, b);
                    let lhs = solution_items(kept@).add(solution_items(rev@));
                    assert forall|v: u32| lhs.count(v) == wms.count(v) by {
                        assert(solution_items(kept_pre).add(solution_items(rev_pre)).count(v)
                            == wms.count(v));
                    }
                    assert(lhs =~= wms);
                }
            }
            proof {
                broadcast use vstd::multiset::group_multiset_axioms;

                let lhs = solution_items(kept@);
                assert forall|v: u32| lhs.count(v) == wms.count(v) by {
                    assert(solution_items(kept@).add(solution_items(rev@)).count(v) == wms.count(
                        v,
                    ));
                    assert(solution_items(rev@).count(v) == 0);
                }
                assert(lhs =~= wms);
            }
            proof {
                assert forall|i: int| 1 <= i < kept@.len() implies !lex_lt(
                    kept@[i - 1]@.items,
                    (#[trigger] kept@[i])@.items,
                ) by {}
            }
            max_bins = if kept.len() == 0 {
                0
            } else {
                kept.len() - 1
            };
            solution = SolutionState::Solved(kept);
            if max_bins > 0 && minimize {
                continue;
            }
            solution.insert(SolutionState::Unsolvable);
            break;
        }
        // the engine ran to exhaustion: a run in which items were pending
        // at every step ended with an empty stack
        proof {
            broadcast use vstd::multiset::group_multiset_axioms,
                vstd::seq_lib::group_to_multiset_ensures;

            let n = choose|n: nat|
                {
                    &&& solver@ == #[trigger] spec_run(init, n)
                    &&& forall|k: nat| k + 1 < n ==> (#[trigger] spec_step(spec_run(init, k))).1
                };
            assert(solver@.items.len() > 0);
            assert(solver@.stack.len() == 0);
            assert(init.items.to_multiset().len() == init.items.len());
            assert(all_items(init).count(solver@.items[0]) >= 0);
            assert(all_items(solver@) == all_items(init));
            assert(solver@.items.to_multiset().len() <= all_items(solver@).len());
            assert(init.items.len() > 0);
            assert forall|k: nat| k <= n implies (#[trigger] spec_run(init, k)).items.len()
                > 0 by {
                lemma_run_pending(init, n, k);
            }
            assert(init =~= start_model(init.items, max_bins as int, bin_capacity));
            assert(spec_run(start_model(init.items, max_bins as int, bin_capacity), n).stack.len()
                == 0);
            assert forall|k: nat|
                k <= n implies (#[trigger] spec_run(
                start_model(init.items, max_bins as int, bin_capacity),
                k,
            )).items.len() > 0 by {
                assert(spec_run(init, k).items.len() > 0);
            }
            assert(exhausted_run(init.items, max_bins as int, bin_capacity));
        }
        solution.insert(SolutionState::Unsolvable);
        break;
    }
    solution
}

} // verus!
