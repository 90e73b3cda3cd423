//! The solver engine: an explicit-stack backtracking search over bins.

use vstd::prelude::*;

use crate::bins::{Bin, BinModel};
use crate::model::{
    all_items, frame_default, lemma_bins_empty, lemma_model_measure_nonneg, lemma_run_snoc,
    lemma_scan_props, lemma_step_measure, lemma_step_props, lemma_take_props, model_measure,
    spec_run, spec_scan, spec_step, step_adjust, step_take, Action, Frame, Model,
};
use crate::weights::{sort_ascending, sorted_asc, vec_lex_lt, weight_sum};

verus! {

/// One saved decision point of the search: the next bin index to try,
/// the residual capacities already attempted at this point (a bin whose
/// residual capacity was already tried is skipped), and whether the
/// frame must first un-place its item.
#[derive(Clone, Debug, PartialEq, Eq)]
struct State {
    tried_capacities: Vec<u32>,
    next_bin_idx: usize,
    action: Action,
}

/// The set of capacities a tried-list stands for.
spec fn caps_set(s: Seq<u32>) -> Set<int> {
    Set::new(|c: int| exists|i: int| 0 <= i < s.len() && s[i] == c)
}

/// The mathematical frame a `State` stands for.
spec fn frame_of(s: State) -> Frame {
    Frame {
        tried: caps_set(s.tried_capacities@),
        next: s.next_bin_idx as int,
        action: s.action,
    }
}

/// Whether this residual capacity was already tried at the frame.
fn caps_contain(v: &Vec<u32>, cap: u32) -> (r: bool)
    ensures
        r == caps_set(v@).contains(cap as int),
{
    let mut i: usize = 0;
    while i < v.len()
        invariant
            i <= v@.len(),
            forall|k: int| 0 <= k < i ==> v@[k] != cap,
        decreases v@.len() - i,
    {
        if v[i] == cap {
            return true;
        }
        i = i + 1;
    }
    false
}

/// The frame sequence a stack of `State`s stands for.
spec fn stack_view(s: Seq<State>) -> Seq<Frame> {
    Seq::new(s.len(), |i: int| frame_of(s[i]))
}

/// The bin models a bin vector stands for.
spec fn bins_view(s: Seq<Bin>) -> Seq<BinModel> {
    Seq::new(s.len(), |i: int| s[i]@)
}

impl State {
    /// A frame that has tried nothing yet.
    fn fresh() -> (r: Self)
        ensures
            frame_of(r) == frame_default(),
    {
        let r = State { tried_capacities: Vec::new(), next_bin_idx: 0, action: Action::Try };
        proof {
            assert(caps_set(r.tried_capacities@) =~= Set::<int>::empty());
            assert(frame_of(r) =~= frame_default());
        }
        r
    }
}

/// The backtracking solver: pending items (sorted ascending, largest
/// taken first), the bins, and the explicit stack of decision frames.
pub struct Fitter {
    pub items: Vec<u32>,
    pub bins: Vec<Bin>,
    state_stack: Vec<State>,
}

impl View for Fitter {
    type V = Model;

    closed spec fn view(&self) -> Model {
        Model {
            items: self.items@,
            bins: bins_view(self.bins@),
            stack: stack_view(self.state_stack@),
        }
    }
}

impl Fitter {
    /// Well-formedness of the whole engine state.
    pub open spec fn wf(self) -> bool {
        crate::model::wf(self@)
    }

    /// Builds an engine from item weights and bin capacities: the items
    /// are sorted ascending (so the largest is placed first), each
    /// capacity becomes an empty bin, and the stack holds one fresh
    /// frame.
    pub fn new(items: Vec<u32>, bin_capacities: Vec<u32>) -> (r: Self)
        ensures
            r.wf(),
            sorted_asc(r@.items),
            r@.items.to_multiset() == items@.to_multiset(),
            weight_sum(r@.items) == weight_sum(items@),
            r@.bins.len() == bin_capacities@.len(),
            forall|j: int|
                0 <= j < bin_capacities@.len() ==> r@.bins[j] == (BinModel {
                    cap: bin_capacities@[j] as int,
                    items: Seq::<u32>::empty(),
                }),
            r@.stack == seq![frame_default()],
            all_items(r@) == items@.to_multiset(),
    {
        let sorted = sort_ascending(items);
        let mut bins: Vec<Bin> = Vec::new();
        let mut i: usize = 0;
        while i < bin_capacities.len()
            invariant
                i <= bin_capacities@.len(),
                bins@.len() == i,
                forall|j: int| 0 <= j < i ==> bins@[j]@.cap == bin_capacities@[j] as int,
                forall|j: int| 0 <= j < i ==> (#[trigger] bins@[j])@.items.len() == 0,
            decreases bin_capacities@.len() - i,
        {
            bins.push(Bin::new(bin_capacities[i]));
            i = i + 1;
        }
        let mut state_stack: Vec<State> = Vec::new();
        state_stack.push(State::fresh());
        let r = Fitter { items: sorted, bins, state_stack };
        proof {
            broadcast use vstd::multiset::group_multiset_axioms;

            assert forall|j: int| 0 <= j < bin_capacities@.len() implies r@.bins[j] == (BinModel {
                cap: bin_capacities@[j] as int,
                items: Seq::<u32>::empty(),
            }) by {
                assert(r@.bins[j].items =~= Seq::<u32>::empty());
            }
            assert(r@.stack =~= seq![frame_default()]);
            lemma_bins_empty(r@.bins);
            assert(seq![frame_default()].drop_last() =~= Seq::<Frame>::empty());
            assert forall|j: int| 0 <= j < r@.bins.len() implies (#[trigger] r@.bins[j]).items.len()
                == crate::model::placed_count(r@.stack, j) by {
                assert(r@.stack.len() == 1);
                assert(r@.stack.last() == frame_default());
                assert(r@.stack.drop_last().len() == 0);
                assert(crate::model::placed_count(r@.stack.drop_last(), j) == 0);
                assert(crate::model::frame_places(frame_default(), j) == 0);
                assert(crate::model::placed_count(r@.stack, j) == 0);
            }
            assert(crate::model::top_is_try(r@.stack));
            assert forall|i: int, k: int|
                0 <= i <= r@.stack.len() && 1 <= k < r@.bins.len() implies !crate::weights::lex_lt(
                crate::model::bin_prefix(r@, i, k - 1),
                #[trigger] crate::model::bin_prefix(r@, i, k),
            ) by {
                if i == 0 {
                    assert(r@.stack.take(i) =~= Seq::<Frame>::empty());
                    assert(r@.stack.take(i).len() == 0);
                } else {
                    assert(r@.stack.take(i) =~= r@.stack);
                    assert(r@.stack.drop_last().len() == 0);
                    assert(crate::model::placed_count(r@.stack.drop_last(), k) == 0);
                    assert(crate::model::placed_count(r@.stack.drop_last(), k - 1) == 0);
                    assert(r@.stack.last() == frame_default());
                    assert(crate::model::frame_places(frame_default(), k) == 0);
                    assert(crate::model::frame_places(frame_default(), k - 1) == 0);
                    assert(crate::model::placed_count(r@.stack, k) == 0);
                    assert(crate::model::placed_count(r@.stack, k - 1) == 0);
                }
                assert(crate::model::placed_count(r@.stack.take(i), k) == 0);
                assert(crate::model::placed_count(r@.stack.take(i), k - 1) == 0);
                assert(crate::model::bin_prefix(r@, i, k) =~= Seq::<u32>::empty());
                assert(crate::model::bin_prefix(r@, i, k - 1) =~= Seq::<u32>::empty());
            }
            assert(crate::model::bins_ordered_throughout(r@));
            assert(r.wf());
            assert(all_items(r@) =~= sorted@.to_multiset());
        }
        r
    }

    /// Consumes the engine and hands out its bins, in order.
    pub fn into_bins(self) -> (r: Vec<Bin>)
        ensures
            r@.len() == self@.bins.len(),
            forall|j: int| 0 <= j < r@.len() ==> (#[trigger] r@[j])@ == self@.bins[j],
    {
        self.bins
    }

    /// Whether the search has placed every item.
    pub fn is_solved(&self) -> (r: bool)
        ensures
            r == (self@.items.len() == 0),
    {
        self.items.is_empty()
    }

    /// One unit of search progress, exactly one `spec_step` transition:
    /// `None` when no work was possible, because the stack was empty
    /// (search exhausted) or a `Try` frame found no pending item left
    /// (solved); otherwise one placement attempt was consumed.
    fn step_inner(&mut self) -> (r: Option<()>)
        requires
            old(self).wf(),
        ensures
            final(self).wf(),
            final(self)@ == spec_step(old(self)@).0,
            r is Some <==> spec_step(old(self)@).1,
    {
        proof {
            lemma_step_props(old(self)@);
        }
        let ghost m0 = self@;
        let popped_frame = self.state_stack.pop();
        let mut current = match popped_frame {
            None => {
                proof {
                    assert(m0.stack.len() == 0);
                    assert(self@ =~= m0);
                }
                return None;
            },
            Some(c) => c,
        };
        proof {
            assert(stack_view(self.state_stack@) =~= m0.stack.drop_last());
            assert(frame_of(current) == m0.stack.last());
        }
        let ghost f0 = frame_of(current);
        let mut item: u32;
        match current.action {
            Action::Backtrack => {
                proof {
                    lemma_take_props(m0);
                    assert(1 <= f0.next <= m0.bins.len());
                }
                let j = current.next_bin_idx - 1;
                proof {
                    assert(self.bins@[j as int].wf());
                    assert(self.bins@[j as int]@.items.len() > 0);
                }
                let popped_item = self.bins[j].pop();
                item = popped_item.unwrap();
                proof {
                    assert(self@ =~= step_take(m0).0);
                    assert(item == step_take(m0).1);
                }
            },
            Action::Try => {
                let popped_item = self.items.pop();
                match popped_item {
                    None => {
                        proof {
                            assert(m0.items.len() == 0);
                            assert(self@ =~= spec_step(m0).0);
                        }
                        return None;
                    },
                    Some(it) => {
                        item = it;
                        proof {
                            lemma_take_props(m0);
                            assert(self@ =~= step_take(m0).0);
                            assert(item == step_take(m0).1);
                        }
                    },
                }
            },
        }
        let ghost m1 = self@;
        proof {
            assert(m1 == step_take(m0).0);
            assert(item == step_take(m0).1);
        }
        if self.state_stack.len() > 0 {
            proof {
                assert(m1.stack.last() == frame_of(self.state_stack@.last()));
                assert(1 <= m1.stack.last().next <= m1.bins.len());
                assert(m1.bins[m1.stack.last().next - 1].items.len() > 0);
            }
            let p_next = self.state_stack[self.state_stack.len() - 1].next_bin_idx;
            let cb = p_next - 1;
            let blen = self.bins[cb].items.len();
            let prev_item = self.bins[cb].items[blen - 1];
            proof {
                assert(prev_item == m1.bins[cb as int].items.last());
            }
            if prev_item <= item {
                if cb > current.next_bin_idx {
                    current.next_bin_idx = cb;
                }
            }
        }
        proof {
            assert(frame_of(current) == step_adjust(m1, f0, item));
        }
        let ghost f1 = frame_of(current);
        proof {
            assert(crate::model::scan_pre(m1, f1));
            lemma_scan_props(m1, f1, item);
            assert(spec_step(m0).0 == spec_scan(m1, f1, item));
            assert(spec_step(m0).1);
        }
        let ghost item0 = item;
        loop
            invariant
                m0 == old(self)@,
                self@ == m1,
                item == item0,
                m1.bins.len() == self.bins@.len(),
                current.next_bin_idx <= self.bins.len(),
                frame_of(current).tried == f1.tried,
                frame_of(current).action == f1.action,
                crate::model::scan_pre(m1, f1),
                spec_scan(m1, f1, item0) == spec_scan(m1, frame_of(current), item0),
                spec_step(m0).0 == spec_scan(m1, f1, item0),
                spec_step(m0).1,
                crate::model::wf(spec_step(m0).0),
            decreases self.bins@.len() - current.next_bin_idx,
        {
            let bin_idx = current.next_bin_idx;
            if bin_idx >= self.bins.len() {
                self.items.push(item);
                proof {
                    assert(spec_scan(m1, frame_of(current), item0) == (Model {
                        items: m1.items.push(item0),
                        bins: m1.bins,
                        stack: m1.stack,
                    }));
                    assert(self@ =~= spec_step(m0).0);
                }
                return Some(());
            }
            let ghost fc = frame_of(current);
            current.next_bin_idx = bin_idx + 1;
            proof {
                assert(frame_of(current) == (Frame { next: fc.next + 1, ..fc }));
            }
            if !self.bins[bin_idx].fits(&item) {
                proof {
                    assert(m1.bins[fc.next].cap < item0);
                    assert(spec_scan(m1, fc, item0) == spec_scan(m1, frame_of(current), item0));
                }
                continue;
            }
            let cap_before = self.bins[bin_idx].capacity;
            let already_tried = caps_contain(&current.tried_capacities, cap_before);
            if already_tried {
                proof {
                    assert(fc.tried.contains(m1.bins[fc.next].cap));
                    assert(spec_scan(m1, fc, item0) == spec_scan(m1, frame_of(current), item0));
                }
                continue;
            }
            proof {
                assert(!fc.tried.contains(m1.bins[fc.next].cap));
            }
            proof {
                assert(crate::bins::bin_wf(m1.bins[bin_idx as int]));
            }
            self.bins[bin_idx].push(item);
            if bin_idx >= 1 {
                let bad = vec_lex_lt(&self.bins[bin_idx - 1].items, &self.bins[bin_idx].items);
                if bad {
                    proof {
                        assert(self.bins@[bin_idx as int].wf());
                        assert(self.bins@[bin_idx as int]@.items.len() > 0);
                    }
                    let popped_back = self.bins[bin_idx].pop();
                    item = popped_back.unwrap();
                    proof {
                        assert(item == item0);
                        assert(m1.bins[fc.next].items.push(item0).drop_last() =~= m1.bins[
                            fc.next
                        ].items);
                        assert(self.bins@[bin_idx as int]@ =~= m1.bins[fc.next]);
                        assert(self@ =~= m1);
                        assert(bin_idx as int >= 1 && crate::weights::lex_lt(
                            m1.bins[fc.next - 1].items,
                            m1.bins[fc.next].items.push(item0),
                        ));
                        assert(spec_scan(m1, fc, item0) == spec_scan(
                            m1,
                            frame_of(current),
                            item0,
                        ));
                    }
                    continue;
                }
            }
            let ghost tc0 = current.tried_capacities@;
            current.tried_capacities.push(cap_before);
            current.action = Action::Backtrack;
            proof {
                broadcast use vstd::set::group_set_axioms;

                let pushed = current.tried_capacities@;
                let cap_i = m1.bins[fc.next].cap;
                assert(fc.tried == caps_set(tc0));
                assert(cap_i == cap_before as int);
                assert forall|c: int|
                    caps_set(pushed).contains(c) == fc.tried.insert(cap_i).contains(c) by {
                    if caps_set(pushed).contains(c) {
                        let i = choose|i: int| 0 <= i < pushed.len() && pushed[i] == c;
                        if i < tc0.len() {
                            assert(tc0[i] == c);
                            assert(caps_set(tc0).contains(c));
                        } else {
                            assert(c == cap_i);
                        }
                    }
                    if fc.tried.insert(cap_i).contains(c) {
                        if fc.tried.contains(c) {
                            let i = choose|i: int| 0 <= i < tc0.len() && tc0[i] == c;
                            assert(pushed[i] == c);
                            assert(caps_set(pushed).contains(c));
                        } else {
                            assert(c == cap_i);
                            assert(pushed[tc0.len() as int] == cap_before);
                            assert(caps_set(pushed).contains(c));
                        }
                    }
                }
                assert(caps_set(pushed) =~= fc.tried.insert(cap_i));
            }
            self.state_stack.push(current);
            self.state_stack.push(State::fresh());
            proof {
                let g = Frame {
                    tried: fc.tried.insert(m1.bins[fc.next].cap),
                    next: fc.next + 1,
                    action: Action::Backtrack,
                };
                assert(stack_view(self.state_stack@) =~= m1.stack.push(g).push(frame_default()));
                assert(spec_scan(m1, fc, item0) == (Model {
                    items: m1.items,
                    bins: m1.bins.update(
                        fc.next,
                        BinModel {
                            cap: m1.bins[fc.next].cap - item0,
                            items: m1.bins[fc.next].items.push(item0),
                        },
                    ),
                    stack: m1.stack.push(g).push(frame_default()),
                }));
                assert(self@ =~= spec_step(m0).0);
            }
            return Some(());
        }
    }

    /// Advances the search by one placement attempt. Returns whether
    /// further progress is possible; `false` means the search is over
    /// for this call: either every item is placed (solved) or the stack
    /// is exhausted (proven infeasible).
    pub fn step(&mut self) -> (r: bool)
        requires
            old(self).wf(),
        ensures
            final(self).wf(),
            final(self)@ == spec_step(old(self)@).0,
            r == spec_step(old(self)@).1,
    {
        self.step_inner().is_some()
    }

    /// Runs `step` while `predicate()` keeps returning true and progress
    /// remains possible. Returns the last predicate value: `false` means
    /// the run was interrupted and the engine can be resumed later;
    /// `true` means the search itself finished, solved or exhausted.
    ///
    /// The final state is always some number of whole steps from the
    /// starting state, every step before the last reported further work,
    /// and a finished run ends on the first step that reported none — so
    /// the search stops at the unique completion point, and interrupting
    /// and resuming never changes the outcome (see
    /// `lemma_complete_run_unique` and `lemma_resume_outcome`). A
    /// predicate that can never return true leaves the engine untouched.
    pub fn solve_until<F: Fn() -> bool>(&mut self, predicate: F) -> (r: bool)
        requires
            old(self).wf(),
            call_requires(predicate, ()),
        ensures
            final(self).wf(),
            call_ensures(predicate, (), r),
            exists|n: nat|
                {
                    &&& final(self)@ == #[trigger] spec_run(old(self)@, n)
                    &&& forall|k: nat|
                        k + 1 < n ==> (#[trigger] spec_step(spec_run(old(self)@, k))).1
                    &&& r ==> n >= 1 && !spec_step(spec_run(old(self)@, (n - 1) as nat)).1
                    &&& !r ==> forall|k: nat|
                        k < n ==> (#[trigger] spec_step(spec_run(old(self)@, k))).1
                },
            r ==> final(self)@.stack.len() == 0 || final(self)@.items.len() == 0,
            (forall|ret: bool| call_ensures(predicate, (), ret) ==> !ret) ==> final(self)@ == old(
                self,
            )@ && !r,
    {
        let ghost m0 = self@;
        let mut solving = predicate();
        let ghost mut steps: nat = 0;
        proof {
            assert(self@ == spec_run(m0, 0));
        }
        loop
            invariant_except_break
                forall|k: nat| k < steps ==> (#[trigger] spec_step(spec_run(m0, k))).1,
            invariant
                m0 == old(self)@,
                self.wf(),
                call_requires(predicate, ()),
                call_ensures(predicate, (), solving),
                self@ == spec_run(m0, steps),
                (forall|ret: bool| call_ensures(predicate, (), ret) ==> !ret) ==> steps == 0
                    && !solving,
            ensures
                self.wf(),
                call_ensures(predicate, (), solving),
                self@ == spec_run(m0, steps),
                forall|k: nat| k + 1 < steps ==> (#[trigger] spec_step(spec_run(m0, k))).1,
                solving ==> steps >= 1 && !spec_step(spec_run(m0, (steps - 1) as nat)).1,
                !solving ==> forall|k: nat| k < steps ==> (#[trigger] spec_step(spec_run(m0, k))).1,
                solving ==> self@.stack.len() == 0 || self@.items.len() == 0,
                (forall|ret: bool| call_ensures(predicate, (), ret) ==> !ret) ==> steps == 0
                    && !solving,
            decreases model_measure(self@),
        {
            if !solving {
                break;
            }
            let ghost pre = self@;
            let progress = self.step();
            proof {
                lemma_run_snoc(m0, steps);
                steps = steps + 1;
                assert(self@ == spec_run(m0, steps));
            }
            if !progress {
                proof {
                    assert(!spec_step(spec_run(m0, (steps - 1) as nat)).1);
                    if pre.stack.len() == 0 {
                        assert(self@ == pre);
                    } else {
                        assert(pre.items.len() == 0);
                        assert(self@.items == pre.items);
                    }
                }
                break;
            }
            proof {
                assert(spec_step(spec_run(m0, (steps - 1) as nat)).1);
                lemma_step_measure(pre);
                lemma_model_measure_nonneg(self@);
            }
            solving = predicate();
        }
        proof {
            let n = steps;
            assert(final(self)@ == spec_run(m0, n));
        }
        solving
    }
}

} // verus!
