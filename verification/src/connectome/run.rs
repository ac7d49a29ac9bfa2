//! A step under way: which numbers it asks for next, and where it goes with them.
//!
//! A step alternates between decisions, which are made here, and numbers, which are handed in. It
//! begins with [`NativeConnectome::begin_step`]. [`NativeConnectome::emit`] takes the emission
//! ratios; from then on the step asks for a draw, for what happened to a node out of sight, or for
//! the numbers that end it.

use super::gauge::{gauge_start, Gauge, GaugeRun};
use super::step::{is_node_list, sighted, StepPlan, StepStart};
use super::{is_cold, measured, picked, visited, ColdUpdate, Draw, NativeConnectome, State};
use crate::binary64::Bits;
use crate::members::listed;
use vstd::prelude::*;

verus! {

/// The gauge step of a step, with walkers under way.
pub struct Walk {
    pub stim_nodes: Vec<usize>,
    pub run: GaugeRun,
}

/// The visits to the active nodes: those before `next` are done, and the one there was out of
/// sight.
pub struct Visits {
    pub plan: StepPlan,
    pub next: usize,
}

/// What a step asks for next: the draw of a walker, what happened to a node that was out of sight,
/// or the numbers that end the step.
pub enum Step {
    Walk(Walk),
    Visit(Visits),
    Compute(StepPlan),
}

impl Step {
    /// The step fits the state `s`.
    pub open spec fn wf(self, s: State) -> bool {
        match self {
            Step::Walk(w) => w.wf(s),
            Step::Visit(v) => v.wf(s),
            Step::Compute(plan) => {
                &&& plan.wf(s)
                &&& plan.all_seen(s)
                &&& plan.visited_before(s, plan.active_list@.len() as int)
            },
        }
    }

    /// The plan that the step follows, once there is one.
    pub open spec fn planned(self) -> Option<StepPlan> {
        match self {
            Step::Walk(_) => None,
            Step::Visit(v) => Some(v.plan),
            Step::Compute(plan) => Some(plan),
        }
    }
}

impl Walk {
    /// A walker is under way, and the stimulated nodes are listed.
    pub open spec fn wf(self, s: State) -> bool {
        self.run.wf(s) && self.run@.cursor is Some && is_node_list(s, self.stim_nodes@)
    }
}

impl Visits {
    /// The nodes before the next one were visited at this tick, the next one was out of sight, and
    /// what is to be computed is observed or yet to be visited.
    pub open spec fn wf(self, s: State) -> bool {
        &&& self.plan.wf(s)
        &&& self.plan.seen_before(s, self.next as int)
        &&& self.plan.visited_before(s, self.next as int)
        &&& self.next < self.plan.active_list@.len()
        &&& is_cold(s, self.plan.active_list@[self.next as int] as int)
    }
}

/// The state after the listed nodes from place `k` on were visited up to the first one that was out
/// of sight, and the place of that one.
pub open spec fn seen(s: State, list: Seq<usize>, k: int) -> (State, int)
    decreases list.len() - k,
{
    if k >= list.len() || is_cold(s, list[k] as int) {
        (s, k)
    } else {
        seen(visited(s, list[k]), list, k + 1)
    }
}

/// Whether the step `next` in the state `after` is where the visits by `plan` from place `k` on
/// lead.
pub open spec fn rests_at(s: State, plan: StepPlan, k: int, after: State, next: Step) -> bool {
    let (end, place) = seen(s, plan.active_list@, k);
    &&& after == end
    &&& match next {
        Step::Walk(_) => false,
        Step::Visit(v) => place < plan.active_list@.len() && v.next == place && v.plan == plan,
        Step::Compute(p) => place == plan.active_list@.len() && p == plan,
    }
}

/// Whether the step `next` in the state `after` is where the gauge step `g` leads: to the next
/// draw while a walker is under way, and then over the plan to the visits.
pub open spec fn follows(
    s: State,
    stim: Seq<usize>,
    g: Gauge,
    after: State,
    next: Step,
) -> bool {
    if g.cursor is Some {
        &&& after == s
        &&& next matches Step::Walk(w) && w.stim_nodes@ == stim && w.run@ == g
    } else {
        let mid = sighted(s, stim, g.active_set(s), g.warm_set(s));
        exists|plan: StepPlan|
            {
                &&& #[trigger] plan.describes(
                    s,
                    stim,
                    g.hops.len(),
                    g.active_set(s),
                    g.warm_set(s),
                    g.proposed_set(s),
                )
                &&& plan.wf(mid)
                &&& rests_at(mid, plan, 0, after, next)
            }
    }
}

/// Whether the step `next` in the state `after` is where it leads that the node at which `visits`
/// stand catches up with `update` and the visits go on.
pub open spec fn caught_up(
    s: State,
    visits: Visits,
    update: ColdUpdate,
    after: State,
    next: Step,
) -> bool {
    let node = visits.plan.active_list@[visits.next as int];
    rests_at(
        visited(measured(s, node as int, update), node),
        visits.plan,
        visits.next + 1,
        after,
        next,
    )
}

/// Once the active node at place `k` is observed, what is to be computed is observed or stands
/// after that place.
proof fn lemma_seen_one(plan: StepPlan, before: State, after: State, k: int)
    requires
        plan.seen_before(before, k),
        0 <= k < plan.active_list@.len(),
        after.observed == before.observed.insert(plan.active_list@[k]),
    ensures
        plan.seen_before(after, k + 1),
{
    assert forall|i: usize| #[trigger] listed(plan.compute_list@, i as int) implies after.observed.contains(
        i,
    ) || exists|l: int|
        k + 1 <= l < plan.active_list@.len() && #[trigger] plan.active_list@[l] == i by {
        if !after.observed.contains(i) {
            let l = choose|l: int|
                k <= l < plan.active_list@.len() && #[trigger] plan.active_list@[l] == i;
            assert(plan.active_list@[l] == i);
        }
    }
}

impl NativeConnectome {
    /// Visits the active nodes from place `k` on, up to one that was out of sight.
    fn look(&mut self, plan: StepPlan, k: usize) -> (next: Step)
        requires
            old(self).wf(),
            plan.wf(old(self)@),
            plan.seen_before(old(self)@, k as int),
            plan.visited_before(old(self)@, k as int),
            k <= plan.active_list@.len(),
        ensures
            final(self).wf(),
            next.wf(final(self)@),
            rests_at(old(self)@, plan, k as int, final(self)@, next),
    {
        let mut at: usize = k;
        while at < plan.active_list.len()
            invariant
                self.wf(),
                plan.wf(self@),
                plan.seen_before(self@, at as int),
                plan.visited_before(self@, at as int),
                at <= plan.active_list@.len(),
                seen(self@, plan.active_list@, at as int) == seen(
                    old(self)@,
                    plan.active_list@,
                    k as int,
                ),
            decreases plan.active_list@.len() - at,
        {
            let node = plan.active_list[at];
            if self.cold_gap(node).is_some() {
                return Step::Visit(Visits { plan, next: at });
            }
            let ghost before = self@;
            self.visit(node, None);
            proof {
                lemma_seen_one(plan, before, self@, at as int);
            }
            at = at + 1;
        }
        Step::Compute(plan)
    }

    /// Goes on with a gauge step: to its next draw, or to the visits once no walker is left.
    fn proceed(&mut self, stim_nodes: Vec<usize>, run: GaugeRun) -> (next: Step)
        requires
            old(self).wf(),
            run.wf(old(self)@),
            is_node_list(old(self)@, stim_nodes@),
        ensures
            final(self).wf(),
            next.wf(final(self)@),
            follows(old(self)@, stim_nodes@, run@, final(self)@, next),
    {
        if run.pending().is_some() {
            return Step::Walk(Walk { stim_nodes, run });
        }
        let outcome = run.finish(self);
        let plan = self.plan_step(stim_nodes.as_slice(), outcome);
        self.look(plan, 0)
    }

    /// Lets the candidates emit: each as many walkers as its ratio rounded down says, each with as
    /// many hops as `reach` rounded down says. `v_root` is the speed that counts as fast.
    pub fn emit(&mut self, start: StepStart, ratios: &[Bits], v_root: Bits, reach: Bits) -> (next:
        Step)
        requires
            old(self).wf(),
            is_node_list(old(self)@, start.stim_nodes@),
            ratios@.len() == start.candidates@.len(),
        ensures
            final(self).wf(),
            next.wf(final(self)@),
            follows(
                old(self)@,
                start.stim_nodes@,
                gauge_start(old(self)@, start.candidates@, ratios@, v_root, reach),
                final(self)@,
                next,
            ),
    {
        let run = self.run_gauge_step(start.candidates, ratios, v_root, reach);
        self.proceed(start.stim_nodes, run)
    }

    /// Takes the walker that `walk` stands at one hop further by `draw`, or ends it.
    pub fn hop(&mut self, walk: Walk, draw: &Draw) -> (next: Step)
        requires
            old(self).wf(),
            walk.wf(old(self)@),
            draw.cdf@.len() == old(self)@.rows[walk.run@.cursor->0.node as int].len(),
            walk.run@.hops.len() < usize::MAX,
        ensures
            final(self).wf(),
            next.wf(final(self)@),
            follows(
                old(self)@,
                walk.stim_nodes@,
                walk.run@.next(
                    old(self)@,
                    walk.run@.cursor->0,
                    picked(
                        old(self)@.rows[walk.run@.cursor->0.node as int],
                        draw.w_sum,
                        draw.u,
                        draw.cdf@,
                    ),
                ),
                final(self)@,
                next,
            ),
    {
        let mut run = walk.run;
        run.propagate_one(self, draw);
        self.proceed(walk.stim_nodes, run)
    }

    /// Takes in what happened to the node that `visits` stands at, and goes on visiting.
    pub fn catch_up(&mut self, visits: Visits, update: ColdUpdate) -> (next: Step)
        requires
            old(self).wf(),
            visits.wf(old(self)@),
            update.psi@.len() == old(
                self,
            )@.rows[visits.plan.active_list@[visits.next as int] as int].len(),
        ensures
            final(self).wf(),
            next.wf(final(self)@),
            caught_up(old(self)@, visits, update, final(self)@, next),
    {
        let node = visits.plan.active_list[visits.next];
        assert(visits.plan.active_list@.len() == visits.plan.active_list.len());
        self.visit(node, Some(update));
        proof {
            lemma_seen_one(visits.plan, old(self)@, self@, visits.next as int);
        }
        self.look(visits.plan, visits.next + 1)
    }
}

} // verus!
