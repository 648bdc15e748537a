//! The adaptive sampling loop, as a state machine.
//!
//! The driver owns the process boundary: it runs the instrumented child
//! under the simulator and reports each run's instruction-read count back.
//! Everything the loop decides — calibration, per-axis seeding with adaptive
//! steps, and the randomly drawn joint combinations — happens here, one
//! measurement per transition: [`Sampler::start`] yields the calibration
//! request, and each [`Sampler::step`] consumes one measured count and
//! yields the next request, until the dataset is complete.

use vstd::prelude::*;
use itertools::Itertools;
use rand::seq::IteratorRandom;
use crate::builder::{ParamBuilder, lemma_param_of_index};
use crate::model::{estimate_stepsize, spec_estimate_stepsize, MIN_CHANGE, NUM_JOINT_STEPS, NUM_SEEDING_STEPS};
use crate::samples::{Samples, SamplesV};

verus! {

/// What the driver must do next.
pub enum SamplerAction {
    /// Run the child with this assignment and report its instruction reads.
    Measure(Samples),
    /// The dataset is complete.
    Finished,
    /// A registered parameter has no valid step at all.
    Abort,
}

/// The seeding steps chosen for one axis.
pub struct AxisSeeds {
    pub name: String,
    pub steps: Vec<usize>,
}

/// Where the loop stands.
pub enum SamplerPhase {
    /// Waiting for the calibration measurement.
    Calibrate,
    /// Seeding one range axis: `prev` is the assignment being measured,
    /// with the axis at `current_step` and every other parameter at its
    /// lower bound.
    Seeding { axis: usize, obs: Vec<(usize, u64)>, current_step: usize, prev: Samples },
    /// Measuring the drawn joint combinations, `next` being the one under
    /// measurement.
    Joint { combos: Vec<Vec<usize>>, next: usize },
    /// Nothing left to measure.
    Done,
}

/// The sampling loop's state.
pub struct Sampler {
    pub builder: ParamBuilder,
    pub calibration: u64,
    pub seeds: Vec<AxisSeeds>,
    pub dataset: Vec<(Samples, u64)>,
    pub phase: SamplerPhase,
}

/// The instruction delta of a measurement against the calibration baseline;
/// a measurement below the baseline clamps to zero.
pub open spec fn spec_delta(ir: u64, calibration: u64) -> u64 {
    if ir >= calibration {
        (ir - calibration) as u64
    } else {
        0u64
    }
}

/// Whenever the benchmark body adds instructions over its setup, the
/// recorded delta is the exact difference, and never negative.
pub proof fn lemma_delta_calibration(ir: u64, calibration: u64)
    requires
        ir >= calibration,
    ensures
        spec_delta(ir, calibration) == ir - calibration,
        spec_delta(ir, calibration) >= 0,
{
}

/// The number of joint combinations over the per-axis seed counts.
pub open spec fn spec_product(sizes: Seq<usize>) -> int
    decreases sizes.len(),
{
    if sizes.len() == 0 {
        1
    } else {
        spec_product(sizes.drop_last()) * sizes.last()
    }
}

/// A product of positive counts is positive.
proof fn lemma_product_pos(sizes: Seq<usize>)
    requires
        forall|i: int| 0 <= i < sizes.len() ==> (#[trigger] sizes[i]) >= 1,
    ensures
        spec_product(sizes) >= 1,
    decreases sizes.len(),
{
    if sizes.len() > 0 {
        assert(forall|i: int| 0 <= i < sizes.drop_last().len()
            ==> (#[trigger] sizes.drop_last()[i]) >= 1);
        lemma_product_pos(sizes.drop_last());
        assert(sizes.last() >= 1);
        assert(spec_product(sizes.drop_last()) * sizes.last()
            >= spec_product(sizes.drop_last()) * 1) by (nonlinear_arith)
            requires
                spec_product(sizes.drop_last()) >= 1,
                sizes.last() >= 1,
        ;
    }
}

/// Relies on itertools' `multi_cartesian_product` over the index ranges
/// `0..sizes[i]`, drawn from with rand's `IteratorRandom::sample` on the
/// thread generator: the result holds `min(amount, product)` pairwise
/// distinct combinations, each giving one in-range index per axis.  Which
/// combinations come back is random; nothing more is assumed.
#[verifier::external_body]
fn sample_combinations(sizes: &Vec<usize>, amount: usize) -> (r: Vec<Vec<usize>>)
    ensures
        r@.len() == if spec_product(sizes@) <= amount {
            spec_product(sizes@)
        } else {
            amount as int
        },
        forall|i: int| 0 <= i < r@.len() ==> (#[trigger] r@[i])@.len() == sizes@.len(),
        forall|i: int, j: int|
            #![trigger r@[i]@[j]]
            0 <= i < r@.len() && 0 <= j < sizes@.len() ==> r@[i]@[j] < sizes@[j],
        forall|i: int, j: int| 0 <= i < j < r@.len() ==> (#[trigger] r@[i])@ != (#[trigger] r@[j])@,
{
    sizes
        .iter()
        .map(|s| 0..*s)
        .multi_cartesian_product()
        .sample(&mut rand::rng(), amount)
}

/// An assignment that covers every registered parameter by name, in
/// registry order, for a real (not setup-only) measurement.
pub open spec fn complete_assignment(b: &ParamBuilder, s: SamplesV) -> bool {
    &&& s.entries.len() == b.entries@.len()
    &&& forall|i: int| 0 <= i < s.entries.len()
        ==> (#[trigger] s.entries[i]).0 == b.entries@[i].name@
    &&& s.setup_only == false
}

/// The assignment that one joint combination denotes: axis `i` at its
/// `combo[i]`-th seeded step, in registry order, for a real measurement.
pub open spec fn spec_joint_assignment(
    b: &ParamBuilder,
    seeds: Seq<AxisSeeds>,
    combo: Seq<usize>,
) -> SamplesV {
    SamplesV {
        entries: Seq::new(
            b.entries@.len(),
            |i: int| (
                b.entries@[i].name@,
                b.entries@[i].param.spec_for_step(seeds[i].steps@[combo[i] as int] as nat)->0,
            ),
        ),
        setup_only: false,
    }
}

/// `base` with the parameter of axis `axis` moved to its `k`-th sample and
/// everything else untouched.
pub open spec fn spec_moved(b: &ParamBuilder, base: SamplesV, axis: int, k: nat) -> SamplesV {
    SamplesV {
        entries: Seq::new(
            base.entries.len(),
            |i: int| (
                base.entries[i].0,
                if base.entries[i].0 == b.entries@[axis].name@ {
                    b.entries@[axis].param.spec_for_step(k)->0
                } else {
                    base.entries[i].1
                }
            ),
        ),
        setup_only: base.setup_only,
    }
}

/// An item-list axis seeded with every index `0..L` of its items.
pub open spec fn full_item_seed(b: &ParamBuilder, s: AxisSeeds, i: int) -> bool {
    &&& s.name@ == b.entries@[i].name@
    &&& match b.entries@[i].param.spec_num_items() {
        Some(l) => s.steps@ == Seq::new(l as nat, |k: int| k as usize),
        None => false,
    }
}

/// The number of joint combinations the seeds admit: the product of the
/// per-axis seed counts.
pub open spec fn spec_seeds_product(seeds: Seq<AxisSeeds>) -> int
    decreases seeds.len(),
{
    if seeds.len() == 0 {
        1
    } else {
        spec_seeds_product(seeds.drop_last()) * seeds.last().steps@.len()
    }
}

/// The products over seed counts and over a matching size vector agree.
proof fn lemma_seeds_product_eq(seeds: Seq<AxisSeeds>, sizes: Seq<usize>)
    requires
        sizes.len() == seeds.len(),
        forall|i: int| 0 <= i < sizes.len()
            ==> (#[trigger] sizes[i]) == seeds[i].steps@.len(),
    ensures
        spec_product(sizes) == spec_seeds_product(seeds),
    decreases seeds.len(),
{
    if seeds.len() > 0 {
        assert(forall|i: int| 0 <= i < sizes.drop_last().len()
            ==> (#[trigger] sizes.drop_last()[i]) == seeds.drop_last()[i].steps@.len());
        lemma_seeds_product_eq(seeds.drop_last(), sizes.drop_last());
        assert(sizes.last() == seeds.last().steps@.len());
    }
}

/// The finished axes `0..upto`: one seed list per axis, named after it,
/// non-empty, every step valid for the axis.
pub open spec fn seeds_wf_upto(b: &ParamBuilder, seeds: Seq<AxisSeeds>, upto: int) -> bool {
    &&& seeds.len() == upto
    &&& forall|i: int| 0 <= i < upto ==> (#[trigger] seeds[i]).name@ == b.entries@[i].name@
    &&& forall|i: int| 0 <= i < upto ==> (#[trigger] seeds[i]).steps@.len() >= 1
    &&& forall|i: int, j: int|
        #![trigger seeds[i].steps@[j]]
        0 <= i < upto && 0 <= j < seeds[i].steps@.len()
            ==> b.entries@[i].param.spec_for_step(seeds[i].steps@[j] as nat) is Some
}

impl Sampler {
    /// The state invariant of the loop.
    pub open spec fn wf(&self) -> bool {
        &&& self.builder.wf()
        &&& forall|k: int| 0 <= k < self.dataset@.len() ==> (#[trigger] self.dataset@[k]).0.wf()
        &&& match self.phase {
            SamplerPhase::Calibrate => {
                &&& self.builder.spec_lower_bound() is Some
                &&& self.seeds@.len() == 0
            },
            SamplerPhase::Seeding { axis, obs, current_step, prev } => {
                &&& self.builder.spec_lower_bound() is Some
                &&& (axis as int) < self.builder.entries@.len()
                // Only range axes are seeded one measurement at a time;
                // item lists go straight to the joint phase.
                &&& self.builder.entries@[axis as int].param.spec_num_items() is None
                &&& seeds_wf_upto(&self.builder, self.seeds@, axis as int)
                &&& complete_assignment(&self.builder, prev@)
                &&& prev.wf()
                &&& self.builder.entries@[axis as int].param.spec_for_step(
                    current_step as nat,
                ) is Some
                &&& obs@.len() < NUM_SEEDING_STEPS
                &&& forall|j: int| 0 <= j < obs@.len()
                    ==> self.builder.entries@[axis as int].param.spec_for_step(
                        (#[trigger] obs@[j]).0 as nat,
                    ) is Some
            },
            SamplerPhase::Joint { combos, next } => {
                &&& self.builder.spec_lower_bound() is Some
                &&& seeds_wf_upto(
                    &self.builder,
                    self.seeds@,
                    self.builder.entries@.len() as int,
                )
                &&& (next as int) < combos@.len()
                &&& forall|c1: int, c2: int| 0 <= c1 < c2 < combos@.len()
                    ==> (#[trigger] combos@[c1])@ != (#[trigger] combos@[c2])@
                &&& combos@.len() == (if spec_seeds_product(self.seeds@)
                    <= NUM_JOINT_STEPS as int {
                    spec_seeds_product(self.seeds@)
                } else {
                    NUM_JOINT_STEPS as int
                })
                &&& forall|c: int| 0 <= c < combos@.len()
                    ==> (#[trigger] combos@[c])@.len() == self.builder.entries@.len()
                &&& forall|c: int, i: int|
                    #![trigger combos@[c]@[i]]
                    0 <= c < combos@.len() && 0 <= i < self.builder.entries@.len()
                        ==> combos@[c]@[i] < self.seeds@[i].steps@.len()
            },
            SamplerPhase::Done => true,
        }
    }

    /// Open a benchmark group: the first action is the calibration run
    /// (zero tokens), or *abort* exactly when some parameter has no valid
    /// step at all.
    pub fn start(builder: ParamBuilder) -> (r: (Sampler, SamplerAction))
        requires
            builder.wf(),
        ensures
            r.0.wf(),
            r.0.builder == builder,
            r.0.dataset@.len() == 0,
            match r.1 {
                SamplerAction::Measure(s) => {
                    &&& builder.spec_lower_bound() is Some
                    &&& s@.entries.len() == 0
                    &&& s@.setup_only == true
                },
                SamplerAction::Abort => builder.spec_lower_bound() is None,
                SamplerAction::Finished => false,
            },
    {
        match builder.lower_bound() {
            None => (
                Sampler {
                    builder,
                    calibration: 0,
                    seeds: Vec::new(),
                    dataset: Vec::new(),
                    phase: SamplerPhase::Done,
                },
                SamplerAction::Abort,
            ),
            Some(_) => (
                Sampler {
                    builder,
                    calibration: 0,
                    seeds: Vec::new(),
                    dataset: Vec::new(),
                    phase: SamplerPhase::Calibrate,
                },
                SamplerAction::Measure(Samples::calibration()),
            ),
        }
    }

    /// Consume one measured instruction count and produce the next action.
    /// A calibration result becomes the baseline; any other result is
    /// recorded in the dataset with its delta against the baseline.
    pub fn step(self, ir: u64) -> (r: (Sampler, SamplerAction))
        requires
            self.wf(),
        ensures
            r.0.wf(),
            r.0.builder == self.builder,
            self.phase is Calibrate ==> r.0.calibration == ir && r.0.dataset@
                == self.dataset@,
            (self.phase is Seeding || self.phase is Joint) ==> {
                &&& r.0.calibration == self.calibration
                &&& r.0.dataset@.len() == self.dataset@.len() + 1
                &&& r.0.dataset@.last().1 == spec_delta(ir, self.calibration)
                &&& r.0.dataset@.subrange(0, self.dataset@.len() as int) == self.dataset@
            },
            self.phase is Done ==> r.1 is Finished && r.0.dataset@ == self.dataset@
                && r.0.seeds@ == self.seeds@,
            // The loop finishes exactly when nothing is left to measure: on
            // consuming the last joint combination, or when already done.
            r.1 is Finished <==> (self.phase is Done || (self.phase matches
            SamplerPhase::Joint { combos, next } && next + 1 == combos@.len())),
            // Seeds only accumulate; once recorded they never change.
            self.seeds@.len() <= r.0.seeds@.len(),
            forall|i: int| 0 <= i < self.seeds@.len() ==> r.0.seeds@[i] == self.seeds@[i],
            // The calibration result can seed only item axes, each with its
            // full index list and no measurement of its own.
            self.phase is Calibrate ==> forall|i: int|
                self.seeds@.len() <= i < r.0.seeds@.len() ==> full_item_seed(
                    &self.builder,
                    #[trigger] r.0.seeds@[i],
                    i,
                ),
            // What this measurement recorded, and how the schedule moves on.
            match self.phase {
                SamplerPhase::Seeding { axis, obs, current_step, prev } => {
                    let delta = spec_delta(ir, self.calibration);
                    let obs2 = obs@.push((current_step, delta));
                    // The dataset entry is the assignment that was measured.
                    &&& r.0.dataset@.last().0@ == prev@
                    &&& if r.0.phase matches SamplerPhase::Seeding { axis: a2, .. } && a2
                        == axis {
                        true  // the axis continues: see the clause below
                    } else {
                        // The axis closed: its seeds are exactly the
                        // observed steps; anything seeded beyond is an item
                        // axis with its full index list.
                        &&& r.0.seeds@.len() > axis
                        &&& r.0.seeds@[axis as int].name@ == self.builder.entries@[
                            axis as int
                        ].name@
                        &&& r.0.seeds@[axis as int].steps@ == Seq::new(
                            obs2.len(),
                            |j: int| obs2[j].0,
                        )
                        &&& forall|i: int|
                            self.seeds@.len() <= i < r.0.seeds@.len() && i != axis
                                ==> full_item_seed(&self.builder, #[trigger] r.0.seeds@[i], i)
                    }
                },
                SamplerPhase::Joint { combos, next } => {
                    // The dataset entry is the assignment of the current
                    // combination; the next combination is measured next,
                    // over the same combination list.
                    &&& r.0.seeds@ == self.seeds@
                    &&& r.0.dataset@.last().0@ == spec_joint_assignment(
                        &self.builder,
                        self.seeds@,
                        combos@[next as int]@,
                    )
                    &&& if next + 1 < combos@.len() {
                        &&& r.0.phase matches SamplerPhase::Joint { combos: c2, next: n2 }
                            && c2 == combos && n2 == next + 1
                        &&& r.1 matches SamplerAction::Measure(m) && m@
                            == spec_joint_assignment(
                            &self.builder,
                            self.seeds@,
                            combos@[next + 1]@,
                        )
                    } else {
                        r.0.phase is Done
                    }
                },
                _ => true,
            },
            // A continuing axis records the observation and advances exactly
            // as the estimator dictates, measuring the moved assignment; a
            // newly opened axis starts at step zero on the lower bound.
            match (self.phase, r.0.phase) {
                (
                    SamplerPhase::Seeding { axis: a1, obs: obs1, current_step: c1, prev: p1 },
                    SamplerPhase::Seeding { axis: a2, obs: obs2, current_step: c2, prev: p2 },
                ) => {
                    &&& (a1 == a2 ==> {
                        let delta = spec_delta(ir, self.calibration);
                        &&& obs2@ == obs1@.push((c1, delta))
                        &&& spec_estimate_stepsize(obs2@, MIN_CHANGE) >= 1
                        &&& c2 == c1 + spec_estimate_stepsize(obs2@, MIN_CHANGE)
                        &&& p2@ == spec_moved(&self.builder, p1@, a1 as int, c2 as nat)
                        &&& (r.1 matches SamplerAction::Measure(m) && m@ == p2@)
                    })
                    &&& (a1 != a2 ==> a2 > a1 && obs2@.len() == 0 && c2 == 0 && Some(p2@)
                        == self.builder.spec_lower_bound() && (r.1 matches
                    SamplerAction::Measure(m) && m@ == p2@))
                },
                (
                    SamplerPhase::Calibrate,
                    SamplerPhase::Seeding { axis: a2, obs: o2, current_step: c2, prev: p2 },
                ) => o2@.len() == 0 && c2 == 0 && Some(p2@) == self.builder.spec_lower_bound()
                    && (r.1 matches SamplerAction::Measure(m) && m@ == p2@),
                _ => true,
            },
            match r.1 {
                SamplerAction::Measure(s) => complete_assignment(&r.0.builder, s@) && s.wf(),
                SamplerAction::Finished => r.0.phase is Done,
                SamplerAction::Abort => false,
            },
    {
        let Sampler { builder, calibration, seeds, dataset, phase } = self;
        match phase {
            SamplerPhase::Calibrate => advance(builder, ir, seeds, dataset, 0),
            SamplerPhase::Seeding { axis, obs, current_step, prev } => {
                let mut obs = obs;
                let mut dataset = dataset;
                let delta = if ir >= calibration {
                    ir - calibration
                } else {
                    0
                };
                let ghost old_dataset = dataset@;
                dataset.push((prev.duplicate(), delta));
                proof {
                    assert(dataset@.subrange(0, old_dataset.len() as int) =~= old_dataset);
                }
                obs.push((current_step, delta));
                if obs.len() >= NUM_SEEDING_STEPS {
                    return finish_axis(builder, calibration, seeds, dataset, axis, obs);
                }
                let est = estimate_stepsize(obs.as_slice(), MIN_CHANGE);
                if est == 0 {
                    return finish_axis(builder, calibration, seeds, dataset, axis, obs);
                }
                let next_step = match current_step.checked_add(est) {
                    None => {
                        return finish_axis(builder, calibration, seeds, dataset, axis, obs);
                    },
                    Some(k2) => k2,
                };
                let defined = match builder.entries[axis].param.for_step(next_step) {
                    None => false,
                    Some(_) => true,
                };
                if !defined {
                    return finish_axis(builder, calibration, seeds, dataset, axis, obs);
                }
                proof {
                    lemma_param_of_index(&builder, axis as int);
                }
                let prev2 = builder.update_step(prev, builder.entries[axis].name.as_str(),
                    next_step);
                proof {
                    assert(prev2@.entries =~= spec_moved(
                        &builder,
                        prev@,
                        axis as int,
                        next_step as nat,
                    ).entries);
                    assert(prev2@ == spec_moved(&builder, prev@, axis as int, next_step as nat));
                }
                let emit = prev2.duplicate();
                (
                    Sampler {
                        builder,
                        calibration,
                        seeds,
                        dataset,
                        phase: SamplerPhase::Seeding {
                            axis,
                            obs,
                            current_step: next_step,
                            prev: prev2,
                        },
                    },
                    SamplerAction::Measure(emit),
                )
            },
            SamplerPhase::Joint { combos, next } => {
                let mut dataset = dataset;
                let delta = if ir >= calibration {
                    ir - calibration
                } else {
                    0
                };
                let clen = combos.len();
                let measured = joint_assignment(&builder, &seeds, &combos[next]);
                let ghost old_dataset = dataset@;
                dataset.push((measured, delta));
                proof {
                    assert(dataset@.subrange(0, old_dataset.len() as int) =~= old_dataset);
                }
                let next2 = next + 1;
                if next2 == clen {
                    (
                        Sampler {
                            builder,
                            calibration,
                            seeds,
                            dataset,
                            phase: SamplerPhase::Done,
                        },
                        SamplerAction::Finished,
                    )
                } else {
                    let emit = joint_assignment(&builder, &seeds, &combos[next2]);
                    (
                        Sampler {
                            builder,
                            calibration,
                            seeds,
                            dataset,
                            phase: SamplerPhase::Joint { combos, next: next2 },
                        },
                        SamplerAction::Measure(emit),
                    )
                }
            },
            SamplerPhase::Done => (
                Sampler { builder, calibration, seeds, dataset, phase: SamplerPhase::Done },
                SamplerAction::Finished,
            ),
        }
    }
}

/// Close one axis: record its chosen steps as seeds and move on.
fn finish_axis(
    builder: ParamBuilder,
    calibration: u64,
    seeds: Vec<AxisSeeds>,
    dataset: Vec<(Samples, u64)>,
    axis: usize,
    obs: Vec<(usize, u64)>,
) -> (r: (Sampler, SamplerAction))
    requires
        builder.wf(),
        builder.spec_lower_bound() is Some,
        (axis as int) < builder.entries@.len(),
        seeds_wf_upto(&builder, seeds@, axis as int),
        obs@.len() >= 1,
        forall|j: int| 0 <= j < obs@.len()
            ==> builder.entries@[axis as int].param.spec_for_step(
                (#[trigger] obs@[j]).0 as nat,
            ) is Some,
        forall|k: int| 0 <= k < dataset@.len() ==> (#[trigger] dataset@[k]).0.wf(),
    ensures
        r.0.wf(),
        r.0.builder == builder,
        r.0.calibration == calibration,
        r.0.dataset@ == dataset@,
        // The closed axis records exactly the observed steps; earlier seeds
        // stay; anything added beyond is an item axis with its full index
        // list.
        r.0.seeds@.len() > axis,
        forall|i: int| 0 <= i < seeds@.len() ==> r.0.seeds@[i] == seeds@[i],
        r.0.seeds@[axis as int].name@ == builder.entries@[axis as int].name@,
        r.0.seeds@[axis as int].steps@ == Seq::new(obs@.len(), |j: int| obs@[j].0),
        forall|i: int| axis < i < r.0.seeds@.len()
            ==> full_item_seed(&builder, #[trigger] r.0.seeds@[i], i),
        r.1 matches SamplerAction::Measure(s) && complete_assignment(&builder, s@) && s.wf(),
        r.0.phase matches SamplerPhase::Seeding { axis: a2, obs: o2, current_step: c2, prev: p2 }
            ==> a2 > axis && o2@.len() == 0 && c2 == 0 && Some(p2@)
                == builder.spec_lower_bound() && (r.1 matches SamplerAction::Measure(m)
                && m@ == p2@),
        r.0.phase matches SamplerPhase::Joint { combos: cs, next: nx } ==> nx == 0 && (
        r.1 matches SamplerAction::Measure(m) && m@ == spec_joint_assignment(
            &builder,
            r.0.seeds@,
            cs@[0]@,
        )),
        !(r.0.phase is Calibrate),
        !(r.0.phase is Done),
{
    let mut grown = seeds;
    let mut steps: Vec<usize> = Vec::new();
    let n = obs.len();
    let mut j: usize = 0;
    while j < n
        invariant
            0 <= j <= n,
            n == obs@.len(),
            steps@.len() == j,
            forall|k: int| 0 <= k < j ==> (#[trigger] steps@[k]) == obs@[k].0,
        decreases n - j,
    {
        steps.push(obs[j].0);
        j += 1;
    }
    let reg_len = builder.entries.len();
    let name = builder.entries[axis].name.clone();
    let ghost old_seeds = grown@;
    grown.push(AxisSeeds { name, steps });
    proof {
        assert(axis < reg_len);
        assert(seeds_wf_upto(&builder, grown@, axis as int + 1)) by {
            assert(forall|i: int| 0 <= i < axis as int ==> #[trigger] grown@[i]
                == old_seeds[i]);
            assert(grown@[axis as int].name@ == builder.entries@[axis as int].name@);
            assert(grown@[axis as int].steps@.len() >= 1);
            assert forall|i: int, jj: int|
                #![trigger seeds@[i].steps@[jj]]
                0 <= i < axis as int + 1 && 0 <= jj < grown@[i].steps@.len() implies builder
                .entries@[i].param.spec_for_step(grown@[i].steps@[jj] as nat) is Some by {
                if i < axis as int {
                    assert(grown@[i] == old_seeds[i]);
                    assert(old_seeds[i].steps@[jj] == grown@[i].steps@[jj]);
                } else {
                    assert(grown@[i].steps@[jj] == obs@[jj].0);
                }
            }
        }
    }
    let ghost grown_v = grown@;
    proof {
        assert(grown_v[axis as int].steps@ =~= Seq::new(obs@.len(), |j: int| obs@[j].0));
    }
    let r = advance(builder, calibration, grown, dataset, axis + 1);
    proof {
        assert forall|i: int| 0 <= i < seeds@.len() implies r.0.seeds@[i] == seeds@[i] by {
            assert(r.0.seeds@[i] == grown_v[i]);
            assert(grown_v[i] == seeds@[i]);
        }
        assert(r.0.seeds@[axis as int] == grown_v[axis as int]);
    }
    r
}

/// Walk the axes from `axis` on: item lists contribute every index as a
/// seed outright; the first range axis opens its seeding phase; after the
/// last axis the joint combinations are drawn.
fn advance(
    builder: ParamBuilder,
    calibration: u64,
    seeds: Vec<AxisSeeds>,
    dataset: Vec<(Samples, u64)>,
    axis: usize,
) -> (r: (Sampler, SamplerAction))
    requires
        builder.wf(),
        builder.spec_lower_bound() is Some,
        (axis as int) <= builder.entries@.len(),
        seeds_wf_upto(&builder, seeds@, axis as int),
        forall|k: int| 0 <= k < dataset@.len() ==> (#[trigger] dataset@[k]).0.wf(),
    ensures
        r.0.wf(),
        r.0.builder == builder,
        r.0.calibration == calibration,
        r.0.dataset@ == dataset@,
        // The given seeds stay; every seed added here is an item axis with
        // its full index list.
        seeds@.len() <= r.0.seeds@.len(),
        forall|i: int| 0 <= i < seeds@.len() ==> r.0.seeds@[i] == seeds@[i],
        forall|i: int| seeds@.len() <= i < r.0.seeds@.len()
            ==> full_item_seed(&builder, #[trigger] r.0.seeds@[i], i),
        // The next action is always a measurement.
        r.1 matches SamplerAction::Measure(s) && complete_assignment(&builder, s@) && s.wf(),
        // A seeding phase opens at or past the entry axis, at step zero, on
        // the lower-bound assignment, with nothing observed yet.
        r.0.phase matches SamplerPhase::Seeding { axis: a2, obs: o2, current_step: c2, prev: p2 }
            ==> a2 >= axis && o2@.len() == 0 && c2 == 0 && Some(p2@)
                == builder.spec_lower_bound() && (r.1 matches SamplerAction::Measure(m)
                && m@ == p2@),
        // A joint phase starts at the first drawn combination.
        r.0.phase matches SamplerPhase::Joint { combos: cs, next: nx } ==> nx == 0 && (
        r.1 matches SamplerAction::Measure(m) && m@ == spec_joint_assignment(
            &builder,
            r.0.seeds@,
            cs@[0]@,
        )),
        !(r.0.phase is Calibrate),
        !(r.0.phase is Done),
{
    let mut grown = seeds;
    let mut cur = axis;
    let n = builder.entries.len();
    while cur < n
        invariant
            builder.wf(),
            builder.spec_lower_bound() is Some,
            n == builder.entries@.len(),
            axis <= cur,
            cur <= n,
            seeds_wf_upto(&builder, grown@, cur as int),
            seeds@.len() <= grown@.len(),
            seeds@.len() == axis,
            forall|i: int| 0 <= i < seeds@.len() ==> grown@[i] == seeds@[i],
            forall|i: int| seeds@.len() <= i < grown@.len()
                ==> full_item_seed(&builder, #[trigger] grown@[i], i),
            forall|k: int| 0 <= k < dataset@.len() ==> (#[trigger] dataset@[k]).0.wf(),
        decreases n - cur,
    {
        proof {
            // The lower bound exists, so step 0 is valid on this axis.
            assert(builder.entries@[cur as int].param.spec_for_step(0) is Some) by {
                let zeros = Seq::new(builder.entries@.len(), |i: int| 0nat);
                assert(builder.spec_from_indices(zeros) is Some);
                assert(zeros[axis as int] == 0nat);
            }
        }
        let items = builder.entries[cur].param.num_items();
        match items {
            Some(l) => {
                proof {
                    let p = builder.entries@[cur as int].param;
                    match p {
                        crate::params::ParamType::Items(it) => {
                            assert(it.spec_for_step(0) is Some);
                            assert(it.items@.len() >= 1);
                        },
                        _ => {
                            assert(false);
                        },
                    }
                    assert(l >= 1);
                }
                let mut steps: Vec<usize> = Vec::new();
                let mut k: usize = 0;
                while k < l
                    invariant
                        0 <= k <= l,
                        steps@.len() == k,
                        forall|kk: int| 0 <= kk < k ==> (#[trigger] steps@[kk]) == kk,
                    decreases l - k,
                {
                    steps.push(k);
                    k += 1;
                }
                let name = builder.entries[cur].name.clone();
                let ghost old_seeds = grown@;
                grown.push(AxisSeeds { name, steps });
                proof {
                    assert(full_item_seed(&builder, grown@[cur as int], cur as int)) by {
                        assert(grown@[cur as int].steps@ =~= Seq::new(
                            l as nat,
                            |k: int| k as usize,
                        ));
                        assert(builder.entries@[cur as int].param.spec_num_items()
                            == Some(l));
                    }
                    assert(seeds_wf_upto(&builder, grown@, cur as int + 1)) by {
                        assert(forall|i: int| 0 <= i < cur as int
                            ==> #[trigger] grown@[i] == old_seeds[i]);
                        assert forall|i: int, jj: int|
                            #![trigger seeds@[i].steps@[jj]]
                            0 <= i < cur as int + 1 && 0 <= jj < grown@[i].steps@.len()
                            implies builder.entries@[i].param.spec_for_step(
                            grown@[i].steps@[jj] as nat,
                        ) is Some by {
                            if i < cur as int {
                                assert(grown@[i] == old_seeds[i]);
                                assert(old_seeds[i].steps@[jj] == grown@[i].steps@[jj]);
                            } else {
                                assert(grown@[i].steps@[jj] == jj);
                                assert(builder.entries@[i].param.spec_num_items()
                                    == Some(l as usize));
                            }
                        }
                    }
                }
                cur += 1;
            },
            None => {
                let prev = match builder.lower_bound() {
                    Some(p) => p,
                    None => {
                        proof {
                            assert(false);
                        }
                        return (
                            Sampler {
                                builder,
                                calibration,
                                seeds: grown,
                                dataset,
                                phase: SamplerPhase::Done,
                            },
                            SamplerAction::Finished,
                        );
                    },
                };
                let emit = prev.duplicate();
                return (
                    Sampler {
                        builder,
                        calibration,
                        seeds: grown,
                        dataset,
                        phase: SamplerPhase::Seeding {
                            axis: cur,
                            obs: Vec::new(),
                            current_step: 0,
                            prev,
                        },
                    },
                    SamplerAction::Measure(emit),
                );
            },
        }
    }
    // Every axis is seeded; draw the joint combinations.
    let mut sizes: Vec<usize> = Vec::new();
    let mut i: usize = 0;
    while i < n
        invariant
            0 <= i <= n,
            n == builder.entries@.len(),
            n == grown@.len(),
            sizes@.len() == i,
            seeds_wf_upto(&builder, grown@, n as int),
            seeds@.len() == axis,
            forall|i2: int| 0 <= i2 < seeds@.len() ==> grown@[i2] == seeds@[i2],
            forall|i2: int| seeds@.len() <= i2 < grown@.len()
                ==> full_item_seed(&builder, #[trigger] grown@[i2], i2),
            forall|k: int| 0 <= k < i ==> (#[trigger] sizes@[k]) == grown@[k].steps@.len(),
        decreases n - i,
    {
        sizes.push(grown[i].steps.len());
        i += 1;
    }
    proof {
        assert(forall|k: int| 0 <= k < sizes@.len() ==> (#[trigger] sizes@[k]) >= 1);
        lemma_product_pos(sizes@);
        lemma_seeds_product_eq(grown@, sizes@);
    }
    let combos = sample_combinations(&sizes, NUM_JOINT_STEPS);
    proof {
        assert(combos@.len() >= 1);
    }
    let first = joint_assignment(&builder, &grown, &combos[0]);
    let emit = first;
    (
        Sampler {
            builder,
            calibration,
            seeds: grown,
            dataset,
            phase: SamplerPhase::Joint { combos, next: 0 },
        },
        SamplerAction::Measure(emit),
    )
}

/// The assignment for one joint combination: axis `i` at its
/// `combo[i]`-th seeded step.
fn joint_assignment(builder: &ParamBuilder, seeds: &Vec<AxisSeeds>, combo: &Vec<usize>) -> (r:
    Samples)
    requires
        builder.wf(),
        seeds_wf_upto(builder, seeds@, builder.entries@.len() as int),
        combo@.len() == builder.entries@.len(),
        forall|i: int|
            #![trigger combo@[i]]
            0 <= i < combo@.len() ==> combo@[i] < seeds@[i].steps@.len(),
    ensures
        complete_assignment(builder, r@),
        r.wf(),
        r@ == spec_joint_assignment(builder, seeds@, combo@),
{
    let n = builder.entries.len();
    let mut indices: Vec<(String, usize)> = Vec::new();
    let mut i: usize = 0;
    while i < n
        invariant
            0 <= i <= n,
            n == builder.entries@.len(),
            n == seeds@.len(),
            n == combo@.len(),
            builder.wf(),
            seeds_wf_upto(builder, seeds@, n as int),
            forall|k: int|
                #![trigger combo@[k]]
                0 <= k < combo@.len() ==> combo@[k] < seeds@[k].steps@.len(),
            indices@.len() == i,
            forall|k: int| 0 <= k < i
                ==> (#[trigger] indices@[k]).0@ == builder.entries@[k].name@,
            forall|k: int| 0 <= k < i
                ==> (#[trigger] indices@[k]).1 == seeds@[k].steps@[combo@[k] as int],
        decreases n - i,
    {
        let step = seeds[i].steps[combo[i]];
        proof {
            assert(seeds@[i as int].steps@[combo@[i as int] as int] == step);
        }
        indices.push((builder.entries[i].name.clone(), step));
        i += 1;
    }
    proof {
        assert forall|k: int| 0 <= k < builder.entries@.len() implies exists|j: int|
            0 <= j < indices@.len()
                && (#[trigger] builder.entries@[k]).name@ == indices@[j].0@ by {
            assert(builder.entries@[k].name@ == indices@[k].0@);
        }
        assert forall|a: int, b: int| 0 <= a < b < indices@.len() implies (#[trigger]
        indices@[a]).0@ != (#[trigger] indices@[b]).0@ by {
            assert(builder.names()[a] != builder.names()[b]);
        }
        assert forall|k: int| 0 <= k < builder.entries@.len() implies
            crate::builder::spec_index_lookup(indices@, builder.entries@[k].name@) == Some(
            indices@[k].1,
        ) by {
            crate::builder::lemma_index_lookup_at(indices@, k);
        }
        let steps = builder.spec_steps_of(indices@);
        assert forall|k: int| 0 <= k < builder.entries@.len() implies steps[k] == seeds@[
            k
        ].steps@[(#[trigger] combo@[k]) as int] as nat by {
            assert(crate::builder::spec_index_lookup(indices@, builder.entries@[k].name@)
                == Some(indices@[k].1));
            assert(indices@[k].1 == seeds@[k].steps@[combo@[k] as int]);
        }
        assert forall|k: int| 0 <= k < builder.entries@.len() implies (#[trigger]
        builder.entries@[k].param).spec_for_step(steps[k]) is Some by {
            assert(steps[k] == seeds@[k].steps@[combo@[k] as int] as nat);
            assert(builder.entries@[k].param.spec_for_step(
                seeds@[k].steps@[combo@[k] as int] as nat,
            ) is Some);
        }
    }
    match builder.from_indices(&indices) {
        Some(s) => {
            proof {
                let steps = builder.spec_steps_of(indices@);
                assert(builder.spec_from_indices(steps) is Some);
                assert(complete_assignment(builder, s@));
                assert(s@.entries =~= spec_joint_assignment(builder, seeds@, combo@).entries);
                assert(s@ == spec_joint_assignment(builder, seeds@, combo@));
            }
            s
        },
        None => {
            proof {
                assert(false);
            }
            Samples::calibration()
        },
    }
}

} // verus!
