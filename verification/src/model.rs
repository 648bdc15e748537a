//! Cost-model machinery: the adaptive step-size estimator and the building
//! blocks of the greedy additive fitter.
//!
//! The estimator projects the per-axis observations forward and returns the
//! smallest step advance expected to change the instruction count by at
//! least `min_change`; zero signals saturation.  The fitter's combinatorial
//! decisions (candidate term sets and keeping the best beam entries by
//! score) live here; the numeric least-squares scoring is the caller's,
//! which reports each candidate's penalised score as the IEEE bit pattern
//! of a non-negative value, so that smaller bits mean a better fit.

use vstd::prelude::*;

verus! {

/// Seeding rounds per axis.
pub const NUM_SEEDING_STEPS: usize = 6;

/// Joint combinations drawn across axes.
pub const NUM_JOINT_STEPS: usize = 30;

/// Minimum instruction-count change between successive seeding samples.
pub const MIN_CHANGE: u64 = 50;

/// Beam width of the greedy additive fitter.
pub const BEAM_SIZE: usize = 4;

/// Maximum number of axes multiplied in one term.
pub const MAX_INTERACTIONS: usize = 3;

/// Bounded search horizon of the step projection.
pub const STEP_HORIZON: u64 = 65536;

/// The step advance the estimator returns: one when fewer than two
/// observations exist; zero when growth has saturated (or the projection
/// leaves the horizon); otherwise the smallest advance whose projected
/// instruction delta reaches `min_change` over the latest observed slope.
pub open spec fn spec_estimate_stepsize(obs: Seq<(usize, u64)>, min_change: u64) -> int {
    if obs.len() < 2 {
        1
    } else {
        let k1 = obs[obs.len() - 2].0;
        let d1 = obs[obs.len() - 2].1;
        let k2 = obs[obs.len() - 1].0;
        let d2 = obs[obs.len() - 1].1;
        if d2 <= d1 {
            0
        } else if k2 <= k1 {
            1
        } else {
            let dk = ((min_change * (k2 - k1) + (d2 - d1) - 1) as int) / ((d2 - d1) as int);
            if dk < 1 {
                1
            } else if dk > STEP_HORIZON {
                0
            } else {
                dk
            }
        }
    }
}

/// Estimate how far to advance a parameter axis so that the next
/// measurement differs by at least `min_change` instructions.
pub fn estimate_stepsize(results: &[(usize, u64)], min_change: u64) -> (r: usize)
    ensures
        r == spec_estimate_stepsize(results@, min_change),
        r <= STEP_HORIZON,
{
    let n = results.len();
    if n < 2 {
        return 1;
    }
    let (k1, d1) = results[n - 2];
    let (k2, d2) = results[n - 1];
    if d2 <= d1 {
        return 0;
    }
    if k2 <= k1 {
        return 1;
    }
    let gap = (k2 - k1) as u128;
    let growth = (d2 - d1) as u128;
    proof {
        assert((min_change as int) * (gap as int) <= (u64::MAX as int) * (u64::MAX as int))
            by (nonlinear_arith)
            requires
                0 <= min_change as int <= u64::MAX as int,
                0 <= gap as int <= u64::MAX as int,
        ;
    }
    let dk = ((min_change as u128) * gap + growth - 1) / growth;
    if dk < 1 {
        1
    } else if dk > STEP_HORIZON as u128 {
        0
    } else {
        dk as usize
    }
}

/// With consecutive steps whose deltas already differ by the required
/// change, the estimator asks for exactly one more step.
pub proof fn lemma_estimator_growth_reached(obs: Seq<(usize, u64)>, min_change: u64)
    requires
        obs.len() >= 2,
        min_change >= 1,
        obs[obs.len() - 1].0 == obs[obs.len() - 2].0 + 1,
        obs[obs.len() - 1].1 >= obs[obs.len() - 2].1 + min_change,
    ensures
        spec_estimate_stepsize(obs, min_change) == 1,
{
    let k1 = obs[obs.len() - 2].0;
    let k2 = obs[obs.len() - 1].0;
    let d1 = obs[obs.len() - 2].1;
    let d2 = obs[obs.len() - 1].1;
    let growth = (d2 - d1) as int;
    let need = min_change as int;
    assert(k2 - k1 == 1);
    assert(need * (k2 - k1) == need * 1) by (nonlinear_arith)
        requires
            k2 - k1 == 1,
    ;
    assert((need + growth - 1) / growth == 1) by (nonlinear_arith)
        requires
            1 <= need <= growth,
    ;
    assert(spec_estimate_stepsize(obs, min_change) == 1);
}

/// With saturated observations (equal deltas throughout) the estimator
/// signals saturation.
pub proof fn lemma_estimator_saturated(obs: Seq<(usize, u64)>, min_change: u64)
    requires
        obs.len() >= 2,
        forall|i: int, j: int| 0 <= i < obs.len() && 0 <= j < obs.len()
            ==> (#[trigger] obs[i]).1 == (#[trigger] obs[j]).1,
    ensures
        spec_estimate_stepsize(obs, min_change) == 0,
{
    assert(obs[obs.len() - 1].1 == obs[obs.len() - 2].1);
}

/// One factor of a term: a power or logarithmic shape of a single axis.
#[derive(Clone, Copy, PartialEq, Eq, Structural, Debug)]
pub enum Factor {
    X,
    X2,
    X3,
    XLogX,
    LogX,
}

/// A product of factors over distinct axes; the empty product is the
/// constant term.
pub struct Term {
    pub factors: Vec<(usize, Factor)>,
}

impl View for Term {
    type V = Seq<(usize, Factor)>;

    open spec fn view(&self) -> Seq<(usize, Factor)> {
        self.factors@
    }
}

/// A term over `num_axes` axes with at most `max_order` factors, on
/// strictly increasing axes.
pub open spec fn term_wf(t: Seq<(usize, Factor)>, num_axes: int, max_order: int) -> bool {
    &&& t.len() <= max_order
    &&& forall|i: int| 0 <= i < t.len() ==> (#[trigger] t[i]).0 < num_axes
    &&& forall|i: int, j: int| 0 <= i < j < t.len() ==> t[i].0 < t[j].0
}

impl Term {
    /// The constant term.
    pub fn constant() -> (r: Term)
        ensures
            r@ == Seq::<(usize, Factor)>::empty(),
    {
        let r = Term { factors: Vec::new() };
        proof {
            assert(r@ =~= Seq::<(usize, Factor)>::empty());
        }
        r
    }

    /// A single-factor term.
    pub fn single(axis: usize, factor: Factor) -> (r: Term)
        ensures
            r@ == seq![(axis, factor)],
    {
        let mut factors: Vec<(usize, Factor)> = Vec::new();
        factors.push((axis, factor));
        let r = Term { factors };
        proof {
            assert(r@ =~= seq![(axis, factor)]);
        }
        r
    }

    /// A copy with the same factors.
    pub fn duplicate(&self) -> (r: Term)
        ensures
            r@ == self@,
    {
        let mut factors: Vec<(usize, Factor)> = Vec::new();
        let n = self.factors.len();
        let mut i: usize = 0;
        while i < n
            invariant
                0 <= i <= n,
                n == self.factors@.len(),
                factors@ == self.factors@.take(i as int),
            decreases n - i,
        {
            factors.push(self.factors[i]);
            proof {
                assert(factors@ =~= self.factors@.take(i + 1));
            }
            i += 1;
        }
        proof {
            assert(self.factors@.take(n as int) =~= self.factors@);
        }
        Term { factors }
    }

    /// Whether two terms have the same factors.
    pub fn same_as(&self, other: &Term) -> (r: bool)
        ensures
            r == (self@ == other@),
    {
        let n = self.factors.len();
        if other.factors.len() != n {
            proof {
                assert(self@ != other@);
            }
            return false;
        }
        let mut i: usize = 0;
        while i < n
            invariant
                0 <= i <= n,
                n == self.factors@.len(),
                n == other.factors@.len(),
                forall|j: int| 0 <= j < i ==> self.factors@[j] == other.factors@[j],
            decreases n - i,
        {
            let (a0, a1) = self.factors[i];
            let (b0, b1) = other.factors[i];
            if a0 != b0 || a1 != b1 {
                return false;
            }
            i += 1;
        }
        proof {
            assert(self@ =~= other@);
        }
        true
    }
}

/// The fitted additive model: the chosen terms and, for each, the IEEE bit
/// pattern of its fitted coefficient as the scorer reported it.
pub struct Model {
    pub terms: Vec<Term>,
    pub coef_bits: Vec<u64>,
}

/// One beam entry of the greedy search: a term set and the IEEE bits of its
/// non-negative penalised score (smaller is better).
pub struct BeamEntry {
    pub terms: Vec<Term>,
    pub score_bits: u64,
}

/// The five factor shapes, in a fixed order.
pub fn all_factors() -> (r: Vec<Factor>)
    ensures
        r@ == seq![Factor::X, Factor::X2, Factor::X3, Factor::XLogX, Factor::LogX],
{
    let mut r: Vec<Factor> = Vec::new();
    r.push(Factor::X);
    r.push(Factor::X2);
    r.push(Factor::X3);
    r.push(Factor::XLogX);
    r.push(Factor::LogX);
    proof {
        assert(r@ =~= seq![Factor::X, Factor::X2, Factor::X3, Factor::XLogX, Factor::LogX]);
    }
    r
}

/// The single-axis term library: the constant term and every factor shape
/// of every axis.
pub fn base_terms(num_axes: usize) -> (r: Vec<Term>)
    ensures
        r@.len() == 1 + num_axes * 5,
        forall|i: int| 0 <= i < r@.len()
            ==> term_wf((#[trigger] r@[i])@, num_axes as int, MAX_INTERACTIONS as int),
        r@[0]@ == Seq::<(usize, Factor)>::empty(),
        forall|a: int, f: int| 0 <= a < num_axes && 0 <= f < 5
            ==> (#[trigger] r@[1 + a * 5 + f])@.len() == 1 && r@[1 + a * 5 + f]@[0].0 == a,
{
    let mut r: Vec<Term> = Vec::new();
    r.push(Term::constant());
    let factors = all_factors();
    let mut a: usize = 0;
    while a < num_axes
        invariant
            0 <= a <= num_axes,
            factors@ == seq![Factor::X, Factor::X2, Factor::X3, Factor::XLogX, Factor::LogX],
            r@.len() == 1 + a * 5,
            forall|i: int| 0 <= i < r@.len()
                ==> term_wf((#[trigger] r@[i])@, num_axes as int, MAX_INTERACTIONS as int),
            r@[0]@ == Seq::<(usize, Factor)>::empty(),
            forall|x: int, f: int| 0 <= x < a && 0 <= f < 5
                ==> (#[trigger] r@[1 + x * 5 + f])@.len() == 1 && r@[1 + x * 5 + f]@[0].0
                    == x,
        decreases num_axes - a,
    {
        let mut f: usize = 0;
        while f < 5
            invariant
                0 <= f <= 5,
                0 <= a < num_axes,
                factors@ == seq![Factor::X, Factor::X2, Factor::X3, Factor::XLogX,
                    Factor::LogX],
                r@.len() == 1 + a * 5 + f,
                forall|i: int| 0 <= i < r@.len()
                    ==> term_wf((#[trigger] r@[i])@, num_axes as int,
                        MAX_INTERACTIONS as int),
                r@[0]@ == Seq::<(usize, Factor)>::empty(),
                forall|x: int, g: int| 0 <= x < a && 0 <= g < 5
                    ==> (#[trigger] r@[1 + x * 5 + g])@.len() == 1
                        && r@[1 + x * 5 + g]@[0].0 == x,
                forall|g: int| 0 <= g < f
                    ==> (#[trigger] r@[1 + a * 5 + g])@.len() == 1
                        && r@[1 + a * 5 + g]@[0].0 == a,
            decreases 5 - f,
        {
            r.push(Term::single(a, factors[f]));
            f += 1;
        }
        a += 1;
    }
    r
}


/// The five factor shapes, in the fixed order of [`all_factors`].
pub open spec fn spec_factor_shapes() -> Seq<Factor> {
    seq![Factor::X, Factor::X2, Factor::X3, Factor::XLogX, Factor::LogX]
}

/// The single-factor term of axis `a` with the `f`-th shape.
pub open spec fn spec_single(a: int, f: int) -> Seq<(usize, Factor)> {
    seq![(a as usize, spec_factor_shapes()[f])]
}

/// Every single-factor term over the axes `0..upto` is in the list.
pub open spec fn singles_present(r: Seq<Term>, upto: int) -> bool {
    forall|a: int, f: int| 0 <= a < upto && 0 <= f < 5
        ==> terms_views(r).contains(#[trigger] spec_single(a, f))
}

/// Containment facts survive appending terms.
proof fn lemma_singles_grow(old_r: Seq<Term>, new_r: Seq<Term>, upto: int)
    requires
        singles_present(old_r, upto),
        old_r.len() <= new_r.len(),
        forall|i: int| 0 <= i < old_r.len() ==> #[trigger] new_r[i] == old_r[i],
    ensures
        singles_present(new_r, upto),
{
    assert forall|a: int, f: int| 0 <= a < upto && 0 <= f < 5 implies terms_views(
        new_r,
    ).contains(#[trigger] spec_single(a, f)) by {
        assert(terms_views(old_r).contains(spec_single(a, f)));
        let i = choose|i: int|
            0 <= i < terms_views(old_r).len() && terms_views(old_r)[i] == spec_single(a, f);
        assert(terms_views(new_r)[i] == spec_single(a, f));
    }
}

/// The two-factor product term of axes `a1 < a2` with the given shapes.
pub open spec fn spec_pair(a1: int, f1: int, a2: int, f2: int) -> Seq<(usize, Factor)> {
    seq![
        (a1 as usize, spec_factor_shapes()[f1]),
        (a2 as usize, spec_factor_shapes()[f2]),
    ]
}

/// The three-factor product term of axes `a1 < a2 < a3`.
pub open spec fn spec_triple(
    a1: int,
    f1: int,
    a2: int,
    f2: int,
    a3: int,
    f3: int,
) -> Seq<(usize, Factor)> {
    seq![
        (a1 as usize, spec_factor_shapes()[f1]),
        (a2 as usize, spec_factor_shapes()[f2]),
        (a3 as usize, spec_factor_shapes()[f3]),
    ]
}

/// Every two-factor product over the axes `0..upto` is in the list.
pub open spec fn pairs_present(r: Seq<Term>, upto: int) -> bool {
    forall|a1: int, f1: int, a2: int, f2: int|
        0 <= a1 < a2 < upto && 0 <= f1 < 5 && 0 <= f2 < 5
            ==> terms_views(r).contains(#[trigger] spec_pair(a1, f1, a2, f2))
}

/// Every three-factor product over the axes `0..upto` is in the list.
pub open spec fn triples_present(r: Seq<Term>, upto: int) -> bool {
    forall|a1: int, f1: int, a2: int, f2: int, a3: int, f3: int|
        0 <= a1 < a2 < a3 < upto && 0 <= f1 < 5 && 0 <= f2 < 5 && 0 <= f3 < 5
            ==> terms_views(r).contains(#[trigger] spec_triple(a1, f1, a2, f2, a3, f3))
}

/// Everything contained in a list is contained in any extension of it.
proof fn lemma_contains_grow(old_r: Seq<Term>, new_r: Seq<Term>)
    requires
        old_r.len() <= new_r.len(),
        forall|i: int| 0 <= i < old_r.len() ==> #[trigger] new_r[i] == old_r[i],
    ensures
        forall|t: Seq<(usize, Factor)>| #[trigger] terms_views(old_r).contains(t)
            ==> terms_views(new_r).contains(t),
{
    assert forall|t: Seq<(usize, Factor)>| terms_views(old_r).contains(t) implies terms_views(
        new_r,
    ).contains(t) by {
        let w = choose|w: int|
            0 <= w < terms_views(old_r).len() && terms_views(old_r)[w] == t;
        assert(terms_views(new_r)[w] == t);
    }
}

/// The full candidate-term library: the constant term and every product
/// of at most `max_order` factor shapes over strictly increasing axes; in
/// particular every single-factor term, every two-factor product (order
/// permitting) and every three-factor product (likewise) of distinct axes.
pub fn term_library(num_axes: usize, max_order: usize) -> (r: Vec<Term>)
    ensures
        r@.len() >= 1,
        r@[0]@ == Seq::<(usize, Factor)>::empty(),
        forall|i: int| 0 <= i < r@.len()
            ==> term_wf((#[trigger] r@[i])@, num_axes as int, max_order as int),
        max_order >= 1 ==> singles_present(r@, num_axes as int),
        max_order >= 2 ==> pairs_present(r@, num_axes as int),
        max_order >= 3 ==> triples_present(r@, num_axes as int),
{
    let mut r: Vec<Term> = Vec::new();
    r.push(Term::constant());
    let factors = all_factors();
    let mut a: usize = 0;
    while a < num_axes
        invariant
            0 <= a <= num_axes,
            factors@ == seq![Factor::X, Factor::X2, Factor::X3, Factor::XLogX, Factor::LogX],
            r@.len() >= 1,
            r@[0]@ == Seq::<(usize, Factor)>::empty(),
            forall|i: int| 0 <= i < r@.len()
                ==> term_wf((#[trigger] r@[i])@, num_axes as int, max_order as int),
            // Every term so far uses axes below `a` only.
            forall|i: int, k: int|
                #![trigger r@[i]@[k]]
                0 <= i < r@.len() && 0 <= k < r@[i]@.len() ==> r@[i]@[k].0 < a,
            max_order >= 1 ==> singles_present(r@, a as int),
            max_order >= 2 ==> pairs_present(r@, a as int),
            max_order >= 3 ==> triples_present(r@, a as int),
        decreases num_axes - a,
    {
        let end = r.len();
        let ghost pass_r = r@;
        let mut idx: usize = 0;
        while idx < end
            invariant
                0 <= idx <= end,
                end <= r@.len(),
                0 <= a < num_axes,
                factors@ == seq![Factor::X, Factor::X2, Factor::X3, Factor::XLogX,
                    Factor::LogX],
                r@.len() >= 1,
                r@[0]@ == Seq::<(usize, Factor)>::empty(),
                forall|i: int| 0 <= i < r@.len()
                    ==> term_wf((#[trigger] r@[i])@, num_axes as int, max_order as int),
                // The first `end` terms use axes below `a`; later ones may
                // end with axis `a`.
                forall|i: int, k: int|
                    #![trigger r@[i]@[k]]
                    0 <= i < end && 0 <= k < r@[i]@.len() ==> r@[i]@[k].0 < a,
                forall|i: int, k: int|
                    #![trigger r@[i]@[k]]
                    end <= i < r@.len() && 0 <= k < r@[i]@.len() ==> r@[i]@[k].0 <= a,
                max_order >= 1 ==> singles_present(r@, a as int),
                max_order >= 1 && idx >= 1 ==> singles_present(r@, a as int + 1),
                max_order >= 2 ==> pairs_present(r@, a as int),
                max_order >= 3 ==> triples_present(r@, a as int),
                pass_r.len() == end,
                forall|i: int| 0 <= i < end ==> r@[i] == pass_r[i],
                max_order >= 1 ==> singles_present(pass_r, a as int),
                max_order >= 2 ==> pairs_present(pass_r, a as int),
                // Every already-visited term short of the order cap has all
                // five of its axis-`a` extensions appended.
                forall|i: int, g: int|
                    #![trigger pass_r[i], spec_factor_shapes()[g]]
                    0 <= i < idx && 0 <= g < 5 && pass_r[i]@.len() < max_order
                        ==> terms_views(r@).contains(
                            pass_r[i]@.push((a as usize, spec_factor_shapes()[g])),
                        ),
            decreases end - idx,
        {
            if r[idx].factors.len() < max_order {
                let mut f: usize = 0;
                while f < 5
                    invariant
                        0 <= f <= 5,
                        0 <= idx < end,
                        end <= r@.len(),
                        0 <= a < num_axes,
                        factors@ == seq![Factor::X, Factor::X2, Factor::X3, Factor::XLogX,
                            Factor::LogX],
                        r@.len() >= 1,
                        r@[0]@ == Seq::<(usize, Factor)>::empty(),
                        r@[idx as int]@.len() < max_order,
                        forall|i: int| 0 <= i < r@.len()
                            ==> term_wf((#[trigger] r@[i])@, num_axes as int,
                                max_order as int),
                        forall|i: int, k: int|
                            #![trigger r@[i]@[k]]
                            0 <= i < end && 0 <= k < r@[i]@.len() ==> r@[i]@[k].0 < a,
                        forall|i: int, k: int|
                            #![trigger r@[i]@[k]]
                            end <= i < r@.len() && 0 <= k < r@[i]@.len() ==> r@[i]@[k].0 <= a,
                        max_order >= 1 ==> singles_present(r@, a as int),
                        max_order >= 1 && idx >= 1 ==> singles_present(r@, a as int + 1),
                        max_order >= 2 ==> pairs_present(r@, a as int),
                        max_order >= 3 ==> triples_present(r@, a as int),
                        pass_r.len() == end,
                        forall|i: int| 0 <= i < end ==> r@[i] == pass_r[i],
                        max_order >= 1 ==> singles_present(pass_r, a as int),
                        max_order >= 2 ==> pairs_present(pass_r, a as int),
                        forall|i: int, g: int|
                            #![trigger pass_r[i], spec_factor_shapes()[g]]
                            0 <= i < idx && 0 <= g < 5 && pass_r[i]@.len() < max_order
                                ==> terms_views(r@).contains(
                                    pass_r[i]@.push((a as usize, spec_factor_shapes()[g])),
                                ),
                        forall|g: int|
                            0 <= g < f ==> terms_views(r@).contains(
                                pass_r[idx as int]@.push(
                                    (a as usize, #[trigger] spec_factor_shapes()[g]),
                                ),
                            ),
                        idx == 0 && max_order >= 1 ==> forall|g: int| 0 <= g < f
                            ==> terms_views(r@).contains(#[trigger] spec_single(a as int, g)),
                    decreases 5 - f,
                {
                    let ghost pre_push = r@;
                    let mut extended = r[idx].duplicate();
                    let ghost base = r@[idx as int]@;
                    extended.factors.push((a, factors[f]));
                    proof {
                        assert(extended@ =~= base.push((a, factors@[f as int])));
                        assert(term_wf(extended@, num_axes as int, max_order as int)) by {
                            assert(forall|k: int| 0 <= k < base.len()
                                ==> (#[trigger] base[k]).0 < a);
                            assert(forall|k: int| 0 <= k < extended@.len() - 1
                                ==> #[trigger] extended@[k] == base[k]);
                        }
                        assert(forall|k: int| 0 <= k < extended@.len()
                            ==> (#[trigger] extended@[k]).0 <= a);
                    }
                    r.push(extended);
                    proof {
                        lemma_contains_grow(pre_push, r@);
                        if max_order >= 1 {
                            lemma_singles_grow(pre_push, r@, a as int);
                            if idx >= 1 {
                                lemma_singles_grow(pre_push, r@, a as int + 1);
                            }
                        }
                        if max_order >= 2 {
                            assert(pairs_present(r@, a as int)) by {
                                assert forall|a1: int, f1: int, a2: int, f2: int|
                                    0 <= a1 < a2 < a as int && 0 <= f1 < 5 && 0 <= f2 < 5
                                    implies terms_views(r@).contains(
                                    #[trigger] spec_pair(a1, f1, a2, f2),
                                ) by {
                                    assert(terms_views(pre_push).contains(
                                        spec_pair(a1, f1, a2, f2),
                                    ));
                                }
                            }
                        }
                        if max_order >= 3 {
                            assert(triples_present(r@, a as int)) by {
                                assert forall|a1: int, f1: int, a2: int, f2: int, a3: int,
                                    f3: int|
                                    0 <= a1 < a2 < a3 < a as int && 0 <= f1 < 5 && 0 <= f2 < 5
                                        && 0 <= f3 < 5 implies terms_views(r@).contains(
                                    #[trigger] spec_triple(a1, f1, a2, f2, a3, f3),
                                ) by {
                                    assert(terms_views(pre_push).contains(
                                        spec_triple(a1, f1, a2, f2, a3, f3),
                                    ));
                                }
                            }
                        }
                        assert forall|i2: int, g: int|
                            #![trigger pass_r[i2], spec_factor_shapes()[g]]
                            0 <= i2 < idx && 0 <= g < 5 && pass_r[i2]@.len() < max_order
                            implies terms_views(r@).contains(
                            pass_r[i2]@.push((a as usize, spec_factor_shapes()[g])),
                        ) by {
                            assert(terms_views(pre_push).contains(
                                pass_r[i2]@.push((a as usize, spec_factor_shapes()[g])),
                            ));
                        }
                        assert forall|g: int| 0 <= g < f + 1 implies terms_views(r@).contains(
                            pass_r[idx as int]@.push((a as usize, spec_factor_shapes()[g])),
                        ) by {
                            if g < f {
                                assert(terms_views(pre_push).contains(
                                    pass_r[idx as int]@.push(
                                        (a as usize, spec_factor_shapes()[g]),
                                    ),
                                ));
                            } else {
                                assert(factors@[g] == spec_factor_shapes()[g]);
                                assert(base == pass_r[idx as int]@);
                                assert(extended@ =~= pass_r[idx as int]@.push(
                                    (a as usize, spec_factor_shapes()[g]),
                                ));
                                assert(terms_views(r@)[r@.len() - 1] == extended@);
                            }
                        }
                        if idx == 0 && max_order >= 1 {
                            assert forall|g: int| 0 <= g < f + 1 implies terms_views(
                                r@,
                            ).contains(#[trigger] spec_single(a as int, g)) by {
                                if g < f {
                                    assert(terms_views(pre_push).contains(
                                        spec_single(a as int, g),
                                    ));
                                    let w = choose|w: int|
                                        0 <= w < terms_views(pre_push).len()
                                            && terms_views(pre_push)[w] == spec_single(
                                            a as int,
                                            g,
                                        );
                                    assert(terms_views(r@)[w] == spec_single(a as int, g));
                                } else {
                                    assert(base =~= Seq::<(usize, Factor)>::empty());
                                    assert(extended@ =~= spec_single(a as int, g));
                                    assert(terms_views(r@)[r@.len() - 1] == extended@);
                                }
                            }
                        }
                    }
                    f += 1;
                }
            }
            proof {
                assert forall|i2: int, g: int|
                    #![trigger pass_r[i2], spec_factor_shapes()[g]]
                    0 <= i2 < idx + 1 && 0 <= g < 5 && pass_r[i2]@.len() < max_order
                    implies terms_views(r@).contains(
                    pass_r[i2]@.push((a as usize, spec_factor_shapes()[g])),
                ) by {
                    if i2 == idx {
                        assert(r@[idx as int] == pass_r[idx as int]);
                    }
                }
                if max_order >= 1 && idx == 0 {
                    // All five shapes of axis `a` were just appended.
                    assert(r@[0 as int]@.len() == 0);
                    assert(0 < max_order);
                    assert forall|a2: int, f2: int| 0 <= a2 < a as int + 1 && 0 <= f2 < 5
                        implies terms_views(r@).contains(#[trigger] spec_single(a2, f2)) by {
                        if a2 < a as int {
                            assert(terms_views(r@).contains(spec_single(a2, f2)));
                        } else {
                            assert(terms_views(r@).contains(spec_single(a as int, f2)));
                        }
                    }
                }
            }
            idx += 1;
        }
        proof {
            assert forall|i: int, k: int|
                #![trigger r@[i]@[k]]
                0 <= i < r@.len() && 0 <= k < r@[i]@.len() implies r@[i]@[k].0 < a + 1 by {
                if i < end {
                    assert(r@[i]@[k].0 < a);
                } else {
                    assert(r@[i]@[k].0 <= a);
                }
            }
            if max_order >= 2 {
                // Pairs ending on axis `a` extend the earlier singles.
                assert forall|a1: int, f1: int, a2: int, f2: int|
                    0 <= a1 < a2 < a as int + 1 && 0 <= f1 < 5 && 0 <= f2 < 5 implies
                    terms_views(r@).contains(#[trigger] spec_pair(a1, f1, a2, f2)) by {
                    if a2 < a as int {
                        assert(terms_views(r@).contains(spec_pair(a1, f1, a2, f2)));
                    } else {
                        assert(terms_views(pass_r).contains(spec_single(a1, f1)));
                        let w = choose|w: int|
                            0 <= w < terms_views(pass_r).len() && terms_views(pass_r)[w]
                                == spec_single(a1, f1);
                        assert(pass_r[w]@ == spec_single(a1, f1));
                        assert(pass_r[w]@.len() < max_order);
                        assert(terms_views(r@).contains(
                            pass_r[w]@.push((a as usize, spec_factor_shapes()[f2])),
                        ));
                        assert(spec_single(a1, f1).push(
                            (a as usize, spec_factor_shapes()[f2]),
                        ) =~= spec_pair(a1, f1, a as int, f2));
                    }
                }
            }
            if max_order >= 3 {
                // Triples ending on axis `a` extend the earlier pairs.
                assert forall|a1: int, f1: int, a2: int, f2: int, a3: int, f3: int|
                    0 <= a1 < a2 < a3 < a as int + 1 && 0 <= f1 < 5 && 0 <= f2 < 5 && 0 <= f3
                        < 5 implies terms_views(r@).contains(
                    #[trigger] spec_triple(a1, f1, a2, f2, a3, f3),
                ) by {
                    if a3 < a as int {
                        assert(terms_views(r@).contains(
                            spec_triple(a1, f1, a2, f2, a3, f3),
                        ));
                    } else {
                        assert(terms_views(pass_r).contains(spec_pair(a1, f1, a2, f2)));
                        let w = choose|w: int|
                            0 <= w < terms_views(pass_r).len() && terms_views(pass_r)[w]
                                == spec_pair(a1, f1, a2, f2);
                        assert(pass_r[w]@ == spec_pair(a1, f1, a2, f2));
                        assert(pass_r[w]@.len() < max_order);
                        assert(terms_views(r@).contains(
                            pass_r[w]@.push((a as usize, spec_factor_shapes()[f3])),
                        ));
                        assert(spec_pair(a1, f1, a2, f2).push(
                            (a as usize, spec_factor_shapes()[f3]),
                        ) =~= spec_triple(a1, f1, a2, f2, a as int, f3));
                    }
                }
            }
        }
        a += 1;
    }
    r
}

/// The factor sequences of a term list.
pub open spec fn terms_views(s: Seq<Term>) -> Seq<Seq<(usize, Factor)>> {
    Seq::new(s.len(), |i: int| s[i]@)
}

/// The term lists of a candidate list.
pub open spec fn cand_views(s: Seq<Vec<Term>>) -> Seq<Seq<Seq<(usize, Factor)>>> {
    Seq::new(s.len(), |i: int| terms_views(s[i]@))
}

/// Whether a term with these factors is in the list.
pub fn contains_term(terms: &Vec<Term>, t: &Term) -> (r: bool)
    ensures
        r == terms_views(terms@).contains(t@),
{
    let n = terms.len();
    let mut i: usize = 0;
    while i < n
        invariant
            0 <= i <= n,
            n == terms@.len(),
            forall|j: int| 0 <= j < i ==> (#[trigger] terms@[j])@ != t@,
        decreases n - i,
    {
        if terms[i].same_as(t) {
            proof {
                assert(terms_views(terms@)[i as int] == t@);
            }
            return true;
        }
        i += 1;
    }
    proof {
        if terms_views(terms@).contains(t@) {
            let j = choose|j: int|
                0 <= j < terms_views(terms@).len() && terms_views(terms@)[j] == t@;
            assert(terms@[j]@ != t@);
        }
    }
    false
}

/// A copy of a term list.
pub fn duplicate_terms(terms: &Vec<Term>) -> (r: Vec<Term>)
    ensures
        terms_views(r@) == terms_views(terms@),
{
    let n = terms.len();
    let mut r: Vec<Term> = Vec::new();
    let mut i: usize = 0;
    while i < n
        invariant
            0 <= i <= n,
            n == terms@.len(),
            r@.len() == i,
            forall|j: int| 0 <= j < i ==> (#[trigger] r@[j])@ == terms@[j]@,
        decreases n - i,
    {
        r.push(terms[i].duplicate());
        i += 1;
    }
    proof {
        assert(terms_views(r@) =~= terms_views(terms@));
    }
    r
}

/// The one-term extensions of `entry` by each library term it lacks, in
/// library order.
pub open spec fn spec_extend_entry(
    entry: Seq<Seq<(usize, Factor)>>,
    lib: Seq<Seq<(usize, Factor)>>,
) -> Seq<Seq<Seq<(usize, Factor)>>>
    decreases lib.len(),
{
    if lib.len() == 0 {
        Seq::empty()
    } else {
        let pre = spec_extend_entry(entry, lib.drop_last());
        if entry.contains(lib.last()) {
            pre
        } else {
            pre.push(entry.push(lib.last()))
        }
    }
}

/// The candidate term sets of one greedy iteration: every beam entry
/// extended by every library term it lacks, in beam-major order.
pub open spec fn spec_extend(
    beam: Seq<Seq<Seq<(usize, Factor)>>>,
    lib: Seq<Seq<(usize, Factor)>>,
) -> Seq<Seq<Seq<(usize, Factor)>>>
    decreases beam.len(),
{
    if beam.len() == 0 {
        Seq::empty()
    } else {
        spec_extend(beam.drop_last(), lib) + spec_extend_entry(beam.last(), lib)
    }
}

/// The term sets of the beam entries.
pub open spec fn beam_views(s: Seq<BeamEntry>) -> Seq<Seq<Seq<(usize, Factor)>>> {
    Seq::new(s.len(), |i: int| terms_views(s[i].terms@))
}

/// Generate the candidate term sets extending the current beam (see
/// [`spec_extend`]).
pub fn extend_candidates(beam: &Vec<BeamEntry>, library: &Vec<Term>) -> (r: Vec<Vec<Term>>)
    ensures
        cand_views(r@) == spec_extend(beam_views(beam@), terms_views(library@)),
{
    let ghost bv = beam_views(beam@);
    let ghost lv = terms_views(library@);
    let mut r: Vec<Vec<Term>> = Vec::new();
    let nb = beam.len();
    let nl = library.len();
    let mut b: usize = 0;
    proof {
        assert(bv.take(0) =~= Seq::<Seq<Seq<(usize, Factor)>>>::empty());
        assert(cand_views(r@) =~= spec_extend(bv.take(0), lv));
    }
    while b < nb
        invariant
            0 <= b <= nb,
            nb == beam@.len(),
            nl == library@.len(),
            bv == beam_views(beam@),
            lv == terms_views(library@),
            cand_views(r@) == spec_extend(bv.take(b as int), lv),
        decreases nb - b,
    {
        let mut t: usize = 0;
        proof {
            assert(lv.take(0) =~= Seq::<Seq<(usize, Factor)>>::empty());
            assert(spec_extend_entry(bv[b as int], lv.take(0))
                =~= Seq::<Seq<Seq<(usize, Factor)>>>::empty());
            assert(cand_views(r@) =~= spec_extend(bv.take(b as int), lv)
                + spec_extend_entry(bv[b as int], lv.take(0)));
        }
        while t < nl
            invariant
                0 <= t <= nl,
                0 <= b < nb,
                nb == beam@.len(),
                nl == library@.len(),
                bv == beam_views(beam@),
                lv == terms_views(library@),
                cand_views(r@) =~= spec_extend(bv.take(b as int), lv) + spec_extend_entry(
                    bv[b as int],
                    lv.take(t as int),
                ),
            decreases nl - t,
        {
            let ghost old_r = r@;
            let term = &library[t];
            proof {
                assert(lv.take(t + 1).drop_last() =~= lv.take(t as int));
                assert(lv.take(t + 1).last() == lv[t as int]);
                assert(terms_views(beam@[b as int].terms@) == bv[b as int]);
            }
            if !contains_term(&beam[b].terms, term) {
                let mut cand = duplicate_terms(&beam[b].terms);
                cand.push(term.duplicate());
                proof {
                    assert(terms_views(cand@) =~= bv[b as int].push(lv[t as int]));
                }
                r.push(cand);
                proof {
                    assert(cand_views(r@) =~= cand_views(old_r).push(terms_views(
                        r@.last()@,
                    )));
                    assert(cand_views(r@) =~= spec_extend(bv.take(b as int), lv)
                        + spec_extend_entry(bv[b as int], lv.take(t + 1)));
                }
            } else {
                proof {
                    assert(cand_views(r@) =~= spec_extend(bv.take(b as int), lv)
                        + spec_extend_entry(bv[b as int], lv.take(t + 1)));
                }
            }
            t += 1;
        }
        proof {
            assert(lv.take(nl as int) =~= lv);
            assert(bv.take(b + 1).drop_last() =~= bv.take(b as int));
            assert(bv.take(b + 1).last() == bv[b as int]);
            assert(cand_views(r@) =~= spec_extend(bv.take(b + 1), lv));
        }
        b += 1;
    }
    proof {
        assert(bv.take(nb as int) =~= bv);
    }
    r
}

/// Whether the scores of a beam are in ascending order.
pub open spec fn beam_sorted(s: Seq<BeamEntry>) -> bool {
    forall|i: int, j: int| 0 <= i < j < s.len() ==> s[i].score_bits <= s[j].score_bits
}

/// Every entry of `s` occurs in `orig`.
pub open spec fn beam_from(s: Seq<BeamEntry>, orig: Seq<BeamEntry>) -> bool {
    forall|i: int| 0 <= i < s.len() ==> orig.contains(#[trigger] s[i])
}

/// Every entry of `orig` occurs in `kept` or in `rest`.
pub open spec fn beam_covered(
    orig: Seq<BeamEntry>,
    kept: Seq<BeamEntry>,
    rest: Seq<BeamEntry>,
) -> bool {
    forall|j: int| 0 <= j < orig.len()
        ==> kept.contains(#[trigger] orig[j]) || rest.contains(orig[j])
}

/// The extraction step of the selection loop keeps every membership
/// invariant: the element removed at `best` moved to the end of the kept
/// list, and everything else stayed.
proof fn lemma_select_step(
    orig: Seq<BeamEntry>,
    old_r: Seq<BeamEntry>,
    old_rem: Seq<BeamEntry>,
    new_r: Seq<BeamEntry>,
    new_rem: Seq<BeamEntry>,
    best: int,
)
    requires
        0 <= best < old_rem.len(),
        new_r == old_r.push(old_rem[best]),
        new_rem.len() == old_rem.len() - 1,
        forall|k: int| 0 <= k < best ==> #[trigger] new_rem[k] == old_rem[k],
        forall|k: int| best <= k < new_rem.len() ==> #[trigger] new_rem[k] == old_rem[k + 1],
        beam_from(old_r, orig),
        beam_from(old_rem, orig),
        beam_covered(orig, old_r, old_rem),
    ensures
        beam_from(new_r, orig),
        beam_from(new_rem, orig),
        beam_covered(orig, new_r, new_rem),
{
    assert forall|i2: int| 0 <= i2 < new_r.len() implies orig.contains(#[trigger] new_r[i2]) by {
        if i2 < old_r.len() {
            assert(new_r[i2] == old_r[i2]);
        } else {
            assert(new_r[i2] == old_rem[best]);
        }
    }
    assert forall|i2: int| 0 <= i2 < new_rem.len() implies orig.contains(
        #[trigger] new_rem[i2],
    ) by {
        if i2 < best {
            assert(new_rem[i2] == old_rem[i2]);
        } else {
            assert(new_rem[i2] == old_rem[i2 + 1]);
        }
    }
    assert forall|j: int| 0 <= j < orig.len() implies new_r.contains(#[trigger] orig[j])
        || new_rem.contains(orig[j]) by {
        if old_r.contains(orig[j]) {
            let i2 = choose|i2: int| 0 <= i2 < old_r.len() && old_r[i2] == orig[j];
            assert(new_r[i2] == orig[j]);
        } else {
            let i2 = choose|i2: int| 0 <= i2 < old_rem.len() && old_rem[i2] == orig[j];
            if i2 == best {
                assert(new_r[new_r.len() - 1] == orig[j]);
            } else if i2 < best {
                assert(new_rem[i2] == orig[j]);
            } else {
                assert(new_rem[i2 - 1] == orig[j]);
            }
        }
    }
}

/// At the start of the selection nothing is kept and everything remains.
proof fn lemma_select_init(orig: Seq<BeamEntry>, empty: Seq<BeamEntry>)
    requires
        empty.len() == 0,
    ensures
        beam_from(orig, orig),
        beam_from(empty, orig),
        beam_covered(orig, empty, orig),
{
    assert forall|i: int| 0 <= i < orig.len() implies orig.contains(#[trigger] orig[i]) by {
        assert(orig[i] == orig[i]);
    }
}

/// When the loop is over, every candidate scoring strictly below the worst
/// kept entry was kept.
proof fn lemma_select_final(orig: Seq<BeamEntry>, r: Seq<BeamEntry>, rem: Seq<BeamEntry>)
    requires
        r.len() > 0,
        beam_covered(orig, r, rem),
        forall|i: int, j: int| 0 <= i < r.len() && 0 <= j < rem.len()
            ==> (#[trigger] r[i]).score_bits <= (#[trigger] rem[j]).score_bits,
    ensures
        forall|j: int|
            0 <= j < orig.len() && (#[trigger] orig[j]).score_bits < r[r.len() - 1].score_bits
                ==> r.contains(orig[j]),
{
    assert forall|j: int|
        0 <= j < orig.len() && (#[trigger] orig[j]).score_bits < r[r.len() - 1].score_bits
            implies r.contains(orig[j]) by {
        if !r.contains(orig[j]) {
            let i2 = choose|i2: int| 0 <= i2 < rem.len() && rem[i2] == orig[j];
            assert(r[r.len() - 1].score_bits <= rem[i2].score_bits);
        }
    }
}

/// Keep the `beam_size` best-scoring entries, best first.  Every candidate
/// scoring strictly better than the worst kept entry is kept.
#[verifier::rlimit(100)]
pub fn select_best(candidates: Vec<BeamEntry>, beam_size: usize) -> (r: Vec<BeamEntry>)
    ensures
        r@.len() == if candidates@.len() <= beam_size {
            candidates@.len() as int
        } else {
            beam_size as int
        },
        beam_sorted(r@),
        beam_from(r@, candidates@),
        r@.len() > 0 ==> forall|j: int|
            0 <= j < candidates@.len()
                && (#[trigger] candidates@[j]).score_bits < r@[r@.len() - 1].score_bits
                ==> r@.contains(candidates@[j]),
{
    let ghost orig = candidates@;
    let mut rem = candidates;
    let mut r: Vec<BeamEntry> = Vec::new();
    proof {
        lemma_select_init(orig, r@);
    }
    while r.len() < beam_size && rem.len() > 0
        invariant
            orig.len() == r@.len() + rem@.len(),
            r@.len() <= beam_size,
            beam_sorted(r@),
            forall|i: int, j: int| 0 <= i < r@.len() && 0 <= j < rem@.len()
                ==> (#[trigger] r@[i]).score_bits <= (#[trigger] rem@[j]).score_bits,
            beam_from(r@, orig),
            beam_from(rem@, orig),
            beam_covered(orig, r@, rem@),
        decreases rem@.len(),
    {
        let mut best: usize = 0;
        let mut i: usize = 1;
        while i < rem.len()
            invariant
                0 < rem@.len(),
                best < i,
                best < rem@.len(),
                i >= 1,
                forall|k: int| 0 <= k < i
                    ==> rem@[best as int].score_bits <= (#[trigger] rem@[k]).score_bits,
            decreases rem@.len() - i,
        {
            if rem[i].score_bits < rem[best].score_bits {
                best = i;
            }
            i += 1;
        }
        let ghost old_rem = rem@;
        let ghost old_r = r@;
        let e = rem.remove(best);
        proof {
            assert(e == old_rem[best as int]);
            assert(forall|k: int| 0 <= k < best ==> #[trigger] rem@[k] == old_rem[k]);
            assert(forall|k: int| best <= k < rem@.len()
                ==> #[trigger] rem@[k] == old_rem[k + 1]);
            assert(forall|k: int| 0 <= k < old_rem.len()
                ==> e.score_bits <= (#[trigger] old_rem[k]).score_bits);
        }
        r.push(e);
        proof {
            lemma_select_step(orig, old_r, old_rem, r@, rem@, best as int);
            assert forall|i2: int, j2: int|
                0 <= i2 < r@.len() && 0 <= j2 < rem@.len() implies (#[trigger] r@[i2]).score_bits
                <= (#[trigger] rem@[j2]).score_bits by {
                if j2 < best {
                    assert(rem@[j2] == old_rem[j2]);
                } else {
                    assert(rem@[j2] == old_rem[j2 + 1]);
                }
                if i2 < old_r.len() {
                    assert(r@[i2] == old_r[i2]);
                } else {
                    assert(r@[i2] == e);
                }
            }
            assert(beam_sorted(r@)) by {
                assert forall|i2: int, j2: int| 0 <= i2 < j2 < r@.len() implies r@[i2].score_bits
                    <= r@[j2].score_bits by {
                    if j2 < old_r.len() {
                    } else if i2 < old_r.len() {
                        assert(old_r[i2].score_bits <= old_rem[best as int].score_bits);
                    }
                }
            }
        }
    }
    proof {
        if r@.len() > 0 {
            lemma_select_final(orig, r@, rem@);
        }
    }
    r
}

} // verus!
