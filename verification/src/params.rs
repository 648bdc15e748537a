//! Parameter definitions.
//!
//! A parameter is one of three closed shapes: an integer range, a decimal
//! range, or a list of discrete items.  Each supports *sample at step k* and,
//! for item lists only, an *item count*.  Ranges over strings are refused,
//! as are range endpoints of mixed kinds.

use vstd::prelude::*;
use crate::decimal::Decimal;
use crate::error::Error;
use crate::sample::{Sample, SampleV, sample_v_wf};

verus! {

/// A generic value set: a half-open range or explicit items.
pub enum ParamSet<T> {
    Range(T, T),
    Items(Vec<T>),
}

impl<T: Copy> ParamSet<T> {
    /// The first value of the set: the range start, or the first item.
    pub fn lower_bound(&self) -> (r: T)
        requires
            self matches ParamSet::Items(v) ==> v@.len() > 0,
        ensures
            match self {
                ParamSet::Range(start, _) => r == start,
                ParamSet::Items(v) => r == v@[0],
            },
    {
        match self {
            ParamSet::Range(start, _) => *start,
            ParamSet::Items(v) => v[0],
        }
    }
}

/// An integer range `[lo, hi)` stepped by a positive `step`.
pub struct UsizeRange {
    pub lo: usize,
    pub hi: usize,
    pub step: usize,
}

impl UsizeRange {
    pub open spec fn wf(&self) -> bool {
        self.step >= 1
    }

    /// The k-th step: `lo + k * step`, defined while it stays below `hi`.
    pub open spec fn spec_for_step(&self, k: nat) -> Option<SampleV> {
        if self.lo + k * self.step < self.hi {
            Some(SampleV::Usize((self.lo + k * self.step) as nat))
        } else {
            None
        }
    }

    pub fn for_step(&self, step: usize) -> (r: Option<Sample>)
        ensures
            match r {
                Some(s) => Some(s@) == self.spec_for_step(step as nat) && s.wf(),
                None => self.spec_for_step(step as nat) is None,
            },
    {
        let v = match step.checked_mul(self.step) {
            Some(x) => x.checked_add(self.lo),
            None => None,
        };
        match v {
            Some(x) => {
                if x < self.hi {
                    Some(Sample::Usize(x))
                } else {
                    None
                }
            },
            None => None,
        }
    }
}

/// A decimal range `[lo, hi)` stepped by a positive decimal `step`; all
/// three bounds share one scale.
pub struct FloatRange {
    pub lo: Decimal,
    pub hi: Decimal,
    pub step: Decimal,
}

impl FloatRange {
    pub open spec fn wf(&self) -> bool {
        &&& self.lo.wf()
        &&& self.hi.wf()
        &&& self.step.wf()
        &&& self.lo.scale == self.hi.scale
        &&& self.lo.scale == self.step.scale
        &&& self.step.num >= 1
    }

    /// The k-th step: `lo + k * step` on the shared scale, defined while it
    /// stays below `hi`.
    pub open spec fn spec_for_step(&self, k: nat) -> Option<SampleV> {
        if self.lo.num + k * self.step.num < self.hi.num {
            Some(
                SampleV::Float(
                    Decimal {
                        num: (self.lo.num + k * self.step.num) as i64,
                        scale: self.lo.scale,
                    },
                ),
            )
        } else {
            None
        }
    }

    pub fn for_step(&self, step: usize) -> (r: Option<Sample>)
        requires
            self.wf(),
        ensures
            match r {
                Some(s) => Some(s@) == self.spec_for_step(step as nat) && s.wf(),
                None => self.spec_for_step(step as nat) is None,
            },
    {
        proof {
            assert((step as int) * (self.step.num as int)
                <= (usize::MAX as int) * (i64::MAX as int)) by (nonlinear_arith)
                requires
                    0 <= step <= usize::MAX,
                    0 <= self.step.num <= i64::MAX,
            ;
            assert((step as int) * (self.step.num as int) >= 0) by (nonlinear_arith)
                requires
                    step >= 0,
                    self.step.num >= 1,
            ;
        }
        let prod: i128 = (step as i128) * (self.step.num as i128);
        let sum: i128 = prod + (self.lo.num as i128);
        if sum < self.hi.num as i128 {
            Some(Sample::Float(Decimal { num: sum as i64, scale: self.lo.scale }))
        } else {
            None
        }
    }
}

/// An explicit, ordered list of items.
pub struct Items {
    pub items: Vec<Sample>,
}

impl Items {
    pub open spec fn wf(&self) -> bool {
        forall|i: int| 0 <= i < self.items@.len() ==> (#[trigger] self.items@[i]).wf()
    }

    pub open spec fn spec_for_step(&self, k: nat) -> Option<SampleV> {
        if k < self.items@.len() {
            Some(self.items@[k as int]@)
        } else {
            None
        }
    }

    pub fn num_items(&self) -> (r: usize)
        ensures
            r == self.items@.len(),
    {
        self.items.len()
    }

    pub fn for_step(&self, step: usize) -> (r: Option<Sample>)
        requires
            self.wf(),
        ensures
            match r {
                Some(s) => Some(s@) == self.spec_for_step(step as nat) && s.wf(),
                None => self.spec_for_step(step as nat) is None,
            },
    {
        if step >= self.items.len() {
            None
        } else {
            Some(self.items[step].duplicate())
        }
    }
}

/// A parameter definition: one of the three closed shapes.
pub enum ParamType {
    Usize(UsizeRange),
    Float(FloatRange),
    Items(Items),
}

/// Arguments acceptable to [`ParamType::from_range`]: integer endpoints with
/// a positive step, or decimal endpoints on one scale with a positive step.
/// String endpoints are refused by the constructor itself.
pub open spec fn range_args_ok(lo: SampleV, hi: SampleV, step: SampleV) -> bool {
    match (lo, hi, step) {
        (SampleV::Usize(_), SampleV::Usize(_), SampleV::Usize(c)) => c >= 1,
        (SampleV::Float(a), SampleV::Float(b), SampleV::Float(c)) => a.wf() && b.wf()
            && c.wf() && a.scale == b.scale && a.scale == c.scale && c.num >= 1,
        _ => true,
    }
}

/// Check [`range_args_ok`].
pub fn range_args_check(lo: &Sample, hi: &Sample, step: &Sample) -> (r: bool)
    ensures
        r == range_args_ok(lo@, hi@, step@),
{
    match (lo, hi, step) {
        (Sample::Usize(_), Sample::Usize(_), Sample::Usize(c)) => *c >= 1,
        (Sample::Float(a), Sample::Float(b), Sample::Float(c)) => a.is_wf() && b.is_wf()
            && c.is_wf() && a.scale == b.scale && a.scale == c.scale && c.num >= 1,
        _ => true,
    }
}

impl ParamType {
    pub open spec fn wf(&self) -> bool {
        match self {
            ParamType::Usize(r) => r.wf(),
            ParamType::Float(r) => r.wf(),
            ParamType::Items(it) => it.wf(),
        }
    }

    /// The k-th sample of this parameter, if the step exists.
    pub open spec fn spec_for_step(&self, k: nat) -> Option<SampleV> {
        match self {
            ParamType::Usize(r) => r.spec_for_step(k),
            ParamType::Float(r) => r.spec_for_step(k),
            ParamType::Items(it) => it.spec_for_step(k),
        }
    }

    /// The number of discrete items; ranges have no item count.
    pub open spec fn spec_num_items(&self) -> Option<usize> {
        match self {
            ParamType::Items(it) => Some(it.items@.len() as usize),
            _ => None,
        }
    }

    /// Build a range parameter from endpoint samples of one kind.  String
    /// endpoints are refused with *string range*, mixed endpoints with
    /// *invalid type*.
    pub fn from_range(lo: Sample, hi: Sample, step: Sample) -> (r: Result<ParamType, Error>)
        requires
            range_args_ok(lo@, hi@, step@),
        ensures
            match r {
                Ok(p) => {
                    &&& p.wf()
                    &&& match (lo@, hi@, step@) {
                        (SampleV::Usize(a), SampleV::Usize(b), SampleV::Usize(c)) => p
                            == ParamType::Usize(
                            UsizeRange { lo: a as usize, hi: b as usize, step: c as usize },
                        ),
                        (SampleV::Float(a), SampleV::Float(b), SampleV::Float(c)) => p
                            == ParamType::Float(FloatRange { lo: a, hi: b, step: c }),
                        _ => false,
                    }
                },
                Err(Error::StringRange) => lo@ is Str && hi@ is Str && step@ is Str,
                Err(Error::InvalidType(_)) => !(lo@ is Str && hi@ is Str && step@ is Str)
                    && !(lo@ is Usize && hi@ is Usize && step@ is Usize)
                    && !(lo@ is Float && hi@ is Float && step@ is Float),
                Err(_) => false,
            },
    {
        match (lo, hi, step) {
            (Sample::Usize(a), Sample::Usize(b), Sample::Usize(c)) => Ok(
                ParamType::Usize(UsizeRange { lo: a, hi: b, step: c }),
            ),
            (Sample::Float(a), Sample::Float(b), Sample::Float(c)) => Ok(
                ParamType::Float(FloatRange { lo: a, hi: b, step: c }),
            ),
            (Sample::Str(_), Sample::Str(_), Sample::Str(_)) => Err(Error::StringRange),
            _ => Err(Error::InvalidType(mixed_range_text())),
        }
    }

    /// Build a discrete-items parameter.
    pub fn from_items(items: Vec<Sample>) -> (r: Result<ParamType, Error>)
        requires
            forall|i: int| 0 <= i < items@.len() ==> (#[trigger] items@[i]).wf(),
        ensures
            r matches Ok(p) && p == ParamType::Items(Items { items }) && p.wf(),
    {
        Ok(ParamType::Items(Items { items }))
    }

    /// The step-0 sample, if the parameter has any valid step.
    pub fn lower_bound(&self) -> (r: Option<Sample>)
        requires
            self.wf(),
        ensures
            match r {
                Some(s) => Some(s@) == self.spec_for_step(0) && s.wf(),
                None => self.spec_for_step(0) is None,
            },
    {
        self.for_step(0)
    }

    pub fn num_items(&self) -> (r: Option<usize>)
        ensures
            r == self.spec_num_items(),
            r matches Some(l) ==> self matches ParamType::Items(it) && l == it.items@.len(),
    {
        match self {
            ParamType::Items(it) => Some(it.num_items()),
            _ => None,
        }
    }

    pub fn for_step(&self, step: usize) -> (r: Option<Sample>)
        requires
            self.wf(),
        ensures
            match r {
                Some(s) => Some(s@) == self.spec_for_step(step as nat) && s.wf(),
                None => self.spec_for_step(step as nat) is None,
            },
    {
        match self {
            ParamType::Usize(r) => r.for_step(step),
            ParamType::Float(r) => r.for_step(step),
            ParamType::Items(it) => it.for_step(step),
        }
    }
}

/// Description used when range endpoints mix kinds.
fn mixed_range_text() -> String {
    crate::text::string_of_chars(&crate::text::chars_of_str("mixed range endpoint kinds"))
}

/// An integer range yields `lo + k * step` at step `k` exactly while that
/// value stays below `hi`, and *no such step* from there on.
pub proof fn lemma_usize_range_steps(r: UsizeRange, k: nat)
    requires
        r.wf(),
    ensures
        r.lo + k * r.step < r.hi ==> r.spec_for_step(k) == Some(
            SampleV::Usize((r.lo + k * r.step) as nat),
        ),
        r.lo + k * r.step >= r.hi ==> r.spec_for_step(k) is None,
{
}

} // verus!
