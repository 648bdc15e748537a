//! The parameter registry.
//!
//! A builder maps parameter names to definitions, in insertion order, and
//! constructs complete assignments: the lower bound (every parameter at step
//! zero), an assignment from a step-index vector, or an assignment with one
//! parameter moved to a new step.  Registering a name twice fails with
//! *duplicate name* and leaves the registry unchanged.

use vstd::prelude::*;
use crate::decimal::Decimal;
use crate::error::Error;
use crate::params::{ParamType, range_args_ok};
use crate::sample::{Sample, SampleV, FIELD_SEP, sample_v_wf};
use crate::samples::{NamedSample, Samples, SamplesV};
use crate::text::str_eq_str;

verus! {

/// One registry entry.
pub struct NamedParam {
    pub name: String,
    pub param: ParamType,
}

/// The parameter registry, in insertion order.
pub struct ParamBuilder {
    pub entries: Vec<NamedParam>,
}

/// A name acceptable to the registry: free of the token delimiter and of
/// spaces, so that assignments survive the trip to the child.
pub open spec fn name_ok(name: Seq<char>) -> bool {
    !name.contains(FIELD_SEP) && !name.contains(' ')
}

/// Check [`name_ok`].
pub fn name_ok_check(name: &str) -> (r: bool)
    ensures
        r == name_ok(name@),
{
    let n = name.unicode_len();
    let mut i: usize = 0;
    while i < n
        invariant
            0 <= i <= n,
            n == name@.len(),
            forall|j: int| 0 <= j < i ==> name@[j] != FIELD_SEP && name@[j] != ' ',
        decreases n - i,
    {
        let c = name.get_char(i);
        if c == FIELD_SEP || c == ' ' {
            return false;
        }
        i += 1;
    }
    proof {
        if name@.contains(FIELD_SEP) {
            let j = choose|j: int| 0 <= j < name@.len() && name@[j] == FIELD_SEP;
            assert(name@[j] != FIELD_SEP);
        }
        if name@.contains(' ') {
            let j = choose|j: int| 0 <= j < name@.len() && name@[j] == ' ';
            assert(name@[j] != ' ');
        }
    }
    true
}

impl ParamBuilder {
    /// The registered names, in insertion order.
    pub open spec fn names(&self) -> Seq<Seq<char>> {
        Seq::new(self.entries@.len(), |i: int| self.entries@[i].name@)
    }

    pub open spec fn has_name(&self, name: Seq<char>) -> bool {
        exists|i: int| 0 <= i < self.names().len() && self.names()[i] == name
    }

    /// Names are unique and acceptable, and every definition is well formed.
    pub open spec fn wf(&self) -> bool {
        &&& forall|i: int, j: int| 0 <= i < j < self.names().len()
            ==> self.names()[i] != self.names()[j]
        &&& forall|i: int| 0 <= i < self.names().len() ==> name_ok(#[trigger] self.names()[i])
        &&& forall|i: int| 0 <= i < self.entries@.len()
            ==> (#[trigger] self.entries@[i].param).wf()
    }

    pub fn new() -> (r: ParamBuilder)
        ensures
            r.entries@.len() == 0,
            r.wf(),
    {
        ParamBuilder { entries: Vec::new() }
    }

    /// Whether `name` is registered.
    pub fn contains_name(&self, name: &str) -> (r: bool)
        ensures
            r == self.has_name(name@),
    {
        let n = self.entries.len();
        let mut i: usize = 0;
        while i < n
            invariant
                0 <= i <= n,
                n == self.entries@.len(),
                forall|j: int| 0 <= j < i ==> self.names()[j] != name@,
            decreases n - i,
        {
            if str_eq_str(self.entries[i].name.as_str(), name) {
                proof {
                    assert(self.names()[i as int] == name@);
                }
                return true;
            }
            i += 1;
        }
        false
    }

    /// Register a parameter under a fresh name; the shared insertion logic.
    fn insert(&mut self, name: &str, param: ParamType) -> (r: Result<(), Error>)
        requires
            old(self).wf(),
            name_ok(name@),
            param.wf(),
        ensures
            match r {
                Ok(()) => {
                    &&& !old(self).has_name(name@)
                    &&& final(self).entries@ == old(self).entries@.push(
                        final(self).entries@.last(),
                    )
                    &&& final(self).entries@.last().name@ == name@
                    &&& final(self).entries@.last().param == param
                    &&& final(self).wf()
                },
                Err(Error::ArgumentAlreadyExists(o)) => {
                    &&& o@ == name@
                    &&& old(self).has_name(name@)
                    &&& *final(self) == *old(self)
                },
                Err(_) => false,
            },
    {
        if self.contains_name(name) {
            return Err(Error::ArgumentAlreadyExists(name.to_owned()));
        }
        let entry = NamedParam { name: name.to_owned(), param };
        let ghost old_names = self.names();
        self.entries.push(entry);
        proof {
            assert(self.names() =~= old_names.push(name@));
            assert forall|i: int, j: int| 0 <= i < j < self.names().len() implies
                self.names()[i] != self.names()[j] by {
                if j == self.names().len() - 1 {
                    assert(!old(self).has_name(name@));
                    assert(old_names[i] != name@);
                }
            }
        }
        Ok(())
    }

    /// Register an integer range `[lo, hi)` with a positive step.  Fails
    /// with *duplicate name* if and only if the name exists, leaving the
    /// registry unchanged.
    pub fn add_usize_range(&mut self, name: &str, lo: usize, hi: usize, step: usize) -> (r:
        Result<(), Error>)
        requires
            old(self).wf(),
            name_ok(name@),
            step >= 1,
        ensures
            match r {
                Ok(()) => {
                    &&& !old(self).has_name(name@)
                    &&& final(self).entries@ == old(self).entries@.push(
                        final(self).entries@.last(),
                    )
                    &&& final(self).entries@.last().name@ == name@
                    &&& final(self).entries@.last().param matches ParamType::Usize(ur)
                        && ur.lo == lo && ur.hi == hi && ur.step == step
                    &&& final(self).wf()
                },
                Err(Error::ArgumentAlreadyExists(o)) => {
                    &&& o@ == name@
                    &&& old(self).has_name(name@)
                    &&& *final(self) == *old(self)
                },
                Err(_) => false,
            },
    {
        match ParamType::from_range(
            Sample::Usize(lo),
            Sample::Usize(hi),
            Sample::Usize(step),
        ) {
            Ok(param) => self.insert(name, param),
            Err(_) => {
                proof {
                    assert(false);
                }
                Err(Error::ParseInt)
            },
        }
    }

    /// Register a decimal range `[lo, hi)` with a positive step; the three
    /// bounds must share one scale (see [`Decimal::rescale`]).
    pub fn add_float_range(&mut self, name: &str, lo: Decimal, hi: Decimal, step: Decimal)
        -> (r: Result<(), Error>)
        requires
            old(self).wf(),
            name_ok(name@),
            range_args_ok(SampleV::Float(lo), SampleV::Float(hi), SampleV::Float(step)),
        ensures
            match r {
                Ok(()) => {
                    &&& !old(self).has_name(name@)
                    &&& final(self).entries@ == old(self).entries@.push(
                        final(self).entries@.last(),
                    )
                    &&& final(self).entries@.last().name@ == name@
                    &&& final(self).entries@.last().param matches ParamType::Float(fr)
                        && fr.lo == lo && fr.hi == hi && fr.step == step
                    &&& final(self).wf()
                },
                Err(Error::ArgumentAlreadyExists(o)) => {
                    &&& o@ == name@
                    &&& old(self).has_name(name@)
                    &&& *final(self) == *old(self)
                },
                Err(_) => false,
            },
    {
        match ParamType::from_range(
            Sample::Float(lo),
            Sample::Float(hi),
            Sample::Float(step),
        ) {
            Ok(param) => self.insert(name, param),
            Err(_) => {
                proof {
                    assert(false);
                }
                Err(Error::ParseInt)
            },
        }
    }

    /// Register a discrete item list.
    pub fn add_items(&mut self, name: &str, items: Vec<Sample>) -> (r: Result<(), Error>)
        requires
            old(self).wf(),
            name_ok(name@),
            forall|i: int| 0 <= i < items@.len() ==> (#[trigger] items@[i]).wf(),
        ensures
            match r {
                Ok(()) => {
                    &&& !old(self).has_name(name@)
                    &&& final(self).entries@ == old(self).entries@.push(
                        final(self).entries@.last(),
                    )
                    &&& final(self).entries@.last().name@ == name@
                    &&& final(self).entries@.last().param matches ParamType::Items(it)
                        && it.items@ == items@
                    &&& final(self).wf()
                },
                Err(Error::ArgumentAlreadyExists(o)) => {
                    &&& o@ == name@
                    &&& old(self).has_name(name@)
                    &&& *final(self) == *old(self)
                },
                Err(_) => false,
            },
    {
        match ParamType::from_items(items) {
            Ok(param) => self.insert(name, param),
            Err(_) => {
                proof {
                    assert(false);
                }
                Err(Error::ParseInt)
            },
        }
    }

    /// The registered entries, in insertion order.
    pub fn params(&self) -> (r: &Vec<NamedParam>)
        ensures
            r == &self.entries,
    {
        &self.entries
    }

    /// The assignment the builder yields for a vector of step indices, one
    /// index per registered parameter, in registry order: defined exactly
    /// when every parameter has a sample at its index.
    pub open spec fn spec_from_indices(&self, steps: Seq<nat>) -> Option<SamplesV> {
        if forall|i: int| 0 <= i < self.entries@.len()
            ==> (#[trigger] self.entries@[i].param).spec_for_step(steps[i]) is Some {
            Some(
                SamplesV {
                    entries: Seq::new(
                        self.entries@.len(),
                        |i: int| (
                            self.entries@[i].name@,
                            self.entries@[i].param.spec_for_step(steps[i])->0,
                        ),
                    ),
                    setup_only: false,
                },
            )
        } else {
            None
        }
    }

    /// Build the assignment for the given `(name, step)` pairs, which must
    /// name every registered parameter in registry order.  *No assignment*
    /// results exactly when some step is past a parameter's last valid step.
    /// The step vector that a `(name, step)` pair list asks of this
    /// registry, one step per registered parameter, found by name.
    pub open spec fn spec_steps_of(&self, indices: Seq<(String, usize)>) -> Seq<nat> {
        Seq::new(
            self.entries@.len(),
            |i: int| spec_index_lookup(indices, self.entries@[i].name@)->0 as nat,
        )
    }

    /// Build the assignment for the given `(name, step)` pairs, which must
    /// cover every registered parameter (in any order).  *No assignment*
    /// results exactly when some requested step is past a parameter's last
    /// valid step.
    pub fn from_indices(&self, indices: &Vec<(String, usize)>) -> (r: Option<Samples>)
        requires
            self.wf(),
            indices@.len() == self.entries@.len(),
            forall|i: int| 0 <= i < self.entries@.len() ==> exists|j: int|
                0 <= j < indices@.len()
                    && (#[trigger] self.entries@[i]).name@ == indices@[j].0@,
        ensures
            match r {
                Some(ss) => {
                    &&& Some(ss@) == self.spec_from_indices(self.spec_steps_of(indices@))
                    &&& ss.wf()
                },
                None => self.spec_from_indices(self.spec_steps_of(indices@)) is None,
            },
    {
        let ghost steps = self.spec_steps_of(indices@);
        let n = self.entries.len();
        let mut entries: Vec<NamedSample> = Vec::new();
        let mut i: usize = 0;
        while i < n
            invariant
                0 <= i <= n,
                n == self.entries@.len(),
                n == indices@.len(),
                self.wf(),
                steps == self.spec_steps_of(indices@),
                forall|k: int| 0 <= k < self.entries@.len() ==> exists|j: int|
                    0 <= j < indices@.len()
                        && (#[trigger] self.entries@[k]).name@ == indices@[j].0@,
                entries@.len() == i,
                forall|k: int| 0 <= k < i
                    ==> (#[trigger] self.entries@[k].param).spec_for_step(steps[k]) is Some,
                forall|k: int| 0 <= k < i ==> (#[trigger] entries@[k]@) == (
                    self.entries@[k].name@,
                    self.entries@[k].param.spec_for_step(steps[k])->0,
                ),
                forall|k: int| 0 <= k < i
                    ==> sample_v_wf((#[trigger] entries@[k]@).1),
            decreases n - i,
        {
            proof {
                lemma_index_lookup_some(indices@, self.entries@[i as int].name@);
                assert(indices@.skip(0) =~= indices@);
            }
            let step = match index_step_from(indices, 0, self.entries[i].name.as_str()) {
                Some(step) => step,
                None => {
                    proof {
                        assert(false);
                    }
                    return None;
                },
            };
            proof {
                assert(steps[i as int] == step as nat);
            }
            match self.entries[i].param.for_step(step) {
                Some(sample) => {
                    let name = self.entries[i].name.clone();
                    entries.push(NamedSample { name, sample });
                },
                None => {
                    return None;
                },
            }
            i += 1;
        }
        let r = Samples::new(entries);
        proof {
            assert(r@.entries =~= self.spec_from_indices(steps)->0.entries);
        }
        Some(r)
    }

    /// The lower-bound assignment: every parameter at step zero.
    pub open spec fn spec_lower_bound(&self) -> Option<SamplesV> {
        self.spec_from_indices(Seq::new(self.entries@.len(), |i: int| 0nat))
    }

    /// Build the assignment that sets every parameter to its step-0 sample.
    /// *No assignment* results exactly when some parameter has no valid
    /// step at all.
    pub fn lower_bound(&self) -> (r: Option<Samples>)
        requires
            self.wf(),
        ensures
            match r {
                Some(ss) => Some(ss@) == self.spec_lower_bound() && ss.wf(),
                None => self.spec_lower_bound() is None,
            },
    {
        let n = self.entries.len();
        let mut indices: Vec<(String, usize)> = Vec::new();
        let mut i: usize = 0;
        while i < n
            invariant
                0 <= i <= n,
                n == self.entries@.len(),
                indices@.len() == i,
                forall|k: int| 0 <= k < i
                    ==> (#[trigger] indices@[k]).0@ == self.entries@[k].name@
                        && indices@[k].1 == 0,
            decreases n - i,
        {
            indices.push((self.entries[i].name.clone(), 0));
            i += 1;
        }
        proof {
            assert forall|k: int| 0 <= k < self.entries@.len() implies exists|j: int|
                0 <= j < indices@.len()
                    && (#[trigger] self.entries@[k]).name@ == indices@[j].0@ by {
                assert(self.entries@[k].name@ == indices@[k].0@);
            }
            // Each pair's own name finds it, so every requested step is 0.
            assert forall|a: int, b: int| 0 <= a < b < indices@.len() implies (#[trigger]
            indices@[a]).0@ != (#[trigger] indices@[b]).0@ by {
                assert(self.names()[a] != self.names()[b]);
            }
            assert forall|k: int| 0 <= k < self.entries@.len() implies spec_index_lookup(
                indices@,
                self.entries@[k].name@,
            ) == Some(0usize) by {
                lemma_index_lookup_at(indices@, k);
            }
            assert(self.spec_steps_of(indices@) =~= Seq::new(self.entries@.len(), |k: int| 0nat));
        }
        let r = self.from_indices(&indices);
        r
    }

    /// The first registered definition under `name`.
    pub open spec fn spec_param_of(&self, name: Seq<char>) -> Option<ParamType> {
        spec_param_lookup(self.entries@, name)
    }

    /// Look up a definition by name.
    pub fn param_of(&self, name: &str) -> (r: Option<&ParamType>)
        ensures
            match r {
                Some(p) => Some(*p) == self.spec_param_of(name@),
                None => self.spec_param_of(name@) is None,
            },
    {
        proof {
            assert(self.entries@.skip(0) =~= self.entries@);
        }
        param_lookup_from(&self.entries, 0, name)
    }

    /// A copy of `prev` in which `name` is moved to its `step`-th sample.
    /// The step must exist; other parameters are untouched.
    pub fn update_step(&self, prev: Samples, name: &str, step: usize) -> (r: Samples)
        requires
            self.wf(),
            self.spec_param_of(name@) matches Some(p)
                && p.spec_for_step(step as nat) is Some,
        ensures
            r@.entries.len() == prev@.entries.len(),
            forall|i: int| 0 <= i < prev@.entries.len()
                ==> (#[trigger] r@.entries[i]).0 == prev@.entries[i].0,
            forall|i: int| 0 <= i < prev@.entries.len() ==> (#[trigger] r@.entries[i]).1 == (
                if prev@.entries[i].0 == name@ {
                    self.spec_param_of(name@)->0.spec_for_step(step as nat)->0
                } else {
                    prev@.entries[i].1
                }
            ),
            r@.setup_only == prev@.setup_only,
            prev.wf() ==> r.wf(),
    {
        let param = match self.param_of(name) {
            Some(p) => p,
            None => {
                proof {
                    assert(false);
                }
                return prev;
            },
        };
        proof {
            lemma_param_lookup_wf(self.entries@, name@);
        }
        let new_sample = match param.for_step(step) {
            Some(s) => s,
            None => {
                proof {
                    assert(false);
                }
                return prev;
            },
        };
        let n = prev.entries.len();
        let mut entries: Vec<NamedSample> = Vec::new();
        let mut i: usize = 0;
        while i < n
            invariant
                0 <= i <= n,
                n == prev.entries@.len(),
                entries@.len() == i,
                Some(new_sample@) == self.spec_param_of(name@)->0.spec_for_step(step as nat),
                new_sample.wf(),
                forall|k: int| 0 <= k < i
                    ==> (#[trigger] entries@[k]@).0 == prev@.entries[k].0,
                forall|k: int| 0 <= k < i ==> (#[trigger] entries@[k]@).1 == (
                    if prev@.entries[k].0 == name@ {
                        self.spec_param_of(name@)->0.spec_for_step(step as nat)->0
                    } else {
                        prev@.entries[k].1
                    }
                ),
                forall|k: int| 0 <= k < i
                    ==> sample_v_wf((#[trigger] entries@[k]@).1) || entries@[k]@.1
                        == prev@.entries[k].1,
            decreases n - i,
        {
            let entry = &prev.entries[i];
            proof {
                assert(prev@.entries[i as int] == (entry.name@, entry.sample@));
            }
            let name_matches = str_eq_str(entry.name.as_str(), name);
            let sample = if name_matches {
                new_sample.duplicate()
            } else {
                entry.sample.duplicate()
            };
            entries.push(NamedSample { name: entry.name.clone(), sample });
            i += 1;
        }
        let r = Samples { entries, setup_only: prev.setup_only };
        proof {
            if prev.wf() {
                assert forall|k: int| 0 <= k < r@.entries.len() implies sample_v_wf(
                    (#[trigger] r@.entries[k]).1,
                ) by {
                    assert(r@.entries[k] == r.entries@[k]@);
                    assert(sample_v_wf(prev@.entries[k].1));
                }
            }
        }
        r
    }
}

/// The step paired with the first occurrence of `name` in a `(name, step)`
/// pair list.
pub open spec fn spec_index_lookup(indices: Seq<(String, usize)>, name: Seq<char>) -> Option<
    usize,
>
    decreases indices.len(),
{
    if indices.len() == 0 {
        None
    } else if indices.first().0@ == name {
        Some(indices.first().1)
    } else {
        spec_index_lookup(indices.drop_first(), name)
    }
}

/// With pairwise distinct names, looking a pair's own name up finds that
/// pair's step.
pub proof fn lemma_index_lookup_at(indices: Seq<(String, usize)>, i: int)
    requires
        0 <= i < indices.len(),
        forall|a: int, b: int| 0 <= a < b < indices.len()
            ==> (#[trigger] indices[a]).0@ != (#[trigger] indices[b]).0@,
    ensures
        spec_index_lookup(indices, indices[i].0@) == Some(indices[i].1),
    decreases i,
{
    assert(indices.first() == indices[0]);
    if i == 0 {
    } else {
        assert(indices[0].0@ != indices[i].0@);
        let rest = indices.drop_first();
        assert(forall|k: int| 0 <= k < rest.len() ==> #[trigger] rest[k] == indices[k + 1]);
        lemma_index_lookup_at(rest, i - 1);
        assert(rest[i - 1] == indices[i]);
    }
}

/// A name that occurs somewhere in the pair list is found.
proof fn lemma_index_lookup_some(indices: Seq<(String, usize)>, name: Seq<char>)
    requires
        exists|j: int| 0 <= j < indices.len() && name == (#[trigger] indices[j]).0@,
    ensures
        spec_index_lookup(indices, name) is Some,
    decreases indices.len(),
{
    assert(indices.first() == indices[0]);
    if indices.first().0@ != name {
        let j = choose|j: int| 0 <= j < indices.len() && name == (#[trigger] indices[j]).0@;
        let rest = indices.drop_first();
        assert(forall|k: int| 0 <= k < rest.len() ==> #[trigger] rest[k] == indices[k + 1]);
        assert(name == rest[j - 1].0@);
        lemma_index_lookup_some(rest, name);
    }
}

fn index_step_from(indices: &Vec<(String, usize)>, j: usize, name: &str) -> (r: Option<usize>)
    requires
        j <= indices@.len(),
    ensures
        r == spec_index_lookup(indices@.skip(j as int), name@),
    decreases indices@.len() - j,
{
    if j == indices.len() {
        proof {
            assert(indices@.skip(j as int) =~= Seq::<(String, usize)>::empty());
        }
        return None;
    }
    proof {
        assert(indices@.skip(j as int).first() == indices@[j as int]);
        assert(indices@.skip(j as int).drop_first() =~= indices@.skip(j as int + 1));
    }
    let pair = &indices[j];
    if str_eq_str(pair.0.as_str(), name) {
        Some(pair.1)
    } else {
        index_step_from(indices, j + 1, name)
    }
}

/// The first entry named `name`.
pub open spec fn spec_param_lookup(entries: Seq<NamedParam>, name: Seq<char>) -> Option<
    ParamType,
>
    decreases entries.len(),
{
    if entries.len() == 0 {
        None
    } else if entries.first().name@ == name {
        Some(entries.first().param)
    } else {
        spec_param_lookup(entries.drop_first(), name)
    }
}

/// A definition found in a well-formed registry is well formed.
proof fn lemma_param_lookup_wf(entries: Seq<NamedParam>, name: Seq<char>)
    requires
        forall|i: int| 0 <= i < entries.len() ==> (#[trigger] entries[i].param).wf(),
    ensures
        spec_param_lookup(entries, name) matches Some(p) ==> p.wf(),
    decreases entries.len(),
{
    if entries.len() > 0 {
        assert(entries.first() == entries[0]);
        assert(forall|i: int| 0 <= i < entries.drop_first().len()
            ==> (#[trigger] entries.drop_first()[i].param).wf()) by {
            assert(forall|i: int| 0 <= i < entries.drop_first().len()
                ==> entries.drop_first()[i] == entries[i + 1]);
        }
        lemma_param_lookup_wf(entries.drop_first(), name);
    }
}

fn param_lookup_from<'a>(entries: &'a Vec<NamedParam>, j: usize, name: &str) -> (r: Option<
    &'a ParamType,
>)
    requires
        j <= entries@.len(),
    ensures
        match r {
            Some(p) => Some(*p) == spec_param_lookup(entries@.skip(j as int), name@),
            None => spec_param_lookup(entries@.skip(j as int), name@) is None,
        },
    decreases entries@.len() - j,
{
    if j == entries.len() {
        proof {
            assert(entries@.skip(j as int) =~= Seq::<NamedParam>::empty());
        }
        return None;
    }
    proof {
        assert(entries@.skip(j as int).first() == entries@[j as int]);
        assert(entries@.skip(j as int).drop_first() =~= entries@.skip(j as int + 1));
    }
    let entry = &entries[j];
    if str_eq_str(entry.name.as_str(), name) {
        Some(&entry.param)
    } else {
        param_lookup_from(entries, j + 1, name)
    }
}

/// With unique names, looking an entry's own name up finds that entry.
proof fn lemma_param_lookup_at(entries: Seq<NamedParam>, i: int)
    requires
        0 <= i < entries.len(),
        forall|a: int, b: int| 0 <= a < b < entries.len()
            ==> (#[trigger] entries[a]).name@ != (#[trigger] entries[b]).name@,
    ensures
        spec_param_lookup(entries, entries[i].name@) == Some(entries[i].param),
    decreases i,
{
    assert(entries.first() == entries[0]);
    if i == 0 {
    } else {
        assert(entries[0].name@ != entries[i].name@);
        let rest = entries.drop_first();
        assert(forall|k: int| 0 <= k < rest.len() ==> #[trigger] rest[k] == entries[k + 1]);
        lemma_param_lookup_at(rest, i - 1);
        assert(rest[i - 1] == entries[i]);
    }
}

/// In a well-formed registry, looking up the name of the `i`-th entry finds
/// the `i`-th definition.
pub proof fn lemma_param_of_index(b: &ParamBuilder, i: int)
    requires
        b.wf(),
        0 <= i < b.entries@.len(),
    ensures
        b.spec_param_of(b.entries@[i].name@) == Some(b.entries@[i].param),
{
    assert(forall|a: int, c: int| 0 <= a < c < b.entries@.len()
        ==> (#[trigger] b.entries@[a]).name@ != (#[trigger] b.entries@[c]).name@) by {
        assert(forall|a: int| 0 <= a < b.entries@.len()
            ==> b.names()[a] == (#[trigger] b.entries@[a]).name@);
    }
    lemma_param_lookup_at(b.entries@, i);
}

/// The lower bound is a function of the registry alone: two calls yield the
/// same assignment.
pub proof fn lemma_lower_bound_deterministic(b: &ParamBuilder, r1: SamplesV, r2: SamplesV)
    requires
        Some(r1) == b.spec_lower_bound(),
        Some(r2) == b.spec_lower_bound(),
    ensures
        r1 == r2,
{
}

} // verus!
