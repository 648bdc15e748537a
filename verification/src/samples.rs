//! A complete parameter assignment.
//!
//! An assignment maps each registered parameter name to one sample and
//! carries a `setup_only` flag: when set, the benchmark performs only its
//! setup work, which is how the calibration baseline is measured.  The
//! assignment crosses the process boundary as a list of tokens; an
//! assignment with unique, delimiter-free names survives the trip (see
//! [`lemma_tokens_roundtrip`]).

use vstd::prelude::*;
use crate::error::Error;
use crate::sample::{
    Sample, SampleV, FIELD_SEP, sample_v_wf, spec_parse_token, spec_token,
    token_float_bad, token_int_bad, token_shape_bad, lemma_token_roundtrip,
};
use crate::text::{
    chars_of_str, spec_join, spec_split, split_chars, str_eq_str, string_of_chars, views_of,
    lemma_split_join,
};

verus! {

/// One named sample of an assignment.
pub struct NamedSample {
    pub name: String,
    pub sample: Sample,
}

impl View for NamedSample {
    type V = (Seq<char>, SampleV);

    open spec fn view(&self) -> (Seq<char>, SampleV) {
        (self.name@, self.sample@)
    }
}

/// The mathematical value of an assignment.
pub ghost struct SamplesV {
    pub entries: Seq<(Seq<char>, SampleV)>,
    pub setup_only: bool,
}

/// A complete assignment: one sample per parameter, in registry order, plus
/// the calibration flag.
pub struct Samples {
    pub entries: Vec<NamedSample>,
    pub setup_only: bool,
}

impl View for Samples {
    type V = SamplesV;

    open spec fn view(&self) -> SamplesV {
        SamplesV {
            entries: Seq::new(self.entries@.len(), |i: int| self.entries@[i]@),
            setup_only: self.setup_only,
        }
    }
}

/// The first sample registered under `name`.
pub open spec fn spec_lookup(entries: Seq<(Seq<char>, SampleV)>, name: Seq<char>) -> Option<
    SampleV,
>
    decreases entries.len(),
{
    if entries.len() == 0 {
        None
    } else if entries.first().0 == name {
        Some(entries.first().1)
    } else {
        spec_lookup(entries.drop_first(), name)
    }
}

/// Parse a list of tokens; all must parse for the list to parse.
pub open spec fn spec_parse_tokens(pieces: Seq<Seq<char>>) -> Option<
    Seq<(Seq<char>, SampleV)>,
>
    decreases pieces.len(),
{
    if pieces.len() == 0 {
        Some(Seq::empty())
    } else {
        match spec_parse_tokens(pieces.drop_last()) {
            None => None,
            Some(rest) => match spec_parse_token(pieces.last()) {
                None => None,
                Some(p) => Some(rest.push(p)),
            },
        }
    }
}

impl Samples {
    /// All samples can be rendered and recovered.
    pub open spec fn wf(&self) -> bool {
        forall|i: int| 0 <= i < self@.entries.len() ==> sample_v_wf(#[trigger] self@.entries[i].1)
    }

    /// Wrap entries as a measurement assignment.
    pub fn new(entries: Vec<NamedSample>) -> (r: Samples)
        ensures
            r@.entries == Seq::new(entries@.len(), |i: int| entries@[i]@),
            r@.setup_only == false,
    {
        Samples { entries, setup_only: false }
    }

    /// The empty assignment that asks the benchmark for setup work only.
    pub fn calibration() -> (r: Samples)
        ensures
            r@.entries == Seq::<(Seq<char>, SampleV)>::empty(),
            r@.setup_only == true,
    {
        let r = Samples { entries: Vec::new(), setup_only: true };
        proof {
            assert(r@.entries =~= Seq::<(Seq<char>, SampleV)>::empty());
        }
        r
    }

    /// The tokens of this assignment, one per entry, in order.
    pub fn to_string(&self) -> (r: Vec<String>)
        requires
            self.wf(),
        ensures
            r@.len() == self@.entries.len(),
            forall|i: int| 0 <= i < r@.len()
                ==> (#[trigger] r@[i])@ == spec_token(self@.entries[i].0, self@.entries[i].1),
    {
        let mut r: Vec<String> = Vec::new();
        let n = self.entries.len();
        let mut j: usize = 0;
        while j < n
            invariant
                0 <= j <= n,
                n == self.entries@.len(),
                self.wf(),
                r@.len() == j,
                forall|i: int| 0 <= i < j
                    ==> (#[trigger] r@[i])@ == spec_token(self@.entries[i].0, self@.entries[i].1),
            decreases n - j,
        {
            let entry = &self.entries[j];
            proof {
                assert(self@.entries[j as int] == (entry.name@, entry.sample@));
                assert(sample_v_wf(self@.entries[j as int].1));
                assert(entry.sample.wf());
            }
            let mut tok = chars_of_str(entry.name.as_str());
            tok.push(FIELD_SEP);
            let mut text = entry.sample.text_chars();
            tok.append(&mut text);
            proof {
                assert(tok@ =~= spec_token(self@.entries[j as int].0, self@.entries[j as int].1));
            }
            r.push(string_of_chars(&tok));
            j += 1;
        }
        r
    }

    /// Parse the space-joined tokens of an assignment.  An empty or
    /// malformed portion yields the error of the offending token.
    pub fn from_string(s: &str) -> (r: Result<Samples, Error>)
        ensures
            match r {
                Ok(ss) => {
                    &&& Some(ss@.entries) == spec_parse_tokens(spec_split(s@, ' '))
                    &&& ss@.setup_only == false
                    &&& ss.wf()
                },
                Err(e) => {
                    &&& spec_parse_tokens(spec_split(s@, ' ')) is None
                    &&& match e {
                        Error::InvalidParamTypeStr(o) => exists|i: int|
                            0 <= i < spec_split(s@, ' ').len()
                                && #[trigger] spec_split(s@, ' ')[i] == o@
                                && token_shape_bad(o@),
                        Error::ParseInt => exists|i: int| 0 <= i < spec_split(s@, ' ').len()
                            && token_int_bad(#[trigger] spec_split(s@, ' ')[i]),
                        Error::ParseFloat => exists|i: int| 0 <= i < spec_split(s@, ' ').len()
                            && token_float_bad(#[trigger] spec_split(s@, ' ')[i]),
                        _ => false,
                    }
                },
            },
    {
        let chars = chars_of_str(s);
        let pieces = split_chars(&chars, ' ');
        let ghost pviews = views_of(pieces@);
        let mut entries: Vec<NamedSample> = Vec::new();
        let n = pieces.len();
        let mut j: usize = 0;
        while j < n
            invariant
                0 <= j <= n,
                n == pieces@.len(),
                pviews == views_of(pieces@),
                pviews == spec_split(s@, ' '),
                spec_parse_tokens(pviews.take(j as int))
                    == Some(Seq::new(entries@.len(), |i: int| entries@[i]@)),
                forall|i: int| 0 <= i < entries@.len()
                    ==> sample_v_wf((#[trigger] entries@[i]@).1),
            decreases n - j,
        {
            let ghost old_entries = entries@;
            match Sample::from_chars(&pieces[j]) {
                Ok((name, sample)) => {
                    entries.push(NamedSample { name, sample });
                    proof {
                        assert(pviews.take(j + 1).drop_last() =~= pviews.take(j as int));
                        assert(pviews.take(j + 1).last() == pviews[j as int]);
                        assert(Seq::new(entries@.len(), |i: int| entries@[i]@)
                            =~= Seq::new(old_entries.len(), |i: int| old_entries[i]@)
                                .push(entries@.last()@));
                    }
                },
                Err(e) => {
                    proof {
                        lemma_parse_tokens_bad(pviews, j as int);
                    }
                    return Err(e);
                },
            }
            j += 1;
        }
        proof {
            assert(pviews.take(n as int) =~= pviews);
        }
        let r = Samples { entries, setup_only: false };
        proof {
            assert(r@.entries =~= Seq::new(r.entries@.len(), |i: int| r.entries@[i]@));
        }
        Ok(r)
    }

    /// A copy with the same entries and flag.
    pub fn duplicate(&self) -> (r: Samples)
        ensures
            r@ == self@,
    {
        let n = self.entries.len();
        let mut entries: Vec<NamedSample> = Vec::new();
        let mut i: usize = 0;
        while i < n
            invariant
                0 <= i <= n,
                n == self.entries@.len(),
                entries@.len() == i,
                forall|k: int| 0 <= k < i ==> (#[trigger] entries@[k])@ == self.entries@[k]@,
            decreases n - i,
        {
            let entry = &self.entries[i];
            entries.push(NamedSample { name: entry.name.clone(), sample: entry.sample.duplicate() });
            i += 1;
        }
        let r = Samples { entries, setup_only: self.setup_only };
        proof {
            assert(r@.entries =~= self@.entries);
        }
        r
    }

    /// The sample registered under `name`, if it is an integer sample.
    pub fn get_usize(&self, name: &str) -> (r: Option<usize>)
        ensures
            r == match spec_lookup(self@.entries, name@) {
                Some(SampleV::Usize(v)) => Some(v as usize),
                _ => None::<usize>,
            },
    {
        proof {
            let all = Seq::new(self.entries@.len(), |i: int| self.entries@[i]@);
            assert(all.skip(0) =~= all);
            assert(all =~= self@.entries);
        }
        get_usize_from(&self.entries, 0, name)
    }
}

/// If one token fails to parse, the whole list fails.
proof fn lemma_parse_tokens_bad(pieces: Seq<Seq<char>>, j: int)
    requires
        0 <= j < pieces.len(),
        spec_parse_token(pieces[j]) is None,
    ensures
        spec_parse_tokens(pieces) is None,
    decreases pieces.len(),
{
    if pieces.len() > 0 {
        if j == pieces.len() - 1 {
            assert(pieces.last() == pieces[j]);
        } else {
            lemma_parse_tokens_bad(pieces.drop_last(), j);
        }
    }
}

fn get_usize_from(entries: &Vec<NamedSample>, j: usize, name: &str) -> (r: Option<usize>)
    requires
        j <= entries@.len(),
    ensures
        r == match spec_lookup(
            Seq::new(entries@.len(), |i: int| entries@[i]@).skip(j as int),
            name@,
        ) {
            Some(SampleV::Usize(v)) => Some(v as usize),
            _ => None::<usize>,
        },
    decreases entries@.len() - j,
{
    let ghost all = Seq::new(entries@.len(), |i: int| entries@[i]@);
    if j == entries.len() {
        proof {
            assert(all.skip(j as int) =~= Seq::<(Seq<char>, SampleV)>::empty());
        }
        return None;
    }
    proof {
        assert(all.skip(j as int).first() == entries@[j as int]@);
        assert(all.skip(j as int).drop_first() =~= all.skip(j as int + 1));
    }
    let entry = &entries[j];
    if str_eq_str(entry.name.as_str(), name) {
        match &entry.sample {
            Sample::Usize(v) => Some(*v),
            _ => None,
        }
    } else {
        get_usize_from(entries, j + 1, name)
    }
}

/// Parsing the space-joined tokens of an assignment recovers its entries,
/// for names free of the delimiter and tokens free of spaces.
pub proof fn lemma_tokens_roundtrip(entries: Seq<(Seq<char>, SampleV)>)
    requires
        entries.len() >= 1,
        forall|i: int| 0 <= i < entries.len() ==> sample_v_wf((#[trigger] entries[i]).1),
        forall|i: int| 0 <= i < entries.len()
            ==> !(#[trigger] entries[i]).0.contains(FIELD_SEP),
        forall|i: int| 0 <= i < entries.len()
            ==> !spec_token((#[trigger] entries[i]).0, entries[i].1).contains(' '),
    ensures
        spec_parse_tokens(
            spec_split(
                spec_join(Seq::new(entries.len(), |i: int| spec_token(entries[i].0, entries[i].1)), ' '),
                ' ',
            ),
        ) == Some(entries),
{
    let tokens = Seq::new(entries.len(), |i: int| spec_token(entries[i].0, entries[i].1));
    lemma_split_join(tokens, ' ');
    lemma_parse_all(entries);
}

/// Every well-formed entry list parses back from its own tokens.
proof fn lemma_parse_all(entries: Seq<(Seq<char>, SampleV)>)
    requires
        forall|i: int| 0 <= i < entries.len() ==> sample_v_wf((#[trigger] entries[i]).1),
        forall|i: int| 0 <= i < entries.len()
            ==> !(#[trigger] entries[i]).0.contains(FIELD_SEP),
    ensures
        spec_parse_tokens(
            Seq::new(entries.len(), |i: int| spec_token(entries[i].0, entries[i].1)),
        ) == Some(entries),
    decreases entries.len(),
{
    let tokens = Seq::new(entries.len(), |i: int| spec_token(entries[i].0, entries[i].1));
    if entries.len() == 0 {
        assert(spec_parse_tokens(tokens) == Some(Seq::<(Seq<char>, SampleV)>::empty()));
        assert(Seq::<(Seq<char>, SampleV)>::empty() =~= entries);
    } else {
        let prefix = entries.drop_last();
        lemma_parse_all(prefix);
        assert(tokens.drop_last() =~= Seq::new(
            prefix.len(),
            |i: int| spec_token(prefix[i].0, prefix[i].1),
        ));
        let last = entries.last();
        lemma_token_roundtrip(last.0, last.1);
        assert(tokens.last() == spec_token(last.0, last.1));
        assert(prefix.push(last) =~= entries);
    }
}

} // verus!
