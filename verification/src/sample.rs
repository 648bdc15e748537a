//! Concrete parameter values and the token codec.
//!
//! A sample is an integer, a decimal, or a string.  One parameter assignment
//! travels to the instrumented child as a token `name U+00A7 kind U+00A7
//! value`, where the kind is `usize`, `float` or `str` and the value is plain
//! decimal text (or the string itself).  Parsing a rendered token is proved
//! to recover the name and the sample.

use vstd::prelude::*;
use crate::decimal::{
    Decimal, parse_decimal, spec_decimal_chars, spec_parse_decimal, lemma_decimal_roundtrip,
};
use crate::error::Error;
use crate::text::{
    chars_of_str, chars_eq_str, format_u64, index_of, lemma_index_of_at, lemma_index_of_props,
    lemma_u64_roundtrip, parse_u64, spec_index_of, spec_parse_u64, spec_u64_digits,
    string_of_chars, subvec,
};

verus! {

/// The delimiter between token fields: the section sign U+00A7.
pub const FIELD_SEP: char = '\u{a7}';

/// The mathematical value of a sample.
pub ghost enum SampleV {
    Usize(nat),
    Float(Decimal),
    Str(Seq<char>),
}

/// A concrete value for one parameter.
pub enum Sample {
    Float(Decimal),
    Usize(usize),
    Str(Vec<char>),
}

impl View for Sample {
    type V = SampleV;

    open spec fn view(&self) -> SampleV {
        match self {
            Sample::Float(d) => SampleV::Float(*d),
            Sample::Usize(n) => SampleV::Usize(*n as nat),
            Sample::Str(s) => SampleV::Str(s@),
        }
    }
}

/// Whether a sample value can be rendered and recovered: decimals must be
/// well formed, integers must fit the machine word.
pub open spec fn sample_v_wf(s: SampleV) -> bool {
    match s {
        SampleV::Usize(n) => n <= usize::MAX,
        SampleV::Float(d) => d.wf(),
        SampleV::Str(_) => true,
    }
}

impl Sample {
    pub open spec fn wf(&self) -> bool {
        sample_v_wf(self@)
    }

    /// Check well-formedness.
    pub fn is_wf(&self) -> (r: bool)
        ensures
            r == self.wf(),
    {
        match self {
            Sample::Float(d) => d.is_wf(),
            Sample::Usize(_) => true,
            Sample::Str(_) => true,
        }
    }

    /// A copy with the same value.
    pub fn duplicate(&self) -> (r: Sample)
        ensures
            r@ == self@,
    {
        match self {
            Sample::Usize(n) => Sample::Usize(*n),
            Sample::Float(d) => Sample::Float(*d),
            Sample::Str(v) => {
                let c = subvec(v, 0, v.len());
                proof {
                    assert(c@ =~= v@);
                }
                Sample::Str(c)
            },
        }
    }
}

pub open spec fn usize_kind() -> Seq<char> {
    seq!['u', 's', 'i', 'z', 'e']
}

pub open spec fn float_kind() -> Seq<char> {
    seq!['f', 'l', 'o', 'a', 't']
}

pub open spec fn str_kind() -> Seq<char> {
    seq!['s', 't', 'r']
}

/// The `kind U+00A7 value` text of a sample.
pub open spec fn spec_sample_text(s: SampleV) -> Seq<char> {
    match s {
        SampleV::Usize(n) => usize_kind() + seq![FIELD_SEP] + spec_u64_digits(n),
        SampleV::Float(d) => float_kind() + seq![FIELD_SEP]
            + spec_decimal_chars(d.num as int, d.scale as nat),
        SampleV::Str(t) => str_kind() + seq![FIELD_SEP] + t,
    }
}

/// The full token for one named sample.
pub open spec fn spec_token(name: Seq<char>, s: SampleV) -> Seq<char> {
    name + seq![FIELD_SEP] + spec_sample_text(s)
}

/// The three fields of a token, split at the first two delimiters.  The
/// value field may itself contain delimiters.
pub open spec fn spec_token_fields(t: Seq<char>) -> Option<(Seq<char>, Seq<char>, Seq<char>)> {
    match spec_index_of(t, FIELD_SEP, 0) {
        None => None,
        Some(i) => {
            let rest = t.skip(i + 1);
            match spec_index_of(rest, FIELD_SEP, 0) {
                None => None,
                Some(j) => Some((t.take(i), rest.take(j), rest.skip(j + 1))),
            }
        },
    }
}

/// Parse one token into its name and sample value.
pub open spec fn spec_parse_token(t: Seq<char>) -> Option<(Seq<char>, SampleV)> {
    match spec_token_fields(t) {
        None => None,
        Some((name, kind, value)) => {
            if kind == usize_kind() {
                match spec_parse_u64(value) {
                    Some(v) => if v <= usize::MAX {
                        Some((name, SampleV::Usize(v as nat)))
                    } else {
                        None
                    },
                    None => None,
                }
            } else if kind == float_kind() {
                match spec_parse_decimal(value) {
                    Some(d) => Some((name, SampleV::Float(d))),
                    None => None,
                }
            } else if kind == str_kind() {
                Some((name, SampleV::Str(value)))
            } else {
                None
            }
        },
    }
}

/// The token has no two delimiters, or an unknown kind field.
pub open spec fn token_shape_bad(t: Seq<char>) -> bool {
    match spec_token_fields(t) {
        None => true,
        Some((name, kind, value)) => kind != usize_kind() && kind != float_kind()
            && kind != str_kind(),
    }
}

/// The token is an integer token whose value portion is malformed or too
/// large.
pub open spec fn token_int_bad(t: Seq<char>) -> bool {
    match spec_token_fields(t) {
        None => false,
        Some((name, kind, value)) => kind == usize_kind() && match spec_parse_u64(value) {
            None => true,
            Some(v) => v > usize::MAX,
        },
    }
}

/// The token is a decimal token whose value portion is malformed.
pub open spec fn token_float_bad(t: Seq<char>) -> bool {
    match spec_token_fields(t) {
        None => false,
        Some((name, kind, value)) => kind == float_kind()
            && spec_parse_decimal(value) is None,
    }
}

impl Sample {
    /// The `kind U+00A7 value` characters of this sample.
    pub fn text_chars(&self) -> (r: Vec<char>)
        requires
            self.wf(),
        ensures
            r@ == spec_sample_text(self@),
    {
        let mut r: Vec<char>;
        match self {
            Sample::Usize(n) => {
                r = chars_of_str("usize");
                proof {
                    reveal_strlit("usize");
                    assert(r@ =~= usize_kind());
                }
                r.push(FIELD_SEP);
                let mut v = format_u64(*n as u64);
                r.append(&mut v);
            },
            Sample::Float(d) => {
                r = chars_of_str("float");
                proof {
                    reveal_strlit("float");
                    assert(r@ =~= float_kind());
                }
                r.push(FIELD_SEP);
                let mut v = d.to_chars();
                r.append(&mut v);
            },
            Sample::Str(s) => {
                r = chars_of_str("str");
                proof {
                    reveal_strlit("str");
                    assert(r@ =~= str_kind());
                }
                r.push(FIELD_SEP);
                let mut v = subvec(s, 0, s.len());
                proof {
                    assert(v@ =~= s@);
                }
                r.append(&mut v);
            },
        }
        proof {
            assert(r@ =~= spec_sample_text(self@));
        }
        r
    }

    /// The `kind U+00A7 value` text of this sample.
    pub fn to_string(&self) -> (r: String)
        requires
            self.wf(),
        ensures
            r@ == spec_sample_text(self@),
    {
        let chars = self.text_chars();
        string_of_chars(&chars)
    }

    /// Decode one token.  The error says what was wrong: a malformed shape
    /// or unknown kind echoes the token, a malformed number reports the
    /// number kind.
    pub fn from_str(x: &str) -> (r: Result<(String, Sample), Error>)
        ensures
            match r {
                Ok(p) => spec_parse_token(x@) == Some((p.0@, p.1@)) && p.1.wf(),
                Err(e) => spec_parse_token(x@) is None && match e {
                    Error::InvalidParamTypeStr(o) => o@ == x@ && token_shape_bad(x@),
                    Error::ParseInt => token_int_bad(x@),
                    Error::ParseFloat => token_float_bad(x@),
                    _ => false,
                },
            },
    {
        let t = chars_of_str(x);
        Sample::from_chars(&t)
    }

    /// Decode one token given as characters; see [`Sample::from_str`].
    pub fn from_chars(t: &Vec<char>) -> (r: Result<(String, Sample), Error>)
        ensures
            match r {
                Ok(p) => spec_parse_token(t@) == Some((p.0@, p.1@)) && p.1.wf(),
                Err(e) => spec_parse_token(t@) is None && match e {
                    Error::InvalidParamTypeStr(o) => o@ == t@ && token_shape_bad(t@),
                    Error::ParseInt => token_int_bad(t@),
                    Error::ParseFloat => token_float_bad(t@),
                    _ => false,
                },
            },
    {
        let i = match index_of(t, FIELD_SEP, 0) {
            None => {
                return Err(Error::InvalidParamTypeStr(string_of_chars(t)));
            },
            Some(i) => i,
        };
        proof {
            lemma_index_of_props(t@, FIELD_SEP, 0);
        }
        let t_len = t.len();
        let name = subvec(t, 0, i);
        let rest = subvec(t, i + 1, t_len);
        proof {
            assert(name@ =~= t@.take(i as int));
            assert(rest@ =~= t@.skip(i + 1));
        }
        let j = match index_of(&rest, FIELD_SEP, 0) {
            None => {
                return Err(Error::InvalidParamTypeStr(string_of_chars(t)));
            },
            Some(j) => j,
        };
        proof {
            lemma_index_of_props(rest@, FIELD_SEP, 0);
        }
        let rest_len = rest.len();
        let kind = subvec(&rest, 0, j);
        let value = subvec(&rest, j + 1, rest_len);
        proof {
            assert(kind@ =~= rest@.take(j as int));
            assert(value@ =~= rest@.skip(j + 1));
            assert(spec_token_fields(t@) == Some((name@, kind@, value@)));
        }
        if chars_eq_str(&kind, "usize") {
            proof {
                reveal_strlit("usize");
                assert("usize"@ =~= usize_kind());
            }
            match parse_u64(&value) {
                Some(v) => {
                    if v <= usize::MAX as u64 {
                        let name_s = string_of_chars(&name);
                        Ok((name_s, Sample::Usize(v as usize)))
                    } else {
                        Err(Error::ParseInt)
                    }
                },
                None => Err(Error::ParseInt),
            }
        } else if chars_eq_str(&kind, "float") {
            proof {
                reveal_strlit("float");
                assert("float"@ =~= float_kind());
                reveal_strlit("usize");
                assert("usize"@ =~= usize_kind());
                assert(float_kind() != usize_kind()) by {
                    assert(float_kind()[0] == 'f' && usize_kind()[0] == 'u');
                }
            }
            match parse_decimal(&value) {
                Some(d) => {
                    let name_s = string_of_chars(&name);
                    Ok((name_s, Sample::Float(d)))
                },
                None => Err(Error::ParseFloat),
            }
        } else if chars_eq_str(&kind, "str") {
            proof {
                reveal_strlit("str");
                assert("str"@ =~= str_kind());
                reveal_strlit("usize");
                assert("usize"@ =~= usize_kind());
                reveal_strlit("float");
                assert("float"@ =~= float_kind());
                assert(str_kind() != usize_kind() && str_kind() != float_kind()) by {
                    assert(str_kind().len() == 3);
                }
            }
            let name_s = string_of_chars(&name);
            Ok((name_s, Sample::Str(value)))
        } else {
            proof {
                reveal_strlit("usize");
                assert("usize"@ =~= usize_kind());
                reveal_strlit("float");
                assert("float"@ =~= float_kind());
                reveal_strlit("str");
                assert("str"@ =~= str_kind());
            }
            Err(Error::InvalidParamTypeStr(string_of_chars(t)))
        }
    }
}

/// Rendering a named sample as a token and parsing it back recovers the name
/// and the sample, for any name free of the delimiter.
pub proof fn lemma_token_roundtrip(name: Seq<char>, s: SampleV)
    requires
        !name.contains(FIELD_SEP),
        sample_v_wf(s),
    ensures
        spec_parse_token(spec_token(name, s)) == Some((name, s)),
{
    let text = spec_sample_text(s);
    let t = spec_token(name, s);
    let kind: Seq<char> = match s {
        SampleV::Usize(_) => usize_kind(),
        SampleV::Float(_) => float_kind(),
        SampleV::Str(_) => str_kind(),
    };
    let value: Seq<char> = match s {
        SampleV::Usize(n) => spec_u64_digits(n),
        SampleV::Float(d) => spec_decimal_chars(d.num as int, d.scale as nat),
        SampleV::Str(v) => v,
    };
    assert(text =~= kind + seq![FIELD_SEP] + value);
    assert(t =~= name + seq![FIELD_SEP] + kind + seq![FIELD_SEP] + value);

    // The first delimiter stands right after the name.
    let i = name.len() as int;
    assert(t[i] == FIELD_SEP);
    assert(forall|k: int| 0 <= k < i ==> t[k] == name[k]);
    assert(forall|k: int| 0 <= k < i ==> t[k] != FIELD_SEP) by {
        assert(forall|k: int| 0 <= k < name.len() ==> name[k] != FIELD_SEP);
    }
    lemma_index_of_at(t, FIELD_SEP, 0, i);
    let rest = t.skip(i + 1);
    assert(rest =~= kind + seq![FIELD_SEP] + value);

    // The second delimiter stands right after the kind; no kind character is
    // the delimiter.
    let j = kind.len() as int;
    assert(rest[j] == FIELD_SEP);
    assert(forall|k: int| 0 <= k < j ==> rest[k] == kind[k]);
    assert(forall|k: int| 0 <= k < kind.len() ==> kind[k] != FIELD_SEP) by {
        match s {
            SampleV::Usize(_) => {
                assert(kind[0] == 'u' && kind[1] == 's' && kind[2] == 'i' && kind[3] == 'z'
                    && kind[4] == 'e');
            },
            SampleV::Float(_) => {
                assert(kind[0] == 'f' && kind[1] == 'l' && kind[2] == 'o' && kind[3] == 'a'
                    && kind[4] == 't');
            },
            SampleV::Str(_) => {
                assert(kind[0] == 's' && kind[1] == 't' && kind[2] == 'r');
            },
        }
    }
    lemma_index_of_at(rest, FIELD_SEP, 0, j);
    assert(spec_token_fields(t) == Some((t.take(i), rest.take(j), rest.skip(j + 1))));
    assert(t.take(i) =~= name);
    assert(rest.take(j) =~= kind);
    assert(rest.skip(j + 1) =~= value);

    match s {
        SampleV::Usize(n) => {
            lemma_u64_roundtrip(n as u64);
        },
        SampleV::Float(d) => {
            lemma_decimal_roundtrip(d);
            assert(float_kind() != usize_kind()) by {
                assert(float_kind()[0] == 'f' && usize_kind()[0] == 'u');
            }
        },
        SampleV::Str(v) => {
            assert(str_kind() != usize_kind() && str_kind() != float_kind()) by {
                assert(str_kind().len() == 3 && usize_kind().len() == 5
                    && float_kind().len() == 5);
            }
        },
    }
}

} // verus!
