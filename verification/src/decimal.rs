//! Exact decimal values.
//!
//! Float-range parameters are modelled by decimal fixed-point numbers: a
//! numerator and a power-of-ten scale, so `num / 10^scale` is the value.
//! The codec renders and parses the plain decimal text (`-12.50`) spoken on
//! the child's command line, and rendering then parsing is proved to be the
//! identity.

use vstd::prelude::*;
use crate::text::{
    all_digits, format_u64, is_digit_char, parse_u64, spec_digit_char, spec_digit_val,
    spec_digits_val, spec_index_of, spec_parse_u64, spec_u64_digits, index_of, subvec,
    lemma_digit_char_val, lemma_digits_val_nonneg, lemma_u64_digits_val, lemma_index_of_props,
    lemma_index_of_at,
};

verus! {

pub open spec fn spec_pow10(e: nat) -> nat
    decreases e,
{
    if e == 0 {
        1
    } else {
        10 * spec_pow10((e - 1) as nat)
    }
}

pub proof fn lemma_pow10_pos(e: nat)
    ensures
        spec_pow10(e) >= 1,
    decreases e,
{
    if e > 0 {
        lemma_pow10_pos((e - 1) as nat)
    }
}

pub proof fn lemma_pow10_mono(a: nat, b: nat)
    requires
        a <= b,
    ensures
        spec_pow10(a) <= spec_pow10(b),
    decreases b,
{
    if a < b {
        lemma_pow10_mono(a, (b - 1) as nat);
        lemma_pow10_pos(a);
    }
}

/// A non-empty digit string of length `n` has value below `10^n`.
pub proof fn lemma_digits_val_bound(s: Seq<char>)
    requires
        all_digits(s),
    ensures
        0 <= spec_digits_val(s) < spec_pow10(s.len()),
    decreases s.len(),
{
    if s.len() == 0 {
    } else {
        assert(all_digits(s.drop_last()));
        lemma_digits_val_bound(s.drop_last());
        assert(spec_digit_val(s.last()) <= 9);
    }
}

/// The lowest `width` digits of a natural number, zero padded.
pub open spec fn spec_padded_digits(n: nat, width: nat) -> Seq<char>
    decreases width,
{
    if width == 0 {
        Seq::empty()
    } else {
        spec_padded_digits(n / 10, (width - 1) as nat).push(spec_digit_char((n % 10) as int))
    }
}

pub proof fn lemma_padded_shape(n: nat, width: nat)
    ensures
        spec_padded_digits(n, width).len() == width,
        all_digits(spec_padded_digits(n, width)),
    decreases width,
{
    if width > 0 {
        lemma_padded_shape(n / 10, (width - 1) as nat);
        lemma_digit_char_val((n % 10) as int);
        let s = spec_padded_digits(n, width);
        assert forall|i: int| 0 <= i < s.len() implies is_digit_char(#[trigger] s[i]) by {
            if i < s.len() - 1 {
                assert(s[i] == spec_padded_digits(n / 10, (width - 1) as nat)[i]);
            }
        }
    }
}

pub proof fn lemma_padded_val(n: nat, width: nat)
    requires
        n < spec_pow10(width),
    ensures
        spec_digits_val(spec_padded_digits(n, width)) == n,
    decreases width,
{
    if width == 0 {
    } else {
        vstd::arithmetic::div_mod::lemma_fundamental_div_mod(n as int, 10);
        assert(n / 10 < spec_pow10((width - 1) as nat)) by {
            if n / 10 >= spec_pow10((width - 1) as nat) {
                assert(n >= 10 * (n / 10));
                assert(10 * (n / 10) >= 10 * spec_pow10((width - 1) as nat))
                    by (nonlinear_arith)
                    requires
                        n / 10 >= spec_pow10((width - 1) as nat),
                ;
            }
        }
        lemma_padded_val(n / 10, (width - 1) as nat);
        lemma_digit_char_val((n % 10) as int);
        let s = spec_padded_digits(n, width);
        assert(s.drop_last() =~= spec_padded_digits(n / 10, (width - 1) as nat));
        assert(s.last() == spec_digit_char((n % 10) as int));
    }
}

pub fn pow10_u64(e: u32) -> (r: u64)
    requires
        e <= 18,
    ensures
        r == spec_pow10(e as nat),
    decreases e,
{
    if e == 0 {
        1
    } else {
        let prev = pow10_u64(e - 1);
        proof {
            lemma_pow10_mono((e - 1) as nat, 17);
            reveal_with_fuel(spec_pow10, 20);
            assert(spec_pow10(17) == 100_000_000_000_000_000);
        }
        10 * prev
    }
}

pub fn format_padded(n: u64, width: u32) -> (r: Vec<char>)
    ensures
        r@ == spec_padded_digits(n as nat, width as nat),
    decreases width,
{
    if width == 0 {
        let r: Vec<char> = Vec::new();
        proof {
            assert(r@ =~= spec_padded_digits(n as nat, 0));
        }
        r
    } else {
        let mut r = format_padded(n / 10, width - 1);
        r.push(crate::text::digit_char(n % 10));
        r
    }
}

/// A decimal fixed-point number: the value `num / 10^scale`.
#[derive(Clone, Copy, PartialEq, Eq, Structural, Debug)]
pub struct Decimal {
    pub num: i64,
    pub scale: u32,
}

impl Decimal {
    /// Scales up to eighteen fractional digits are representable; the
    /// magnitude must leave `-num` representable as well.
    pub open spec fn wf(&self) -> bool {
        &&& self.scale <= 18
        &&& self.num > i64::MIN
    }

    pub open spec fn spec_mag(&self) -> nat {
        if self.num < 0 {
            (-self.num) as nat
        } else {
            self.num as nat
        }
    }

    /// Check well-formedness.
    pub fn is_wf(&self) -> (r: bool)
        ensures
            r == self.wf(),
    {
        self.scale <= 18 && self.num > i64::MIN
    }

    /// Rescale to a larger scale, keeping the value; `None` when the
    /// numerator would overflow.
    pub fn rescale(&self, scale: u32) -> (r: Option<Decimal>)
        requires
            self.wf(),
            self.scale <= scale <= 18,
        ensures
            match r {
                Some(d) => {
                    &&& d.wf()
                    &&& d.scale == scale
                    &&& d.num == self.num * spec_pow10((scale - self.scale) as nat)
                },
                None => self.num * spec_pow10((scale - self.scale) as nat) > i64::MAX
                    || self.num * spec_pow10((scale - self.scale) as nat) <= i64::MIN,
            },
    {
        let p = pow10_u64(scale - self.scale);
        proof {
            lemma_pow10_pos((scale - self.scale) as nat);
            assert(p >= 1);
        }
        if p > i64::MAX as u64 {
            proof {
                if self.num > 0 {
                    assert(self.num * p >= 1 * p) by (nonlinear_arith)
                        requires self.num >= 1 && p >= 0,
                    ;
                } else if self.num < 0 {
                    assert(self.num * p <= -1 * p) by (nonlinear_arith)
                        requires self.num <= -1 && p >= 0,
                    ;
                }
            }
            if self.num == 0 {
                proof {
                    assert(0 * p == 0) by (nonlinear_arith);
                }
                return Some(Decimal { num: 0, scale });
            }
            return None;
        }
        match self.num.checked_mul(p as i64) {
            Some(num) => {
                if num == i64::MIN {
                    None
                } else {
                    Some(Decimal { num, scale })
                }
            },
            None => None,
        }
    }
}

/// The decimal text of `num / 10^scale`: an optional minus sign, the integer
/// part, and for a positive scale a dot and exactly `scale` fraction digits.
pub open spec fn spec_decimal_chars(num: int, scale: nat) -> Seq<char> {
    let mag = if num < 0 { (-num) as nat } else { num as nat };
    let sign: Seq<char> = if num < 0 { seq!['-'] } else { Seq::empty() };
    if scale == 0 {
        sign + spec_u64_digits(mag)
    } else {
        sign + spec_u64_digits(mag / spec_pow10(scale)) + seq!['.']
            + spec_padded_digits(mag % spec_pow10(scale), scale)
    }
}

/// Parse decimal text: an optional minus sign, one or more digits, and
/// optionally a dot followed by one to eighteen digits.
pub open spec fn spec_parse_decimal(s: Seq<char>) -> Option<Decimal> {
    let start: int = if s.len() > 0 && s[0] == '-' { 1 } else { 0 };
    let neg = start == 1;
    match spec_index_of(s, '.', start) {
        None => {
            let ip = s.skip(start);
            if ip.len() >= 1 && all_digits(ip) && spec_digits_val(ip) <= i64::MAX {
                let num = if neg { -spec_digits_val(ip) } else { spec_digits_val(ip) };
                Some(Decimal { num: num as i64, scale: 0 })
            } else {
                None
            }
        },
        Some(d) => {
            let ip = s.subrange(start, d);
            let fp = s.skip(d + 1);
            let mag = spec_digits_val(ip) * spec_pow10(fp.len()) + spec_digits_val(fp);
            if ip.len() >= 1 && 1 <= fp.len() <= 18 && all_digits(ip) && all_digits(fp)
                && mag <= i64::MAX {
                let num = if neg { -mag } else { mag };
                Some(Decimal { num: num as i64, scale: fp.len() as u32 })
            } else {
                None
            }
        },
    }
}

impl Decimal {
    /// Render as decimal text.
    pub fn to_chars(&self) -> (r: Vec<char>)
        requires
            self.wf(),
        ensures
            r@ == spec_decimal_chars(self.num as int, self.scale as nat),
    {
        let mut r: Vec<char> = Vec::new();
        if self.num < 0 {
            r.push('-');
        }
        let mag: u64 = if self.num < 0 {
            (-self.num) as u64
        } else {
            self.num as u64
        };
        if self.scale == 0 {
            let mut d = format_u64(mag);
            r.append(&mut d);
            proof {
                assert(r@ =~= spec_decimal_chars(self.num as int, self.scale as nat));
            }
        } else {
            let p = pow10_u64(self.scale);
            proof {
                lemma_pow10_pos(self.scale as nat);
            }
            let mut d = format_u64(mag / p);
            r.append(&mut d);
            r.push('.');
            let mut f = format_padded(mag % p, self.scale);
            r.append(&mut f);
            proof {
                assert(r@ =~= spec_decimal_chars(self.num as int, self.scale as nat));
            }
        }
        r
    }
}

/// Parse decimal text into a [`Decimal`].
pub fn parse_decimal(s: &Vec<char>) -> (r: Option<Decimal>)
    ensures
        r == spec_parse_decimal(s@),
        r matches Some(d) ==> d.wf(),
{
    let n = s.len();
    let start: usize = if n > 0 && s[0] == '-' {
        1
    } else {
        0
    };
    let neg = start == 1;
    match index_of(s, '.', start) {
        None => {
            let ip = subvec(s, start, n);
            proof {
                assert(ip@ =~= s@.skip(start as int));
            }
            match parse_u64(&ip) {
                None => {
                    proof {
                        if all_digits(ip@) && ip@.len() >= 1 {
                            // parse_u64 failed on overflow, so the value
                            // cannot fit an i64 either.
                            assert(spec_digits_val(ip@) > u64::MAX);
                        }
                    }
                    None
                },
                Some(v) => {
                    proof {
                        assert(spec_parse_u64(ip@) == Some(v));
                        assert(all_digits(ip@) && ip@.len() >= 1);
                        lemma_digits_val_nonneg(ip@);
                        assert(spec_digits_val(ip@) == v);
                    }
                    if v <= i64::MAX as u64 {
                        let num = if neg {
                            -(v as i64)
                        } else {
                            v as i64
                        };
                        Some(Decimal { num, scale: 0 })
                    } else {
                        None
                    }
                },
            }
        },
        Some(d) => {
            proof {
                lemma_index_of_props(s@, '.', start as int);
            }
            let ip = subvec(s, start, d);
            let fp = subvec(s, d + 1, n);
            proof {
                assert(ip@ =~= s@.subrange(start as int, d as int));
                assert(fp@ =~= s@.skip(d + 1));
            }
            let fp_len = fp.len();
            if fp_len < 1 || fp_len > 18 {
                return None;
            }
            let p = pow10_u64(fp_len as u32);
            proof {
                lemma_pow10_pos(fp_len as nat);
            }
            let ip_val = match parse_u64(&ip) {
                None => {
                    proof {
                        if all_digits(ip@) && ip@.len() >= 1 && all_digits(fp@) {
                            assert(spec_digits_val(ip@) > u64::MAX);
                            lemma_digits_val_nonneg(fp@);
                            assert(spec_digits_val(ip@) * spec_pow10(fp@.len())
                                >= spec_digits_val(ip@) * 1) by (nonlinear_arith)
                                requires
                                    spec_digits_val(ip@) >= 0,
                                    spec_pow10(fp@.len()) >= 1,
                            ;
                        }
                    }
                    return None;
                },
                Some(v) => v,
            };
            let fp_val = match parse_u64(&fp) {
                None => {
                    proof {
                        if all_digits(fp@) && fp@.len() >= 1 {
                            lemma_digits_val_bound(fp@);
                            lemma_pow10_mono(fp@.len(), 18);
                            reveal_with_fuel(spec_pow10, 20);
                            assert(spec_pow10(18) == 1_000_000_000_000_000_000);
                        }
                    }
                    return None;
                },
                Some(v) => v,
            };
            proof {
                assert(spec_parse_u64(ip@) == Some(ip_val));
                assert(all_digits(ip@) && ip@.len() >= 1);
                lemma_digits_val_nonneg(ip@);
                assert(spec_digits_val(ip@) == ip_val);
                assert(spec_parse_u64(fp@) == Some(fp_val));
                assert(all_digits(fp@) && fp@.len() >= 1);
                lemma_digits_val_nonneg(fp@);
                assert(spec_digits_val(fp@) == fp_val);
                assert(p == spec_pow10(fp@.len()));
            }
            let mag = match ip_val.checked_mul(p) {
                None => {
                    proof {
                        assert(ip_val * p > u64::MAX);
                        assert(spec_digits_val(ip@) * spec_pow10(fp@.len())
                            + spec_digits_val(fp@) > u64::MAX);
                    }
                    return None;
                },
                Some(m) => match m.checked_add(fp_val) {
                    None => {
                        proof {
                            assert(m == ip_val * p);
                            assert(spec_digits_val(ip@) * spec_pow10(fp@.len())
                                + spec_digits_val(fp@) > u64::MAX);
                        }
                        return None;
                    },
                    Some(m2) => m2,
                },
            };
            proof {
                assert(mag == spec_digits_val(ip@) * spec_pow10(fp@.len())
                    + spec_digits_val(fp@));
            }
            if mag > i64::MAX as u64 {
                return None;
            }
            let num = if neg {
                -(mag as i64)
            } else {
                mag as i64
            };
            Some(Decimal { num, scale: fp_len as u32 })
        },
    }
}

/// Rendering a well-formed decimal and parsing the text yields the same
/// decimal back.
#[verifier::rlimit(50)]
pub proof fn lemma_decimal_roundtrip(dec: Decimal)
    requires
        dec.wf(),
    ensures
        spec_parse_decimal(spec_decimal_chars(dec.num as int, dec.scale as nat)) == Some(dec),
{
    let num = dec.num as int;
    let scale = dec.scale as nat;
    let mag = dec.spec_mag();
    let s = spec_decimal_chars(num, scale);
    let signlen: int = if num < 0 { 1 } else { 0 };
    if scale == 0 {
        let digits = spec_u64_digits(mag);
        lemma_u64_digits_val(mag);
        assert(s =~= (if num < 0 { seq!['-'] } else { Seq::<char>::empty() }) + digits);
        // The sign position holds '-', never a digit; the digits hold no dot.
        assert(forall|j: int| 0 <= j < s.len() ==> s[j] != '.') by {
            assert(forall|j: int| signlen <= j < s.len()
                ==> s[j] == digits[j - signlen] && is_digit_char(#[trigger] s[j]));
        }
        lemma_index_of_props(s, '.', signlen);
        assert(spec_index_of(s, '.', signlen) is None);
        assert(s.skip(signlen) =~= digits);
        if num < 0 {
            assert(s[0] == '-');
        } else {
            assert(s[0] == digits[0] && is_digit_char(s[0]));
            assert(s[0] != '-');
        }
    } else {
        let p = spec_pow10(scale);
        lemma_pow10_pos(scale);
        vstd::arithmetic::div_mod::lemma_fundamental_div_mod(mag as int, p as int);
        let ipd = spec_u64_digits(mag / p);
        let fpd = spec_padded_digits(mag % p, scale);
        lemma_u64_digits_val(mag / p);
        lemma_padded_shape(mag % p, scale);
        lemma_padded_val(mag % p, scale);
        let sign: Seq<char> = if num < 0 { seq!['-'] } else { Seq::empty() };
        assert(s =~= sign + ipd + seq!['.'] + fpd);
        let dotpos = signlen + ipd.len() as int;
        assert(s[dotpos] == '.');
        assert(forall|j: int| signlen <= j < dotpos
            ==> s[j] == ipd[j - signlen] && is_digit_char(#[trigger] s[j]));
        if num < 0 {
            assert(s[0] == '-');
        } else {
            assert(s[0] == ipd[0] && is_digit_char(s[0]));
            assert(s[0] != '-');
        }
        lemma_index_of_at(s, '.', signlen, dotpos);
        assert(spec_index_of(s, '.', signlen) == Some(dotpos));
        assert(s.subrange(signlen, dotpos) =~= ipd);
        assert(s.skip(dotpos + 1) =~= fpd);
        assert(spec_digits_val(ipd) * spec_pow10(fpd.len()) + spec_digits_val(fpd)
            == (mag / p) * p + (mag % p));
        let start: int = if s.len() > 0 && s[0] == '-' { 1 } else { 0 };
        assert(start == signlen);
        assert(spec_index_of(s, '.', start) == Some(dotpos));
        let ip = s.subrange(start, dotpos);
        let fp = s.skip(dotpos + 1);
        assert(ip == ipd);
        assert(fp == fpd);
        assert(ip.len() >= 1);
        assert(1 <= fp.len() <= 18);
        assert(all_digits(ip) && all_digits(fp));
        assert(spec_pow10(fp.len()) == p);
        let magp = spec_digits_val(ip) * spec_pow10(fp.len()) + spec_digits_val(fp);
        assert(mag == p * (mag / p) + (mag % p)) by {
            vstd::arithmetic::div_mod::lemma_fundamental_div_mod(mag as int, p as int);
        }
        assert(magp == mag);
        assert(magp <= i64::MAX);
        let nump = if start == 1 { -magp } else { magp };
        assert(nump == dec.num);
        assert(fp.len() as u32 == dec.scale);
        let parsed = spec_parse_decimal(s);
        assert(parsed is Some);
        assert(parsed->0.num == dec.num && parsed->0.scale == dec.scale);
        assert(parsed == Some(dec));
    }
}

} // verus!
