//! Character-level text utilities for the token codec and the output parser.
//!
//! Everything here works on `Vec<char>` / `Seq<char>`, so that the protocol
//! text can be reasoned about exactly.  The only trusted function is the final
//! conversion of a character vector back into a `String`.

use vstd::prelude::*;
use vstd::string::StrSliceExecFns;

verus! {

/// The character for a single decimal digit value.
pub open spec fn spec_digit_char(d: int) -> char {
    if d == 0 { '0' }
    else if d == 1 { '1' }
    else if d == 2 { '2' }
    else if d == 3 { '3' }
    else if d == 4 { '4' }
    else if d == 5 { '5' }
    else if d == 6 { '6' }
    else if d == 7 { '7' }
    else if d == 8 { '8' }
    else { '9' }
}

/// The digit value of a character, or 10 if it is not a decimal digit.
pub open spec fn spec_digit_val(c: char) -> int {
    if c == '0' { 0 }
    else if c == '1' { 1 }
    else if c == '2' { 2 }
    else if c == '3' { 3 }
    else if c == '4' { 4 }
    else if c == '5' { 5 }
    else if c == '6' { 6 }
    else if c == '7' { 7 }
    else if c == '8' { 8 }
    else if c == '9' { 9 }
    else { 10 }
}

pub open spec fn is_digit_char(c: char) -> bool {
    spec_digit_val(c) < 10
}

pub proof fn lemma_digit_char_val(d: int)
    requires
        0 <= d < 10,
    ensures
        spec_digit_val(spec_digit_char(d)) == d,
        is_digit_char(spec_digit_char(d)),
{
}

/// The decimal digit string of a natural number, most significant digit first.
pub open spec fn spec_u64_digits(n: nat) -> Seq<char>
    decreases n,
{
    if n < 10 {
        seq![spec_digit_char(n as int)]
    } else {
        spec_u64_digits(n / 10).push(spec_digit_char((n % 10) as int))
    }
}

/// The value of a digit string (most significant digit first).
pub open spec fn spec_digits_val(s: Seq<char>) -> int
    decreases s.len(),
{
    if s.len() == 0 {
        0
    } else {
        spec_digits_val(s.drop_last()) * 10 + spec_digit_val(s.last())
    }
}

pub open spec fn all_digits(s: Seq<char>) -> bool {
    forall|i: int| 0 <= i < s.len() ==> is_digit_char(#[trigger] s[i])
}

proof fn lemma_u64_digits_shape(n: nat)
    ensures
        spec_u64_digits(n).len() >= 1,
        all_digits(spec_u64_digits(n)),
    decreases n,
{
    if n >= 10 {
        lemma_u64_digits_shape(n / 10);
        assert forall|i: int| 0 <= i < spec_u64_digits(n).len() implies
            is_digit_char(#[trigger] spec_u64_digits(n)[i]) by {
            if i < spec_u64_digits(n).len() - 1 {
                assert(spec_u64_digits(n)[i] == spec_u64_digits(n / 10)[i]);
            }
        }
    }
}

/// The digit string of `n` evaluates back to `n`.
pub proof fn lemma_u64_digits_val(n: nat)
    ensures
        spec_u64_digits(n).len() >= 1,
        all_digits(spec_u64_digits(n)),
        spec_digits_val(spec_u64_digits(n)) == n,
    decreases n,
{
    lemma_u64_digits_shape(n);
    if n < 10 {
        lemma_digit_char_val(n as int);
        assert(spec_u64_digits(n).drop_last() =~= Seq::<char>::empty());
        assert(spec_digits_val(Seq::<char>::empty()) == 0);
        assert(spec_u64_digits(n).last() == spec_digit_char(n as int));
        assert(spec_digits_val(spec_u64_digits(n))
            == spec_digits_val(spec_u64_digits(n).drop_last()) * 10
                + spec_digit_val(spec_u64_digits(n).last()));
    } else {
        lemma_u64_digits_val(n / 10);
        lemma_digit_char_val((n % 10) as int);
        vstd::arithmetic::div_mod::lemma_fundamental_div_mod(n as int, 10);
        assert(spec_u64_digits(n).drop_last() =~= spec_u64_digits(n / 10));
    }
}

/// Digit-string values are non-negative.
pub proof fn lemma_digits_val_nonneg(s: Seq<char>)
    requires
        all_digits(s),
    ensures
        spec_digits_val(s) >= 0,
    decreases s.len(),
{
    if s.len() > 0 {
        assert(all_digits(s.drop_last()));
        lemma_digits_val_nonneg(s.drop_last());
    }
}

/// Extending a digit string can only increase its value.
pub proof fn lemma_digits_val_prefix(s: Seq<char>, i: int)
    requires
        all_digits(s),
        0 <= i <= s.len(),
    ensures
        spec_digits_val(s.take(i)) <= spec_digits_val(s),
    decreases s.len() - i,
{
    if i < s.len() {
        assert(all_digits(s.take(i + 1)));
        lemma_digits_val_nonneg(s.take(i));
        assert(s.take(i + 1).drop_last() =~= s.take(i));
        assert(spec_digits_val(s.take(i + 1))
            == spec_digits_val(s.take(i)) * 10 + spec_digit_val(s[i]));
        lemma_digits_val_prefix(s, i + 1);
        assert(s.take(s.len() as int) =~= s);
    } else {
        assert(s.take(i) =~= s);
    }
}

pub fn digit_char(d: u64) -> (c: char)
    requires
        d < 10,
    ensures
        c == spec_digit_char(d as int),
{
    match d {
        0 => '0',
        1 => '1',
        2 => '2',
        3 => '3',
        4 => '4',
        5 => '5',
        6 => '6',
        7 => '7',
        8 => '8',
        _ => '9',
    }
}

pub fn digit_val(c: char) -> (d: u64)
    ensures
        d == spec_digit_val(c) || (d == 10 && !is_digit_char(c)),
        d <= 10,
        d < 10 ==> d == spec_digit_val(c),
{
    match c {
        '0' => 0,
        '1' => 1,
        '2' => 2,
        '3' => 3,
        '4' => 4,
        '5' => 5,
        '6' => 6,
        '7' => 7,
        '8' => 8,
        '9' => 9,
        _ => 10,
    }
}

/// Render `n` in decimal.
pub fn format_u64(n: u64) -> (r: Vec<char>)
    ensures
        r@ == spec_u64_digits(n as nat),
    decreases n,
{
    if n < 10 {
        let mut r: Vec<char> = Vec::new();
        r.push(digit_char(n));
        proof {
            assert(r@ =~= spec_u64_digits(n as nat));
        }
        r
    } else {
        let mut r = format_u64(n / 10);
        r.push(digit_char(n % 10));
        r
    }
}

/// Parse a non-empty all-digit string as a `u64`; `None` on a non-digit
/// character, an empty string, or overflow.
pub open spec fn spec_parse_u64(s: Seq<char>) -> Option<u64> {
    if s.len() >= 1 && all_digits(s) && spec_digits_val(s) <= u64::MAX {
        Some(spec_digits_val(s) as u64)
    } else {
        None
    }
}

pub fn parse_u64(s: &Vec<char>) -> (r: Option<u64>)
    ensures
        r == spec_parse_u64(s@),
{
    if s.len() == 0 {
        return None;
    }
    let mut acc: u64 = 0;
    let mut i: usize = 0;
    while i < s.len()
        invariant
            0 <= i <= s.len(),
            all_digits(s@.take(i as int)),
            acc == spec_digits_val(s@.take(i as int)),
        decreases s.len() - i,
    {
        let d = digit_val(s[i]);
        if d >= 10 {
            proof {
                assert(!is_digit_char(s@[i as int]));
            }
            return None;
        }
        let next = match acc.checked_mul(10) {
            Some(x) => x.checked_add(d),
            None => None,
        };
        proof {
            assert(s@.take(i + 1).drop_last() =~= s@.take(i as int));
            assert(all_digits(s@.take(i + 1)));
        }
        match next {
            Some(x) => {
                acc = x;
            },
            None => {
                // The value of the whole string is at least the value of this
                // prefix, so the whole parse overflows.
                proof {
                    if all_digits(s@) {
                        lemma_digits_val_prefix(s@, i + 1);
                        assert(spec_digits_val(s@) > u64::MAX);
                    }
                }
                return None;
            },
        }
        i += 1;
    }
    proof {
        assert(s@.take(s@.len() as int) =~= s@);
    }
    Some(acc)
}

/// `parse` is a left inverse of `format` for `u64` values.
pub proof fn lemma_u64_roundtrip(n: u64)
    ensures
        spec_parse_u64(spec_u64_digits(n as nat)) == Some(n),
{
    lemma_u64_digits_val(n as nat);
}

/// The characters of a string, in order.
pub fn chars_of_str(s: &str) -> (r: Vec<char>)
    ensures
        r@ == s@,
{
    let n = s.unicode_len();
    let mut r: Vec<char> = Vec::new();
    let mut i: usize = 0;
    while i < n
        invariant
            0 <= i <= n,
            n == s@.len(),
            r@ == s@.take(i as int),
        decreases n - i,
    {
        let c = s.get_char(i);
        r.push(c);
        proof {
            assert(r@ =~= s@.take(i + 1));
        }
        i += 1;
    }
    proof {
        assert(s@.take(n as int) =~= s@);
    }
    r
}

/// Relies on `String::from_iter` over `core::str::Chars`-compatible input:
/// collecting a sequence of characters yields the string of exactly those
/// characters.
#[verifier::external_body]
pub(crate) fn string_of_chars(v: &Vec<char>) -> (r: String)
    ensures
        r@ == v@,
{
    v.iter().collect()
}

/// First position of `c` in `v` at or after `from`.
pub open spec fn spec_index_of(s: Seq<char>, c: char, from: int) -> Option<int>
    decreases s.len() - from,
{
    if from < 0 || from >= s.len() {
        None
    } else if s[from] == c {
        Some(from)
    } else {
        spec_index_of(s, c, from + 1)
    }
}

pub proof fn lemma_index_of_props(s: Seq<char>, c: char, from: int)
    requires
        0 <= from <= s.len(),
    ensures
        match spec_index_of(s, c, from) {
            Some(i) => from <= i < s.len() && s[i] == c
                && (forall|j: int| from <= j < i ==> s[j] != c),
            None => forall|j: int| from <= j < s.len() ==> s[j] != c,
        },
    decreases s.len() - from,
{
    if from < s.len() && s[from] != c {
        lemma_index_of_props(s, c, from + 1);
    }
}

pub fn index_of(v: &Vec<char>, c: char, from: usize) -> (r: Option<usize>)
    requires
        from <= v@.len(),
    ensures
        match r {
            Some(i) => Some(i as int) == spec_index_of(v@, c, from as int),
            None => spec_index_of(v@, c, from as int) is None,
        },
{
    let mut i = from;
    while i < v.len()
        invariant
            from <= i <= v@.len(),
            spec_index_of(v@, c, from as int) == spec_index_of(v@, c, i as int),
        decreases v@.len() - i,
    {
        if v[i] == c {
            return Some(i);
        }
        i += 1;
    }
    None
}

/// A copy of `v[from..to]`.
pub fn subvec(v: &Vec<char>, from: usize, to: usize) -> (r: Vec<char>)
    requires
        from <= to <= v@.len(),
    ensures
        r@ == v@.subrange(from as int, to as int),
{
    let mut r: Vec<char> = Vec::new();
    let mut i = from;
    while i < to
        invariant
            from <= i <= to <= v@.len(),
            r@ == v@.subrange(from as int, i as int),
        decreases to - i,
    {
        r.push(v[i]);
        proof {
            assert(r@ =~= v@.subrange(from as int, i + 1));
        }
        i += 1;
    }
    r
}

/// Whether the characters of `v` are exactly those of `s`.
pub fn chars_eq_str(v: &Vec<char>, s: &str) -> (r: bool)
    ensures
        r == (v@ == s@),
{
    let n = s.unicode_len();
    if v.len() != n {
        proof {
            assert(v@ != s@);
        }
        return false;
    }
    let mut i: usize = 0;
    while i < n
        invariant
            0 <= i <= n,
            n == s@.len(),
            n == v@.len(),
            forall|j: int| 0 <= j < i ==> v@[j] == s@[j],
        decreases n - i,
    {
        if v[i] != s.get_char(i) {
            return false;
        }
        i += 1;
    }
    proof {
        assert(v@ =~= s@);
    }
    true
}

/// The character sequences of a vector of character vectors.
pub open spec fn views_of(s: Seq<Vec<char>>) -> Seq<Seq<char>> {
    Seq::new(s.len(), |i: int| s[i]@)
}

/// Whether two string slices hold the same characters.
pub fn str_eq_str(a: &str, b: &str) -> (r: bool)
    ensures
        r == (a@ == b@),
{
    let n = a.unicode_len();
    if b.unicode_len() != n {
        proof {
            assert(a@ != b@);
        }
        return false;
    }
    let mut i: usize = 0;
    while i < n
        invariant
            0 <= i <= n,
            n == a@.len(),
            n == b@.len(),
            forall|j: int| 0 <= j < i ==> a@[j] == b@[j],
        decreases n - i,
    {
        if a.get_char(i) != b.get_char(i) {
            return false;
        }
        i += 1;
    }
    proof {
        assert(a@ =~= b@);
    }
    true
}

/// Split `s` at every occurrence of `sep`.  Two adjacent separators produce an
/// empty piece, as does a leading or trailing separator.
pub open spec fn spec_split(s: Seq<char>, sep: char) -> Seq<Seq<char>>
    decreases s.len(),
    via spec_split_decreases
{
    match spec_index_of(s, sep, 0) {
        None => seq![s],
        Some(i) => seq![s.take(i)] + spec_split(s.skip(i + 1), sep),
    }
}

#[via_fn]
proof fn spec_split_decreases(s: Seq<char>, sep: char) {
    lemma_index_of_props(s, sep, 0);
}

pub fn split_chars(v: &Vec<char>, sep: char) -> (r: Vec<Vec<char>>)
    ensures
        views_of(r@) == spec_split(v@, sep),
{
    let mut rest: Vec<char> = subvec(v, 0, v.len());
    let mut r: Vec<Vec<char>> = Vec::new();
    proof {
        assert(rest@ =~= v@);
        assert(views_of(r@) + spec_split(rest@, sep) =~= spec_split(v@, sep));
    }
    loop
        invariant
            views_of(r@) + spec_split(rest@, sep) =~= spec_split(v@, sep),
        decreases rest@.len(),
    {
        match index_of(&rest, sep, 0) {
            None => {
                let ghost old_r = r@;
                let ghost last = rest@;
                r.push(rest);
                proof {
                    assert(views_of(r@) =~= views_of(old_r).push(last));
                    assert(views_of(r@) =~= spec_split(v@, sep));
                }
                return r;
            },
            Some(i) => {
                proof {
                    lemma_index_of_props(rest@, sep, 0);
                    assert(spec_index_of(rest@, sep, 0) == Some(i as int));
                    assert(i < rest@.len());
                }
                let rest_len = rest.len();
                let piece = subvec(&rest, 0, i);
                let new_rest = subvec(&rest, i + 1, rest_len);
                proof {
                    assert(piece@ =~= rest@.take(i as int));
                    assert(new_rest@ =~= rest@.skip(i + 1));
                }
                let ghost old_r = r@;
                let ghost old_rest = rest@;
                r.push(piece);
                rest = new_rest;
                proof {
                    assert(views_of(r@) =~= views_of(old_r).push(old_rest.take(i as int)));
                    assert(spec_split(old_rest, sep)
                        == seq![old_rest.take(i as int)] + spec_split(old_rest.skip(i + 1), sep));
                    assert(views_of(r@) + spec_split(rest@, sep) =~= spec_split(v@, sep));
                }
            },
        }
    }
}

/// Whitespace inside a simulator output line.
pub open spec fn is_ws(c: char) -> bool {
    c == ' ' || c == '\t' || c == '\r'
}

/// First whitespace position in `s` at or after `from`.
pub open spec fn spec_index_of_ws(s: Seq<char>, from: int) -> Option<int>
    decreases s.len() - from,
{
    if from < 0 || from >= s.len() {
        None
    } else if is_ws(s[from]) {
        Some(from)
    } else {
        spec_index_of_ws(s, from + 1)
    }
}

pub proof fn lemma_index_of_ws_props(s: Seq<char>, from: int)
    requires
        0 <= from <= s.len(),
    ensures
        match spec_index_of_ws(s, from) {
            Some(i) => from <= i < s.len() && is_ws(s[i])
                && (forall|j: int| from <= j < i ==> !is_ws(s[j])),
            None => forall|j: int| from <= j < s.len() ==> !is_ws(s[j]),
        },
    decreases s.len() - from,
{
    if from < s.len() && !is_ws(s[from]) {
        lemma_index_of_ws_props(s, from + 1);
    }
}

pub fn index_of_ws(v: &Vec<char>, from: usize) -> (r: Option<usize>)
    requires
        from <= v@.len(),
    ensures
        match r {
            Some(i) => Some(i as int) == spec_index_of_ws(v@, from as int),
            None => spec_index_of_ws(v@, from as int) is None,
        },
{
    let mut i = from;
    while i < v.len()
        invariant
            from <= i <= v@.len(),
            spec_index_of_ws(v@, from as int) == spec_index_of_ws(v@, i as int),
        decreases v@.len() - i,
    {
        let c = v[i];
        if c == ' ' || c == '\t' || c == '\r' {
            return Some(i);
        }
        i += 1;
    }
    None
}

/// The whitespace-separated words of `s`, in order, without empty words.
pub open spec fn spec_ws_tokens(s: Seq<char>) -> Seq<Seq<char>>
    decreases s.len(),
    via spec_ws_tokens_decreases
{
    if s.len() == 0 {
        Seq::empty()
    } else if is_ws(s[0]) {
        spec_ws_tokens(s.skip(1))
    } else {
        match spec_index_of_ws(s, 0) {
            None => seq![s],
            Some(i) => seq![s.take(i)] + spec_ws_tokens(s.skip(i + 1)),
        }
    }
}

#[via_fn]
proof fn spec_ws_tokens_decreases(s: Seq<char>) {
    if s.len() > 0 && !is_ws(s[0]) {
        lemma_index_of_ws_props(s, 0);
    }
}

pub fn ws_tokens(v: &Vec<char>) -> (r: Vec<Vec<char>>)
    ensures
        views_of(r@) == spec_ws_tokens(v@),
{
    let mut rest: Vec<char> = subvec(v, 0, v.len());
    let mut r: Vec<Vec<char>> = Vec::new();
    proof {
        assert(rest@ =~= v@);
        assert(views_of(r@) + spec_ws_tokens(rest@) =~= spec_ws_tokens(v@));
    }
    loop
        invariant
            views_of(r@) + spec_ws_tokens(rest@) =~= spec_ws_tokens(v@),
        decreases rest@.len(),
    {
        if rest.len() == 0 {
            proof {
                assert(views_of(r@) =~= spec_ws_tokens(v@));
            }
            return r;
        }
        let c = rest[0];
        let rest_len = rest.len();
        if c == ' ' || c == '\t' || c == '\r' {
            let new_rest = subvec(&rest, 1, rest_len);
            proof {
                assert(new_rest@ =~= rest@.skip(1));
            }
            rest = new_rest;
            proof {
                assert(views_of(r@) + spec_ws_tokens(rest@) =~= spec_ws_tokens(v@));
            }
        } else {
            match index_of_ws(&rest, 0) {
                None => {
                    let ghost old_r = r@;
                    let ghost last = rest@;
                    r.push(rest);
                    proof {
                        assert(views_of(r@) =~= views_of(old_r).push(last));
                        assert(views_of(r@) =~= spec_ws_tokens(v@));
                    }
                    return r;
                },
                Some(i) => {
                    proof {
                        lemma_index_of_ws_props(rest@, 0);
                        assert(spec_index_of_ws(rest@, 0) == Some(i as int));
                        assert(0 < i < rest@.len());
                    }
                    let piece = subvec(&rest, 0, i);
                    let new_rest = subvec(&rest, i + 1, rest_len);
                    proof {
                        assert(piece@ =~= rest@.take(i as int));
                        assert(new_rest@ =~= rest@.skip(i + 1));
                    }
                    let ghost old_r = r@;
                    let ghost old_rest = rest@;
                    r.push(piece);
                    rest = new_rest;
                    proof {
                        assert(views_of(r@) =~= views_of(old_r).push(old_rest.take(i as int)));
                        assert(views_of(r@) + spec_ws_tokens(rest@) =~= spec_ws_tokens(v@));
                    }
                },
            }
        }
    }
}

/// The rest of `s` after prefix `p`, when `s` starts with `p`.
pub open spec fn spec_strip_prefix(s: Seq<char>, p: Seq<char>) -> Option<Seq<char>> {
    if s.len() >= p.len() && s.take(p.len() as int) == p {
        Some(s.skip(p.len() as int))
    } else {
        None
    }
}

pub fn strip_prefix_chars(v: &Vec<char>, p: &str) -> (r: Option<Vec<char>>)
    ensures
        match r {
            Some(rest) => Some(rest@) == spec_strip_prefix(v@, p@),
            None => spec_strip_prefix(v@, p@) is None,
        },
{
    let plen = p.unicode_len();
    if v.len() < plen {
        return None;
    }
    let mut i: usize = 0;
    while i < plen
        invariant
            0 <= i <= plen,
            plen == p@.len(),
            plen <= v@.len(),
            forall|j: int| 0 <= j < i ==> v@[j] == p@[j],
        decreases plen - i,
    {
        if v[i] != p.get_char(i) {
            proof {
                assert(v@.take(p@.len() as int)[i as int] != p@[i as int]);
            }
            return None;
        }
        i += 1;
    }
    let rest = subvec(v, plen, v.len());
    proof {
        assert(v@.take(p@.len() as int) =~= p@);
        assert(rest@ =~= v@.skip(p@.len() as int));
    }
    Some(rest)
}

/// Join pieces with a separator character between them.
pub open spec fn spec_join(pieces: Seq<Seq<char>>, sep: char) -> Seq<char>
    decreases pieces.len(),
{
    if pieces.len() == 0 {
        Seq::empty()
    } else if pieces.len() == 1 {
        pieces[0]
    } else {
        pieces[0] + seq![sep] + spec_join(pieces.drop_first(), sep)
    }
}

/// Splitting a joined sequence recovers the pieces, provided no piece
/// contains the separator.
pub proof fn lemma_split_join(pieces: Seq<Seq<char>>, sep: char)
    requires
        pieces.len() >= 1,
        forall|i: int| 0 <= i < pieces.len()
            ==> !(#[trigger] pieces[i]).contains(sep),
    ensures
        spec_split(spec_join(pieces, sep), sep) == pieces,
    decreases pieces.len(),
{
    let joined = spec_join(pieces, sep);
    if pieces.len() == 1 {
        lemma_index_of_props(joined, sep, 0);
        if spec_index_of(joined, sep, 0) is Some {
            let i = spec_index_of(joined, sep, 0)->Some_0;
            assert(pieces[0][i] == sep);
            assert(pieces[0].contains(sep));
        }
        assert(spec_split(joined, sep) =~= pieces);
    } else {
        let head = pieces[0];
        let tail = pieces.drop_first();
        assert(joined =~= head + seq![sep] + spec_join(tail, sep));
        lemma_index_of_at(joined, sep, 0, head.len() as int);
        assert(spec_index_of(joined, sep, 0) == Some(head.len() as int));
        assert(joined.take(head.len() as int) =~= head);
        assert(joined.skip(head.len() as int + 1) =~= spec_join(tail, sep));
        assert(forall|i: int| 0 <= i < tail.len()
            ==> !(#[trigger] tail[i]).contains(sep));
        lemma_split_join(tail, sep);
        assert(spec_split(joined, sep) =~= seq![head] + spec_split(spec_join(tail, sep), sep));
        assert(seq![head] + tail =~= pieces);
    }
}

/// If position `at` holds the first occurrence of `sep` at or after `from`,
/// `spec_index_of` finds it.
pub proof fn lemma_index_of_at(s: Seq<char>, sep: char, from: int, at: int)
    requires
        0 <= from <= at < s.len(),
        s[at] == sep,
        forall|j: int| from <= j < at ==> s[j] != sep,
    ensures
        spec_index_of(s, sep, from) == Some(at),
{
    lemma_index_of_props(s, sep, from);
    match spec_index_of(s, sep, from) {
        None => {
            assert(s[at] == sep);
        },
        Some(i) => {
            if i < at {
                assert(s[i] != sep);
            }
            if i > at {
                assert(s[at] != sep);
            }
        },
    }
}

} // verus!
