//! The re-entrant harness protocol.
//!
//! One executable serves as both the measuring driver and the instrumented
//! child.  The role is decided by the first argument after the program
//! name: `--internal-run` marks the child, whose next argument is the
//! benchmark index and whose remaining arguments are the assignment tokens
//! (none for a calibration run).  The driver invokes the simulator with a
//! fixed cache configuration, so that counters are comparable across
//! machines, and with an output file derived from the benchmark name.

use vstd::prelude::*;
use crate::error::Error;
use crate::text::{
    chars_of_str, format_u64, parse_u64, spec_parse_u64, spec_u64_digits, str_eq_str,
    string_of_chars,
};

verus! {

/// The role of this process, as its command line declares it.
pub enum RunMode {
    /// The instrumented child: which benchmark to run, and the assignment
    /// tokens (empty for calibration).
    Child { index: usize, tokens: Vec<String> },
    /// The measuring driver.
    Driver,
}

/// Whether the arguments after the program name mark the instrumented
/// child.
pub open spec fn spec_is_child(args: Seq<Seq<char>>) -> bool {
    args.len() >= 1 && args[0] == "--internal-run"@
}

/// Decide the process role from the arguments after the program name.  A
/// child invocation whose index argument is missing or not a number fails
/// with the integer parse error.
pub fn classify_invocation(args: &Vec<String>) -> (r: Result<RunMode, Error>)
    ensures
        match r {
            Ok(RunMode::Driver) => !spec_is_child(
                Seq::new(args@.len(), |i: int| args@[i]@),
            ),
            Ok(RunMode::Child { index, tokens }) => {
                let views = Seq::new(args@.len(), |i: int| args@[i]@);
                &&& spec_is_child(views)
                &&& args@.len() >= 2
                &&& spec_parse_u64(args@[1]@) == Some(index as u64)
                &&& tokens@.len() == args@.len() - 2
                &&& forall|i: int| 0 <= i < tokens@.len()
                    ==> (#[trigger] tokens@[i])@ == args@[i + 2]@
            },
            Err(Error::ParseInt) => {
                let views = Seq::new(args@.len(), |i: int| args@[i]@);
                spec_is_child(views) && (args@.len() < 2 || spec_parse_u64(args@[1]@) is None
                    || (spec_parse_u64(args@[1]@) matches Some(v) && v > usize::MAX))
            },
            Err(_) => false,
        },
{
    let n = args.len();
    if n == 0 {
        return Ok(RunMode::Driver);
    }
    if !str_eq_str(args[0].as_str(), "--internal-run") {
        return Ok(RunMode::Driver);
    }
    if n < 2 {
        return Err(Error::ParseInt);
    }
    let index_chars = chars_of_str(args[1].as_str());
    let index = match parse_u64(&index_chars) {
        None => {
            return Err(Error::ParseInt);
        },
        Some(v) => {
            if v > usize::MAX as u64 {
                return Err(Error::ParseInt);
            }
            v as usize
        },
    };
    let mut tokens: Vec<String> = Vec::new();
    let mut i: usize = 2;
    while i < n
        invariant
            2 <= i <= n,
            n == args@.len(),
            tokens@.len() == i - 2,
            forall|k: int| 0 <= k < tokens@.len()
                ==> (#[trigger] tokens@[k])@ == args@[k + 2]@,
        decreases n - i,
    {
        tokens.push(args[i].clone());
        i += 1;
    }
    Ok(RunMode::Child { index, tokens })
}

/// The child invocation the driver builds is classified back as the child,
/// with the same benchmark index: the argument views after the executable
/// position in [`cachegrind_args`] are the child marker, the index digits,
/// and the tokens, and the digits parse back to the index.
pub proof fn lemma_child_invocation_roundtrip(index: u64)
    ensures
        spec_is_child(seq!["--internal-run"@, spec_u64_digits(index as nat)]),
        spec_parse_u64(spec_u64_digits(index as nat)) == Some(index),
{
    crate::text::lemma_u64_roundtrip(index);
}

/// The simulator output file for a benchmark name.
pub fn output_file_path(name: &str) -> (r: String)
    ensures
        r@ == "target/alco/cachegrind.out."@ + name@,
{
    let mut chars = chars_of_str("target/alco/cachegrind.out.");
    let mut rest = chars_of_str(name);
    chars.append(&mut rest);
    proof {
        assert(chars@ =~= "target/alco/cachegrind.out."@ + name@);
    }
    string_of_chars(&chars)
}

/// The sibling path that keeps the previous run of a benchmark.
pub fn old_file_path(name: &str) -> (r: String)
    ensures
        r@ == "target/alco/cachegrind.out."@ + name@ + ".old"@,
{
    let mut chars = chars_of_str("target/alco/cachegrind.out.");
    let mut mid = chars_of_str(name);
    chars.append(&mut mid);
    let mut suffix = chars_of_str(".old");
    chars.append(&mut suffix);
    proof {
        assert(chars@ =~= "target/alco/cachegrind.out."@ + name@ + ".old"@);
    }
    string_of_chars(&chars)
}

/// The full simulator argument list for one measurement: the cache tool
/// with its fixed cache sizes (32 KiB 8-way 64 B level-one caches, an
/// 8 MiB 16-way 64 B last level — the sizes are part of the measurement
/// contract), the output file, then the child invocation: the executable,
/// the child marker, the benchmark index, and the assignment tokens.
pub fn cachegrind_args(
    output_file: &str,
    executable: &str,
    index: usize,
    tokens: &Vec<String>,
) -> (r: Vec<String>)
    ensures
        r@.len() == 8 + tokens@.len(),
        r@[0]@ == "--tool=cachegrind"@,
        r@[1]@ == "--I1=32768,8,64"@,
        r@[2]@ == "--D1=32768,8,64"@,
        r@[3]@ == "--LL=8388608,16,64"@,
        r@[4]@ == "--cachegrind-out-file="@ + output_file@,
        r@[5]@ == executable@,
        r@[6]@ == "--internal-run"@,
        r@[7]@ == spec_u64_digits(index as nat),
        forall|i: int| 0 <= i < tokens@.len() ==> r@[8 + i]@ == (#[trigger] tokens@[i])@,
{
    let mut r: Vec<String> = Vec::new();
    r.push("--tool=cachegrind".to_owned());
    r.push("--I1=32768,8,64".to_owned());
    r.push("--D1=32768,8,64".to_owned());
    r.push("--LL=8388608,16,64".to_owned());
    let mut out_arg = chars_of_str("--cachegrind-out-file=");
    let mut out_path = chars_of_str(output_file);
    out_arg.append(&mut out_path);
    proof {
        assert(out_arg@ =~= "--cachegrind-out-file="@ + output_file@);
    }
    r.push(string_of_chars(&out_arg));
    r.push(executable.to_owned());
    r.push("--internal-run".to_owned());
    let digits = format_u64(index as u64);
    r.push(string_of_chars(&digits));
    let n = tokens.len();
    let mut i: usize = 0;
    while i < n
        invariant
            0 <= i <= n,
            n == tokens@.len(),
            r@.len() == 8 + i,
            r@[0]@ == "--tool=cachegrind"@,
            r@[1]@ == "--I1=32768,8,64"@,
            r@[2]@ == "--D1=32768,8,64"@,
            r@[3]@ == "--LL=8388608,16,64"@,
            r@[4]@ == "--cachegrind-out-file="@ + output_file@,
            r@[5]@ == executable@,
            r@[6]@ == "--internal-run"@,
            r@[7]@ == spec_u64_digits(index as nat),
            forall|k: int| 0 <= k < i ==> r@[8 + k]@ == (#[trigger] tokens@[k])@,
        decreases n - i,
    {
        r.push(tokens[i].clone());
        i += 1;
    }
    r
}

} // verus!
