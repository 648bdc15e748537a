//! Counter snapshots reported by the cache simulator.
//!
//! A measurement yields nine integer counters.  Three cache-level hit counts
//! are derived from them; the derivation is only meaningful when the derived
//! hit counts are non-negative, which [`CachegrindStats::wf`] captures.

use vstd::prelude::*;
use crate::error::Error;
use crate::text::{
    chars_of_str, chars_eq_str, spec_parse_u64, spec_split, spec_strip_prefix, spec_ws_tokens,
    split_chars, strip_prefix_chars, subvec, views_of, ws_tokens, parse_u64,
};

verus! {

/// The nine counters of one simulator run.
#[derive(Clone, Copy, PartialEq, Eq, Structural, Debug)]
pub struct CachegrindStats {
    pub instruction_reads: u64,
    pub instruction_l1_misses: u64,
    pub instruction_cache_misses: u64,
    pub data_reads: u64,
    pub data_l1_read_misses: u64,
    pub data_cache_read_misses: u64,
    pub data_writes: u64,
    pub data_l1_write_misses: u64,
    pub data_cache_write_misses: u64,
}

/// Hits per cache level, derived from a counter snapshot.
#[derive(Clone, Copy, PartialEq, Eq, Structural, Debug)]
pub struct CachegrindSummary {
    pub l1_hits: u64,
    pub l3_hits: u64,
    pub ram_hits: u64,
}

impl CachegrindStats {
    /// Accesses that fell through to RAM: the three last-level miss counters.
    pub open spec fn spec_ram_accesses(&self) -> int {
        self.instruction_cache_misses + self.data_cache_read_misses
            + self.data_cache_write_misses
    }

    /// Accesses that fell through the L1 caches: the three L1 miss counters.
    pub open spec fn spec_l1_miss_sum(&self) -> int {
        self.instruction_l1_misses + self.data_l1_read_misses + self.data_l1_write_misses
    }

    /// All memory operations: instruction reads, data reads, data writes.
    pub open spec fn spec_total_rw(&self) -> int {
        self.instruction_reads + self.data_reads + self.data_writes
    }

    /// A snapshot is well formed when the derived sums fit in `u64` and both
    /// derived hit counts are non-negative.  The parser rejects snapshots
    /// that are not.
    pub open spec fn wf(&self) -> bool {
        &&& self.spec_total_rw() <= u64::MAX
        &&& self.spec_ram_accesses() <= self.spec_l1_miss_sum()
        &&& self.spec_l1_miss_sum() <= self.spec_total_rw()
    }

    pub fn ram_accesses(&self) -> (r: u64)
        requires
            self.spec_ram_accesses() <= u64::MAX,
        ensures
            r == self.spec_ram_accesses(),
    {
        self.instruction_cache_misses + self.data_cache_read_misses
            + self.data_cache_write_misses
    }

    /// Derive the three-level hit summary of this snapshot.
    pub fn summarize(&self) -> (r: CachegrindSummary)
        requires
            self.wf(),
        ensures
            r.ram_hits == self.spec_ram_accesses(),
            r.l3_hits == self.spec_l1_miss_sum() - self.spec_ram_accesses(),
            r.l1_hits == self.spec_total_rw() - self.spec_l1_miss_sum(),
    {
        let ram_hits = self.ram_accesses();
        let l3_accesses = self.instruction_l1_misses + self.data_l1_read_misses
            + self.data_l1_write_misses;
        let l3_hits = l3_accesses - ram_hits;

        let total_memory_rw = self.instruction_reads + self.data_reads + self.data_writes;
        let l1_hits = total_memory_rw - (ram_hits + l3_hits);

        CachegrindSummary { l1_hits, l3_hits, ram_hits }
    }
}

/// The content after the last line carrying prefix `p`.
pub open spec fn spec_last_tagged(lines: Seq<Seq<char>>, p: Seq<char>) -> Option<Seq<char>>
    decreases lines.len(),
{
    if lines.len() == 0 {
        None
    } else {
        match spec_strip_prefix(lines.last(), p) {
            Some(rest) => Some(rest),
            None => spec_last_tagged(lines.drop_last(), p),
        }
    }
}

/// The value word paired with the last occurrence of `key` among the first
/// `min(names.len(), vals.len())` name words.
pub open spec fn spec_assoc(
    names: Seq<Seq<char>>,
    vals: Seq<Seq<char>>,
    key: Seq<char>,
) -> Option<Seq<char>>
    decreases names.len(),
{
    let m: int = if names.len() <= vals.len() {
        names.len() as int
    } else {
        vals.len() as int
    };
    if m == 0 {
        None
    } else if names[m - 1] == key {
        Some(vals[m - 1])
    } else {
        spec_assoc(names.take(m - 1), vals.take(m - 1), key)
    }
}

/// The counter named `key`, parsed from the zipped event and summary words.
pub open spec fn spec_counter(
    names: Seq<Seq<char>>,
    vals: Seq<Seq<char>>,
    key: Seq<char>,
) -> Option<u64> {
    match spec_assoc(names, vals, key) {
        None => None,
        Some(tok) => spec_parse_u64(tok),
    }
}

/// Parse the simulator's output text: the nine counters come from zipping
/// the words of the last `events: ` line with those of the last `summary: `
/// line.  The result is defined exactly when both lines exist, all nine
/// counters are present and numeric, and the snapshot is well formed.
pub open spec fn spec_parse_output(content: Seq<char>) -> Option<CachegrindStats> {
    let lines = spec_split(content, '\n');
    match (spec_last_tagged(lines, "events: "@), spec_last_tagged(lines, "summary: "@)) {
        (Some(ev), Some(su)) => {
            let names = spec_ws_tokens(ev);
            let vals = spec_ws_tokens(su);
            let ir = spec_counter(names, vals, "Ir"@);
            let i1mr = spec_counter(names, vals, "I1mr"@);
            let ilmr = spec_counter(names, vals, "ILmr"@);
            let dr = spec_counter(names, vals, "Dr"@);
            let d1mr = spec_counter(names, vals, "D1mr"@);
            let dlmr = spec_counter(names, vals, "DLmr"@);
            let dw = spec_counter(names, vals, "Dw"@);
            let d1mw = spec_counter(names, vals, "D1mw"@);
            let dlmw = spec_counter(names, vals, "DLmw"@);
            if ir is Some && i1mr is Some && ilmr is Some && dr is Some && d1mr is Some
                && dlmr is Some && dw is Some && d1mw is Some && dlmw is Some {
                let st = CachegrindStats {
                    instruction_reads: ir->0,
                    instruction_l1_misses: i1mr->0,
                    instruction_cache_misses: ilmr->0,
                    data_reads: dr->0,
                    data_l1_read_misses: d1mr->0,
                    data_cache_read_misses: dlmr->0,
                    data_writes: dw->0,
                    data_l1_write_misses: d1mw->0,
                    data_cache_write_misses: dlmw->0,
                };
                if st.wf() {
                    Some(st)
                } else {
                    None
                }
            } else {
                None
            }
        },
        _ => None,
    }
}

/// The content after the last line carrying prefix `p`, scanning forward.
fn last_tagged(lines: &Vec<Vec<char>>, p: &str) -> (r: Option<Vec<char>>)
    ensures
        match r {
            Some(rest) => Some(rest@) == spec_last_tagged(views_of(lines@), p@),
            None => spec_last_tagged(views_of(lines@), p@) is None,
        },
{
    let ghost lv = views_of(lines@);
    let n = lines.len();
    let mut found: Option<Vec<char>> = None;
    let mut j: usize = 0;
    while j < n
        invariant
            0 <= j <= n,
            n == lines@.len(),
            lv == views_of(lines@),
            match found {
                Some(rest) => Some(rest@) == spec_last_tagged(lv.take(j as int), p@),
                None => spec_last_tagged(lv.take(j as int), p@) is None,
            },
        decreases n - j,
    {
        proof {
            assert(lv.take(j + 1).last() == lv[j as int]);
            assert(lv.take(j + 1).drop_last() =~= lv.take(j as int));
        }
        match strip_prefix_chars(&lines[j], p) {
            Some(rest) => {
                found = Some(rest);
            },
            None => {},
        }
        j += 1;
    }
    proof {
        assert(lv.take(n as int) =~= lv);
    }
    found
}

/// The value word for the last occurrence of `key`.
fn assoc_last(names: &Vec<Vec<char>>, vals: &Vec<Vec<char>>, key: &str) -> (r: Option<
    Vec<char>,
>)
    ensures
        match r {
            Some(v) => Some(v@) == spec_assoc(views_of(names@), views_of(vals@), key@),
            None => spec_assoc(views_of(names@), views_of(vals@), key@) is None,
        },
{
    let ghost nv = views_of(names@);
    let ghost vv = views_of(vals@);
    let m = if names.len() <= vals.len() {
        names.len()
    } else {
        vals.len()
    };
    proof {
        if m >= 1 {
            assert(nv.take(m as int).len() == m && vv.take(m as int).len() == m);
            assert(nv.take(m as int)[m - 1] == nv[m - 1]);
            assert(vv.take(m as int)[m - 1] == vv[m - 1]);
            assert(nv.take(m as int).take(m - 1) =~= nv.take(m - 1));
            assert(vv.take(m as int).take(m - 1) =~= vv.take(m - 1));
        } else {
            assert(nv.take(0) =~= Seq::<Seq<char>>::empty());
            assert(vv.take(0) =~= Seq::<Seq<char>>::empty());
        }
    }
    let mut i = m;
    while i > 0
        invariant
            0 <= i <= m,
            m <= names@.len(),
            m <= vals@.len(),
            m == if names@.len() <= vals@.len() { names@.len() } else { vals@.len() },
            nv == views_of(names@),
            vv == views_of(vals@),
            spec_assoc(nv, vv, key@) == spec_assoc(nv.take(i as int), vv.take(i as int), key@),
        decreases i,
    {
        proof {
            let ni = nv.take(i as int);
            let vi = vv.take(i as int);
            assert(ni.len() == i && vi.len() == i);
            assert(ni[i - 1] == nv[i - 1]);
            assert(vi[i - 1] == vv[i - 1]);
            assert(ni.take(i - 1) =~= nv.take(i - 1));
            assert(vi.take(i - 1) =~= vv.take(i - 1));
        }
        i -= 1;
        if chars_eq_str(&names[i], key) {
            let v = subvec(&vals[i], 0, vals[i].len());
            proof {
                assert(v@ =~= vv[i as int]);
            }
            return Some(v);
        }
    }
    proof {
        assert(nv.take(0) =~= Seq::<Seq<char>>::empty());
        assert(vv.take(0) =~= Seq::<Seq<char>>::empty());
    }
    None
}

/// One named counter of the zipped lines; absent or non-numeric counters
/// yield `None`.
fn counter_of(names: &Vec<Vec<char>>, vals: &Vec<Vec<char>>, key: &str) -> (r: Option<u64>)
    ensures
        r == spec_counter(views_of(names@), views_of(vals@), key@),
{
    match assoc_last(names, vals, key) {
        None => None,
        Some(tok) => parse_u64(&tok),
    }
}

/// Parse the simulator's textual output into a counter snapshot.  Fails
/// with *parse output* exactly when the needed lines or counters are
/// missing, malformed, or arithmetically ill-formed (see
/// [`spec_parse_output`]).
pub fn parse_cachegrind_output(content: &str) -> (r: Result<CachegrindStats, Error>)
    ensures
        match r {
            Ok(st) => Some(st) == spec_parse_output(content@),
            Err(Error::ParseOutput) => spec_parse_output(content@) is None,
            Err(_) => false,
        },
{
    let chars = chars_of_str(content);
    let lines = split_chars(&chars, '\n');
    let ev = match last_tagged(&lines, "events: ") {
        Some(ev) => ev,
        None => {
            return Err(Error::ParseOutput);
        },
    };
    let su = match last_tagged(&lines, "summary: ") {
        Some(su) => su,
        None => {
            return Err(Error::ParseOutput);
        },
    };
    let names = ws_tokens(&ev);
    let vals = ws_tokens(&su);
    let ir = counter_of(&names, &vals, "Ir");
    let i1mr = counter_of(&names, &vals, "I1mr");
    let ilmr = counter_of(&names, &vals, "ILmr");
    let dr = counter_of(&names, &vals, "Dr");
    let d1mr = counter_of(&names, &vals, "D1mr");
    let dlmr = counter_of(&names, &vals, "DLmr");
    let dw = counter_of(&names, &vals, "Dw");
    let d1mw = counter_of(&names, &vals, "D1mw");
    let dlmw = counter_of(&names, &vals, "DLmw");
    match (ir, i1mr, ilmr, dr, d1mr, dlmr, dw, d1mw, dlmw) {
        (
            Some(ir),
            Some(i1mr),
            Some(ilmr),
            Some(dr),
            Some(d1mr),
            Some(dlmr),
            Some(dw),
            Some(d1mw),
            Some(dlmw),
        ) => {
            let st = CachegrindStats {
                instruction_reads: ir,
                instruction_l1_misses: i1mr,
                instruction_cache_misses: ilmr,
                data_reads: dr,
                data_l1_read_misses: d1mr,
                data_cache_read_misses: dlmr,
                data_writes: dw,
                data_l1_write_misses: d1mw,
                data_cache_write_misses: dlmw,
            };
            let total = ir as u128 + dr as u128 + dw as u128;
            let l1s = i1mr as u128 + d1mr as u128 + d1mw as u128;
            let rams = ilmr as u128 + dlmr as u128 + dlmw as u128;
            if total <= u64::MAX as u128 && rams <= l1s && l1s <= total {
                Ok(st)
            } else {
                Err(Error::ParseOutput)
            }
        },
        _ => Err(Error::ParseOutput),
    }
}

/// The hits of a well-formed snapshot partition its memory operations: each
/// operation hits L1, hits L3, or goes to RAM.
pub proof fn lemma_summary_partitions_accesses(stats: CachegrindStats, summary: CachegrindSummary)
    requires
        stats.wf(),
        summary.ram_hits == stats.spec_ram_accesses(),
        summary.l3_hits == stats.spec_l1_miss_sum() - stats.spec_ram_accesses(),
        summary.l1_hits == stats.spec_total_rw() - stats.spec_l1_miss_sum(),
    ensures
        summary.l1_hits + summary.l3_hits + summary.ram_hits == stats.spec_total_rw(),
{
}

} // verus!
