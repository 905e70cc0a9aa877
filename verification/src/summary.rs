use vstd::prelude::*;
use crate::defs::{CovResult, CovView, branches_view};
use crate::order::{line_numbers, sorted_keys, lemma_keys_sorted, increasing};
use crate::output::{hit_lines, branch_totals};
use crate::text::{decimal, push_decimal};
use std::collections::BTreeMap;
use vstd::string::StringExecFns;

verus! {

/// Lines covered and in all, branches taken and in all.
#[derive(Clone, Copy, Debug, PartialEq, Eq, Structural)]
pub struct SummaryStats {
    pub lines_covered: u64,
    pub lines_valid: u64,
    pub branches_covered: u64,
    pub branches_valid: u64,
}

/// The counts of one file: lines that ran, lines, branches taken, branches.
pub open spec fn file_counts(r: CovView) -> (int, int, int, int) {
    let lks = sorted_keys(r.lines.dom());
    let bks = sorted_keys(r.branches.dom());
    (hit_lines(lks, r.lines) as int, lks.len() as int, branch_totals(bks, r.branches).1 as int, branch_totals(bks, r.branches).0 as int)
}

/// The counts of the files of a report, summed.
pub open spec fn report_counts(rs: Seq<(String, String, CovResult)>) -> (int, int, int, int)
    decreases rs.len(),
{
    if rs.len() == 0 {
        (0, 0, 0, 0)
    } else {
        let t = report_counts(rs.drop_last());
        let u = file_counts(rs.last().2@);
        (t.0 + u.0, t.1 + u.1, t.2 + u.2, t.3 + u.3)
    }
}

proof fn lemma_hit_bound(ks: Seq<u32>, lines: Map<u32, u64>)
    ensures
        hit_lines(ks, lines) <= ks.len(),
    decreases ks.len(),
{
    if ks.len() > 0 {
        lemma_hit_bound(ks.drop_last(), lines);
    }
}

pub(crate) proof fn lemma_branch_bound(ks: Seq<u32>, br: Map<u32, Seq<bool>>)
    ensures
        branch_totals(ks, br).1 <= branch_totals(ks, br).0,
    decreases ks.len(),
{
    if ks.len() > 0 {
        lemma_branch_bound(ks.drop_last(), br);
        crate::cobertura::lemma_taken_bound(br[ks.last()]);
    }
}

proof fn lemma_report_grow(rs: Seq<(String, String, CovResult)>, k: int)
    requires
        0 <= k <= rs.len(),
    ensures
        0 <= report_counts(rs.subrange(0, k)).0 <= report_counts(rs).0,
        0 <= report_counts(rs.subrange(0, k)).1 <= report_counts(rs).1,
        0 <= report_counts(rs.subrange(0, k)).2 <= report_counts(rs).2,
        0 <= report_counts(rs.subrange(0, k)).3 <= report_counts(rs).3,
    decreases rs.len() - k,
{
    if k < rs.len() {
        lemma_report_grow(rs, k + 1);
        assert(rs.subrange(0, k + 1).drop_last() =~= rs.subrange(0, k));
    } else {
        assert(rs.subrange(0, k) =~= rs);
    }
    lemma_report_nonneg(rs.subrange(0, k));
}

proof fn lemma_report_nonneg(rs: Seq<(String, String, CovResult)>)
    ensures
        0 <= report_counts(rs).0 && 0 <= report_counts(rs).1 && 0 <= report_counts(rs).2 && 0 <= report_counts(rs).3,
    decreases rs.len(),
{
    if rs.len() > 0 {
        lemma_report_nonneg(rs.drop_last());
    }
}

/// The counts of one file.
fn file_stats(r: &CovResult) -> (st: Option<SummaryStats>)
    ensures
        match st {
            Some(s) => s.lines_covered == file_counts(r@).0 && s.lines_valid == file_counts(r@).1
                && s.branches_covered == file_counts(r@).2 && s.branches_valid == file_counts(r@).3,
            None => file_counts(r@).3 > u64::MAX,
        },
{
    let lks = line_numbers(&r.lines);
    let bks = line_numbers(&r.branches);
    proof {
        lemma_keys_sorted(lks@, r.lines@.dom());
        assert(branches_view(r.branches).dom() =~= r.branches@.dom());
        lemma_keys_sorted(bks@, r@.branches.dom());
        lemma_hit_bound(lks@, r.lines@);
    }
    let mut hit: u64 = 0;
    let mut k: usize = 0;
    while k < lks.len()
        invariant
            k <= lks@.len(),
            lks@.to_set() == r.lines@.dom(),
            hit == hit_lines(lks@.subrange(0, k as int), r.lines@),
            hit <= k,
        decreases lks@.len() - k,
    {
        assert(lks@.subrange(0, k + 1).drop_last() =~= lks@.subrange(0, k as int));
        let c: u64 = match r.lines.get(&lks[k]) {
            Some(c) => *c,
            None => 0,
        };
        assert(r.lines@.dom().contains(lks@[k as int])) by {
            assert(lks@.to_set().contains(lks@[k as int]));
        }
        if c > 0 {
            hit += 1;
        }
        k += 1;
    }
    assert(lks@.subrange(0, lks@.len() as int) =~= lks@);
    let ghost bv = branches_view(r.branches);
    let mut taken: u64 = 0;
    let mut total: u64 = 0;
    let mut k: usize = 0;
    while k < bks.len()
        invariant
            k <= bks@.len(),
            bks@.to_set() == r.branches@.dom(),
            sorted_keys(r@.branches.dom()) == bks@,
            bv == branches_view(r.branches),
            total == branch_totals(bks@.subrange(0, k as int), bv).0,
            taken == branch_totals(bks@.subrange(0, k as int), bv).1,
        decreases bks@.len() - k,
    {
        assert(bks@.subrange(0, k + 1).drop_last() =~= bks@.subrange(0, k as int));
        assert(r.branches@.dom().contains(bks@[k as int])) by {
            assert(bks@.to_set().contains(bks@[k as int]));
        }
        proof {
            lemma_branch_bound(bks@.subrange(0, k as int), bv);
        }
        if let Some(v) = r.branches.get(&bks[k]) {
            let t = crate::output::count_taken_exec(v);
            proof {
                crate::cobertura::lemma_taken_bound(v@);
            }
            assert(bv[bks@[k as int]] == v@);
            if total > u64::MAX - v.len() as u64 {
                proof {
                    lemma_branch_totals_grow(bks@, bv, k as int + 1);
                }
                return None;
            }
            total = total + v.len() as u64;
            taken = taken + t as u64;
        }
        k += 1;
    }
    assert(bks@.subrange(0, bks@.len() as int) =~= bks@);
    Some(SummaryStats { lines_covered: hit, lines_valid: lks.len() as u64, branches_covered: taken, branches_valid: total })
}

pub(crate) proof fn lemma_branch_totals_grow(ks: Seq<u32>, br: Map<u32, Seq<bool>>, k: int)
    requires
        0 <= k <= ks.len(),
    ensures
        branch_totals(ks.subrange(0, k), br).0 <= branch_totals(ks, br).0,
    decreases ks.len() - k,
{
    if k < ks.len() {
        lemma_branch_totals_grow(ks, br, k + 1);
        assert(ks.subrange(0, k + 1).drop_last() =~= ks.subrange(0, k));
    } else {
        assert(ks.subrange(0, k) =~= ks);
    }
}

/// The counts of a report: lines that ran, lines, branches taken, branches,
/// over all its files; `None` where a count does not fit in 64 bits.
pub fn get_coverage_stats(results: &[(String, String, CovResult)]) -> (st: Option<SummaryStats>)
    ensures
        match st {
            Some(s) => s.lines_covered == report_counts(results@).0 && s.lines_valid == report_counts(results@).1
                && s.branches_covered == report_counts(results@).2 && s.branches_valid == report_counts(results@).3,
            None => report_counts(results@).0 > u64::MAX || report_counts(results@).1 > u64::MAX
                || report_counts(results@).2 > u64::MAX || report_counts(results@).3 > u64::MAX,
        },
{
    let mut acc = SummaryStats { lines_covered: 0, lines_valid: 0, branches_covered: 0, branches_valid: 0 };
    let mut k: usize = 0;
    while k < results.len()
        invariant
            k <= results@.len(),
            acc.lines_covered == report_counts(results@.subrange(0, k as int)).0,
            acc.lines_valid == report_counts(results@.subrange(0, k as int)).1,
            acc.branches_covered == report_counts(results@.subrange(0, k as int)).2,
            acc.branches_valid == report_counts(results@.subrange(0, k as int)).3,
        decreases results@.len() - k,
    {
        assert(results@.subrange(0, k + 1).drop_last() =~= results@.subrange(0, k as int));
        proof {
            lemma_report_grow(results@, k as int + 1);
        }
        let f = match file_stats(&results[k].2) {
            Some(f) => f,
            None => { return None; }
        };
        if acc.lines_covered > u64::MAX - f.lines_covered || acc.lines_valid > u64::MAX - f.lines_valid
            || acc.branches_covered > u64::MAX - f.branches_covered || acc.branches_valid > u64::MAX - f.branches_valid {
            return None;
        }
        acc = SummaryStats {
            lines_covered: acc.lines_covered + f.lines_covered,
            lines_valid: acc.lines_valid + f.lines_valid,
            branches_covered: acc.branches_covered + f.branches_covered,
            branches_valid: acc.branches_valid + f.branches_valid,
        };
        k += 1;
    }
    assert(results@.subrange(0, results@.len() as int) =~= results@);
    Some(acc)
}


/// Whether a line can be part of a range of lines that never ran: it never
/// ran, and it is not line 0, which starts no range.
pub open spec fn in_range(lines: Map<u32, u64>, k: u32) -> bool {
    k != 0 && lines[k] == 0
}

/// The ranges of lines that never ran, over the lines `ks` in increasing
/// order: a line that never ran extends the range of the line before it
/// where that one never ran either, else starts a range of its own.
pub open spec fn missed_ranges(ks: Seq<u32>, lines: Map<u32, u64>) -> Seq<(u32, u32)>
    decreases ks.len(),
{
    if ks.len() == 0 {
        Seq::empty()
    } else {
        let prev = missed_ranges(ks.drop_last(), lines);
        let k = ks.last();
        if !in_range(lines, k) {
            prev
        } else if ks.len() > 1 && in_range(lines, ks[ks.len() - 2]) {
            prev.update(prev.len() - 1, (prev.last().0, k))
        } else {
            prev.push((k, k))
        }
    }
}

/// The number of lines of `ks` that never ran.
pub open spec fn zero_lines(ks: Seq<u32>, lines: Map<u32, u64>) -> nat
    decreases ks.len(),
{
    if ks.len() == 0 { 0 } else { zero_lines(ks.drop_last(), lines) + if lines[ks.last()] == 0 { 1nat } else { 0nat } }
}

/// A range as text: its one line, or its first and last lines joined by `-`.
pub open spec fn range_text(p: (u32, u32)) -> Seq<char> {
    if p.0 == p.1 { decimal(p.0 as nat) } else { decimal(p.0 as nat) + "-"@ + decimal(p.1 as nat) }
}

/// Ranges as text, separated by `, `.
pub open spec fn ranges_text(rs: Seq<(u32, u32)>) -> Seq<char>
    decreases rs.len(),
{
    if rs.len() == 0 {
        Seq::empty()
    } else if rs.len() == 1 {
        range_text(rs[0])
    } else {
        ranges_text(rs.drop_last()) + ", "@ + range_text(rs.last())
    }
}

/// The ranges of lines that never ran, in increasing order.
fn zero_ranges(ks: &Vec<u32>, lines: &BTreeMap<u32, u64>) -> (r: (usize, Vec<(u32, u32)>))
    requires
        ks@.to_set() == lines@.dom(),
        increasing(ks@),
    ensures
        r.0 == zero_lines(ks@, lines@),
        r.1@ == missed_ranges(ks@, lines@),
{
    let mut total: usize = 0;
    let mut ranges: Vec<(u32, u32)> = Vec::new();
    let mut start: u32 = 0;
    let mut end: u32 = 0;
    let mut k: usize = 0;
    while k < ks.len()
        invariant
            k <= ks@.len(),
            ks@.to_set() == lines@.dom(),
            increasing(ks@),
            total == zero_lines(ks@.subrange(0, k as int), lines@),
            total <= k,
            start == 0 ==> ranges@ == missed_ranges(ks@.subrange(0, k as int), lines@)
                && (k == 0 || !in_range(lines@, ks@[k - 1])),
            start != 0 ==> k > 0 && in_range(lines@, ks@[k - 1]) && end == ks@[k - 1]
                && missed_ranges(ks@.subrange(0, k as int), lines@) == ranges@.push((start, end)),
        decreases ks@.len() - k,
    {
        let line = ks[k];
        let ghost pre = ks@.subrange(0, k as int);
        let ghost cur = ks@.subrange(0, k + 1);
        assert(cur.drop_last() =~= pre);
        assert(cur.last() == line);
        assert(k > 0 ==> cur[cur.len() - 2] == ks@[k - 1]);
        assert(lines@.dom().contains(line)) by {
            assert(ks@.to_set().contains(ks@[k as int]));
        }
        let hits: u64 = match lines.get(&line) {
            Some(h) => *h,
            None => 0,
        };
        if hits == 0 {
            total += 1;
            if start == 0 {
                start = line;
            } else {
                assert(ks@[k - 1] < ks@[k as int]);
                assert(ranges@.push((start, end)).update(ranges@.len() as int, (start, line)) =~= ranges@.push((start, line)));
            }
            end = line;
        } else if start != 0 {
            ranges.push((start, end));
            start = 0;
        }
        k += 1;
    }
    assert(ks@.subrange(0, ks@.len() as int) =~= ks@);
    if start != 0 {
        ranges.push((start, end));
    }
    (total, ranges)
}

/// The number of lines of a file that never ran, and the ranges of those
/// lines as text (line 0 is counted but starts no range).
pub fn missed_lines(lines: &BTreeMap<u32, u64>) -> (r: (usize, String))
    ensures
        r.0 == zero_lines(sorted_keys(lines@.dom()), lines@),
        r.1@ == ranges_text(missed_ranges(sorted_keys(lines@.dom()), lines@)),
{
    let ks = line_numbers(lines);
    proof {
        lemma_keys_sorted(ks@, lines@.dom());
    }
    let (total, ranges) = zero_ranges(&ks, lines);
    let mut s = String::new();
    let mut i: usize = 0;
    while i < ranges.len()
        invariant
            i <= ranges@.len(),
            s@ == ranges_text(ranges@.subrange(0, i as int)),
        decreases ranges@.len() - i,
    {
        let ghost cur = ranges@.subrange(0, i + 1);
        assert(cur.drop_last() =~= ranges@.subrange(0, i as int));
        if i > 0 {
            s.append(", ");
        }
        let (a, b) = ranges[i];
        push_decimal(&mut s, a as u64);
        if a != b {
            s.append("-");
            push_decimal(&mut s, b as u64);
        }
        i += 1;
    }
    assert(ranges@.subrange(0, ranges@.len() as int) =~= ranges@);
    (total, s)
}

}
