use vstd::prelude::*;
use vstd::string::StringExecFns;
use std::collections::BTreeMap;
use crate::defs::{branches_view, CovResult, CovView, Function, function_map_entries, function_map_contents, entry_names};
use crate::cobertura::{shown_name, show_name, numbers_of, next_start, starts_of, numbers_between, next_start_exec};
use crate::order::line_numbers;
use crate::text::{decimal, push_decimal, push_char};
use md5::Digest;

verus! {

/// The `FN` records of the functions `es`.
pub open spec fn fn_records(es: Seq<(String, Function)>, demangle: bool) -> Seq<char>
    decreases es.len(),
{
    if es.len() == 0 {
        Seq::empty()
    } else {
        let (name, f) = es.last();
        fn_records(es.drop_last(), demangle) + "FN:"@ + decimal(f.start as nat) + ","@ + shown_name(name@, demangle) + "\n"@
    }
}

/// The `FNDA` records of the functions `es`.
pub open spec fn fnda_records(es: Seq<(String, Function)>, demangle: bool) -> Seq<char>
    decreases es.len(),
{
    if es.len() == 0 {
        Seq::empty()
    } else {
        let (name, f) = es.last();
        fnda_records(es.drop_last(), demangle) + "FNDA:"@ + (if f.executed { "1"@ } else { "0"@ }) + ","@ + shown_name(name@, demangle) + "\n"@
    }
}

/// The number of functions of `es` that ran.
pub open spec fn executed_count(es: Seq<(String, Function)>) -> nat
    decreases es.len(),
{
    if es.len() == 0 { 0 } else { executed_count(es.drop_last()) + if es.last().1.executed { 1nat } else { 0nat } }
}

/// The `BRDA` records of the branches `taken` of a line, from the first.
pub open spec fn brda_records(line: u32, taken: Seq<bool>) -> Seq<char>
    decreases taken.len(),
{
    if taken.len() == 0 {
        Seq::empty()
    } else {
        brda_records(line, taken.drop_last()) + "BRDA:"@ + decimal(line as nat) + ",0,"@ + decimal((taken.len() - 1) as nat)
            + ","@ + (if taken.last() { "1"@ } else { "-"@ }) + "\n"@
    }
}

/// The `BRDA` records of the lines `ks` of a file.
pub open spec fn branch_records(ks: Seq<u32>, br: Map<u32, Seq<bool>>) -> Seq<char>
    decreases ks.len(),
{
    if ks.len() == 0 { Seq::empty() } else { branch_records(ks.drop_last(), br) + brda_records(ks.last(), br[ks.last()]) }
}

/// The number of branches of the lines `ks`, and the number taken.
pub open spec fn branch_totals(ks: Seq<u32>, br: Map<u32, Seq<bool>>) -> (nat, nat)
    decreases ks.len(),
{
    if ks.len() == 0 {
        (0, 0)
    } else {
        let t = branch_totals(ks.drop_last(), br);
        (t.0 + br[ks.last()].len(), t.1 + crate::cobertura::taken_count(br[ks.last()]) as nat)
    }
}

/// The `DA` records of the lines `ks` of a file.
pub open spec fn da_records(ks: Seq<u32>, lines: Map<u32, u64>) -> Seq<char>
    decreases ks.len(),
{
    if ks.len() == 0 { Seq::empty() } else { da_records(ks.drop_last(), lines) + "DA:"@ + decimal(ks.last() as nat) + ","@ + decimal(lines[ks.last()] as nat) + "\n"@ }
}

/// The number of lines of `ks` that ran.
pub open spec fn hit_lines(ks: Seq<u32>, lines: Map<u32, u64>) -> nat
    decreases ks.len(),
{
    if ks.len() == 0 { 0 } else { hit_lines(ks.drop_last(), lines) + if lines[ks.last()] > 0 { 1nat } else { 0nat } }
}

/// The lcov record of a file, given its functions in the order they are
/// walked and its branch lines and lines in increasing order.
pub open spec fn lcov_record(rel_path: Seq<char>, r: CovView, es: Seq<(String, Function)>, bks: Seq<u32>, lks: Seq<u32>, demangle: bool) -> Seq<char> {
    "SF:"@ + rel_path + "\n"@
        + fn_records(es, demangle) + fnda_records(es, demangle)
        + (if es.len() > 0 { "FNF:"@ + decimal(es.len()) + "\n"@ + "FNH:"@ + decimal(executed_count(es)) + "\n"@ } else { Seq::empty() })
        + branch_records(bks, r.branches)
        + "BRF:"@ + decimal(branch_totals(bks, r.branches).0) + "\n"@
        + "BRH:"@ + decimal(branch_totals(bks, r.branches).1) + "\n"@
        + da_records(lks, r.lines)
        + "LF:"@ + decimal(lks.len()) + "\n"@
        + "LH:"@ + decimal(hit_lines(lks, r.lines)) + "\n"@
        + "end_of_record\n"@
}

/// Appends the `FN` and `FNDA` records of the functions `es`, and their
/// counts if there are any.
fn push_function_records(s: &mut String, es: &Vec<(String, Function)>, demangle: bool)
    ensures
        final(s)@ == old(s)@ + fn_records(es@, demangle) + fnda_records(es@, demangle)
            + (if es@.len() > 0 { "FNF:"@ + decimal(es@.len()) + "\n"@ + "FNH:"@ + decimal(executed_count(es@)) + "\n"@ } else { Seq::empty() }),
{
    let ghost s0 = s@;
    let mut k: usize = 0;
    while k < es.len()
        invariant
            k <= es@.len(),
            s@ == s0 + fn_records(es@.subrange(0, k as int), demangle),
        decreases es@.len() - k,
    {
        assert(es@.subrange(0, k + 1).drop_last() =~= es@.subrange(0, k as int));
        s.append("FN:");
        push_decimal(s, es[k].1.start as u64);
        s.append(",");
        let name = show_name(es[k].0.as_str(), demangle);
        s.append(name.as_str());
        s.append("\n");
        k += 1;
    }
    assert(es@.subrange(0, es@.len() as int) =~= es@);
    let ghost s1 = s@;
    let mut hit: usize = 0;
    let mut k: usize = 0;
    while k < es.len()
        invariant
            k <= es@.len(),
            s@ == s1 + fnda_records(es@.subrange(0, k as int), demangle),
            hit == executed_count(es@.subrange(0, k as int)),
            hit <= k,
        decreases es@.len() - k,
    {
        assert(es@.subrange(0, k + 1).drop_last() =~= es@.subrange(0, k as int));
        s.append("FNDA:");
        if es[k].1.executed {
            s.append("1");
            hit += 1;
        } else {
            s.append("0");
        }
        s.append(",");
        let name = show_name(es[k].0.as_str(), demangle);
        s.append(name.as_str());
        s.append("\n");
        k += 1;
    }
    assert(es@.subrange(0, es@.len() as int) =~= es@);
    if es.len() > 0 {
        s.append("FNF:");
        push_decimal(s, es.len() as u64);
        s.append("\n");
        s.append("FNH:");
        push_decimal(s, hit as u64);
        s.append("\n");
    }
}

/// Appends the `BRDA` records of the branches of a line; returns how many
/// were taken.
fn push_line_branches(s: &mut String, line: u32, taken: &Vec<bool>) -> (hit: usize)
    ensures
        final(s)@ == old(s)@ + brda_records(line, taken@),
        hit == crate::cobertura::taken_count(taken@),
{
    let ghost s0 = s@;
    let mut hit: usize = 0;
    let mut n: usize = 0;
    while n < taken.len()
        invariant
            n <= taken@.len(),
            s@ == s0 + brda_records(line, taken@.subrange(0, n as int)),
            hit == crate::cobertura::taken_count(taken@.subrange(0, n as int)),
            hit <= n,
        decreases taken@.len() - n,
    {
        assert(taken@.subrange(0, n + 1).drop_last() =~= taken@.subrange(0, n as int));
        s.append("BRDA:");
        push_decimal(s, line as u64);
        s.append(",0,");
        push_decimal(s, n as u64);
        s.append(",");
        if taken[n] {
            s.append("1");
            hit += 1;
        } else {
            s.append("-");
        }
        s.append("\n");
        n += 1;
    }
    assert(taken@.subrange(0, taken@.len() as int) =~= taken@);
    hit
}

/// Appends the `BRDA` records of the lines `ks`; returns the number of
/// branches and the number taken, or `None` where a count does not fit in 64
/// bits.
fn push_branch_records(s: &mut String, ks: &Vec<u32>, br: &BTreeMap<u32, Vec<bool>>) -> (r: Option<(u64, u64)>)
    requires
        ks@.to_set() == br@.dom(),
    ensures
        match r {
            Some((c, h)) => final(s)@ == old(s)@ + branch_records(ks@, branches_view(*br))
                && c == branch_totals(ks@, branches_view(*br)).0
                && h == branch_totals(ks@, branches_view(*br)).1,
            None => branch_totals(ks@, branches_view(*br)).0 > u64::MAX,
        },
{
    let ghost s0 = s@;
    let ghost bv = branches_view(*br);
    let mut count: u64 = 0;
    let mut hit: u64 = 0;
    let mut k: usize = 0;
    while k < ks.len()
        invariant
            k <= ks@.len(),
            ks@.to_set() == br@.dom(),
            bv == branches_view(*br),
            s@ == s0 + branch_records(ks@.subrange(0, k as int), bv),
            count == branch_totals(ks@.subrange(0, k as int), bv).0,
            hit == branch_totals(ks@.subrange(0, k as int), bv).1,
            hit <= count,
        decreases ks@.len() - k,
    {
        let line = ks[k];
        assert(ks@.subrange(0, k + 1).drop_last() =~= ks@.subrange(0, k as int));
        assert(br@.dom().contains(line)) by {
            assert(ks@.to_set().contains(ks@[k as int]));
        }
        let taken = match br.get(&line) {
            Some(t) => t,
            None => { return None; }
        };
        proof {
            crate::cobertura::lemma_taken_bound(taken@);
        }
        if count > u64::MAX - taken.len() as u64 {
            proof {
                lemma_branch_totals_grow(ks@, bv, k as int + 1);
            }
            return None;
        }
        let h = push_line_branches(s, line, taken);
        count = count + taken.len() as u64;
        hit = hit + h as u64;
        k += 1;
    }
    assert(ks@.subrange(0, ks@.len() as int) =~= ks@);
    Some((count, hit))
}

proof fn lemma_branch_totals_grow(ks: Seq<u32>, br: Map<u32, Seq<bool>>, k: int)
    requires
        0 <= k <= ks.len(),
    ensures
        branch_totals(ks.subrange(0, k), br).0 <= branch_totals(ks, br).0,
    decreases ks.len() - k,
{
    if k < ks.len() {
        lemma_branch_totals_grow(ks, br, k + 1);
        assert(ks.subrange(0, k + 1).drop_last() =~= ks.subrange(0, k));
    } else {
        assert(ks.subrange(0, k) =~= ks);
    }
}

/// Appends the `DA` records of the lines `ks`; returns how many ran.
fn push_line_records(s: &mut String, ks: &Vec<u32>, lines: &BTreeMap<u32, u64>) -> (hit: usize)
    requires
        ks@.to_set() == lines@.dom(),
    ensures
        final(s)@ == old(s)@ + da_records(ks@, lines@),
        hit == hit_lines(ks@, lines@),
{
    let ghost s0 = s@;
    let mut hit: usize = 0;
    let mut k: usize = 0;
    while k < ks.len()
        invariant
            k <= ks@.len(),
            ks@.to_set() == lines@.dom(),
            s@ == s0 + da_records(ks@.subrange(0, k as int), lines@),
            hit == hit_lines(ks@.subrange(0, k as int), lines@),
            hit <= k,
        decreases ks@.len() - k,
    {
        let line = ks[k];
        assert(ks@.subrange(0, k + 1).drop_last() =~= ks@.subrange(0, k as int));
        assert(lines@.dom().contains(line)) by {
            assert(ks@.to_set().contains(ks@[k as int]));
        }
        let c: u64 = match lines.get(&line) {
            Some(c) => *c,
            None => 0,
        };
        s.append("DA:");
        push_decimal(s, line as u64);
        s.append(",");
        push_decimal(s, c);
        s.append("\n");
        if c > 0 {
            hit += 1;
        }
        k += 1;
    }
    assert(ks@.subrange(0, ks@.len() as int) =~= ks@);
    hit
}

/// Whether `es` walks the functions of a file: each once, with its data.
pub open spec fn walks_functions(es: Seq<(String, Function)>, fns: Map<Seq<char>, Function>) -> bool {
    &&& entry_names(es).no_duplicates()
    &&& entry_names(es).to_set() == fns.dom()
    &&& forall|i: int| 0 <= i < es.len() ==> fns[#[trigger] es[i].0@] == es[i].1
}

/// The lcov record of a file: its name, its functions (in the order the map
/// walks them) and their counts, its branches and lines in increasing order
/// and their counts. `None` where the number of branches does not fit in 64
/// bits.
pub fn lcov_record_text(rel_path: &str, r: &CovResult, demangle: bool) -> (out: Option<String>)
    ensures
        match out {
            Some(t) => exists|es: Seq<(String, Function)>, bks: Seq<u32>, lks: Seq<u32>|
                #[trigger] walks_functions(es, r@.functions) && #[trigger] numbers_of(lks, r@)
                && (forall|i: int, j: int| 0 <= i < j < bks.len() ==> bks[i] < bks[j]) && #[trigger] bks.to_set() == r@.branches.dom()
                && t@ == lcov_record(rel_path@, r@, es, bks, lks, demangle),
            None => exists|bks: Seq<u32>|
                (forall|i: int, j: int| 0 <= i < j < bks.len() ==> bks[i] < bks[j]) && #[trigger] bks.to_set() == r@.branches.dom()
                && branch_totals(bks, r@.branches).0 > u64::MAX,
        },
{
    let mut s = "SF:".to_owned();
    s.append(rel_path);
    s.append("\n");
    let es = function_map_entries(&r.functions);
    push_function_records(&mut s, &es, demangle);
    let bks = line_numbers(&r.branches);
    assert(branches_view(r.branches).dom() =~= r.branches@.dom());
    let (count, hit) = match push_branch_records(&mut s, &bks, &r.branches) {
        Some(x) => x,
        None => {
            assert(bks@.to_set() == r@.branches.dom());
            return None;
        }
    };
    s.append("BRF:");
    push_decimal(&mut s, count);
    s.append("\n");
    s.append("BRH:");
    push_decimal(&mut s, hit);
    s.append("\n");
    let lks = line_numbers(&r.lines);
    let lh = push_line_records(&mut s, &lks, &r.lines);
    s.append("LF:");
    push_decimal(&mut s, lks.len() as u64);
    s.append("\n");
    s.append("LH:");
    push_decimal(&mut s, lh as u64);
    s.append("\n");
    s.append("end_of_record\n");
    assert(walks_functions(es@, r@.functions));
    assert(numbers_of(lks@, r@));
    Some(s)
}

/// The execution count of each line from 1 up to the last line of a file,
/// `None` for a line with no count.
pub fn coveralls_coverage(r: &CovResult) -> (v: Vec<Option<u64>>)
    requires
        !r.lines@.contains_key(u32::MAX),
    ensures
        forall|n: u32| #[trigger] r@.lines.contains_key(n) ==> n <= v@.len(),
        forall|i: int| 0 <= i < v@.len() ==> #[trigger] v@[i] == (if r@.lines.contains_key((i + 1) as u32) {
            Some(r@.lines[(i + 1) as u32])
        } else {
            None::<u64>
        }),
        v@.len() == 0 || r@.lines.contains_key(v@.len() as u32),
{
    let ks = line_numbers(&r.lines);
    let end: u32 = if ks.len() == 0 {
        1
    } else {
        assert(r.lines@.dom().contains(ks@.last())) by {
            assert(ks@.to_set().contains(ks@.last()));
        }
        ks[ks.len() - 1] + 1
    };
    proof {
        assert forall|n: u32| #[trigger] r@.lines.contains_key(n) implies n < end by {
            assert(ks@.to_set().contains(n));
            let j = choose|j: int| 0 <= j < ks@.len() && ks@[j] == n;
            if j < ks@.len() - 1 {
                assert(ks@[j] < ks@[ks@.len() - 1]);
            }
        }
    }
    let mut v: Vec<Option<u64>> = Vec::new();
    let mut line: u32 = 1;
    while line < end
        invariant
            1 <= line,
            line <= end || end == 0,
            v@.len() == line - 1,
            forall|i: int| 0 <= i < v@.len() ==> #[trigger] v@[i] == (if r@.lines.contains_key((i + 1) as u32) {
                Some(r@.lines[(i + 1) as u32])
            } else {
                None::<u64>
            }),
        decreases end - line,
    {
        match r.lines.get(&line) {
            Some(c) => v.push(Some(*c)),
            None => v.push(None),
        }
        line += 1;
    }
    proof {
        assert forall|n: u32| #[trigger] r@.lines.contains_key(n) implies n <= v@.len() by {
            assert(n < end);
        }
        if ks@.len() > 0 {
            assert(v@.len() as u32 == ks@.last());
        }
    }
    v
}

/// The entries of the branches of a line, from the first: its number, 0,
/// the branch's index and 1 if it was taken, 0 if not.
pub open spec fn branch_entries(line: u32, taken: Seq<bool>) -> Seq<u32>
    decreases taken.len(),
{
    if taken.len() == 0 {
        Seq::empty()
    } else {
        branch_entries(line, taken.drop_last()) + seq![line, 0u32, ((taken.len() - 1) as usize) as u32, if taken.last() { 1u32 } else { 0u32 }]
    }
}

/// The entries of the branches of the lines `ks`.
pub open spec fn all_branch_entries(ks: Seq<u32>, br: Map<u32, Seq<bool>>) -> Seq<u32>
    decreases ks.len(),
{
    if ks.len() == 0 { Seq::empty() } else { all_branch_entries(ks.drop_last(), br) + branch_entries(ks.last(), br[ks.last()]) }
}

/// The branches of a file as Coveralls lists them: four numbers for each
/// branch, line after line in increasing order.
pub fn coveralls_branches(r: &CovResult) -> (v: Vec<u32>)
    ensures
        exists|ks: Seq<u32>| (forall|i: int, j: int| 0 <= i < j < ks.len() ==> ks[i] < ks[j])
            && #[trigger] ks.to_set() == r@.branches.dom() && v@ == all_branch_entries(ks, r@.branches),
{
    let ks = line_numbers(&r.branches);
    let ghost bv = branches_view(r.branches);
    assert(bv.dom() =~= r.branches@.dom());
    let mut v: Vec<u32> = Vec::new();
    let mut k: usize = 0;
    while k < ks.len()
        invariant
            k <= ks@.len(),
            ks@.to_set() == r.branches@.dom(),
            bv == branches_view(r.branches),
            v@ == all_branch_entries(ks@.subrange(0, k as int), bv),
        decreases ks@.len() - k,
    {
        let line = ks[k];
        assert(ks@.subrange(0, k + 1).drop_last() =~= ks@.subrange(0, k as int));
        assert(r.branches@.dom().contains(line)) by {
            assert(ks@.to_set().contains(ks@[k as int]));
        }
        if let Some(taken) = r.branches.get(&line) {
            let ghost v0 = v@;
            let mut n: usize = 0;
            while n < taken.len()
                invariant
                    n <= taken@.len(),
                    v@ == v0 + branch_entries(line, taken@.subrange(0, n as int)),
                decreases taken@.len() - n,
            {
                assert(taken@.subrange(0, n + 1).drop_last() =~= taken@.subrange(0, n as int));
                let ghost before = v@;
                v.push(line);
                v.push(0);
                #[verifier::truncate]
                let idx: u32 = n as u32;
                v.push(idx);
                v.push(if taken[n] { 1 } else { 0 });
                assert(v@ =~= before + seq![line, 0u32, idx, if taken@[n as int] { 1u32 } else { 0u32 }]);
                n += 1;
            }
            assert(taken@.subrange(0, taken@.len() as int) =~= taken@);
        }
        k += 1;
    }
    assert(ks@.subrange(0, ks@.len() as int) =~= ks@);
    v
}

/// The lines of `ks` that ran (`ran`) or that did not.
pub open spec fn lines_where(ks: Seq<u32>, lines: Map<u32, u64>, ran: bool) -> Seq<u32>
    decreases ks.len(),
{
    if ks.len() == 0 {
        Seq::empty()
    } else {
        let rest = lines_where(ks.drop_last(), lines, ran);
        if (lines[ks.last()] > 0) == ran { rest.push(ks.last()) } else { rest }
    }
}

/// Where the function `f` of a file ends: at the next function's start, or
/// past the last line.
pub open spec fn function_end(es: Seq<(String, Function)>, f: Function, end: int) -> int {
    match next_start(starts_of(es), f.start) {
        Some(t) => t as int,
        None => end,
    }
}

/// Whether line `n` lies in the range of some function of `es`.
pub open spec fn in_a_function(n: u32, es: Seq<(String, Function)>, end: int) -> bool {
    exists|i: int| 0 <= i < es.len() && es[i].1.start <= n && n < #[trigger] function_end(es, es[i].1, end)
}

/// The lines of `s` outside every function.
pub open spec fn orphans(s: Seq<u32>, es: Seq<(String, Function)>, end: int) -> Seq<u32>
    decreases s.len(),
{
    if s.len() == 0 {
        Seq::empty()
    } else {
        let rest = orphans(s.drop_last(), es, end);
        if in_a_function(s.last(), es, end) { rest } else { rest.push(s.last()) }
    }
}

/// The lines of a function that ran and did not.
pub struct ActiveMethod {
    pub name: String,
    pub covered: Vec<u32>,
    pub uncovered: Vec<u32>,
}

/// The lines of a file that ran and did not, those of each function, and
/// those outside every function.
pub struct ActiveFile {
    pub covered: Vec<u32>,
    pub uncovered: Vec<u32>,
    pub methods: Vec<ActiveMethod>,
    pub orphan_covered: Vec<u32>,
    pub orphan_uncovered: Vec<u32>,
}

/// The lines of `ks` that ran, or that did not.
fn lines_where_exec(ks: &Vec<u32>, lines: &BTreeMap<u32, u64>, ran: bool) -> (v: Vec<u32>)
    requires
        ks@.to_set() == lines@.dom(),
    ensures
        v@ == lines_where(ks@, lines@, ran),
{
    let mut v: Vec<u32> = Vec::new();
    let mut k: usize = 0;
    while k < ks.len()
        invariant
            k <= ks@.len(),
            ks@.to_set() == lines@.dom(),
            v@ == lines_where(ks@.subrange(0, k as int), lines@, ran),
        decreases ks@.len() - k,
    {
        let line = ks[k];
        assert(ks@.subrange(0, k + 1).drop_last() =~= ks@.subrange(0, k as int));
        assert(lines@.dom().contains(line)) by {
            assert(ks@.to_set().contains(ks@[k as int]));
        }
        let c: u64 = match lines.get(&line) {
            Some(c) => *c,
            None => 0,
        };
        if (c > 0) == ran {
            v.push(line);
        }
        k += 1;
    }
    assert(ks@.subrange(0, ks@.len() as int) =~= ks@);
    v
}

/// The numbers of `s` from `lo` up to before `hi`.
fn between_exec(s: &Vec<u32>, lo: u32, hi: u64) -> (v: Vec<u32>)
    ensures
        v@ == numbers_between(s@, lo, hi as int),
{
    let mut v: Vec<u32> = Vec::new();
    let mut k: usize = 0;
    while k < s.len()
        invariant
            k <= s@.len(),
            v@ == numbers_between(s@.subrange(0, k as int), lo, hi as int),
        decreases s@.len() - k,
    {
        assert(s@.subrange(0, k + 1).drop_last() =~= s@.subrange(0, k as int));
        if lo <= s[k] && (s[k] as u64) < hi {
            v.push(s[k]);
        }
        k += 1;
    }
    assert(s@.subrange(0, s@.len() as int) =~= s@);
    v
}

/// Where each function ends.
fn function_ends(es: &Vec<(String, Function)>, end: u64) -> (v: Vec<u64>)
    ensures
        v@.len() == es@.len(),
        forall|i: int| 0 <= i < es@.len() ==> #[trigger] v@[i] == function_end(es@, es@[i].1, end as int),
{
    let mut v: Vec<u64> = Vec::new();
    let mut k: usize = 0;
    while k < es.len()
        invariant
            k <= es@.len(),
            v@.len() == k,
            forall|i: int| 0 <= i < k ==> #[trigger] v@[i] == function_end(es@, es@[i].1, end as int),
        decreases es@.len() - k,
    {
        let e = match next_start_exec(es, es[k].1.start) {
            Some(t) => t as u64,
            None => end,
        };
        v.push(e);
        k += 1;
    }
    v
}

/// The lines of `s` outside every function.
fn orphans_exec(s: &Vec<u32>, es: &Vec<(String, Function)>, ends: &Vec<u64>, end: u64) -> (v: Vec<u32>)
    requires
        ends@.len() == es@.len(),
        forall|i: int| 0 <= i < es@.len() ==> #[trigger] ends@[i] == function_end(es@, es@[i].1, end as int),
    ensures
        v@ == orphans(s@, es@, end as int),
{
    let mut v: Vec<u32> = Vec::new();
    let mut k: usize = 0;
    while k < s.len()
        invariant
            k <= s@.len(),
            ends@.len() == es@.len(),
            forall|i: int| 0 <= i < es@.len() ==> #[trigger] ends@[i] == function_end(es@, es@[i].1, end as int),
            v@ == orphans(s@.subrange(0, k as int), es@, end as int),
        decreases s@.len() - k,
    {
        assert(s@.subrange(0, k + 1).drop_last() =~= s@.subrange(0, k as int));
        let n = s[k];
        let mut inside = false;
        let mut j: usize = 0;
        while j < es.len()
            invariant
                j <= es@.len(),
                ends@.len() == es@.len(),
                forall|i: int| 0 <= i < es@.len() ==> #[trigger] ends@[i] == function_end(es@, es@[i].1, end as int),
                inside == exists|i: int| 0 <= i < j && es@[i].1.start <= n && n < #[trigger] function_end(es@, es@[i].1, end as int),
            decreases es@.len() - j,
        {
            if es[j].1.start <= n && (n as u64) < ends[j] {
                inside = true;
            }
            assert(ends@[j as int] == function_end(es@, es@[j as int].1, end as int));
            j += 1;
        }
        if !inside {
            v.push(n);
        }
        k += 1;
    }
    assert(s@.subrange(0, s@.len() as int) =~= s@);
    v
}

/// The lines of a file as the ActiveData report lists them: the lines that
/// ran and did not, those of each function (in the order the map walks
/// them) within its range, and those outside every function.
pub fn activedata_file(r: &CovResult, demangle: bool) -> (a: ActiveFile)
    requires
        !r.lines@.contains_key(u32::MAX),
    ensures
        exists|ks: Seq<u32>, es: Seq<(String, Function)>| {
            &&& #[trigger] numbers_of(ks, r@)
            &&& #[trigger] walks_functions(es, r@.functions)
            &&& a.covered@ == lines_where(ks, r@.lines, true)
            &&& a.uncovered@ == lines_where(ks, r@.lines, false)
            &&& a.methods@.len() == es.len()
            &&& (forall|i: int| 0 <= i < es.len() ==> {
                let m = #[trigger] a.methods@[i];
                let fend = function_end(es, es[i].1, if ks.len() == 0 { 1 } else { ks.last() + 1 });
                &&& m.name@ == shown_name(es[i].0@, demangle)
                &&& m.covered@ == numbers_between(lines_where(ks, r@.lines, true), es[i].1.start, fend)
                &&& m.uncovered@ == numbers_between(lines_where(ks, r@.lines, false), es[i].1.start, fend)
            })
            &&& a.orphan_covered@ == orphans(lines_where(ks, r@.lines, true), es, if ks.len() == 0 { 1 } else { ks.last() + 1 })
            &&& a.orphan_uncovered@ == orphans(lines_where(ks, r@.lines, false), es, if ks.len() == 0 { 1 } else { ks.last() + 1 })
        },
{
    let ks = line_numbers(&r.lines);
    let end: u64 = if ks.len() == 0 { 1 } else { ks[ks.len() - 1] as u64 + 1 };
    let covered = lines_where_exec(&ks, &r.lines, true);
    let uncovered = lines_where_exec(&ks, &r.lines, false);
    let es = function_map_entries(&r.functions);
    let ends = function_ends(&es, end);
    let mut methods: Vec<ActiveMethod> = Vec::new();
    let mut k: usize = 0;
    while k < es.len()
        invariant
            k <= es@.len(),
            methods@.len() == k,
            ends@.len() == es@.len(),
            forall|i: int| 0 <= i < es@.len() ==> #[trigger] ends@[i] == function_end(es@, es@[i].1, end as int),
            forall|i: int| 0 <= i < k ==> {
                let m = #[trigger] methods@[i];
                &&& m.name@ == shown_name(es@[i].0@, demangle)
                &&& m.covered@ == numbers_between(covered@, es@[i].1.start, function_end(es@, es@[i].1, end as int))
                &&& m.uncovered@ == numbers_between(uncovered@, es@[i].1.start, function_end(es@, es@[i].1, end as int))
            },
        decreases es@.len() - k,
    {
        let start = es[k].1.start;
        let fend = ends[k];
        let m = ActiveMethod {
            name: show_name(es[k].0.as_str(), demangle),
            covered: between_exec(&covered, start, fend),
            uncovered: between_exec(&uncovered, start, fend),
        };
        methods.push(m);
        k += 1;
    }
    let orphan_covered = orphans_exec(&covered, &es, &ends, end);
    let orphan_uncovered = orphans_exec(&uncovered, &es, &ends, end);
    assert(numbers_of(ks@, r@));
    assert(walks_functions(es@, r@.functions));
    ActiveFile { covered, uncovered, methods, orphan_covered, orphan_uncovered }
}

/// The number of taken branches of a line.
pub fn count_taken_exec(taken: &Vec<bool>) -> (n: usize)
    ensures
        n == crate::cobertura::taken_count(taken@),
{
    let mut n: usize = 0;
    let mut k: usize = 0;
    while k < taken.len()
        invariant
            k <= taken@.len(),
            n == crate::cobertura::taken_count(taken@.subrange(0, k as int)),
            n <= k,
        decreases taken@.len() - k,
    {
        assert(taken@.subrange(0, k + 1).drop_last() =~= taken@.subrange(0, k as int));
        if taken[k] {
            n += 1;
        }
        k += 1;
    }
    assert(taken@.subrange(0, taken@.len() as int) =~= taken@);
    n
}

/// In an lcov record, the functions hit are among the functions, the lines
/// hit among the lines and the branches hit among the branches.
pub proof fn law_lcov_hits_within_totals(es: Seq<(String, Function)>, ks: Seq<u32>, lines: Map<u32, u64>, bks: Seq<u32>, br: Map<u32, Seq<bool>>)
    ensures
        executed_count(es) <= es.len(),
        hit_lines(ks, lines) <= ks.len(),
        branch_totals(bks, br).1 <= branch_totals(bks, br).0,
    decreases es.len() + ks.len() + bks.len(),
{
    if es.len() > 0 {
        law_lcov_hits_within_totals(es.drop_last(), ks, lines, bks, br);
    } else if ks.len() > 0 {
        law_lcov_hits_within_totals(es, ks.drop_last(), lines, bks, br);
    } else if bks.len() > 0 {
        law_lcov_hits_within_totals(es, ks, lines, bks.drop_last(), br);
        crate::cobertura::lemma_taken_bound(br[bks.last()]);
    }
}


/// The MD5 digest of a sequence of bytes, as `md5::Md5` computes it.
pub uninterp spec fn md5_digest(bytes: Seq<u8>) -> Seq<u8>;

/// Calls `Md5::digest` (crate `md-5`): the 16 bytes of the MD5 digest.
#[verifier::external_body]
fn md5_of(bytes: &[u8]) -> (d: Vec<u8>)
    ensures
        d@ == md5_digest(bytes@),
        d@.len() == 16,
{
    md5::Md5::digest(bytes).to_vec()
}

/// The lower-case hexadecimal digit of a number below 16.
pub open spec fn hex_char(n: u8) -> char {
    if n < 10 { (48 + n) as char } else { (87 + n) as char }
}

/// Bytes in lower-case hexadecimal, two digits each, high digit first.
pub open spec fn lower_hex(bs: Seq<u8>) -> Seq<char>
    decreases bs.len(),
{
    if bs.len() == 0 {
        Seq::empty()
    } else {
        lower_hex(bs.drop_last()).push(hex_char(bs.last() / 16)).push(hex_char(bs.last() % 16))
    }
}

/// The digit of a number below 16 (see [`hex_char`]).
fn hex_digit(n: u8) -> (c: char)
    requires
        n < 16,
    ensures
        c == hex_char(n),
{
    if n < 10 { (48 + n) as char } else { (87 + n) as char }
}

/// The digest of a source file's bytes that a Coveralls report carries: its
/// MD5 digest in lower-case hexadecimal.
pub fn source_digest(bytes: &[u8]) -> (s: String)
    ensures
        s@ == lower_hex(md5_digest(bytes@)),
{
    let d = md5_of(bytes);
    let mut s = String::new();
    let mut k: usize = 0;
    while k < d.len()
        invariant
            k <= d@.len(),
            s@ == lower_hex(d@.subrange(0, k as int)),
        decreases d@.len() - k,
    {
        assert(d@.subrange(0, k + 1).drop_last() =~= d@.subrange(0, k as int));
        let b = d[k];
        push_char(&mut s, hex_digit(b / 16));
        push_char(&mut s, hex_digit(b % 16));
        k += 1;
    }
    assert(d@.subrange(0, d@.len() as int) =~= d@);
    s
}

/// The optional keys of a coveralls report, in the order they are added,
/// each with its value where one is given.
pub open spec fn coveralls_keys(repo_token: Option<Seq<char>>, service_name: Option<Seq<char>>,
    flag_name: Option<Seq<char>>, job_id: Option<Seq<char>>) -> Seq<(Seq<char>, Seq<char>)> {
    let one = |k: Seq<char>, v: Option<Seq<char>>| match v { Some(x) => seq![(k, x)], None => Seq::empty() };
    one("repo_token"@, repo_token) + one("service_name"@, service_name) + one("flag_name"@, flag_name)
        + one("service_job_id"@, job_id)
}

/// A text that may be missing, as a spec value.
pub open spec fn opt_text(o: Option<&str>) -> Option<Seq<char>> {
    match o { Some(x) => Some(x@), None => None }
}

/// Appends the key `k` with the value `v` where there is one.
fn push_key(out: &mut Vec<(String, String)>, k: &str, v: Option<&str>)
    ensures
        pairs_view(final(out)@) == pairs_view(old(out)@) + match opt_text(v) { Some(x) => seq![(k@, x)], None => Seq::empty() },
{
    match v {
        Some(x) => {
            let ghost before = pairs_view(out@);
            out.push((k.to_string(), x.to_string()));
            assert(pairs_view(out@) =~= before + seq![(k@, x@)]);
        },
        None => {
            assert(pairs_view(out@) =~= pairs_view(out@) + Seq::<(Seq<char>, Seq<char>)>::empty());
        },
    }
}

/// Pairs of strings as spec values.
pub open spec fn pairs_view(v: Seq<(String, String)>) -> Seq<(Seq<char>, Seq<char>)> {
    v.map_values(|e: (String, String)| (e.0@, e.1@))
}

/// The optional keys of a coveralls report with their values: the repo
/// token, the service name, the flag name (from the service flag name) and
/// the job id, each where it is given, in that order.
pub fn coveralls_extra_keys(repo_token: Option<&str>, service_name: Option<&str>, flag_name: Option<&str>, job_id: Option<&str>)
    -> (r: Vec<(String, String)>)
    ensures
        pairs_view(r@) == coveralls_keys(opt_text(repo_token), opt_text(service_name), opt_text(flag_name), opt_text(job_id)),
{
    let mut out: Vec<(String, String)> = Vec::new();
    proof {
        reveal_strlit("repo_token");
        reveal_strlit("service_name");
        reveal_strlit("flag_name");
        reveal_strlit("service_job_id");
    }
    assert(pairs_view(out@) =~= Seq::<(Seq<char>, Seq<char>)>::empty());
    push_key(&mut out, "repo_token", repo_token);
    push_key(&mut out, "service_name", service_name);
    push_key(&mut out, "flag_name", flag_name);
    push_key(&mut out, "service_job_id", job_id);
    assert(pairs_view(out@) =~= coveralls_keys(opt_text(repo_token), opt_text(service_name), opt_text(flag_name), opt_text(job_id)));
    out
}

}
