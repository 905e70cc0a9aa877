use vstd::prelude::*;
use std::collections::BTreeMap;
use rustc_hash::FxHashMap;
use crate::defs::{CovResult, CovView, Function, function_map_new, function_map_insert, function_map_contents, branches_view};
use crate::text::{decode_utf8, utf8_decode};
use crate::reader::{Gcno, GcnoView, GcovReaderBuf, GcovReaderError, ReadErrorView, LittleEndian, BigEndian, Outcome, gcno_read, gcda_read, gcno_wf, functions_view, sane};
use crate::counts::{counted_on_tree, lines_counted, lines_countable};
use crate::graph::{ident_map_new, BlockView, FunView, GcovFunction, graph_wf, flag_fake, block_list_slice, edge_list_slice, index_list_slice, line_counts, line_counts_entries, count_lines, blocks_view, edge_list};

verus! {

/// A file's coverage with nothing in it.
pub open spec fn empty_cov() -> CovView {
    CovView { lines: Map::empty(), branches: Map::empty(), functions: Map::empty() }
}

/// Whether adding the line counts of a function that ran overflows some count.
pub open spec fn lines_overflow(lines: Map<u32, u64>, f: FunView) -> bool {
    f.executed && exists|l: u32| #[trigger] lines.contains_key(l) && f.lines.contains_key(l) && lines[l] + f.lines[l] > u64::MAX
}

/// The line counts of a file once a function's are added: those of a
/// function that ran add up, those of one that did not count zero.
pub open spec fn add_fun_lines(lines: Map<u32, u64>, f: FunView) -> Map<u32, u64> {
    Map::new(
        |l: u32| lines.contains_key(l) || f.lines.contains_key(l),
        |l: u32|
            if f.executed {
                if lines.contains_key(l) && f.lines.contains_key(l) {
                    (lines[l] + f.lines[l]) as u64
                } else if lines.contains_key(l) {
                    lines[l]
                } else {
                    f.lines[l]
                }
            } else if lines.contains_key(l) {
                lines[l]
            } else {
                0
            },
    )
}

/// The greatest last line of the source blocks of the arcs `src[..j]`.
pub open spec fn max_source_line(f: FunView, src: Seq<usize>, j: int) -> u32
    decreases j,
{
    if j <= 0 {
        0
    } else {
        let m = max_source_line(f, src, j - 1);
        let x = f.blocks[f.edges[src[j - 1] as int].source as int].line_max;
        if x > m { x } else { m }
    }
}

/// The line a block's branches are reported on: its last line, or, for a
/// block without lines, the greatest last line of the blocks before it.
pub open spec fn branch_line(f: FunView, b: BlockView) -> u32 {
    if b.lines.len() == 0 { max_source_line(f, b.source, b.source.len() as int) } else { b.line_max }
}

/// Whether each arc `dest[..j]` that is not fake was taken.
pub open spec fn taken_of(f: FunView, dest: Seq<usize>, j: int) -> Seq<bool>
    decreases j,
{
    if j <= 0 {
        Seq::empty()
    } else {
        let e = f.edges[dest[j - 1] as int];
        taken_of(f, dest, j - 1) + if flag_fake(e.flags) { Seq::empty() } else { seq![f.executed && e.counter > 0] }
    }
}

/// The branches of a file once those of the blocks `f.blocks[..k]` are
/// added: a block with more than one real arc out reports whether each was
/// taken, on its branch line (none for line zero), after what that line had.
pub open spec fn add_branches(br: Map<u32, Seq<bool>>, f: FunView, k: int) -> Map<u32, Seq<bool>>
    decreases k,
{
    if k <= 0 {
        br
    } else {
        let prev = add_branches(br, f, k - 1);
        let b = f.blocks[k - 1];
        let line = branch_line(f, b);
        let t = taken_of(f, b.destination, b.destination.len() as int);
        if line == 0 || t.len() <= 1 {
            prev
        } else {
            prev.insert(line, if prev.contains_key(line) { prev[line] + t } else { t })
        }
    }
}

/// The coverage of the files once a function is added to its file's.
pub open spec fn add_function(acc: Map<Seq<char>, CovView>, f: FunView, branch_enabled: bool) -> Map<Seq<char>, CovView> {
    let r = if acc.contains_key(f.file_name) { acc[f.file_name] } else { empty_cov() };
    acc.insert(f.file_name, CovView {
        lines: add_fun_lines(r.lines, f),
        branches: if branch_enabled { add_branches(r.branches, f, f.blocks.len() as int) } else { r.branches },
        functions: r.functions.insert(f.name, Function { start: f.start_line, executed: f.executed }),
    })
}

/// The coverage of the files of the functions `fs[..n]`, or `None` where a
/// line count overflows.
pub open spec fn gather(fs: Seq<FunView>, n: int, branch_enabled: bool) -> Option<Map<Seq<char>, CovView>>
    decreases n,
{
    if n <= 0 {
        Some(Map::empty())
    } else {
        match gather(fs, n - 1, branch_enabled) {
            Some(acc) => {
                let f = fs[n - 1];
                let r = if acc.contains_key(f.file_name) { acc[f.file_name] } else { empty_cov() };
                if lines_overflow(r.lines, f) { None } else { Some(add_function(acc, f, branch_enabled)) }
            },
            None => None,
        }
    }
}

/// The sum of the counts of line `l` over the functions of `fs[..n]` in the
/// file `file` that ran.
pub open spec fn ran_sum(fs: Seq<FunView>, n: int, file: Seq<char>, l: u32) -> int
    decreases n,
{
    if n <= 0 {
        0
    } else {
        ran_sum(fs, n - 1, file, l)
            + if fs[n - 1].file_name == file && fs[n - 1].executed && fs[n - 1].lines.contains_key(l) { fs[n - 1].lines[l] as int } else { 0 }
    }
}

/// Whether some function of `fs[..n]` in the file `file` has line `l`.
pub open spec fn some_has_line(fs: Seq<FunView>, n: int, file: Seq<char>, l: u32) -> bool {
    exists|i: int| 0 <= i < n && #[trigger] fs[i].file_name == file && fs[i].lines.contains_key(l)
}

/// The line counts of a file add up over the functions that ran: where the
/// coverage of the functions `fs[..n]` is gathered, a file has line `l`
/// exactly where one of its functions has it, and its count there is the
/// sum of the counts of that line in its functions that ran.
pub proof fn law_gathered_line_counts(fs: Seq<FunView>, n: int, branch_enabled: bool, file: Seq<char>, l: u32)
    requires
        0 <= n <= fs.len(),
        gather(fs, n, branch_enabled) is Some,
    ensures
        ({
            let m = gather(fs, n, branch_enabled)->0;
            &&& (m.contains_key(file) && m[file].lines.contains_key(l)) <==> some_has_line(fs, n, file, l)
            &&& m.contains_key(file) && m[file].lines.contains_key(l) ==> m[file].lines[l] == ran_sum(fs, n, file, l)
            &&& !some_has_line(fs, n, file, l) ==> ran_sum(fs, n, file, l) == 0
        }),
    decreases n,
{
    if n > 0 {
        let acc = gather(fs, n - 1, branch_enabled)->0;
        law_gathered_line_counts(fs, n - 1, branch_enabled, file, l);
        let f = fs[n - 1];
        let r = if acc.contains_key(f.file_name) { acc[f.file_name] } else { empty_cov() };
        let m = gather(fs, n, branch_enabled)->0;
        assert(m == add_function(acc, f, branch_enabled));
        if some_has_line(fs, n - 1, file, l) {
            let i = choose|i: int| 0 <= i < n - 1 && #[trigger] fs[i].file_name == file && fs[i].lines.contains_key(l);
            assert(0 <= i < n && fs[i].file_name == file && fs[i].lines.contains_key(l));
        }
        if f.file_name == file && f.lines.contains_key(l) {
            assert(fs[n - 1].file_name == file && fs[n - 1].lines.contains_key(l));
        }
        if some_has_line(fs, n, file, l) {
            let i = choose|i: int| 0 <= i < n && #[trigger] fs[i].file_name == file && fs[i].lines.contains_key(l);
            if i < n - 1 {
                assert(some_has_line(fs, n - 1, file, l));
            }
        }
        if f.file_name == file {
            if r.lines.contains_key(l) && f.lines.contains_key(l) && f.executed {
                assert(!(r.lines[l] + f.lines[l] > u64::MAX));
            }
        }
    }
}

/// What a map from file names to results holds.
pub uninterp spec fn file_results(m: FxHashMap<&str, CovResult>) -> Map<Seq<char>, CovResult>;

/// Calls `FxHashMap::default`: the map is empty.
#[verifier::external_body]
fn results_new<'a>() -> (r: FxHashMap<&'a str, CovResult>)
    ensures
        file_results(r) =~= Map::empty(),
{
    FxHashMap::default()
}

/// Calls `HashMap::entry` and `Entry::or_insert`: the result of the file, a
/// new one given for a file not yet there; the map then holds it as the
/// caller leaves it.
#[verifier::external_body]
fn results_entry<'a, 'b>(m: &'b mut FxHashMap<&'a str, CovResult>, k: &'a str, fresh: CovResult) -> (r: &'b mut CovResult)
    ensures
        *r == (if file_results(*old(m)).contains_key(k@) { file_results(*old(m))[k@] } else { fresh }),
        file_results(*final(m)) == file_results(*old(m)).insert(k@, *final(r)),
{
    m.entry(k).or_insert(fresh)
}

/// The names of a sequence of results.
pub open spec fn result_names(s: Seq<(String, CovResult)>) -> Seq<Seq<char>> {
    s.map_values(|e: (String, CovResult)| e.0@)
}

/// Calls `HashMap::drain` and turns each name into a `String`: every entry
/// once, in the map's own order.
#[verifier::external_body]
fn results_drain(m: FxHashMap<&str, CovResult>) -> (r: Vec<(String, CovResult)>)
    ensures
        result_names(r@).to_set() == file_results(m).dom(),
        result_names(r@).no_duplicates(),
        forall|i: int| 0 <= i < r@.len() ==> file_results(m)[#[trigger] r@[i].0@] == r@[i].1,
{
    let mut m = m;
    m.drain().map(|(k, v)| (k.to_string(), v)).collect()
}

/// The results of a map, each as a spec value.
pub open spec fn results_views(m: Map<Seq<char>, CovResult>) -> Map<Seq<char>, CovView> {
    m.map_values(|r: CovResult| r@)
}

/// A function as it is once its line counts are restricted to `seen`.
pub open spec fn with_lines_in(f: FunView, seen: Set<u32>) -> FunView {
    FunView { lines: f.lines.restrict(seen), ..f }
}

/// A function taken as one that ran where `all` holds.
pub open spec fn as_ran(f: FunView, all: bool) -> FunView {
    FunView { executed: f.executed || all, ..f }
}

/// Adds the line counts of a function to those of its file, taking it as one
/// that ran where `all` holds; `false` where a count overflows.
pub(crate) fn add_lines(lines: &mut BTreeMap<u32, u64>, fun: &GcovFunction, all: bool) -> (ok: bool)
    ensures
        ok == !lines_overflow(old(lines)@, as_ran(fun@, all)),
        ok ==> final(lines)@ == add_fun_lines(old(lines)@, as_ran(fun@, all)),
{
    let ghost f = as_ran(fun@, all);
    let entries = line_counts_entries(&fun.lines);
    let ghost ls = count_lines(entries@);
    let ghost l0 = lines@;
    let mut i: usize = 0;
    while i < entries.len()
        invariant
            i <= entries@.len(),
            f == as_ran(fun@, all),
            l0 == old(lines)@,
            ls == count_lines(entries@),
            ls.to_set() == f.lines.dom(),
            ls.no_duplicates(),
            forall|k: int| 0 <= k < entries@.len() ==> f.lines[#[trigger] entries@[k].0] == entries@[k].1,
            lines@ == add_fun_lines(l0, with_lines_in(f, ls.take(i as int).to_set())),
            !lines_overflow(l0, with_lines_in(f, ls.take(i as int).to_set())),
        decreases entries@.len() - i,
    {
        let (l, c) = entries[i];
        let ghost seen = ls.take(i as int).to_set();
        let ghost seen1 = ls.take(i + 1).to_set();
        assert(ls[i as int] == l);
        assert(seen1 =~= seen.insert(l)) by {
            assert(ls.take(i + 1) =~= ls.take(i as int).push(l));
            ls.take(i as int).lemma_push_to_set_commute(l);
        }
        assert(!seen.contains(l)) by {
            if seen.contains(l) {
                let k = choose|k: int| 0 <= k < i && ls.take(i as int)[k] == l;
                assert(ls[k] == ls[i as int]);
            }
        }
        assert(f.lines.contains_key(l)) by {
            assert(ls.to_set().contains(l));
        }
        if fun.executed || all {
            match lines.get(&l) {
                Some(x) => {
                    match x.checked_add(c) {
                        Some(y) => {
                            lines.insert(l, y);
                        },
                        None => {
                            assert(lines_overflow(l0, f)) by {
                                assert(l0.contains_key(l));
                            }
                            return false;
                        },
                    }
                },
                None => {
                    lines.insert(l, c);
                },
            }
        } else {
            if lines.get(&l).is_none() {
                lines.insert(l, 0);
            }
        }
        assert(lines@ =~= add_fun_lines(l0, with_lines_in(f, seen1)));
        assert(!lines_overflow(l0, with_lines_in(f, seen1))) by {
            if lines_overflow(l0, with_lines_in(f, seen1)) {
                let w = choose|w: u32| #[trigger] l0.contains_key(w) && with_lines_in(f, seen1).lines.contains_key(w)
                    && l0[w] + with_lines_in(f, seen1).lines[w] > u64::MAX;
                if w != l {
                    assert(with_lines_in(f, seen).lines.contains_key(w));
                }
            }
        }
        i += 1;
    }
    proof {
        assert(ls.take(entries@.len() as int) =~= ls);
        assert(f.lines.restrict(ls.to_set()) =~= f.lines);
        assert(with_lines_in(f, ls.to_set()) == f);
    }
    true
}

/// The greatest last line of the blocks behind the arcs into a block.
fn max_source_line_exec(fun: &GcovFunction, src: &[usize]) -> (r: u32)
    requires
        graph_wf(fun@),
        forall|j: int| 0 <= j < src@.len() ==> #[trigger] src@[j] < fun@.edges.len(),
    ensures
        r == max_source_line(fun@, src@, src@.len() as int),
{
    let bs = block_list_slice(&fun.blocks);
    let es = edge_list_slice(&fun.edges);
    let mut m: u32 = 0;
    let mut j: usize = 0;
    while j < src.len()
        invariant
            j <= src@.len(),
            graph_wf(fun@),
            bs@.map_values(|x: crate::graph::GcovBlock| x@) == fun@.blocks,
            es@ == fun@.edges,
            forall|k: int| 0 <= k < src@.len() ==> #[trigger] src@[k] < fun@.edges.len(),
            m == max_source_line(fun@, src@, j as int),
        decreases src@.len() - j,
    {
        let e = es[src[j]];
        assert(e.source < fun@.blocks.len());
        assert(bs@[e.source as int]@ == fun@.blocks[e.source as int]);
        let x = bs[e.source].line_max;
        if x > m {
            m = x;
        }
        j += 1;
    }
    m
}

/// Adds the branches of a function to those of its file.
fn add_block_branches(branches: &mut BTreeMap<u32, Vec<bool>>, fun: &GcovFunction)
    requires
        graph_wf(fun@),
    ensures
        branches_view(*final(branches)) == add_branches(branches_view(*old(branches)), fun@, fun@.blocks.len() as int),
{
    let ghost f = fun@;
    let bs = block_list_slice(&fun.blocks);
    let es = edge_list_slice(&fun.edges);
    let ghost b0 = branches_view(*branches);
    let mut k: usize = 0;
    while k < bs.len()
        invariant
            k <= bs@.len(),
            f == fun@,
            graph_wf(f),
            bs@.map_values(|x: crate::graph::GcovBlock| x@) == f.blocks,
            es@ == f.edges,
            b0 == branches_view(*old(branches)),
            branches_view(*branches) == add_branches(b0, f, k as int),
        decreases bs@.len() - k,
    {
        assert(bs@[k as int]@ == f.blocks[k as int]);
        let lines = crate::graph::line_list_slice(&bs[k].lines);
        let src = index_list_slice(&bs[k].source);
        let dst = index_list_slice(&bs[k].destination);
        assert forall|j: int| 0 <= j < src@.len() implies #[trigger] src@[j] < f.edges.len() by {
            assert(src@[j] == f.blocks[k as int].source[j]);
        }
        assert forall|j: int| 0 <= j < dst@.len() implies #[trigger] dst@[j] < f.edges.len() by {
            assert(dst@[j] == f.blocks[k as int].destination[j]);
        }
        let line = if lines.len() == 0 { max_source_line_exec(fun, src) } else { bs[k].line_max };
        let mut taken: Vec<bool> = Vec::new();
        let mut j: usize = 0;
        while j < dst.len()
            invariant
                j <= dst@.len(),
                es@ == f.edges,
                f == fun@,
                forall|q: int| 0 <= q < dst@.len() ==> #[trigger] dst@[q] < f.edges.len(),
                taken@ == taken_of(f, dst@, j as int),
            decreases dst@.len() - j,
        {
            let e = es[dst[j]];
            if !e.is_fake() {
                taken.push(fun.executed && e.counter > 0);
            }
            assert(taken@ =~= taken_of(f, dst@, j + 1));
            j += 1;
        }
        let ghost prev = branches_view(*branches);
        if line != 0 && taken.len() > 1 {
            let t = taken;
            match branches.remove(&line) {
                Some(mut v) => {
                    let ghost vv = v@;
                    let mut t2 = t;
                    v.append(&mut t2);
                    branches.insert(line, v);
                    assert(branches_view(*branches) =~= prev.insert(line, vv + taken_of(f, dst@, dst@.len() as int)));
                },
                None => {
                    let ghost tv = t@;
                    branches.insert(line, t);
                    assert(branches_view(*branches) =~= prev.insert(line, tv));
                },
            }
        }
        k += 1;
    }
}

/// Once a line count overflows, it overflows for all the functions after.
proof fn lemma_gather_none(fs: Seq<FunView>, j: int, n: int, branch_enabled: bool)
    requires
        j <= n,
        gather(fs, j, branch_enabled) is None,
    ensures
        gather(fs, n, branch_enabled) is None,
    decreases n - j,
{
    if j < n {
        lemma_gather_none(fs, j + 1, n, branch_enabled);
    }
}

impl crate::reader::Gcno {
    /// Counts the lines of every function, then gathers the coverage of each
    /// file: its line counts, its functions and, if `branch_enabled`, its
    /// branches. The files come in an order that is left unsaid. `None` where
    /// the counts cannot be deduced or the circuit search goes too deep.
    pub fn finalize(&mut self, branch_enabled: bool) -> (r: Option<Vec<(String, CovResult)>>)
        requires
            crate::reader::gcno_wf(old(self)@),
        ensures
            r is Some ==> ({
                let fs = final(self)@.functions;
                &&& fs.len() == old(self)@.functions.len()
                &&& forall|i: int| 0 <= i < fs.len() ==> crate::counts::lines_counted(#[trigger] old(self)@.functions[i], fs[i])
                &&& gather(fs, fs.len() as int, branch_enabled) is Some
                &&& result_names(r->0@).no_duplicates()
                &&& result_names(r->0@).to_set() == gather(fs, fs.len() as int, branch_enabled)->0.dom()
                &&& forall|i: int| 0 <= i < r->0@.len() ==>
                    gather(fs, fs.len() as int, branch_enabled)->0[#[trigger] r->0@[i].0@] == r->0@[i].1@
            }),
            (forall|i: int| 0 <= i < old(self)@.functions.len()
                ==> #[trigger] crate::counts::lines_countable(old(self)@.functions[i])) ==> ({
                let fs = final(self)@.functions;
                &&& fs.len() == old(self)@.functions.len()
                &&& forall|i: int| 0 <= i < fs.len() ==> crate::counts::lines_counted(#[trigger] old(self)@.functions[i], fs[i])
                &&& (r is Some <==> gather(fs, fs.len() as int, branch_enabled) is Some)
            }),
            !(forall|i: int| 0 <= i < old(self)@.functions.len()
                ==> #[trigger] crate::counts::lines_countable(old(self)@.functions[i])) ==> r is None,
    {
        let ghost g0 = self@;
        let n = self.functions.len();
        let mut i: usize = 0;
        while i < n
            invariant
                i <= n,
                n == self.functions@.len(),
                n == g0.functions.len(),
                forall|k: int| 0 <= k < i ==> crate::counts::lines_counted(#[trigger] g0.functions[k], self@.functions[k]),
                forall|k: int| 0 <= k < i ==> #[trigger] crate::counts::lines_countable(g0.functions[k]),
                forall|k: int| 0 <= k < n ==> graph_wf(#[trigger] self@.functions[k]),
                forall|k: int| i <= k < n ==> #[trigger] self@.functions[k] == g0.functions[k],
                g0 == old(self)@,
            decreases n - i,
        {
            let ghost before = self@.functions;
            let ghost s0 = self@;
            assert(self.functions@[i as int]@ == before[i as int]);
            assert(graph_wf(before[i as int]));
            let ok = self.functions[i].add_line_count();
            if !ok {
                assert(!crate::counts::lines_countable(g0.functions[i as int]));
                return None;
            }
            assert(self@.functions =~= before.update(i as int, self.functions@[i as int]@));
            assert(forall|k: int| 0 <= k < n && k != i ==> #[trigger] self@.functions[k] == before[k]);
            i += 1;
        }
        let ghost fs = self@.functions;
        let mut results = results_new();
        let mut i: usize = 0;
        while i < n
            invariant
                i <= n,
                n == self.functions@.len(),
                fs == self@.functions,
                forall|k: int| 0 <= k < n ==> graph_wf(#[trigger] fs[k]),
                gather(fs, i as int, branch_enabled) is Some,
                results_views(file_results(results)) == gather(fs, i as int, branch_enabled)->0,
                g0 == old(self)@,
                fs.len() == g0.functions.len(),
                forall|k: int| 0 <= k < n ==> crate::counts::lines_counted(#[trigger] g0.functions[k], fs[k]),
                forall|k: int| 0 <= k < n ==> #[trigger] crate::counts::lines_countable(g0.functions[k]),
            decreases n - i,
        {
            let fun = &self.functions[i];
            assert(fun@ == fs[i as int]);
            let ghost acc = gather(fs, i as int, branch_enabled)->0;
            let fresh = CovResult { lines: BTreeMap::new(), branches: BTreeMap::new(), functions: function_map_new() };
            let ghost old_map = file_results(results);
            let res = results_entry(&mut results, fun.file_name.as_str(), fresh);
            let ghost r0 = *res;
            assert(r0@ == (if acc.contains_key(fun@.file_name) { acc[fun@.file_name] } else { empty_cov() })) by {
                if !acc.contains_key(fun@.file_name) {
                    assert(branches_view(r0.branches) =~= Map::empty());
                }
            }
            function_map_insert(&mut res.functions, fun.name.clone(), Function { start: fun.start_line, executed: fun.executed });
            assert(as_ran(fun@, false) == fun@);
            if !add_lines(&mut res.lines, fun, false) {
                proof {
                    assert(gather(fs, i + 1, branch_enabled) is None);
                    lemma_gather_none(fs, i + 1, n as int, branch_enabled);
                }
                return None;
            }
            if branch_enabled {
                add_block_branches(&mut res.branches, fun);
            }
            assert(results_views(file_results(results)) =~= add_function(acc, fun@, branch_enabled));
            i += 1;
        }
        let ghost fm = file_results(results);
        let out = results_drain(results);
        proof {
            assert(results_views(fm).dom() =~= fm.dom());
            assert forall|i: int| 0 <= i < out@.len() implies
                gather(fs, fs.len() as int, branch_enabled)->0[#[trigger] out@[i].0@] == out@[i].1@ by {
                assert(result_names(out@)[i] == out@[i].0@);
                assert(result_names(out@).to_set().contains(out@[i].0@));
                assert(fm.contains_key(out@[i].0@));
            }
        }
        Some(out)
    }
}

/// The kind of a coverage data file.
pub enum FileType {
    Gcno,
    Gcda,
}

/// The first four bytes of a file of the kind, least significant first.
pub open spec fn magic(typ: FileType) -> Seq<u8> {
    match typ {
        FileType::Gcno => seq![111u8, 110, 99, 103],
        FileType::Gcda => seq![97u8, 100, 99, 103],
    }
}

/// Telling the byte order of a file from its first four bytes: little endian
/// where they are the magic number, big endian where they are it reversed;
/// an error for a shorter buffer or other bytes; `None` where the bytes are
/// neither and not valid UTF-8.
pub open spec fn endianness(typ: Seq<u8>, buf: Seq<u8>, stem: Seq<char>) -> Option<Result<bool, Seq<char>>> {
    if buf.len() >= 4 {
        let b = buf.take(4);
        if b == typ {
            Some(Ok(true))
        } else if b == typ.reverse() {
            Some(Ok(false))
        } else {
            match utf8_decode(b) {
                Some(t) => Some(Err("Unexpected file type: "@ + t + " in "@ + stem + "."@)),
                None => None,
            }
        }
    } else {
        Some(Err("Not enough data in buffer: Cannot compare types in "@ + stem))
    }
}

/// Tells the byte order of a file: `true` for little endian.
fn guess_endianness(typ: [u8; 4], buffer: &[u8], stem: &str) -> (r: Option<Result<bool, GcovReaderError>>)
    ensures
        match endianness(typ@, buffer@, stem@) {
            Some(Ok(l)) => r == Some(Ok::<bool, GcovReaderError>(l)),
            Some(Err(m)) => r is Some && r->0 is Err && r->0->Err_0@ == ReadErrorView::Str(m),
            None => r is None,
        },
{
    if 4 <= buffer.len() {
        let bytes = &buffer[0..4];
        assert(bytes@ =~= buffer@.take(4));
        if crate::text::bytes_eq(bytes, typ.as_slice()) {
            Some(Ok(true))
        } else {
            let rev = [typ[3], typ[2], typ[1], typ[0]];
            assert(rev@ =~= typ@.reverse());
            if crate::text::bytes_eq(bytes, rev.as_slice()) {
                Some(Ok(false))
            } else {
                match decode_utf8(bytes) {
                    Some(t) => {
                        let mut m = "Unexpected file type: ".to_owned();
                        m.append(t.as_str());
                        m.append(" in ");
                        m.append(stem);
                        m.append(".");
                        Some(Err(GcovReaderError::Str(m)))
                    },
                    None => None,
                }
            }
        }
    } else {
        let mut m = "Not enough data in buffer: Cannot compare types in ".to_owned();
        m.append(stem);
        Some(Err(GcovReaderError::Str(m)))
    }
}

/// Reading a file of the kind into `g`.
pub open spec fn file_read(typ: FileType, buf: Seq<u8>, stem: Seq<char>, g: GcnoView) -> Outcome {
    match endianness(magic(typ), buf, stem) {
        Some(Ok(l)) => match typ {
            FileType::Gcno => gcno_read(buf, 4, l, stem, g),
            FileType::Gcda => gcda_read(buf, 4, l, stem, g),
        },
        Some(Err(m)) => Outcome::Failed(m),
        None => Outcome::Panics,
    }
}

/// Reading the gcda files `bufs[k..]` in turn into `g`.
pub open spec fn gcda_reads(bufs: Seq<Seq<u8>>, k: int, stem: Seq<char>, g: GcnoView) -> Outcome
    decreases bufs.len() - k,
{
    if k >= bufs.len() {
        Outcome::Done(g)
    } else {
        match file_read(FileType::Gcda, bufs[k], stem, g) {
            Outcome::Done(g2) => gcda_reads(bufs, k + 1, stem, g2),
            o => o,
        }
    }
}

/// A unit with nothing read into it yet.
pub open spec fn empty_gcno() -> GcnoView {
    GcnoView {
        version: 0,
        checksum: 0,
        cwd: None,
        programcounts: 0,
        runcounts: 0,
        functions: Seq::empty(),
        ident: Map::empty(),
    }
}

/// The functions of a unit once the counts of their spanning trees are
/// deduced; `None` where those of one of them cannot be deduced.
pub open spec fn stopped(g: GcnoView) -> Option<Seq<FunView>> {
    if forall|i: int| 0 <= i < g.functions.len() ==> #[trigger] counted_on_tree(g.functions[i], g.version) is Some {
        Some(Seq::new(g.functions.len(), |i: int| counted_on_tree(g.functions[i], g.version)->0))
    } else {
        None
    }
}

/// The bytes of each of a sequence of buffers.
pub open spec fn buffers_view(v: Seq<Vec<u8>>) -> Seq<Seq<u8>> {
    v.map_values(|b: Vec<u8>| b@)
}

impl Gcno {
    pub fn new() -> (r: Self)
        ensures
            r@ == empty_gcno(),
            gcno_wf(r@),
    {
        let r = Gcno {
            version: 0,
            checksum: 0,
            cwd: None,
            programcounts: 0,
            runcounts: 0,
            functions: Vec::new(),
            ident_to_fun: ident_map_new(),
        };
        assert(functions_view(r.functions@) =~= Seq::<FunView>::empty());
        r
    }

    /// Reads a gcno or gcda file into this unit, after telling its byte order.
    pub fn read(&mut self, typ: FileType, buf: Vec<u8>, stem: &str) -> (r: Option<Result<(), GcovReaderError>>)
        requires
            gcno_wf(old(self)@),
            buf@.len() + 8 <= usize::MAX,
        ensures
            crate::reader::opt_outcome_agrees(r, final(self)@, file_read(typ, buf@, stem@, old(self)@)),
            r is Some && r->0 is Ok ==> gcno_wf(final(self)@),
    {
        let magic_bytes: [u8; 4] = match typ {
            FileType::Gcno => [111u8, 110, 99, 103],
            FileType::Gcda => [97u8, 100, 99, 103],
        };
        assert(magic_bytes@ =~= magic(typ));
        let little = match guess_endianness(magic_bytes, buf.as_slice(), stem) {
            Some(Ok(x)) => x,
            Some(Err(e)) => return Some(Err(e)),
            None => return None,
        };
        if little {
            let reader = GcovReaderBuf::<LittleEndian>::new(stem, buf);
            match typ {
                FileType::Gcno => self.read_gcno(reader),
                FileType::Gcda => self.read_gcda(reader),
            }
        } else {
            let reader = GcovReaderBuf::<BigEndian>::new(stem, buf);
            match typ {
                FileType::Gcno => self.read_gcno(reader),
                FileType::Gcda => self.read_gcda(reader),
            }
        }
    }

    /// Deduces the counts of the spanning trees of every function; `false`
    /// where those of one of them cannot be deduced.
    pub fn stop(&mut self) -> (ok: bool)
        requires
            gcno_wf(old(self)@),
        ensures
            ok == (stopped(old(self)@) is Some),
            ok ==> final(self)@ == (GcnoView { functions: stopped(old(self)@)->0, ..old(self)@ }),
            ok ==> gcno_wf(final(self)@),
    {
        let ghost g0 = self@;
        let n = self.functions.len();
        let version = self.version;
        let mut i: usize = 0;
        while i < n
            invariant
                i <= n,
                g0 == old(self)@,
                n == g0.functions.len(),
                version == g0.version,
                self@ == (GcnoView { functions: self@.functions, ..g0 }),
                self@.functions.len() == n,
                gcno_wf(g0),
                forall|k: int| 0 <= k < i ==> #[trigger] counted_on_tree(g0.functions[k], g0.version) is Some,
                forall|k: int| 0 <= k < i ==> #[trigger] self@.functions[k] == counted_on_tree(g0.functions[k], g0.version)->0,
                forall|k: int| 0 <= k < n ==> graph_wf(#[trigger] self@.functions[k]),
                forall|k: int| i <= k < n ==> #[trigger] self@.functions[k] == g0.functions[k],
                g0 == old(self)@,
            decreases n - i,
        {
            let ghost before = self@.functions;
            let ghost s0 = self@;
            assert(self.functions@[i as int]@ == before[i as int]);
            assert(graph_wf(g0.functions[i as int]));
            let ok = self.functions[i].count_on_tree(version);
            assert(self@.functions =~= before.update(i as int, self.functions@[i as int]@));
            if !ok {
                assert(counted_on_tree(g0.functions[i as int], g0.version) is None);
                assert(!(forall|k: int| 0 <= k < g0.functions.len() ==> #[trigger] counted_on_tree(g0.functions[k], g0.version) is Some));
                return false;
            }
            assert(self@.functions[i as int] == counted_on_tree(g0.functions[i as int], g0.version)->0);
            assert(graph_wf(self@.functions[i as int]));
            assert(self@.ident == s0.ident);
            assert(self@.cwd == s0.cwd);
            assert(self@.version == s0.version);
            assert(self@.runcounts == s0.runcounts);
            assert forall|k: int| 0 <= k < i + 1 implies #[trigger] self@.functions[k] == counted_on_tree(g0.functions[k], g0.version)->0 by {
                if k < i {
                    assert(self@.functions[k] == before[k]);
                }
            }
            assert forall|k: int| 0 <= k < n implies graph_wf(#[trigger] self@.functions[k]) by {
                if k != i {
                    assert(self@.functions[k] == before[k]);
                }
            }
            i += 1;
        }
        assert(forall|k: int| 0 <= k < g0.functions.len() ==> #[trigger] counted_on_tree(g0.functions[k], g0.version) is Some);
        assert(self@.functions =~= stopped(g0)->0) by {
            assert forall|k: int| 0 <= k < n implies #[trigger] self@.functions[k] == stopped(g0)->0[k] by {
                assert(self@.functions[k] == counted_on_tree(g0.functions[k], g0.version)->0);
            }
        }
        assert(gcno_wf(self@)) by {
            assert forall|k: int| 0 <= k < self@.functions.len() implies #[trigger] graph_wf(self@.functions[k]) by {
                assert(graph_wf(self@.functions[k]));
            }
        }
        true
    }
}

/// Results of a computation as spec values.
pub open spec fn opt_results_view<E: View>(r: Option<Result<Vec<(String, CovResult)>, E>>) -> Option<Result<Seq<(Seq<char>, CovView)>, E::V>> {
    match r {
        Some(Ok(v)) => Some(Ok(crate::parser::results_view(v@))),
        Some(Err(e)) => Some(Err(e@)),
        None => None,
    }
}

/// What reading a gcno file and its gcda files gives: `None` where the
/// counts cannot be deduced or the circuit search goes too deep, the first read
/// error, or the results gathered from the functions once their lines are
/// counted.
pub open spec fn computed(stem: Seq<char>, gcno: Seq<u8>, bufs: Seq<Seq<u8>>, branch_enabled: bool, r: Option<Result<Seq<(Seq<char>, CovView)>, ReadErrorView>>) -> bool {
    match file_read(FileType::Gcno, gcno, stem, empty_gcno()) {
        Outcome::Panics => r is None,
        Outcome::Failed(m) => r == Some(Err::<Seq<(Seq<char>, CovView)>, ReadErrorView>(ReadErrorView::Str(m))),
        Outcome::Done(g1) => match gcda_reads(bufs, 0, stem, g1) {
            Outcome::Panics => r is None,
            Outcome::Failed(m) => r == Some(Err::<Seq<(Seq<char>, CovView)>, ReadErrorView>(ReadErrorView::Str(m))),
            Outcome::Done(g2) => match stopped(g2) {
                None => r is None,
                Some(fs) => match r {
                    None => !(forall|i: int| 0 <= i < fs.len() ==> #[trigger] lines_countable(fs[i]))
                        || exists|fs2: Seq<FunView>| {
                            &&& fs2.len() == fs.len()
                            &&& (forall|i: int| 0 <= i < fs.len() ==> #[trigger] lines_counted(fs[i], fs2[i]))
                            &&& gather(fs2, fs2.len() as int, branch_enabled) is None
                        },
                    Some(Err(_)) => false,
                    Some(Ok(v)) => gathered_from(fs, branch_enabled, v),
                },
            },
        },
    }
}

/// Results gathered from functions once their lines are counted: each file
/// once, with its coverage.
pub open spec fn gathered_from(fs: Seq<FunView>, branch_enabled: bool, v: Seq<(Seq<char>, CovView)>) -> bool {
    exists|fs2: Seq<FunView>| {
        &&& fs2.len() == fs.len()
        &&& (forall|i: int| 0 <= i < fs.len() ==> #[trigger] lines_counted(fs[i], fs2[i]))
        &&& gather(fs2, fs2.len() as int, branch_enabled) is Some
        &&& v.map_values(|e: (Seq<char>, CovView)| e.0).no_duplicates()
        &&& v.map_values(|e: (Seq<char>, CovView)| e.0).to_set() == gather(fs2, fs2.len() as int, branch_enabled)->0.dom()
        &&& forall|i: int| 0 <= i < v.len() ==>
            gather(fs2, fs2.len() as int, branch_enabled)->0[#[trigger] v[i].0] == v[i].1
    }
}

impl Gcno {
    /// Reads a gcno file, then its gcda files, deduces the counts and gathers
    /// the coverage of each source file (see [`Gcno::finalize`]). `None` where
    /// the counts cannot be deduced or the circuit search goes too deep.
    #[verifier::rlimit(50)]
    pub fn compute(stem: &str, gcno_buf: Vec<u8>, gcda_bufs: Vec<Vec<u8>>, branch_enabled: bool) -> (r: Option<Result<Vec<(String, CovResult)>, GcovReaderError>>)
        requires
            gcno_buf@.len() + 8 <= usize::MAX,
            forall|k: int| 0 <= k < gcda_bufs@.len() ==> #[trigger] gcda_bufs@[k]@.len() + 8 <= usize::MAX,
        ensures
            computed(stem@, gcno_buf@, buffers_view(gcda_bufs@), branch_enabled, opt_results_view(r)),
    {
        let mut gcno = Gcno::new();
        let ghost first = file_read(FileType::Gcno, gcno_buf@, stem@, empty_gcno());
        let r0 = gcno.read(FileType::Gcno, gcno_buf, stem);
        match r0 {
            Some(Ok(())) => {},
            Some(Err(e)) => {
                assert(first is Failed);
                return Some(Err(e));
            },
            None => return None,
        }
        let ghost g1 = gcno@;
        let ghost bufs = buffers_view(gcda_bufs@);
        let mut rest = gcda_bufs;
        let n = rest.len();
        let mut k: usize = 0;
        while k < n
            invariant
                k <= n,
                n == bufs.len(),
                rest@.len() == n,
                bufs == buffers_view(gcda_bufs@),
                forall|j: int| k <= j < n ==> #[trigger] rest@[j]@ == bufs[j],
                forall|j: int| 0 <= j < n ==> #[trigger] gcda_bufs@[j]@.len() + 8 <= usize::MAX,
                gcno_wf(gcno@),
                gcda_reads(bufs, k as int, stem@, gcno@) == gcda_reads(bufs, 0, stem@, g1),
                first == file_read(FileType::Gcno, gcno_buf@, stem@, empty_gcno()),
                first == Outcome::Done(g1),
            decreases n - k,
        {
            let mut b: Vec<u8> = Vec::new();
            std::mem::swap(&mut b, &mut rest[k]);
            assert(b@ == bufs[k as int]);
            assert(gcda_bufs@[k as int]@ == bufs[k as int]);
            match gcno.read(FileType::Gcda, b, stem) {
                Some(Ok(())) => {},
                Some(Err(e)) => return Some(Err(e)),
                None => return None,
            }
            k += 1;
        }
        let ghost g2 = gcno@;
        assert(gcda_reads(bufs, 0, stem@, g1) == Outcome::Done(g2));
        if !gcno.stop() {
            return None;
        }
        let ghost fs = gcno@.functions;
        match gcno.finalize(branch_enabled) {
            Some(v) => {
                let ghost fs2 = gcno@.functions;
                assert(fs2.len() == fs.len());
                assert(forall|i: int| 0 <= i < fs.len() ==> #[trigger] lines_counted(fs[i], fs2[i]));
                proof {
                    let rv = crate::parser::results_view(v@);
                    assert(rv.map_values(|e: (Seq<char>, CovView)| e.0) =~= result_names(v@));
                    let gm = gather(fs2, fs2.len() as int, branch_enabled)->0;
                    assert forall|i: int| 0 <= i < rv.len() implies gm[#[trigger] rv[i].0] == rv[i].1 by {
                        assert(rv[i].0 == v@[i].0@);
                    }
                    assert(gathered_from(fs, branch_enabled, rv));
                }
                Some(Ok(v))
            },
            None => {
                proof {
                    let fs2 = gcno@.functions;
                    if forall|i: int| 0 <= i < fs.len() ==> #[trigger] lines_countable(fs[i]) {
                        assert(fs2.len() == fs.len());
                        assert(forall|i: int| 0 <= i < fs.len() ==> #[trigger] lines_counted(fs[i], fs2[i]));
                        assert(gather(fs2, fs2.len() as int, branch_enabled) is None);
                    }
                }
                None
            },
        }
    }
}

}
