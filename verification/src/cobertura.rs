use vstd::prelude::*;
use symbolic_demangle::Demangle;
use crate::defs::{CovResult, CovView, Function, function_map_entries, function_map_contents, entry_names, branches_view, fmap};
use crate::order::line_numbers;
use crate::text::{decimal, decimal_string, decimal_string_wide};
use crate::xml_out::{XmlOut, XmlOutView, xml_outs_view, attrs_view, xml_written, write_xml};

verus! {

/// What `symbolic_demangle` makes of a symbol name with the options that
/// keep only the name: the demangled name, or `None` where it cannot
/// demangle it.
pub uninterp spec fn demangled_name(name: Seq<char>) -> Option<Seq<char>>;

/// What `Path::file_stem` gives for a path: its file name without the last
/// extension, if it has a file name.
pub uninterp spec fn path_file_stem(p: Seq<char>) -> Option<Seq<char>>;

/// An optional string as a spec value.
pub open spec fn opt_chars(o: Option<String>) -> Option<Seq<char>> {
    match o {
        Some(s) => Some(s@),
        None => None,
    }
}

/// Calls `Name::demangle` of `symbolic_demangle` with
/// `DemangleOptions::name_only()`.
#[verifier::external_body]
pub fn demangle_name(name: &str) -> (r: Option<String>)
    ensures
        opt_chars(r) == demangled_name(name@),
{
    symbolic_common::Name::from(name).demangle(symbolic_demangle::DemangleOptions::name_only())
}

/// Calls `Path::file_stem` on a path given as a string.
#[verifier::external_body]
pub(crate) fn file_stem_of(p: &str) -> (r: Option<String>)
    ensures
        opt_chars(r) == path_file_stem(p@),
{
    std::path::Path::new(p).file_stem().map(|s| s.to_string_lossy().into_owned())
}

/// A name, demangled where asked and where it can be.
pub open spec fn shown_name(name: Seq<char>, demangle: bool) -> Seq<char> {
    if demangle {
        match demangled_name(name) {
            Some(d) => d,
            None => name,
        }
    } else {
        name
    }
}

/// A name, demangled where asked and where it can be.
pub fn show_name(name: &str, demangle: bool) -> (r: String)
    ensures
        r@ == shown_name(name@, demangle),
{
    if demangle {
        match demangle_name(name) {
            Some(d) => d,
            None => name.to_owned(),
        }
    } else {
        name.to_owned()
    }
}

/// A line of a Cobertura report: its number, its hits, and for a line with
/// branches whether each branch was taken.
pub enum Line {
    Plain { number: u32, hits: u64 },
    Branch { number: u32, hits: u64, conditions: Vec<bool> },
}

/// A line as a spec value.
pub enum LineView {
    Plain { number: u32, hits: u64 },
    Branch { number: u32, hits: u64, conditions: Seq<bool> },
}

impl View for Line {
    type V = LineView;

    open spec fn view(&self) -> LineView {
        match self {
            Line::Plain { number, hits } => LineView::Plain { number: *number, hits: *hits },
            Line::Branch { number, hits, conditions } => LineView::Branch { number: *number, hits: *hits, conditions: conditions@ },
        }
    }
}

/// A method: its name, its signature (left empty) and its lines.
pub struct Method {
    pub name: String,
    pub signature: String,
    pub lines: Vec<Line>,
}

/// A class: its name, its file, its lines and its methods.
pub struct Class {
    pub name: String,
    pub file_name: String,
    pub lines: Vec<Line>,
    pub methods: Vec<Method>,
}

/// A package: its name and classes.
pub struct Package {
    pub name: String,
    pub classes: Vec<Class>,
}

/// A whole report: the source directories and the packages.
pub struct Coverage {
    pub sources: Vec<String>,
    pub packages: Vec<Package>,
}

/// The lines of a sequence as spec values.
pub open spec fn lines_view(v: Seq<Line>) -> Seq<LineView> {
    v.map_values(|l: Line| l@)
}

/// The line `n` of a file: its hits (0 if it has none) and, if it has
/// branches, whether each was taken.
pub open spec fn line_at(r: CovView, n: u32) -> LineView {
    let hits = if r.lines.contains_key(n) { r.lines[n] } else { 0u64 };
    if r.branches.contains_key(n) {
        LineView::Branch { number: n, hits: hits, conditions: r.branches[n] }
    } else {
        LineView::Plain { number: n, hits: hits }
    }
}

/// The numbers of `s` from `lo` up to before `hi`, in order.
pub open spec fn numbers_between(s: Seq<u32>, lo: u32, hi: int) -> Seq<u32>
    decreases s.len(),
{
    if s.len() == 0 {
        s
    } else {
        let rest = numbers_between(s.drop_last(), lo, hi);
        if lo <= s.last() && s.last() < hi { rest.push(s.last()) } else { rest }
    }
}

/// The least start of `starts` after `s`, if there is one.
pub open spec fn next_start(starts: Seq<u32>, s: u32) -> Option<u32>
    decreases starts.len(),
{
    if starts.len() == 0 {
        None
    } else {
        let rest = next_start(starts.drop_last(), s);
        let t = starts.last();
        if t > s {
            match rest {
                Some(u) => if u <= t { Some(u) } else { Some(t) },
                None => Some(t),
            }
        } else {
            rest
        }
    }
}

/// The line numbers of a file, in increasing order.
pub open spec fn numbers_of(s: Seq<u32>, r: CovView) -> bool {
    &&& forall|i: int, j: int| 0 <= i < j < s.len() ==> s[i] < s[j]
    &&& s.to_set() == r.lines.dom()
}

/// A method of a file: the lines from its start up to the next function's
/// start (or past the last line).
pub open spec fn method_of(name: Seq<char>, f: Function, starts: Seq<u32>, nums: Seq<u32>, r: CovView, end: int, demangle: bool, m: Method) -> bool {
    let fend: int = match next_start(starts, f.start) {
        Some(t) => t as int,
        None => end,
    };
    &&& m.name@ == shown_name(name, demangle)
    &&& m.signature@ == Seq::<char>::empty()
    &&& lines_view(m.lines@) == numbers_between(nums, f.start, fend).map_values(|n: u32| line_at(r, n))
}

/// The starts of a sequence of functions.
pub open spec fn starts_of(es: Seq<(String, Function)>) -> Seq<u32> {
    es.map_values(|e: (String, Function)| e.1.start)
}

/// The package of one file: one class named by the file's stem, with all
/// its lines, and a method for each of its functions, in some order.
pub open spec fn package_of(rel_path: Seq<char>, r: CovView, demangle: bool, p: Package) -> bool {
    &&& p.name@ == rel_path
    &&& p.classes@.len() == 1
    &&& p.classes@[0].name@ == (match path_file_stem(rel_path) { Some(s) => s, None => Seq::<char>::empty() })
    &&& p.classes@[0].file_name@ == rel_path
    &&& exists|nums: Seq<u32>, es: Seq<(String, Function)>| {
        &&& #[trigger] numbers_of(nums, r)
        &&& entry_names(es).no_duplicates()
        &&& #[trigger] entry_names(es).to_set() == r.functions.dom()
        &&& (forall|i: int| 0 <= i < es.len() ==> r.functions[#[trigger] es[i].0@] == es[i].1)
        &&& lines_view(p.classes@[0].lines@) == nums.map_values(|n: u32| line_at(r, n))
        &&& p.classes@[0].methods@.len() == es.len()
        &&& forall|i: int| 0 <= i < es.len() ==> method_of(es[i].0@, es[i].1, starts_of(es), nums,
            r, (if nums.len() == 0 { 1 } else { nums.last() + 1 }), demangle, #[trigger] p.classes@[0].methods@[i])
    }
}


/// A copy of a sequence of branch outcomes.
fn copy_bools(v: &Vec<bool>) -> (r: Vec<bool>)
    ensures
        r@ == v@,
{
    let mut r: Vec<bool> = Vec::new();
    let mut k: usize = 0;
    while k < v.len()
        invariant
            k <= v@.len(),
            r@ == v@.subrange(0, k as int),
        decreases v@.len() - k,
    {
        r.push(v[k]);
        assert(v@.subrange(0, k + 1) =~= v@.subrange(0, k as int).push(v@[k as int]));
        k += 1;
    }
    assert(v@.subrange(0, v@.len() as int) =~= v@);
    r
}

/// The line `n` of a file.
fn line_of(r: &CovResult, n: u32) -> (l: Line)
    ensures
        l@ == line_at(r@, n),
{
    let hits: u64 = match r.lines.get(&n) {
        Some(h) => *h,
        None => 0,
    };
    match r.branches.get(&n) {
        Some(b) => Line::Branch { number: n, hits: hits, conditions: copy_bools(b) },
        None => Line::Plain { number: n, hits: hits },
    }
}

/// The lines of a file whose numbers in `nums` lie from `lo` up to before `hi`.
fn lines_between(r: &CovResult, nums: &Vec<u32>, lo: u32, hi: u64) -> (v: Vec<Line>)
    ensures
        lines_view(v@) == numbers_between(nums@, lo, hi as int).map_values(|n: u32| line_at(r@, n)),
{
    let mut v: Vec<Line> = Vec::new();
    let mut k: usize = 0;
    while k < nums.len()
        invariant
            k <= nums@.len(),
            lines_view(v@) == numbers_between(nums@.subrange(0, k as int), lo, hi as int).map_values(|n: u32| line_at(r@, n)),
        decreases nums@.len() - k,
    {
        let n = nums[k];
        let ghost pre = nums@.subrange(0, k as int);
        assert(nums@.subrange(0, k + 1).drop_last() =~= pre);
        if lo <= n && (n as u64) < hi {
            let l = line_of(r, n);
            let ghost before = lines_view(v@);
            v.push(l);
            assert(lines_view(v@) =~= before.push(line_at(r@, n)));
        }
        k += 1;
    }
    assert(nums@.subrange(0, nums@.len() as int) =~= nums@);
    v
}

/// The lines of a file at each of the numbers `nums`.
fn lines_at(r: &CovResult, nums: &Vec<u32>) -> (v: Vec<Line>)
    ensures
        lines_view(v@) == nums@.map_values(|n: u32| line_at(r@, n)),
{
    let mut v: Vec<Line> = Vec::new();
    let mut k: usize = 0;
    while k < nums.len()
        invariant
            k <= nums@.len(),
            lines_view(v@) == nums@.subrange(0, k as int).map_values(|n: u32| line_at(r@, n)),
        decreases nums@.len() - k,
    {
        let l = line_of(r, nums[k]);
        let ghost before = lines_view(v@);
        v.push(l);
        assert(lines_view(v@) =~= before.push(line_at(r@, nums@[k as int])));
        assert(nums@.subrange(0, k + 1).map_values(|n: u32| line_at(r@, n)) =~= nums@.subrange(0, k as int).map_values(|n: u32| line_at(r@, n)).push(line_at(r@, nums@[k as int])));
        k += 1;
    }
    assert(nums@.subrange(0, nums@.len() as int) =~= nums@);
    v
}

/// The least start after `s` among the functions `es`.
pub(crate) fn next_start_exec(es: &Vec<(String, Function)>, s: u32) -> (r: Option<u32>)
    ensures
        r == next_start(starts_of(es@), s),
{
    let mut best: Option<u32> = None;
    let mut k: usize = 0;
    while k < es.len()
        invariant
            k <= es@.len(),
            best == next_start(starts_of(es@).subrange(0, k as int), s),
        decreases es@.len() - k,
    {
        let t = es[k].1.start;
        assert(starts_of(es@).subrange(0, k + 1).drop_last() =~= starts_of(es@).subrange(0, k as int));
        if t > s {
            best = match best {
                Some(u) => if u <= t { Some(u) } else { Some(t) },
                None => Some(t),
            };
        }
        k += 1;
    }
    assert(starts_of(es@).subrange(0, es@.len() as int) =~= starts_of(es@));
    best
}

/// The package of one file (see [`package_of`]).
fn package_for(rel_path: &str, r: &CovResult, demangle: bool) -> (p: Package)
    requires
        !r.lines@.contains_key(u32::MAX),
    ensures
        package_of(rel_path@, r@, demangle, p),
{
    let nums = line_numbers(&r.lines);
    let end: u64 = if nums.len() == 0 {
        1
    } else {
        assert(r.lines@.dom().contains(nums@.last())) by {
            assert(nums@.to_set().contains(nums@.last()));
        }
        nums[nums.len() - 1] as u64 + 1
    };
    let es = function_map_entries(&r.functions);
    let mut methods: Vec<Method> = Vec::new();
    let mut k: usize = 0;
    while k < es.len()
        invariant
            k <= es@.len(),
            methods@.len() == k,
            end == (if nums@.len() == 0 { 1 } else { nums@.last() + 1 }),
            forall|i: int| 0 <= i < k ==> method_of(es@[i].0@, es@[i].1, starts_of(es@), nums@,
                r@, end as int, demangle, #[trigger] methods@[i]),
        decreases es@.len() - k,
    {
        let f = es[k].1;
        let fend: u64 = match next_start_exec(&es, f.start) {
            Some(t) => t as u64,
            None => end,
        };
        let m = Method {
            name: show_name(es[k].0.as_str(), demangle),
            signature: String::new(),
            lines: lines_between(r, &nums, f.start, fend),
        };
        methods.push(m);
        k += 1;
    }
    let name = match file_stem_of(rel_path) {
        Some(s) => s,
        None => String::new(),
    };
    let class = Class {
        name: name,
        file_name: rel_path.to_owned(),
        lines: lines_at(r, &nums),
        methods: methods,
    };
    let mut classes: Vec<Class> = Vec::new();
    classes.push(class);
    let p = Package { name: rel_path.to_owned(), classes: classes };
    assert(numbers_of(nums@, r@));
    assert(entry_names(es@).to_set() == r@.functions.dom());
    p
}

/// The report of a set of files: one package per file, in the order given.
pub fn get_coverage(results: &[(String, String, CovResult)], sources: Vec<String>, demangle: bool) -> (c: Coverage)
    requires
        forall|i: int| 0 <= i < results@.len() ==> !(#[trigger] results@[i]).2.lines@.contains_key(u32::MAX),
    ensures
        c.sources == sources,
        c.packages@.len() == results@.len(),
        forall|i: int| 0 <= i < results@.len() ==> package_of(results@[i].1@, results@[i].2@, demangle, #[trigger] c.packages@[i]),
{
    let mut packages: Vec<Package> = Vec::new();
    let mut k: usize = 0;
    while k < results.len()
        invariant
            k <= results@.len(),
            packages@.len() == k,
            forall|i: int| 0 <= i < results@.len() ==> !(#[trigger] results@[i]).2.lines@.contains_key(u32::MAX),
            forall|i: int| 0 <= i < k ==> package_of(results@[i].1@, results@[i].2@, demangle, #[trigger] packages@[i]),
        decreases results@.len() - k,
    {
        let p = package_for(results[k].1.as_str(), &results[k].2, demangle);
        packages.push(p);
        k += 1;
    }
    Coverage { sources: sources, packages: packages }
}

/// Counts of a set of lines: covered and valid lines, taken and valid
/// branches.
#[derive(Clone, Copy, Debug, PartialEq, Eq, Structural)]
pub struct CoverageStats {
    pub lines_covered: u128,
    pub lines_valid: u128,
    pub branches_covered: u128,
    pub branches_valid: u128,
}

/// The number of taken branches of a line.
pub open spec fn taken_count(c: Seq<bool>) -> int
    decreases c.len(),
{
    if c.len() == 0 { 0 } else { taken_count(c.drop_last()) + if c.last() { 1int } else { 0int } }
}

/// The hits of a line.
pub open spec fn hits_of(l: LineView) -> u64 {
    match l {
        LineView::Plain { number: _, hits } => hits,
        LineView::Branch { number: _, hits, conditions: _ } => hits,
    }
}

/// The branch outcomes of a line (none for a plain line).
pub open spec fn conditions_of(l: LineView) -> Seq<bool> {
    match l {
        LineView::Plain { .. } => Seq::empty(),
        LineView::Branch { number: _, hits: _, conditions } => conditions,
    }
}

/// The number of lines of a sequence with hits.
pub open spec fn covered_lines(ls: Seq<LineView>) -> int
    decreases ls.len(),
{
    if ls.len() == 0 { 0 } else { covered_lines(ls.drop_last()) + if hits_of(ls.last()) > 0 { 1int } else { 0int } }
}

/// The number of branches of a sequence of lines.
pub open spec fn valid_branches(ls: Seq<LineView>) -> int
    decreases ls.len(),
{
    if ls.len() == 0 { 0 } else { valid_branches(ls.drop_last()) + conditions_of(ls.last()).len() }
}

/// The number of taken branches of a sequence of lines.
pub open spec fn covered_branches(ls: Seq<LineView>) -> int
    decreases ls.len(),
{
    if ls.len() == 0 { 0 } else { covered_branches(ls.drop_last()) + taken_count(conditions_of(ls.last())) }
}

/// Whether the counts are those of a sequence of lines.
pub open spec fn stats_of(ls: Seq<LineView>, st: CoverageStats) -> bool {
    &&& st.lines_covered == covered_lines(ls)
    &&& st.lines_valid == ls.len()
    &&& st.branches_covered == covered_branches(ls)
    &&& st.branches_valid == valid_branches(ls)
}

pub(crate) proof fn lemma_taken_bound(c: Seq<bool>)
    ensures
        0 <= taken_count(c) <= c.len(),
    decreases c.len(),
{
    if c.len() > 0 {
        lemma_taken_bound(c.drop_last());
    }
}

proof fn lemma_counts_bound(ls: Seq<LineView>)
    ensures
        0 <= covered_lines(ls) <= ls.len(),
        0 <= covered_branches(ls) <= valid_branches(ls),
    decreases ls.len(),
{
    if ls.len() > 0 {
        lemma_counts_bound(ls.drop_last());
        lemma_taken_bound(conditions_of(ls.last()));
    }
}

/// The number of taken branches of a line.
fn count_taken(c: &Vec<bool>) -> (n: usize)
    ensures
        n == taken_count(c@),
{
    let mut n: usize = 0;
    let mut k: usize = 0;
    while k < c.len()
        invariant
            k <= c@.len(),
            n == taken_count(c@.subrange(0, k as int)),
            n <= k,
        decreases c@.len() - k,
    {
        assert(c@.subrange(0, k + 1).drop_last() =~= c@.subrange(0, k as int));
        if c[k] {
            n += 1;
        }
        k += 1;
    }
    assert(c@.subrange(0, c@.len() as int) =~= c@);
    n
}

/// The counts of a sequence of lines; `None` where a count would not fit in
/// 128 bits.
pub fn line_stats(lines: &Vec<Line>) -> (r: Option<CoverageStats>)
    ensures
        match r {
            Some(st) => stats_of(lines_view(lines@), st),
            None => valid_branches(lines_view(lines@)) > u128::MAX,
        },
{
    let mut st = CoverageStats { lines_covered: 0, lines_valid: 0, branches_covered: 0, branches_valid: 0 };
    let mut k: usize = 0;
    while k < lines.len()
        invariant
            k <= lines@.len(),
            stats_of(lines_view(lines@.subrange(0, k as int)), st),
        decreases lines@.len() - k,
    {
        let ghost pre = lines_view(lines@.subrange(0, k as int));
        let ghost now = lines_view(lines@.subrange(0, k + 1));
        assert(now.drop_last() =~= pre);
        assert(now.last() == lines@[k as int]@);
        proof {
            lemma_counts_bound(pre);
        }
        let (hits, nb, nt): (u64, usize, usize) = match &lines[k] {
            Line::Plain { number: _, hits } => (*hits, 0, 0),
            Line::Branch { number: _, hits, conditions } => (*hits, conditions.len(), count_taken(conditions)),
        };
        proof {
            lemma_taken_bound(conditions_of(now.last()));
        }
        if st.branches_valid > u128::MAX - (nb as u128) {
            proof {
                lemma_counts_bound(lines_view(lines@));
                lemma_valid_grows(lines_view(lines@), k as int + 1);
                assert(lines_view(lines@).subrange(0, k + 1) =~= now);
            }
            return None;
        }
        st = CoverageStats {
            lines_covered: st.lines_covered + if hits > 0 { 1 } else { 0 },
            lines_valid: st.lines_valid + 1,
            branches_covered: st.branches_covered + nt as u128,
            branches_valid: st.branches_valid + nb as u128,
        };
        k += 1;
    }
    assert(lines@.subrange(0, lines@.len() as int) =~= lines@);
    Some(st)
}

proof fn lemma_valid_grows(ls: Seq<LineView>, k: int)
    requires
        0 <= k <= ls.len(),
    ensures
        valid_branches(ls.subrange(0, k)) <= valid_branches(ls),
    decreases ls.len() - k,
{
    if k < ls.len() {
        lemma_valid_grows(ls, k + 1);
        assert(ls.subrange(0, k + 1).drop_last() =~= ls.subrange(0, k));
    } else {
        assert(ls.subrange(0, k) =~= ls);
    }
}

/// Counts as plain integers: covered and valid lines, taken and valid branches.
pub open spec fn counts_of(ls: Seq<LineView>) -> (int, int, int, int) {
    (covered_lines(ls), ls.len() as int, covered_branches(ls), valid_branches(ls))
}

/// The sum of two sets of counts.
pub open spec fn plus(a: (int, int, int, int), b: (int, int, int, int)) -> (int, int, int, int) {
    (a.0 + b.0, a.1 + b.1, a.2 + b.2, a.3 + b.3)
}

/// The counts of the lines of each class, summed.
pub open spec fn class_totals(cs: Seq<Class>) -> (int, int, int, int)
    decreases cs.len(),
{
    if cs.len() == 0 { (0, 0, 0, 0) } else { plus(class_totals(cs.drop_last()), counts_of(lines_view(cs.last().lines@))) }
}

/// The counts of the classes of each package, summed.
pub open spec fn package_totals(ps: Seq<Package>) -> (int, int, int, int)
    decreases ps.len(),
{
    if ps.len() == 0 { (0, 0, 0, 0) } else { plus(package_totals(ps.drop_last()), class_totals(ps.last().classes@)) }
}

/// Counts that fit in 128 bits, as stats.
pub open spec fn fits(t: (int, int, int, int)) -> bool {
    0 <= t.0 <= u128::MAX && 0 <= t.1 <= u128::MAX && 0 <= t.2 <= u128::MAX && 0 <= t.3 <= u128::MAX
}

/// Stats that hold the given counts.
pub open spec fn holds(st: CoverageStats, t: (int, int, int, int)) -> bool {
    st.lines_covered == t.0 && st.lines_valid == t.1 && st.branches_covered == t.2 && st.branches_valid == t.3
}

proof fn lemma_counts_nonneg(ls: Seq<LineView>)
    ensures
        0 <= counts_of(ls).0 <= counts_of(ls).1,
        0 <= counts_of(ls).2 <= counts_of(ls).3,
{
    lemma_counts_bound(ls);
}

proof fn lemma_class_totals_grow(cs: Seq<Class>, k: int)
    requires
        0 <= k <= cs.len(),
    ensures
        0 <= class_totals(cs.subrange(0, k)).0 <= class_totals(cs).0,
        0 <= class_totals(cs.subrange(0, k)).1 <= class_totals(cs).1,
        0 <= class_totals(cs.subrange(0, k)).2 <= class_totals(cs).2,
        0 <= class_totals(cs.subrange(0, k)).3 <= class_totals(cs).3,
    decreases cs.len() - k,
{
    if k < cs.len() {
        lemma_class_totals_grow(cs, k + 1);
        assert(cs.subrange(0, k + 1).drop_last() =~= cs.subrange(0, k));
        lemma_counts_nonneg(lines_view(cs[k].lines@));
    } else {
        assert(cs.subrange(0, k) =~= cs);
    }
    lemma_class_totals_nonneg(cs.subrange(0, k));
}

proof fn lemma_class_totals_nonneg(cs: Seq<Class>)
    ensures
        0 <= class_totals(cs).0 && 0 <= class_totals(cs).1 && 0 <= class_totals(cs).2 && 0 <= class_totals(cs).3,
    decreases cs.len(),
{
    if cs.len() > 0 {
        lemma_class_totals_nonneg(cs.drop_last());
        lemma_counts_nonneg(lines_view(cs.last().lines@));
    }
}

proof fn lemma_package_totals_grow(ps: Seq<Package>, k: int)
    requires
        0 <= k <= ps.len(),
    ensures
        0 <= package_totals(ps.subrange(0, k)).0 <= package_totals(ps).0,
        0 <= package_totals(ps.subrange(0, k)).1 <= package_totals(ps).1,
        0 <= package_totals(ps.subrange(0, k)).2 <= package_totals(ps).2,
        0 <= package_totals(ps.subrange(0, k)).3 <= package_totals(ps).3,
    decreases ps.len() - k,
{
    if k < ps.len() {
        lemma_package_totals_grow(ps, k + 1);
        assert(ps.subrange(0, k + 1).drop_last() =~= ps.subrange(0, k));
        lemma_class_totals_nonneg(ps[k].classes@);
    } else {
        assert(ps.subrange(0, k) =~= ps);
    }
    lemma_package_totals_nonneg(ps.subrange(0, k));
}

proof fn lemma_package_totals_nonneg(ps: Seq<Package>)
    ensures
        0 <= package_totals(ps).0 && 0 <= package_totals(ps).1 && 0 <= package_totals(ps).2 && 0 <= package_totals(ps).3,
    decreases ps.len(),
{
    if ps.len() > 0 {
        lemma_package_totals_nonneg(ps.drop_last());
        lemma_class_totals_nonneg(ps.last().classes@);
    }
}

/// Adds two sets of counts; `None` where a sum would not fit in 128 bits.
fn add_stats(a: CoverageStats, b: CoverageStats) -> (r: Option<CoverageStats>)
    ensures
        match r {
            Some(st) => st.lines_covered == a.lines_covered + b.lines_covered
                && st.lines_valid == a.lines_valid + b.lines_valid
                && st.branches_covered == a.branches_covered + b.branches_covered
                && st.branches_valid == a.branches_valid + b.branches_valid,
            None => a.lines_covered + b.lines_covered > u128::MAX
                || a.lines_valid + b.lines_valid > u128::MAX
                || a.branches_covered + b.branches_covered > u128::MAX
                || a.branches_valid + b.branches_valid > u128::MAX,
        },
{
    let c1 = a.lines_covered.checked_add(b.lines_covered)?;
    let c2 = a.lines_valid.checked_add(b.lines_valid)?;
    let c3 = a.branches_covered.checked_add(b.branches_covered)?;
    let c4 = a.branches_valid.checked_add(b.branches_valid)?;
    Some(CoverageStats { lines_covered: c1, lines_valid: c2, branches_covered: c3, branches_valid: c4 })
}

/// The counts of the lines of a class, whose lines include those of its
/// methods (as [`get_coverage`] builds them); `None` where a count would not
/// fit in 128 bits.
pub fn class_stats(c: &Class) -> (r: Option<CoverageStats>)
    ensures
        match r {
            Some(st) => holds(st, counts_of(lines_view(c.lines@))),
            None => !fits(counts_of(lines_view(c.lines@))),
        },
{
    proof {
        lemma_counts_nonneg(lines_view(c.lines@));
    }
    line_stats(&c.lines)
}

/// The counts of a package: those of each of its classes, summed; `None`
/// where a count would not fit in 128 bits.
pub fn package_stats(p: &Package) -> (r: Option<CoverageStats>)
    ensures
        match r {
            Some(st) => holds(st, class_totals(p.classes@)),
            None => !fits(class_totals(p.classes@)),
        },
{
    let cs = &p.classes;
    let mut sub = CoverageStats { lines_covered: 0, lines_valid: 0, branches_covered: 0, branches_valid: 0 };
    let mut j: usize = 0;
    while j < cs.len()
        invariant
            cs@ == p.classes@,
            j <= cs@.len(),
            holds(sub, class_totals(cs@.subrange(0, j as int))),
        decreases cs@.len() - j,
    {
        assert(cs@.subrange(0, j + 1).drop_last() =~= cs@.subrange(0, j as int));
        let cst = match class_stats(&cs[j]) {
            Some(x) => x,
            None => {
                proof {
                    lemma_counts_nonneg(lines_view(cs@[j as int].lines@));
                    lemma_class_totals_grow(cs@, j + 1);
                    lemma_class_totals_nonneg(cs@.subrange(0, j as int));
                }
                return None;
            }
        };
        sub = match add_stats(sub, cst) {
            Some(x) => x,
            None => {
                proof {
                    lemma_class_totals_grow(cs@, j + 1);
                }
                return None;
            }
        };
        j += 1;
    }
    assert(cs@.subrange(0, cs@.len() as int) =~= cs@);
    Some(sub)
}

/// The counts of a whole report: those of every class of every package,
/// summed; `None` where a count would not fit in 128 bits.
pub fn coverage_stats(cov: &Coverage) -> (r: Option<CoverageStats>)
    ensures
        match r {
            Some(st) => holds(st, package_totals(cov.packages@)),
            None => !fits(package_totals(cov.packages@)),
        },
{
    let ps = &cov.packages;
    let mut total = CoverageStats { lines_covered: 0, lines_valid: 0, branches_covered: 0, branches_valid: 0 };
    let mut i: usize = 0;
    while i < ps.len()
        invariant
            ps@ == cov.packages@,
            i <= ps@.len(),
            holds(total, package_totals(ps@.subrange(0, i as int))),
        decreases ps@.len() - i,
    {
        let cs = &ps[i].classes;
        let mut sub = CoverageStats { lines_covered: 0, lines_valid: 0, branches_covered: 0, branches_valid: 0 };
        let mut j: usize = 0;
        proof {
            lemma_package_totals_nonneg(ps@.subrange(0, i as int));
        }
        while j < cs.len()
            invariant
                ps@ == cov.packages@,
                i < ps@.len(),
                cs@ == ps@[i as int].classes@,
                holds(total, package_totals(ps@.subrange(0, i as int))),
                j <= cs@.len(),
                holds(sub, class_totals(cs@.subrange(0, j as int))),
            decreases cs@.len() - j,
        {
            assert(cs@.subrange(0, j + 1).drop_last() =~= cs@.subrange(0, j as int));
            let cst = match class_stats(&cs[j]) {
                Some(x) => x,
                None => {
                    proof {
                        lemma_counts_nonneg(lines_view(cs@[j as int].lines@));
                        lemma_class_totals_grow(cs@, j + 1);
                        lemma_package_totals_grow(ps@, i + 1);
                        assert(ps@.subrange(0, i + 1).drop_last() =~= ps@.subrange(0, i as int));
                        lemma_package_totals_nonneg(ps@.subrange(0, i as int));
                    }
                    return None;
                }
            };
            sub = match add_stats(sub, cst) {
                Some(x) => x,
                None => {
                    proof {
                        lemma_class_totals_grow(cs@, j + 1);
                        lemma_package_totals_grow(ps@, i + 1);
                        assert(ps@.subrange(0, i + 1).drop_last() =~= ps@.subrange(0, i as int));
                        lemma_package_totals_nonneg(ps@.subrange(0, i as int));
                    }
                    return None;
                }
            };
            j += 1;
        }
        assert(cs@.subrange(0, cs@.len() as int) =~= cs@);
        assert(ps@.subrange(0, i + 1).drop_last() =~= ps@.subrange(0, i as int));
        total = match add_stats(total, sub) {
            Some(x) => x,
            None => {
                proof {
                    lemma_package_totals_grow(ps@, i + 1);
                }
                return None;
            }
        };
        i += 1;
    }
    assert(ps@.subrange(0, ps@.len() as int) =~= ps@);
    Some(total)
}

/// In the counts of any lines, the covered lines are among the lines and
/// the taken branches among the branches.
pub proof fn law_covered_within_valid(ls: Seq<LineView>)
    ensures
        0 <= covered_lines(ls) <= ls.len(),
        0 <= covered_branches(ls) <= valid_branches(ls),
{
    lemma_counts_bound(ls);
}

/// The lines of each method of a file's package are lines of its class.
pub proof fn law_method_lines_in_class(nums: Seq<u32>, lo: u32, hi: int, n: u32)
    requires
        numbers_between(nums, lo, hi).contains(n),
    ensures
        nums.contains(n),
        lo <= n < hi,
    decreases nums.len(),
{
    if nums.len() > 0 {
        let rest = numbers_between(nums.drop_last(), lo, hi);
        if rest.contains(n) {
            law_method_lines_in_class(nums.drop_last(), lo, hi, n);
            let i = choose|i: int| 0 <= i < nums.drop_last().len() && nums.drop_last()[i] == n;
            assert(nums[i] == n);
        } else {
            assert(n == nums.last());
            assert(nums[nums.len() - 1] == n);
        }
    }
}

/// The least start of `starts` after `s` is one of them, after `s`, and
/// no later than any other start after `s`; there is none exactly where no
/// start is after `s`.
pub proof fn law_next_start_least(starts: Seq<u32>, s: u32)
    ensures
        match next_start(starts, s) {
            Some(t) => starts.contains(t) && t > s
                && forall|i: int| 0 <= i < starts.len() && #[trigger] starts[i] > s ==> t <= starts[i],
            None => forall|i: int| 0 <= i < starts.len() ==> #[trigger] starts[i] <= s,
        },
    decreases starts.len(),
{
    if starts.len() > 0 {
        let pre = starts.drop_last();
        let t = starts.last();
        let n = starts.len() - 1;
        law_next_start_least(pre, s);
        assert(starts[n] == t);
        assert forall|i: int| 0 <= i < pre.len() implies #[trigger] starts[i] == pre[i] by {}
        match next_start(pre, s) {
            Some(u) => {
                let j = choose|j: int| 0 <= j < pre.len() && pre[j] == u;
                assert(starts[j] == u);
                if t > s {
                    let v = if u <= t { u } else { t };
                    assert(next_start(starts, s) == Some(v));
                    assert forall|i: int| 0 <= i < starts.len() && #[trigger] starts[i] > s implies v <= starts[i] by {
                        if i < n { assert(pre[i] == starts[i]); }
                    }
                    assert(starts.contains(v));
                } else {
                    assert(next_start(starts, s) == Some(u));
                    assert forall|i: int| 0 <= i < starts.len() && #[trigger] starts[i] > s implies u <= starts[i] by {
                        if i < n { assert(pre[i] == starts[i]); }
                    }
                }
            },
            None => {
                if t > s {
                    assert(next_start(starts, s) == Some(t));
                    assert forall|i: int| 0 <= i < starts.len() && #[trigger] starts[i] > s implies t <= starts[i] by {
                        if i < n { assert(pre[i] == starts[i]); assert(pre[i] <= s); }
                    }
                    assert(starts.contains(t));
                } else {
                    assert(next_start(starts, s) is None);
                    assert forall|i: int| 0 <= i < starts.len() implies #[trigger] starts[i] <= s by {
                        if i < n { assert(pre[i] == starts[i]); }
                    }
                }
            },
        }
    }
}

/// The number of a line.
pub open spec fn line_number(l: LineView) -> u32 {
    match l {
        LineView::Plain { number, hits: _ } => number,
        LineView::Branch { number, hits: _, conditions: _ } => number,
    }
}

proof fn lemma_numbers_between_has(nums: Seq<u32>, lo: u32, hi: int, n: u32)
    requires
        nums.contains(n),
        lo <= n < hi,
    ensures
        numbers_between(nums, lo, hi).contains(n),
    decreases nums.len(),
{
    let rest = numbers_between(nums.drop_last(), lo, hi);
    if nums.last() == n {
        assert(numbers_between(nums, lo, hi) == rest.push(n));
        assert(rest.push(n)[rest.len() as int] == n);
    } else {
        let i = choose|i: int| 0 <= i < nums.len() && nums[i] == n;
        assert(nums.drop_last()[i] == n);
        lemma_numbers_between_has(nums.drop_last(), lo, hi, n);
        let k = choose|k: int| 0 <= k < rest.len() && rest[k] == n;
        if lo <= nums.last() && nums.last() < hi {
            assert(rest.push(nums.last())[k] == n);
        }
    }
}

/// A method of a file runs from its function's start up to, not including,
/// the next start of a function after it: each of its lines is a line of the
/// file at or after the start and before every later start, and each line of
/// the file in that range (and before `end`) is one of its lines.
pub proof fn law_method_stops_at_next_function(name: Seq<char>, f: Function, starts: Seq<u32>, nums: Seq<u32>,
    r: CovView, end: int, demangle: bool, m: Method)
    requires
        method_of(name, f, starts, nums, r, end, demangle, m),
    ensures
        forall|k: int| 0 <= k < m.lines@.len() ==> {
            let n = line_number(#[trigger] m.lines@[k]@);
            &&& nums.contains(n)
            &&& f.start <= n
            &&& forall|i: int| 0 <= i < starts.len() && #[trigger] starts[i] > f.start ==> n < starts[i]
        },
        forall|n: u32| #[trigger] nums.contains(n) && f.start <= n && n < end
            && (forall|i: int| 0 <= i < starts.len() && #[trigger] starts[i] > f.start ==> n < starts[i])
            ==> exists|k: int| 0 <= k < m.lines@.len() && line_number(#[trigger] m.lines@[k]@) == n,
{
    law_next_start_least(starts, f.start);
    let fend: int = match next_start(starts, f.start) {
        Some(t) => t as int,
        None => end,
    };
    let nb = numbers_between(nums, f.start, fend);
    let lv = lines_view(m.lines@);
    assert(lv == nb.map_values(|n: u32| line_at(r, n)));
    assert(lv.len() == nb.len());
    assert forall|k: int| 0 <= k < m.lines@.len() implies {
        let n = line_number(#[trigger] m.lines@[k]@);
        &&& nums.contains(n)
        &&& f.start <= n
        &&& forall|i: int| 0 <= i < starts.len() && #[trigger] starts[i] > f.start ==> n < starts[i]
    } by {
        assert(lv[k] == m.lines@[k]@);
        assert(lv[k] == line_at(r, nb[k]));
        assert(line_number(line_at(r, nb[k])) == nb[k]);
        assert(nb.contains(nb[k]));
        law_method_lines_in_class(nums, f.start, fend, nb[k]);
        match next_start(starts, f.start) {
            Some(t) => {
                assert forall|i: int| 0 <= i < starts.len() && #[trigger] starts[i] > f.start implies nb[k] < starts[i] by {
                    assert(t <= starts[i]);
                }
            },
            None => {},
        }
    }
    assert forall|n: u32| #[trigger] nums.contains(n) && f.start <= n && n < end
        && (forall|i: int| 0 <= i < starts.len() && #[trigger] starts[i] > f.start ==> n < starts[i])
        implies exists|k: int| 0 <= k < m.lines@.len() && line_number(#[trigger] m.lines@[k]@) == n by {
        match next_start(starts, f.start) {
            Some(t) => {
                let j = choose|j: int| 0 <= j < starts.len() && starts[j] == t;
                assert(starts[j] > f.start);
            },
            None => {},
        }
        assert(n < fend);
        lemma_numbers_between_has(nums, f.start, fend, n);
        let k = choose|k: int| 0 <= k < nb.len() && nb[k] == n;
        assert(lv[k] == m.lines@[k]@);
        assert(line_number(line_at(r, nb[k])) == nb[k]);
        assert(line_number(m.lines@[k]@) == n);
    }
}

/// A start tag without attributes.
pub open spec fn open_tag(n: Seq<char>) -> XmlOutView {
    XmlOutView::Start(n, Seq::empty())
}

/// The `condition` tags of a line's branches, numbered from 0.
pub open spec fn condition_events(cs: Seq<bool>) -> Seq<XmlOutView>
    decreases cs.len(),
{
    if cs.len() == 0 {
        Seq::empty()
    } else {
        condition_events(cs.drop_last()).push(XmlOutView::Empty("condition"@, seq![
            ("number"@, decimal((cs.len() - 1) as nat)),
            ("type"@, "jump"@),
            ("coverage"@, if cs.last() { "1"@ } else { "0"@ })]))
    }
}

/// The tags of a line: an empty `line` tag with its number and hits, or,
/// for a line with branches, a `line` tag marked as a branch holding its
/// conditions.
pub open spec fn line_events(l: LineView) -> Seq<XmlOutView> {
    match l {
        LineView::Plain { number, hits } => seq![XmlOutView::Empty("line"@, seq![
            ("number"@, decimal(number as nat)), ("hits"@, decimal(hits as nat))])],
        LineView::Branch { number, hits, conditions } => seq![
            XmlOutView::Start("line"@, seq![("number"@, decimal(number as nat)), ("hits"@, decimal(hits as nat)), ("branch"@, "true"@)]),
            open_tag("conditions"@)] + condition_events(conditions) + seq![XmlOutView::End("conditions"@), XmlOutView::End("line"@)],
    }
}

/// The tags of lines, one line after the other.
pub open spec fn lines_body(ls: Seq<LineView>) -> Seq<XmlOutView>
    decreases ls.len(),
{
    if ls.len() == 0 { Seq::empty() } else { lines_body(ls.drop_last()) + line_events(ls.last()) }
}

/// A `lines` element holding the lines.
pub open spec fn lines_events(ls: Seq<LineView>) -> Seq<XmlOutView> {
    seq![open_tag("lines"@)] + lines_body(ls) + seq![XmlOutView::End("lines"@)]
}

/// The rate attributes of an element: its line rate and branch rate as
/// given, and a complexity of 0.
pub open spec fn rate_attrs(r: (Seq<char>, Seq<char>)) -> Seq<(Seq<char>, Seq<char>)> {
    seq![("line-rate"@, r.0), ("branch-rate"@, r.1), ("complexity"@, "0"@)]
}

/// A `method` element: its name, signature and rates, then its lines.
pub open spec fn method_events(m: Method, r: (Seq<char>, Seq<char>)) -> Seq<XmlOutView> {
    seq![XmlOutView::Start("method"@, seq![("name"@, m.name@), ("signature"@, m.signature@)] + rate_attrs(r))]
        + lines_events(lines_view(m.lines@)) + seq![XmlOutView::End("method"@)]
}

/// The `method` elements of methods, with the rates from `rates[k]` on.
pub open spec fn methods_body(ms: Seq<Method>, rates: Seq<(Seq<char>, Seq<char>)>, k: int) -> Seq<XmlOutView>
    decreases ms.len(),
{
    if ms.len() == 0 {
        Seq::empty()
    } else {
        methods_body(ms.drop_last(), rates, k) + method_events(ms.last(), rates[k + ms.len() - 1])
    }
}

/// The rates a class takes: its own, then one per method.
pub open spec fn class_slots(c: Class) -> int {
    1 + c.methods@.len() as int
}

/// The rates classes take.
pub open spec fn classes_slots(cs: Seq<Class>) -> int
    decreases cs.len(),
{
    if cs.len() == 0 { 0 } else { classes_slots(cs.drop_last()) + class_slots(cs.last()) }
}

/// A `class` element with its rates at `rates[k]`: its methods (rates
/// from `k + 1` on), then its lines. It is closed after the classes of its
/// package.
pub open spec fn class_events(c: Class, rates: Seq<(Seq<char>, Seq<char>)>, k: int) -> Seq<XmlOutView> {
    seq![XmlOutView::Start("class"@, seq![("name"@, c.name@), ("filename"@, c.file_name@)] + rate_attrs(rates[k])),
        open_tag("methods"@)]
        + methods_body(c.methods@, rates, k + 1) + seq![XmlOutView::End("methods"@)] + lines_events(lines_view(c.lines@))
}

/// The `class` elements of classes, with the rates from `rates[k]` on.
pub open spec fn classes_body(cs: Seq<Class>, rates: Seq<(Seq<char>, Seq<char>)>, k: int) -> Seq<XmlOutView>
    decreases cs.len(),
{
    if cs.len() == 0 {
        Seq::empty()
    } else {
        classes_body(cs.drop_last(), rates, k) + class_events(cs.last(), rates, k + classes_slots(cs.drop_last()))
    }
}

/// The rates a package takes: its own, then those of its classes.
pub open spec fn package_slots(p: Package) -> int {
    1 + classes_slots(p.classes@)
}

/// The rates packages take.
pub open spec fn packages_slots(ps: Seq<Package>) -> int
    decreases ps.len(),
{
    if ps.len() == 0 { 0 } else { packages_slots(ps.drop_last()) + package_slots(ps.last()) }
}

/// The rates a report takes: its own, then those of its packages, one per
/// report, package, class and method in the order of the document.
pub open spec fn rate_slots(ps: Seq<Package>) -> int {
    1 + packages_slots(ps)
}

/// A `package` element with its rates at `rates[k]`: its name, its classes
/// (rates from `k + 1` on), and the closing `class` tag.
pub open spec fn package_events(p: Package, rates: Seq<(Seq<char>, Seq<char>)>, k: int) -> Seq<XmlOutView> {
    seq![XmlOutView::Start("package"@, seq![("name"@, p.name@)] + rate_attrs(rates[k])), open_tag("classes"@)]
        + classes_body(p.classes@, rates, k + 1)
        + seq![XmlOutView::End("class"@), XmlOutView::End("classes"@), XmlOutView::End("package"@)]
}

/// The `package` elements of packages, with the rates from `rates[k]` on.
pub open spec fn packages_body(ps: Seq<Package>, rates: Seq<(Seq<char>, Seq<char>)>, k: int) -> Seq<XmlOutView>
    decreases ps.len(),
{
    if ps.len() == 0 {
        Seq::empty()
    } else {
        packages_body(ps.drop_last(), rates, k) + package_events(ps.last(), rates, k + packages_slots(ps.drop_last()))
    }
}

/// The `source` elements of the source directories.
pub open spec fn sources_body(ss: Seq<String>) -> Seq<XmlOutView>
    decreases ss.len(),
{
    if ss.len() == 0 {
        Seq::empty()
    } else {
        sources_body(ss.drop_last()) + seq![open_tag("source"@), XmlOutView::Text(ss.last()@), XmlOutView::End("source"@)]
    }
}

/// The doctype of a Cobertura report.
pub open spec fn cobertura_doctype() -> Seq<char> {
    " coverage SYSTEM 'http://cobertura.sourceforge.net/xml/coverage-04.dtd'"@
}

/// The events of a Cobertura report: the declaration, the doctype, the
/// `coverage` element with the report's counts, its rates (`rates[0]`), its
/// version and `timestamp`, then the sources and the packages in order.
/// `None` where a count of the report does not fit in 128 bits.
pub open spec fn cobertura_layout(ps: Seq<Package>, ss: Seq<String>, rates: Seq<(Seq<char>, Seq<char>)>, timestamp: Seq<char>)
    -> Option<Seq<XmlOutView>>
{
    let t = package_totals(ps);
    if !fits(t) {
        None
    } else {
        Some(seq![
            XmlOutView::Decl("1.0"@),
            XmlOutView::DocType(cobertura_doctype()),
            XmlOutView::Start("coverage"@, seq![
                ("lines-covered"@, decimal(t.0 as nat)),
                ("lines-valid"@, decimal(t.1 as nat)),
                ("line-rate"@, rates[0].0),
                ("branches-covered"@, decimal(t.2 as nat)),
                ("branches-valid"@, decimal(t.3 as nat)),
                ("branch-rate"@, rates[0].1),
                ("complexity"@, "0"@),
                ("version"@, "1.9"@),
                ("timestamp"@, timestamp)]),
            open_tag("sources"@)]
            + sources_body(ss) + seq![XmlOutView::End("sources"@), open_tag("packages"@)]
            + packages_body(ps, rates, 1) + seq![XmlOutView::End("packages"@), XmlOutView::End("coverage"@)])
    }
}

/// Rates as spec values.
pub open spec fn rates_view(v: Seq<(String, String)>) -> Seq<(Seq<char>, Seq<char>)> {
    v.map_values(|r: (String, String)| (r.0@, r.1@))
}


proof fn lemma_classes_slots_nonneg(cs: Seq<Class>)
    ensures
        classes_slots(cs) >= 0,
    decreases cs.len(),
{
    if cs.len() > 0 {
        lemma_classes_slots_nonneg(cs.drop_last());
    }
}

proof fn lemma_classes_slots_prefix(cs: Seq<Class>, j: int)
    requires
        0 <= j <= cs.len(),
    ensures
        0 <= classes_slots(cs.subrange(0, j)) <= classes_slots(cs),
    decreases cs.len() - j,
{
    lemma_classes_slots_nonneg(cs.subrange(0, j));
    if j < cs.len() {
        lemma_classes_slots_prefix(cs, j + 1);
        assert(cs.subrange(0, j + 1).drop_last() =~= cs.subrange(0, j));
    } else {
        assert(cs.subrange(0, j) =~= cs);
    }
}

proof fn lemma_packages_slots_nonneg(ps: Seq<Package>)
    ensures
        packages_slots(ps) >= 0,
    decreases ps.len(),
{
    if ps.len() > 0 {
        lemma_packages_slots_nonneg(ps.drop_last());
        lemma_classes_slots_nonneg(ps.last().classes@);
    }
}

proof fn lemma_packages_slots_prefix(ps: Seq<Package>, j: int)
    requires
        0 <= j <= ps.len(),
    ensures
        0 <= packages_slots(ps.subrange(0, j)) <= packages_slots(ps),
    decreases ps.len() - j,
{
    lemma_packages_slots_nonneg(ps.subrange(0, j));
    if j < ps.len() {
        lemma_packages_slots_prefix(ps, j + 1);
        assert(ps.subrange(0, j + 1).drop_last() =~= ps.subrange(0, j));
        lemma_classes_slots_nonneg(ps[j].classes@);
    } else {
        assert(ps.subrange(0, j) =~= ps);
    }
}

fn push_ev(evs: &mut Vec<XmlOut>, e: XmlOut)
    ensures
        xml_outs_view(final(evs)@) == xml_outs_view(old(evs)@).push(e@),
{
    let ghost v = e@;
    evs.push(e);
    assert(xml_outs_view(evs@) =~= xml_outs_view(old(evs)@).push(v));
}

fn open_ev(n: &str) -> (e: XmlOut)
    ensures
        e@ == open_tag(n@),
{
    let a: Vec<(String, String)> = Vec::new();
    assert(attrs_view(a@) =~= Seq::empty());
    XmlOut::Start(n.to_string(), a)
}

fn end_ev(n: &str) -> (e: XmlOut)
    ensures
        e@ == XmlOutView::End(n@),
{
    XmlOut::End(n.to_string())
}

fn push_attr(a: &mut Vec<(String, String)>, k: &str, v: String)
    ensures
        attrs_view(final(a)@) == attrs_view(old(a)@).push((k@, v@)),
{
    let ghost vv = v@;
    a.push((k.to_string(), v));
    assert(attrs_view(a@) =~= attrs_view(old(a)@).push((k@, vv)));
}

fn push_rate_attrs(a: &mut Vec<(String, String)>, r: &(String, String))
    ensures
        attrs_view(final(a)@) == attrs_view(old(a)@) + rate_attrs((r.0@, r.1@)),
{
    let ghost start = attrs_view(a@);
    push_attr(a, "line-rate", r.0.clone());
    push_attr(a, "branch-rate", r.1.clone());
    push_attr(a, "complexity", "0".to_string());
    assert(attrs_view(a@) =~= start + rate_attrs((r.0@, r.1@)));
}

fn push_conditions(evs: &mut Vec<XmlOut>, cs: &Vec<bool>)
    ensures
        xml_outs_view(final(evs)@) == xml_outs_view(old(evs)@) + condition_events(cs@),
{
    let ghost start = xml_outs_view(evs@);
    let mut i: usize = 0;
    assert(start + condition_events(cs@.subrange(0, 0)) =~= start);
    while i < cs.len()
        invariant
            i <= cs@.len(),
            xml_outs_view(evs@) == start + condition_events(cs@.subrange(0, i as int)),
        decreases cs@.len() - i,
    {
        let mut a: Vec<(String, String)> = Vec::new();
        assert(attrs_view(a@) =~= Seq::empty());
        push_attr(&mut a, "number", decimal_string(i as u64));
        push_attr(&mut a, "type", "jump".to_string());
        let c = if cs[i] { "1".to_string() } else { "0".to_string() };
        push_attr(&mut a, "coverage", c);
        assert(attrs_view(a@) =~= seq![("number"@, decimal(i as nat)), ("type"@, "jump"@),
            ("coverage"@, if cs@[i as int] { "1"@ } else { "0"@ })]);
        push_ev(evs, XmlOut::Empty("condition".to_string(), a));
        proof {
            let s1 = cs@.subrange(0, i as int + 1);
            assert(s1.drop_last() =~= cs@.subrange(0, i as int));
            assert(s1.last() == cs@[i as int]);
            assert(xml_outs_view(evs@) =~= start + condition_events(s1));
        }
        i += 1;
    }
    assert(cs@.subrange(0, cs@.len() as int) =~= cs@);
}

fn push_line(evs: &mut Vec<XmlOut>, l: &Line)
    ensures
        xml_outs_view(final(evs)@) == xml_outs_view(old(evs)@) + line_events(l@),
{
    let ghost start = xml_outs_view(evs@);
    let mut a: Vec<(String, String)> = Vec::new();
    assert(attrs_view(a@) =~= Seq::empty());
    match l {
        Line::Plain { number, hits } => {
            push_attr(&mut a, "number", decimal_string(*number as u64));
            push_attr(&mut a, "hits", decimal_string(*hits));
            assert(attrs_view(a@) =~= seq![("number"@, decimal(*number as nat)), ("hits"@, decimal(*hits as nat))]);
            push_ev(evs, XmlOut::Empty("line".to_string(), a));
            assert(xml_outs_view(evs@) =~= start + line_events(l@));
        }
        Line::Branch { number, hits, conditions } => {
            push_attr(&mut a, "number", decimal_string(*number as u64));
            push_attr(&mut a, "hits", decimal_string(*hits));
            push_attr(&mut a, "branch", "true".to_string());
            assert(attrs_view(a@) =~= seq![("number"@, decimal(*number as nat)), ("hits"@, decimal(*hits as nat)), ("branch"@, "true"@)]);
            push_ev(evs, XmlOut::Start("line".to_string(), a));
            push_ev(evs, open_ev("conditions"));
            push_conditions(evs, conditions);
            push_ev(evs, end_ev("conditions"));
            push_ev(evs, end_ev("line"));
            assert(xml_outs_view(evs@) =~= start + line_events(l@));
        }
    }
}

fn push_lines(evs: &mut Vec<XmlOut>, ls: &Vec<Line>)
    ensures
        xml_outs_view(final(evs)@) == xml_outs_view(old(evs)@) + lines_events(lines_view(ls@)),
{
    let ghost start = xml_outs_view(evs@);
    let ghost lv = lines_view(ls@);
    push_ev(evs, open_ev("lines"));
    let mut i: usize = 0;
    assert(start.push(open_tag("lines"@)) + lines_body(lv.subrange(0, 0)) =~= start.push(open_tag("lines"@)));
    while i < ls.len()
        invariant
            i <= ls@.len(),
            lv == lines_view(ls@),
            xml_outs_view(evs@) == start.push(open_tag("lines"@)) + lines_body(lv.subrange(0, i as int)),
        decreases ls@.len() - i,
    {
        push_line(evs, &ls[i]);
        proof {
            let s1 = lv.subrange(0, i as int + 1);
            assert(s1.drop_last() =~= lv.subrange(0, i as int));
            assert(s1.last() == ls@[i as int]@);
            assert(xml_outs_view(evs@) =~= start.push(open_tag("lines"@)) + lines_body(s1));
        }
        i += 1;
    }
    assert(lv.subrange(0, ls@.len() as int) =~= lv);
    push_ev(evs, end_ev("lines"));
    assert(xml_outs_view(evs@) =~= start + lines_events(lv));
}

fn push_method(evs: &mut Vec<XmlOut>, m: &Method, r: &(String, String))
    ensures
        xml_outs_view(final(evs)@) == xml_outs_view(old(evs)@) + method_events(*m, (r.0@, r.1@)),
{
    let ghost start = xml_outs_view(evs@);
    let mut a: Vec<(String, String)> = Vec::new();
    assert(attrs_view(a@) =~= Seq::empty());
    push_attr(&mut a, "name", m.name.clone());
    push_attr(&mut a, "signature", m.signature.clone());
    push_rate_attrs(&mut a, r);
    assert(attrs_view(a@) =~= seq![("name"@, m.name@), ("signature"@, m.signature@)] + rate_attrs((r.0@, r.1@)));
    push_ev(evs, XmlOut::Start("method".to_string(), a));
    push_lines(evs, &m.lines);
    push_ev(evs, end_ev("method"));
    assert(xml_outs_view(evs@) =~= start + method_events(*m, (r.0@, r.1@)));
}

fn push_class(evs: &mut Vec<XmlOut>, c: &Class, rates: &Vec<(String, String)>, k: usize)
    requires
        k + class_slots(*c) <= rates@.len(),
    ensures
        xml_outs_view(final(evs)@) == xml_outs_view(old(evs)@) + class_events(*c, rates_view(rates@), k as int),
{
    let ghost start = xml_outs_view(evs@);
    let ghost rv = rates_view(rates@);
    let mut a: Vec<(String, String)> = Vec::new();
    assert(attrs_view(a@) =~= Seq::empty());
    push_attr(&mut a, "name", c.name.clone());
    push_attr(&mut a, "filename", c.file_name.clone());
    push_rate_attrs(&mut a, &rates[k]);
    assert(attrs_view(a@) =~= seq![("name"@, c.name@), ("filename"@, c.file_name@)] + rate_attrs(rv[k as int]));
    push_ev(evs, XmlOut::Start("class".to_string(), a));
    push_ev(evs, open_ev("methods"));
    let ghost mid = xml_outs_view(evs@);
    let ms = &c.methods;
    let nr = rates.len();
    let mut j: usize = 0;
    assert(mid + methods_body(ms@.subrange(0, 0), rv, k + 1) =~= mid);
    while j < ms.len()
        invariant
            j <= ms@.len(),
            ms@ == c.methods@,
            nr == rates@.len(),
            k + 1 + ms@.len() <= rates@.len(),
            rv == rates_view(rates@),
            xml_outs_view(evs@) == mid + methods_body(ms@.subrange(0, j as int), rv, k + 1),
        decreases ms@.len() - j,
    {
        push_method(evs, &ms[j], &rates[k + 1 + j]);
        proof {
            let s1 = ms@.subrange(0, j as int + 1);
            assert(s1.drop_last() =~= ms@.subrange(0, j as int));
            assert(rv[k + 1 + j] == (rates@[k + 1 + j].0@, rates@[k + 1 + j].1@));
            assert(xml_outs_view(evs@) =~= mid + methods_body(s1, rv, k + 1));
        }
        j += 1;
    }
    assert(ms@.subrange(0, ms@.len() as int) =~= ms@);
    push_ev(evs, end_ev("methods"));
    push_lines(evs, &c.lines);
    assert(rv[k as int] == (rates@[k as int].0@, rates@[k as int].1@));
    assert(xml_outs_view(evs@) =~= start + class_events(*c, rv, k as int));
}

fn push_package(evs: &mut Vec<XmlOut>, p: &Package, rates: &Vec<(String, String)>, k: usize)
    requires
        k + package_slots(*p) <= rates@.len(),
    ensures
        xml_outs_view(final(evs)@) == xml_outs_view(old(evs)@) + package_events(*p, rates_view(rates@), k as int),
{
    let ghost start = xml_outs_view(evs@);
    let ghost rv = rates_view(rates@);
    let mut a: Vec<(String, String)> = Vec::new();
    assert(attrs_view(a@) =~= Seq::empty());
    push_attr(&mut a, "name", p.name.clone());
    proof { lemma_classes_slots_nonneg(p.classes@); }
    push_rate_attrs(&mut a, &rates[k]);
    assert(attrs_view(a@) =~= seq![("name"@, p.name@)] + rate_attrs(rv[k as int]));
    push_ev(evs, XmlOut::Start("package".to_string(), a));
    push_ev(evs, open_ev("classes"));
    let ghost mid = xml_outs_view(evs@);
    let cs = &p.classes;
    let nr = rates.len();
    let mut j: usize = 0;
    let mut at: usize = k + 1;
    assert(mid + classes_body(cs@.subrange(0, 0), rv, k + 1) =~= mid);
    while j < cs.len()
        invariant
            j <= cs@.len(),
            cs@ == p.classes@,
            nr == rates@.len(),
            k + 1 + classes_slots(cs@) <= rates@.len(),
            at == k + 1 + classes_slots(cs@.subrange(0, j as int)),
            rv == rates_view(rates@),
            xml_outs_view(evs@) == mid + classes_body(cs@.subrange(0, j as int), rv, k + 1),
        decreases cs@.len() - j,
    {
        let ghost s1 = cs@.subrange(0, j as int + 1);
        proof {
            assert(s1.drop_last() =~= cs@.subrange(0, j as int));
            lemma_classes_slots_prefix(cs@, j as int + 1);
        }
        push_class(evs, &cs[j], rates, at);
        proof {
            assert(xml_outs_view(evs@) =~= mid + classes_body(s1, rv, k + 1));
        }
        at = at + 1 + cs[j].methods.len();
        j += 1;
    }
    assert(cs@.subrange(0, cs@.len() as int) =~= cs@);
    push_ev(evs, end_ev("class"));
    push_ev(evs, end_ev("classes"));
    push_ev(evs, end_ev("package"));
    assert(rv[k as int] == (rates@[k as int].0@, rates@[k as int].1@));
    assert(xml_outs_view(evs@) =~= start + package_events(*p, rv, k as int));
}

/// The bytes of a Cobertura report of `cov` as quick-xml writes them
/// (indented where `pretty`): the events of [`cobertura_layout`], with the
/// report's counts, the given rates (one pair of line rate and branch rate
/// per report, package, class and method, in the order of the document)
/// and the given timestamp. `None` exactly where a count of the report does
/// not fit in 128 bits.
pub fn cobertura_document(cov: &Coverage, rates: &Vec<(String, String)>, timestamp: &str, pretty: bool) -> (out: Option<Vec<u8>>)
    requires
        rates@.len() == rate_slots(cov.packages@),
    ensures
        match cobertura_layout(cov.packages@, cov.sources@, rates_view(rates@), timestamp@) {
            Some(evs) => out matches Some(v) && v@ == xml_written(evs, pretty),
            None => out is None,
        },
{
    let st = match coverage_stats(cov) {
        Some(st) => st,
        None => return None,
    };
    let ghost ps = cov.packages@;
    let ghost ss = cov.sources@;
    let ghost rv = rates_view(rates@);
    let ghost t = package_totals(ps);
    proof { lemma_packages_slots_nonneg(ps); }
    let mut evs: Vec<XmlOut> = Vec::new();
    assert(xml_outs_view(evs@) =~= Seq::empty());
    push_ev(&mut evs, XmlOut::Decl("1.0".to_string()));
    push_ev(&mut evs, XmlOut::DocType(" coverage SYSTEM 'http://cobertura.sourceforge.net/xml/coverage-04.dtd'".to_string()));
    let mut a: Vec<(String, String)> = Vec::new();
    assert(attrs_view(a@) =~= Seq::empty());
    push_attr(&mut a, "lines-covered", decimal_string_wide(st.lines_covered));
    push_attr(&mut a, "lines-valid", decimal_string_wide(st.lines_valid));
    push_attr(&mut a, "line-rate", rates[0].0.clone());
    push_attr(&mut a, "branches-covered", decimal_string_wide(st.branches_covered));
    push_attr(&mut a, "branches-valid", decimal_string_wide(st.branches_valid));
    push_attr(&mut a, "branch-rate", rates[0].1.clone());
    push_attr(&mut a, "complexity", "0".to_string());
    push_attr(&mut a, "version", "1.9".to_string());
    push_attr(&mut a, "timestamp", timestamp.to_string());
    assert(attrs_view(a@) =~= seq![
                ("lines-covered"@, decimal(t.0 as nat)),
                ("lines-valid"@, decimal(t.1 as nat)),
                ("line-rate"@, rv[0].0),
                ("branches-covered"@, decimal(t.2 as nat)),
                ("branches-valid"@, decimal(t.3 as nat)),
                ("branch-rate"@, rv[0].1),
                ("complexity"@, "0"@),
                ("version"@, "1.9"@),
                ("timestamp"@, timestamp@)]);
    push_ev(&mut evs, XmlOut::Start("coverage".to_string(), a));
    push_ev(&mut evs, open_ev("sources"));
    let ghost head = xml_outs_view(evs@);
    let ss_v = &cov.sources;
    let mut i: usize = 0;
    assert(head + sources_body(ss.subrange(0, 0)) =~= head);
    while i < ss_v.len()
        invariant
            i <= ss.len(),
            ss_v@ == ss,
            xml_outs_view(evs@) == head + sources_body(ss.subrange(0, i as int)),
        decreases ss.len() - i,
    {
        push_ev(&mut evs, open_ev("source"));
        push_ev(&mut evs, XmlOut::Text(ss_v[i].clone()));
        push_ev(&mut evs, end_ev("source"));
        proof {
            let s1 = ss.subrange(0, i as int + 1);
            assert(s1.drop_last() =~= ss.subrange(0, i as int));
            assert(xml_outs_view(evs@) =~= head + sources_body(s1));
        }
        i += 1;
    }
    assert(ss.subrange(0, ss.len() as int) =~= ss);
    push_ev(&mut evs, end_ev("sources"));
    push_ev(&mut evs, open_ev("packages"));
    let ghost mid = xml_outs_view(evs@);
    let pv = &cov.packages;
    let nr = rates.len();
    let mut j: usize = 0;
    let mut at: usize = 1;
    assert(mid + packages_body(ps.subrange(0, 0), rv, 1) =~= mid);
    while j < pv.len()
        invariant
            j <= ps.len(),
            pv@ == ps,
            nr == rates@.len(),
            1 + packages_slots(ps) == rates@.len(),
            at == 1 + packages_slots(ps.subrange(0, j as int)),
            rv == rates_view(rates@),
            xml_outs_view(evs@) == mid + packages_body(ps.subrange(0, j as int), rv, 1),
        decreases ps.len() - j,
    {
        let ghost s1 = ps.subrange(0, j as int + 1);
        proof {
            assert(s1.drop_last() =~= ps.subrange(0, j as int));
            lemma_packages_slots_prefix(ps, j as int + 1);
            lemma_classes_slots_nonneg(ps[j as int].classes@);
        }
        push_package(&mut evs, &pv[j], rates, at);
        proof {
            assert(xml_outs_view(evs@) =~= mid + packages_body(s1, rv, 1));
        }
        let n = package_rates(&pv[j]);
        at = at + n;
        j += 1;
    }
    assert(ps.subrange(0, ps.len() as int) =~= ps);
    push_ev(&mut evs, end_ev("packages"));
    push_ev(&mut evs, end_ev("coverage"));
    assert(rv[0] == (rates@[0].0@, rates@[0].1@));
    assert(xml_outs_view(evs@) =~= cobertura_layout(ps, ss, rv, timestamp@).unwrap());
    Some(write_xml(&evs, pretty))
}

/// The number of rates a package takes.
fn package_rates(p: &Package) -> (n: usize)
    requires
        package_slots(*p) <= usize::MAX,
    ensures
        n == package_slots(*p),
{
    let cs = &p.classes;
    let mut n: usize = 1;
    let mut j: usize = 0;
    proof { lemma_classes_slots_nonneg(cs@); }
    while j < cs.len()
        invariant
            j <= cs@.len(),
            cs@ == p.classes@,
            1 + classes_slots(cs@) <= usize::MAX,
            n == 1 + classes_slots(cs@.subrange(0, j as int)),
        decreases cs@.len() - j,
    {
        proof {
            assert(cs@.subrange(0, j as int + 1).drop_last() =~= cs@.subrange(0, j as int));
            lemma_classes_slots_prefix(cs@, j as int + 1);
        }
        n = n + 1 + cs[j].methods.len();
        j += 1;
    }
    assert(cs@.subrange(0, cs@.len() as int) =~= cs@);
    n
}

}
