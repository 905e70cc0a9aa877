use vstd::prelude::*;
use std::collections::BTreeMap;
use crate::defs::{CovResult, CovView, Function, function_map_entries, entry_names, branches_view};
use crate::text::{chars_of, string_of};

verus! {

/// Whether a file counts as covered: some line ran, and, where it has more
/// than one function, some function other than the top level ran.
pub open spec fn covered(r: CovView) -> bool {
    &&& exists|k: u32| #[trigger] r.lines.contains_key(k) && r.lines[k] != 0
    &&& (r.functions.dom().len() <= 1
        || exists|n: Seq<char>| #[trigger] r.functions.contains_key(n) && r.functions[n].executed && n != "top-level"@)
}

/// Whether a file counts as covered (see [`covered`]).
pub fn is_covered(result: &CovResult) -> (b: bool)
    ensures
        b == covered(result@),
{
    let ks = crate::order::line_numbers(&result.lines);
    let mut any_line = false;
    let mut k: usize = 0;
    while k < ks.len()
        invariant
            k <= ks@.len(),
            ks@.to_set() == result.lines@.dom(),
            any_line == exists|j: int| 0 <= j < k && result.lines@[#[trigger] ks@[j]] != 0,
        decreases ks@.len() - k,
    {
        let c: u64 = match result.lines.get(&ks[k]) {
            Some(c) => *c,
            None => 0,
        };
        assert(result.lines@.dom().contains(ks@[k as int])) by {
            assert(ks@.to_set().contains(ks@[k as int]));
        }
        if c != 0 {
            any_line = true;
        }
        k += 1;
    }
    assert(result@.lines == result.lines@);
    assert(k == ks@.len());
    assert(any_line == exists|x: u32| #[trigger] result@.lines.contains_key(x) && result@.lines[x] != 0) by {
        if !any_line {
            assert forall|x: u32| #[trigger] result@.lines.contains_key(x) implies result@.lines[x] == 0 by {
                assert(ks@.to_set().contains(x));
                let j = choose|j: int| 0 <= j < ks@.len() && ks@[j] == x;
                assert(result.lines@[ks@[j]] == 0);
            }
        } else {
            let j = choose|j: int| 0 <= j < ks@.len() && result.lines@[#[trigger] ks@[j]] != 0;
            assert(ks@.to_set().contains(ks@[j]));
        }
    }
    if !any_line {
        return false;
    }
    let es = function_map_entries(&result.functions);
    proof {
        entry_names(es@).unique_seq_to_set();
    }
    let top = chars_of("top-level");
    let mut any_fn = false;
    let mut k: usize = 0;
    while k < es.len()
        invariant
            k <= es@.len(),
            top@ == "top-level"@,
            any_fn == exists|j: int| 0 <= j < k && es@[j].1.executed && #[trigger] es@[j].0@ != "top-level"@,
        decreases es@.len() - k,
    {
        if es[k].1.executed {
            let name = chars_of(es[k].0.as_str());
            let mut same = name.len() == top.len();
            let mut j: usize = 0;
            while same && j < name.len()
                invariant
                    j <= name@.len(),
                    same ==> name@.len() == top@.len(),
                    same == (name@.len() == top@.len() && forall|t: int| 0 <= t < j ==> name@[t] == top@[t]),
                decreases name@.len() - j,
            {
                if name[j] != top[j] {
                    same = false;
                }
                j += 1;
            }
            if same {
                assert(name@ =~= top@);
            } else {
                assert(name@ != top@);
            }
            if !same {
                any_fn = true;
            }
        }
        k += 1;
    }
    proof {
        let fns = result@.functions;
        assert(entry_names(es@).len() == es@.len());
        if any_fn {
            let j = choose|j: int| 0 <= j < es@.len() && es@[j].1.executed && #[trigger] es@[j].0@ != "top-level"@;
            assert(entry_names(es@)[j] == es@[j].0@);
            assert(entry_names(es@).to_set().contains(es@[j].0@));
            assert(fns.contains_key(es@[j].0@) && fns[es@[j].0@].executed);
        } else {
            assert forall|n: Seq<char>| #[trigger] fns.contains_key(n) && fns[n].executed implies n == "top-level"@ by {
                assert(entry_names(es@).to_set().contains(n));
                let j = choose|j: int| 0 <= j < entry_names(es@).len() && entry_names(es@)[j] == n;
                assert(es@[j].0@ == n);
            }
        }
    }
    es.len() <= 1 || any_fn
}

#[verifier::external_type_specification]
#[verifier::external_body]
pub struct ExRegex(regex::Regex);

/// Whether `Regex::new` accepts a pattern.
pub uninterp spec fn regex_compiles(pattern: Seq<char>) -> bool;

/// What `Regex::is_match` says of a text, for the regex compiled from a pattern.
pub uninterp spec fn regex_matches(pattern: Seq<char>, text: Seq<char>) -> bool;

/// A regex together with the pattern it was compiled from.
pub struct CompiledRegex {
    regex: regex::Regex,
    pattern: String,
}

impl CompiledRegex {
    /// The pattern the regex was compiled from.
    pub closed spec fn pattern(&self) -> Seq<char> {
        self.pattern@
    }

    /// Calls `Regex::new`: the regex of a pattern, where the pattern is valid.
    #[verifier::external_body]
    pub fn compile(pattern: &str) -> (r: Option<CompiledRegex>)
        ensures
            r is Some <==> regex_compiles(pattern@),
            r matches Some(c) ==> c.pattern() == pattern@,
    {
        match regex::Regex::new(pattern) {
            Ok(regex) => Some(CompiledRegex { regex, pattern: pattern.to_string() }),
            Err(_) => None,
        }
    }

    /// Calls `Regex::is_match` on a text.
    #[verifier::external_body]
    pub fn is_match(&self, text: &str) -> (b: bool)
        ensures
            b == regex_matches(self.pattern(), text@),
    {
        self.regex.is_match(text)
    }
}

/// What to leave out of a line: its count, its branches, or both.
#[derive(Clone, Copy, Debug, PartialEq, Eq, Structural)]
pub enum FilterType {
    Line(u32),
    Branch(u32),
    Both(u32),
}

/// The patterns that mark the lines to leave out: a single line, the start
/// and the stop of a region, for lines and for branches.
pub struct FileFilter {
    pub excl_line: Option<CompiledRegex>,
    pub excl_start: Option<CompiledRegex>,
    pub excl_stop: Option<CompiledRegex>,
    pub excl_br_line: Option<CompiledRegex>,
    pub excl_br_start: Option<CompiledRegex>,
    pub excl_br_stop: Option<CompiledRegex>,
}

/// Whether an optional pattern matches a line.
pub open spec fn hits(re: Option<CompiledRegex>, line: Seq<char>) -> bool {
    match re {
        Some(c) => regex_matches(c.pattern(), line),
        None => false,
    }
}

/// Whether an optional pattern matches a line.
fn matches(re: &Option<CompiledRegex>, line: &str) -> (b: bool)
    ensures
        b == hits(*re, line@),
{
    match re {
        Some(c) => c.is_match(line),
        None => false,
    }
}

/// The pieces of a text between its newlines (as `str::split` gives them).
pub open spec fn split_lines(cs: Seq<char>) -> Seq<Seq<char>>
    decreases cs.len(),
{
    if cs.len() == 0 {
        seq![Seq::empty()]
    } else {
        let p = split_lines(cs.drop_last());
        if cs.last() == '\n' {
            p.push(Seq::empty())
        } else {
            p.update(p.len() - 1, p.last().push(cs.last()))
        }
    }
}

proof fn lemma_split_nonempty(cs: Seq<char>)
    ensures
        split_lines(cs).len() >= 1,
    decreases cs.len(),
{
    if cs.len() > 0 {
        lemma_split_nonempty(cs.drop_last());
    }
}

/// A line without its trailing carriage return, if it has one.
pub open spec fn without_cr(l: Seq<char>) -> Seq<char> {
    if l.len() > 0 && l.last() == '\r' { l.drop_last() } else { l }
}

/// Whether the filter leaves every line in, whatever the file.
pub open spec fn inert(ff: FileFilter) -> bool {
    ff.excl_line is None && ff.excl_start is None && ff.excl_br_line is None && ff.excl_br_start is None
}

/// The state after a line (inside a branch region, inside a line region),
/// and what to leave out of it.
pub open spec fn filter_step(ff: FileFilter, st: (bool, bool), line: Seq<char>, number: u32) -> ((bool, bool), Option<FilterType>) {
    let br0 = if st.0 && hits(ff.excl_br_stop, line) { false } else { st.0 };
    let ln0 = if st.1 && hits(ff.excl_stop, line) { false } else { st.1 };
    let br = if !br0 && hits(ff.excl_br_start, line) { true } else { br0 };
    let ln = if !ln0 && hits(ff.excl_start, line) { true } else { ln0 };
    // A line that ends a region still belongs to it.
    let in_br = br || (st.0 && hits(ff.excl_br_stop, line));
    let in_ln = ln || (st.1 && hits(ff.excl_stop, line));
    let out = if in_br {
        if in_ln { Some(FilterType::Both(number)) } else { Some(FilterType::Branch(number)) }
    } else if in_ln {
        Some(FilterType::Line(number))
    } else if hits(ff.excl_br_line, line) {
        if hits(ff.excl_line, line) { Some(FilterType::Both(number)) } else { Some(FilterType::Branch(number)) }
    } else if hits(ff.excl_line, line) {
        Some(FilterType::Line(number))
    } else {
        None
    };
    ((br, ln), out)
}

/// What to leave out of the lines `ls` (numbered from 1), and the state after them.
pub open spec fn filters_of(ff: FileFilter, ls: Seq<Seq<char>>) -> (Seq<FilterType>, (bool, bool))
    decreases ls.len(),
{
    if ls.len() == 0 {
        (Seq::empty(), (false, false))
    } else {
        let (fs, st) = filters_of(ff, ls.drop_last());
        let (st2, out) = filter_step(ff, st, without_cr(ls.last()), ((ls.len() as usize) as u32));
        (match out { Some(f) => fs.push(f), None => fs }, st2)
    }
}

/// The lines of a text, split at each newline.
fn split_text(text: &str) -> (v: Vec<String>)
    ensures
        v@.map_values(|l: String| l@) == split_lines(text@),
{
    let cs = chars_of(text);
    let mut v: Vec<String> = Vec::new();
    let mut cur: Vec<char> = Vec::new();
    let mut k: usize = 0;
    while k < cs.len()
        invariant
            k <= cs@.len(),
            cs@ == text@,
            v@.map_values(|l: String| l@).push(cur@) == split_lines(cs@.subrange(0, k as int)),
        decreases cs@.len() - k,
    {
        let ghost pre = cs@.subrange(0, k as int);
        assert(cs@.subrange(0, k + 1).drop_last() =~= pre);
        proof {
            lemma_split_nonempty(pre);
        }
        if cs[k] == '\n' {
            let line = string_of(cur.as_slice());
            let ghost vv = v@.map_values(|l: String| l@);
            v.push(line);
            assert(v@.map_values(|l: String| l@) =~= vv.push(line@));
            cur = Vec::new();
            assert(v@.map_values(|l: String| l@).push(cur@) =~= split_lines(cs@.subrange(0, k + 1)));
        } else {
            let ghost c0 = cur@;
            cur.push(cs[k]);
            assert(v@.map_values(|l: String| l@).push(cur@) =~= split_lines(cs@.subrange(0, k + 1)));
        }
        k += 1;
    }
    let line = string_of(cur.as_slice());
    let ghost vv = v@.map_values(|l: String| l@);
    v.push(line);
    assert(v@.map_values(|l: String| l@) =~= vv.push(line@));
    assert(cs@.subrange(0, cs@.len() as int) =~= cs@);
    v
}

/// A line without its trailing carriage return.
fn strip_cr(l: &String) -> (r: String)
    ensures
        r@ == without_cr(l@),
{
    let cs = chars_of(l.as_str());
    if cs.len() > 0 && cs[cs.len() - 1] == '\r' {
        string_of(vstd::slice::slice_subrange(cs.as_slice(), 0, cs.len() - 1))
    } else {
        string_of(cs.as_slice())
    }
}

impl FileFilter {
    pub fn new(
        excl_line: Option<CompiledRegex>,
        excl_start: Option<CompiledRegex>,
        excl_stop: Option<CompiledRegex>,
        excl_br_line: Option<CompiledRegex>,
        excl_br_start: Option<CompiledRegex>,
        excl_br_stop: Option<CompiledRegex>,
    ) -> (r: Self)
        ensures
            r == (FileFilter { excl_line, excl_start, excl_stop, excl_br_line, excl_br_start, excl_br_stop }),
    {
        FileFilter { excl_line, excl_start, excl_stop, excl_br_line, excl_br_start, excl_br_stop }
    }

    /// What to leave out of a file with the given text: nothing if no
    /// pattern can start leaving lines out, else what the patterns mark,
    /// line by line (see [`filter_step`]).
    pub fn create(&self, text: &str) -> (r: Vec<FilterType>)
        ensures
            r@ == (if inert(*self) { Seq::empty() } else { filters_of(*self, split_lines(text@)).0 }),
    {
        if self.excl_line.is_none() && self.excl_start.is_none() && self.excl_br_line.is_none() && self.excl_br_start.is_none() {
            return Vec::new();
        }
        let lines = split_text(text);
        let ghost ls = lines@.map_values(|l: String| l@);
        let mut out: Vec<FilterType> = Vec::new();
        let mut ignore_br = false;
        let mut ignore = false;
        let mut k: usize = 0;
        while k < lines.len()
            invariant
                k <= lines@.len(),
                ls == lines@.map_values(|l: String| l@),
                (out@, (ignore_br, ignore)) == filters_of(*self, ls.subrange(0, k as int)),
            decreases lines@.len() - k,
        {
            assert(ls.subrange(0, k + 1).drop_last() =~= ls.subrange(0, k as int));
            let line = strip_cr(&lines[k]);
            #[verifier::truncate]
            let number: u32 = (k + 1) as u32;
            let mut ended_br = false;
            let mut ended = false;
            if ignore_br && matches(&self.excl_br_stop, line.as_str()) {
                ignore_br = false;
                ended_br = true;
            }
            if ignore && matches(&self.excl_stop, line.as_str()) {
                ignore = false;
                ended = true;
            }
            if !ignore_br && matches(&self.excl_br_start, line.as_str()) {
                ignore_br = true;
            }
            if !ignore && matches(&self.excl_start, line.as_str()) {
                ignore = true;
            }
            let in_br = ignore_br || ended_br;
            let in_ln = ignore || ended;
            if in_br {
                if in_ln {
                    out.push(FilterType::Both(number));
                } else {
                    out.push(FilterType::Branch(number));
                }
            } else if in_ln {
                out.push(FilterType::Line(number));
            } else if matches(&self.excl_br_line, line.as_str()) {
                if matches(&self.excl_line, line.as_str()) {
                    out.push(FilterType::Both(number));
                } else {
                    out.push(FilterType::Branch(number));
                }
            } else if matches(&self.excl_line, line.as_str()) {
                out.push(FilterType::Line(number));
            }
            k += 1;
        }
        assert(ls.subrange(0, ls.len() as int) =~= ls);
        out
    }
}

/// The lines whose counts the filters leave out.
pub open spec fn filtered_lines(fs: Seq<FilterType>) -> Set<u32> {
    Set::new(|n: u32| exists|i: int| 0 <= i < fs.len() && (fs[i] == FilterType::Line(n) || fs[i] == FilterType::Both(n)))
}

/// The lines whose branches the filters leave out.
pub open spec fn filtered_branches(fs: Seq<FilterType>) -> Set<u32> {
    Set::new(|n: u32| exists|i: int| 0 <= i < fs.len() && (fs[i] == FilterType::Branch(n) || fs[i] == FilterType::Both(n)))
}

/// Leaves out of a result the counts and branches that the filters name.
pub fn apply_filters(result: &mut CovResult, filters: &Vec<FilterType>)
    ensures
        final(result)@.lines == old(result)@.lines.remove_keys(filtered_lines(filters@)),
        final(result)@.branches == old(result)@.branches.remove_keys(filtered_branches(filters@)),
        final(result).functions == old(result).functions,
{
    let ghost l0 = result.lines@;
    let ghost b0 = branches_view(result.branches);
    let mut k: usize = 0;
    while k < filters.len()
        invariant
            k <= filters@.len(),
            result.lines@ == l0.remove_keys(filtered_lines(filters@.subrange(0, k as int))),
            branches_view(result.branches) == b0.remove_keys(filtered_branches(filters@.subrange(0, k as int))),
            result.functions == old(result).functions,
        decreases filters@.len() - k,
    {
        let ghost fs1 = filters@.subrange(0, k + 1);
        let ghost fs0 = filters@.subrange(0, k as int);
        assert(fs1[k as int] == filters@[k as int]);
        let ghost bv = branches_view(result.branches);
        match filters[k] {
            FilterType::Both(n) => {
                result.branches.remove(&n);
                assert(branches_view(result.branches) =~= bv.remove(n));
                result.lines.remove(&n);
                assert(filtered_lines(fs1) =~= filtered_lines(fs0).insert(n)) by {
                    assert forall|x: u32| filtered_lines(fs1).contains(x) implies filtered_lines(fs0).insert(n).contains(x) by {
                        let i = choose|i: int| 0 <= i < fs1.len() && (fs1[i] == FilterType::Line(x) || fs1[i] == FilterType::Both(x));
                        if i < k { assert(fs0[i] == fs1[i]); }
                    }
                    assert forall|x: u32| filtered_lines(fs0).contains(x) implies filtered_lines(fs1).contains(x) by {
                        let i = choose|i: int| 0 <= i < fs0.len() && (fs0[i] == FilterType::Line(x) || fs0[i] == FilterType::Both(x));
                        assert(fs1[i] == fs0[i]);
                    }
                }
                assert(filtered_branches(fs1) =~= filtered_branches(fs0).insert(n)) by {
                    assert forall|x: u32| filtered_branches(fs1).contains(x) implies filtered_branches(fs0).insert(n).contains(x) by {
                        let i = choose|i: int| 0 <= i < fs1.len() && (fs1[i] == FilterType::Branch(x) || fs1[i] == FilterType::Both(x));
                        if i < k { assert(fs0[i] == fs1[i]); }
                    }
                    assert forall|x: u32| filtered_branches(fs0).contains(x) implies filtered_branches(fs1).contains(x) by {
                        let i = choose|i: int| 0 <= i < fs0.len() && (fs0[i] == FilterType::Branch(x) || fs0[i] == FilterType::Both(x));
                        assert(fs1[i] == fs0[i]);
                    }
                }
                assert(result.lines@ =~= l0.remove_keys(filtered_lines(fs1)));
                assert(branches_view(result.branches) =~= b0.remove_keys(filtered_branches(fs1)));
            }
            FilterType::Line(n) => {
                result.lines.remove(&n);
                assert(filtered_lines(fs1) =~= filtered_lines(fs0).insert(n)) by {
                    assert forall|x: u32| filtered_lines(fs1).contains(x) implies filtered_lines(fs0).insert(n).contains(x) by {
                        let i = choose|i: int| 0 <= i < fs1.len() && (fs1[i] == FilterType::Line(x) || fs1[i] == FilterType::Both(x));
                        if i < k { assert(fs0[i] == fs1[i]); }
                    }
                    assert forall|x: u32| filtered_lines(fs0).contains(x) implies filtered_lines(fs1).contains(x) by {
                        let i = choose|i: int| 0 <= i < fs0.len() && (fs0[i] == FilterType::Line(x) || fs0[i] == FilterType::Both(x));
                        assert(fs1[i] == fs0[i]);
                    }
                }
                assert(filtered_branches(fs1) =~= filtered_branches(fs0)) by {
                    assert forall|x: u32| filtered_branches(fs1).contains(x) implies filtered_branches(fs0).contains(x) by {
                        let i = choose|i: int| 0 <= i < fs1.len() && (fs1[i] == FilterType::Branch(x) || fs1[i] == FilterType::Both(x));
                        if i < k { assert(fs0[i] == fs1[i]); }
                    }
                    assert forall|x: u32| filtered_branches(fs0).contains(x) implies filtered_branches(fs1).contains(x) by {
                        let i = choose|i: int| 0 <= i < fs0.len() && (fs0[i] == FilterType::Branch(x) || fs0[i] == FilterType::Both(x));
                        assert(fs1[i] == fs0[i]);
                    }
                }
                assert(result.lines@ =~= l0.remove_keys(filtered_lines(fs1)));
            }
            FilterType::Branch(n) => {
                result.branches.remove(&n);
                assert(branches_view(result.branches) =~= bv.remove(n));
                assert(filtered_lines(fs1) =~= filtered_lines(fs0)) by {
                    assert forall|x: u32| filtered_lines(fs1).contains(x) implies filtered_lines(fs0).contains(x) by {
                        let i = choose|i: int| 0 <= i < fs1.len() && (fs1[i] == FilterType::Line(x) || fs1[i] == FilterType::Both(x));
                        if i < k { assert(fs0[i] == fs1[i]); }
                    }
                    assert forall|x: u32| filtered_lines(fs0).contains(x) implies filtered_lines(fs1).contains(x) by {
                        let i = choose|i: int| 0 <= i < fs0.len() && (fs0[i] == FilterType::Line(x) || fs0[i] == FilterType::Both(x));
                        assert(fs1[i] == fs0[i]);
                    }
                }
                assert(filtered_branches(fs1) =~= filtered_branches(fs0).insert(n)) by {
                    assert forall|x: u32| filtered_branches(fs1).contains(x) implies filtered_branches(fs0).insert(n).contains(x) by {
                        let i = choose|i: int| 0 <= i < fs1.len() && (fs1[i] == FilterType::Branch(x) || fs1[i] == FilterType::Both(x));
                        if i < k { assert(fs0[i] == fs1[i]); }
                    }
                    assert forall|x: u32| filtered_branches(fs0).contains(x) implies filtered_branches(fs1).contains(x) by {
                        let i = choose|i: int| 0 <= i < fs0.len() && (fs0[i] == FilterType::Branch(x) || fs0[i] == FilterType::Both(x));
                        assert(fs1[i] == fs0[i]);
                    }
                }
                assert(branches_view(result.branches) =~= b0.remove_keys(filtered_branches(fs1)));
            }
        }
        k += 1;
    }
    assert(filters@.subrange(0, filters@.len() as int) =~= filters@);
}

/// Whether a result stays, given a filter on coverage: only covered files,
/// only uncovered files, or all.
pub fn keep_by_coverage(result: &CovResult, filter_option: Option<bool>) -> (b: bool)
    ensures
        b == match filter_option {
            Some(true) => covered(result@),
            Some(false) => !covered(result@),
            None => true,
        },
{
    match filter_option {
        Some(true) => is_covered(result),
        Some(false) => !is_covered(result),
        None => true,
    }
}

/// Applying the same filters a second time changes nothing.
pub proof fn law_filters_idempotent(r: CovView, fs: Seq<FilterType>)
    ensures
        r.lines.remove_keys(filtered_lines(fs)).remove_keys(filtered_lines(fs)) == r.lines.remove_keys(filtered_lines(fs)),
        r.branches.remove_keys(filtered_branches(fs)).remove_keys(filtered_branches(fs)) == r.branches.remove_keys(filtered_branches(fs)),
{
    assert(r.lines.remove_keys(filtered_lines(fs)).remove_keys(filtered_lines(fs)) =~= r.lines.remove_keys(filtered_lines(fs)));
    assert(r.branches.remove_keys(filtered_branches(fs)).remove_keys(filtered_branches(fs)) =~= r.branches.remove_keys(filtered_branches(fs)));
}

/// A file none of whose lines ran is not covered.
pub proof fn law_no_line_ran_not_covered(r: CovView)
    requires
        forall|k: u32| #[trigger] r.lines.contains_key(k) ==> r.lines[k] == 0,
    ensures
        !covered(r),
{
}

/// A file with a line that ran and at most one function is covered.
pub proof fn law_line_ran_single_function_covered(r: CovView, k: u32)
    requires
        r.lines.contains_key(k),
        r.lines[k] != 0,
        r.functions.dom().len() <= 1,
    ensures
        covered(r),
{
}

}
