use vstd::prelude::*;
use crate::defs::{CovResult, branches_view, function_map_entries, entry_names, Function};
use crate::order::{line_numbers, sorted_keys, lemma_keys_sorted};
use crate::output::{hit_lines, branch_totals, executed_count, walks_functions, count_taken_exec};
use crate::defs::{HtmlStats, HtmlFileStats, HtmlDirStats, HtmlGlobalStats, stats_sum, stats_sum_fits, dir_entries, file_entries, dir_remove, dir_insert, files_new, file_insert};

verus! {

/// The look of a coverage badge.
#[derive(Clone, Copy, Debug, PartialEq, Eq, Structural)]
pub enum BadgeStyle {
    Flat,
    FlatSquare,
    ForTheBadge,
    Plastic,
    Social,
}

impl BadgeStyle {
    /// The name of the template that draws the badge.
    pub fn template_name(self) -> (r: &'static str)
        ensures
            r@ == (match self {
                BadgeStyle::Flat => "badge_flat.svg"@,
                BadgeStyle::FlatSquare => "badge_flat_square.svg"@,
                BadgeStyle::ForTheBadge => "badge_for_the_badge.svg"@,
                BadgeStyle::Plastic => "badge_plastic.svg"@,
                BadgeStyle::Social => "badge_social.svg"@,
            }),
    {
        match self {
            BadgeStyle::Flat => "badge_flat.svg",
            BadgeStyle::FlatSquare => "badge_flat_square.svg",
            BadgeStyle::ForTheBadge => "badge_for_the_badge.svg",
            BadgeStyle::Plastic => "badge_plastic.svg",
            BadgeStyle::Social => "badge_social.svg",
        }
    }

    /// Where the badge is written, below the output directory.
    pub fn path(self) -> (r: &'static str)
        ensures
            r@ == (match self {
                BadgeStyle::Flat => "badges/flat.svg"@,
                BadgeStyle::FlatSquare => "badges/flat_square.svg"@,
                BadgeStyle::ForTheBadge => "badges/for_the_badge.svg"@,
                BadgeStyle::Plastic => "badges/plastic.svg"@,
                BadgeStyle::Social => "badges/social.svg"@,
            }),
    {
        match self {
            BadgeStyle::Flat => "badges/flat.svg",
            BadgeStyle::FlatSquare => "badges/flat_square.svg",
            BadgeStyle::ForTheBadge => "badges/for_the_badge.svg",
            BadgeStyle::Plastic => "badges/plastic.svg",
            BadgeStyle::Social => "badges/social.svg",
        }
    }

    /// Every style, each once.
    pub fn iter() -> (r: Vec<BadgeStyle>)
        ensures
            r@ == seq![BadgeStyle::Flat, BadgeStyle::FlatSquare, BadgeStyle::ForTheBadge, BadgeStyle::Plastic, BadgeStyle::Social],
    {
        let mut r: Vec<BadgeStyle> = Vec::new();
        r.push(BadgeStyle::Flat);
        r.push(BadgeStyle::FlatSquare);
        r.push(BadgeStyle::ForTheBadge);
        r.push(BadgeStyle::Plastic);
        r.push(BadgeStyle::Social);
        assert(r@ =~= seq![BadgeStyle::Flat, BadgeStyle::FlatSquare, BadgeStyle::ForTheBadge, BadgeStyle::Plastic, BadgeStyle::Social]);
        r
    }
}

/// Adds the statistics of a file to those of its directory and of the whole,
/// listing the file in its directory (which is made where it is new).
pub fn get_dirs_result(global: &mut HtmlGlobalStats, parent: String, file_name: String, stats: &HtmlStats)
    requires
        stats_sum_fits(old(global).stats, *stats),
        dir_entries(old(global).dirs).contains_key(parent@) ==> stats_sum_fits(dir_entries(old(global).dirs)[parent@].stats, *stats),
    ensures
        final(global).stats == stats_sum(old(global).stats, *stats),
        final(global).abs_prefix == old(global).abs_prefix,
        dir_entries(final(global).dirs).dom() == dir_entries(old(global).dirs).dom().insert(parent@),
        forall|d: Seq<char>| d != parent@ && #[trigger] dir_entries(old(global).dirs).contains_key(d)
            ==> dir_entries(final(global).dirs)[d] == dir_entries(old(global).dirs)[d],
        ({
            let nd = dir_entries(final(global).dirs)[parent@];
            let fs = HtmlFileStats { stats: *stats, abs_prefix: None };
            if dir_entries(old(global).dirs).contains_key(parent@) {
                let od = dir_entries(old(global).dirs)[parent@];
                &&& nd.stats == stats_sum(od.stats, *stats)
                &&& nd.abs_prefix == od.abs_prefix
                &&& file_entries(nd.files) == file_entries(od.files).insert(file_name@, fs)
            } else {
                &&& nd.stats == *stats
                &&& nd.abs_prefix is None
                &&& file_entries(nd.files) == Map::<Seq<char>, HtmlFileStats>::empty().insert(file_name@, fs)
            }
        }),
{
    let fs = HtmlFileStats { stats: *stats, abs_prefix: None };
    global.stats.add(stats);
    let ghost d0 = dir_entries(global.dirs);
    match dir_remove(&mut global.dirs, &parent) {
        Some(mut ds) => {
            ds.stats.add(stats);
            file_insert(&mut ds.files, file_name, fs);
            dir_insert(&mut global.dirs, parent, ds);
        }
        None => {
            let mut files = files_new();
            file_insert(&mut files, file_name, fs);
            dir_insert(&mut global.dirs, parent, HtmlDirStats { files: files, stats: *stats, abs_prefix: None });
        }
    }
    assert(dir_entries(global.dirs).dom() =~= d0.dom().insert(parent@));
}

/// The statistics of a file: its lines and those that ran, its functions
/// and those that ran, its branches and those taken.
pub fn get_stats(result: &CovResult) -> (st: HtmlStats)
    requires
        branch_totals(sorted_keys(result@.branches.dom()), result@.branches).0 <= usize::MAX,
    ensures
        st.total_lines == sorted_keys(result@.lines.dom()).len(),
        st.covered_lines == hit_lines(sorted_keys(result@.lines.dom()), result@.lines),
        st.total_branches == branch_totals(sorted_keys(result@.branches.dom()), result@.branches).0,
        st.covered_branches == branch_totals(sorted_keys(result@.branches.dom()), result@.branches).1,
        exists|es: Seq<(String, Function)>| #[trigger] walks_functions(es, result@.functions)
            && st.total_funs == es.len() && st.covered_funs == executed_count(es),
{
    let lks = line_numbers(&result.lines);
    let bks = line_numbers(&result.branches);
    proof {
        lemma_keys_sorted(lks@, result.lines@.dom());
        assert(branches_view(result.branches).dom() =~= result.branches@.dom());
        lemma_keys_sorted(bks@, result@.branches.dom());
    }
    let mut covered_lines: usize = 0;
    let mut k: usize = 0;
    while k < lks.len()
        invariant
            k <= lks@.len(),
            lks@.to_set() == result.lines@.dom(),
            covered_lines == hit_lines(lks@.subrange(0, k as int), result.lines@),
            covered_lines <= k,
        decreases lks@.len() - k,
    {
        assert(lks@.subrange(0, k + 1).drop_last() =~= lks@.subrange(0, k as int));
        assert(result.lines@.dom().contains(lks@[k as int])) by {
            assert(lks@.to_set().contains(lks@[k as int]));
        }
        let c: u64 = match result.lines.get(&lks[k]) {
            Some(c) => *c,
            None => 0,
        };
        if c > 0 {
            covered_lines += 1;
        }
        k += 1;
    }
    assert(lks@.subrange(0, lks@.len() as int) =~= lks@);
    let ghost bv = branches_view(result.branches);
    let mut total_branches: usize = 0;
    let mut covered_branches: usize = 0;
    let mut k: usize = 0;
    while k < bks.len()
        invariant
            k <= bks@.len(),
            bks@.to_set() == result.branches@.dom(),
            sorted_keys(result@.branches.dom()) == bks@,
            bv == branches_view(result.branches),
            branch_totals(bks@, bv).0 <= usize::MAX,
            total_branches == branch_totals(bks@.subrange(0, k as int), bv).0,
            covered_branches == branch_totals(bks@.subrange(0, k as int), bv).1,
        decreases bks@.len() - k,
    {
        assert(bks@.subrange(0, k + 1).drop_last() =~= bks@.subrange(0, k as int));
        assert(result.branches@.dom().contains(bks@[k as int])) by {
            assert(bks@.to_set().contains(bks@[k as int]));
        }
        proof {
            crate::summary::lemma_branch_totals_grow(bks@, bv, k as int + 1);
            crate::summary::lemma_branch_bound(bks@.subrange(0, k as int), bv);
        }
        if let Some(v) = result.branches.get(&bks[k]) {
            assert(bv[bks@[k as int]] == v@);
            proof {
                crate::cobertura::lemma_taken_bound(v@);
            }
            let t = count_taken_exec(v);
            total_branches = total_branches + v.len();
            covered_branches = covered_branches + t;
        }
        k += 1;
    }
    assert(bks@.subrange(0, bks@.len() as int) =~= bks@);
    let es = function_map_entries(&result.functions);
    let mut covered_funs: usize = 0;
    let mut k: usize = 0;
    while k < es.len()
        invariant
            k <= es@.len(),
            covered_funs == executed_count(es@.subrange(0, k as int)),
            covered_funs <= k,
        decreases es@.len() - k,
    {
        assert(es@.subrange(0, k + 1).drop_last() =~= es@.subrange(0, k as int));
        if es[k].1.executed {
            covered_funs += 1;
        }
        k += 1;
    }
    assert(es@.subrange(0, es@.len() as int) =~= es@);
    assert(walks_functions(es@, result@.functions));
    HtmlStats {
        total_lines: lks.len(),
        covered_lines,
        total_funs: es.len(),
        covered_funs,
        total_branches,
        covered_branches,
    }
}

}
