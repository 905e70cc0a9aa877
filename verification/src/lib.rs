pub mod defs;
pub mod text;
pub mod parser;
pub mod reader;
pub mod graph;
pub mod counts;
pub mod results;
pub mod jacoco;
pub mod paths;
pub mod consumer;
pub mod cobertura;
pub mod order;
pub mod output;
pub mod filters;
pub mod fuzzmanager;
pub mod html;
pub mod gcov;
pub mod llvm_tools;
pub mod summary;
pub mod producer;
pub mod cli;
pub mod cargo_env;
pub mod globs;
pub mod rewrite;
pub mod lcov_roundtrip;
pub mod xml_out;
pub mod dump;
pub mod record_laws;
pub use crate::defs::{CovResult, CovView, Function, FunctionMap};

use vstd::prelude::*;
use std::collections::BTreeMap;

verus! {

/// Sum of two execution counts, held at `u64::MAX` where it would overflow.
pub open spec fn saturating_sum(a: u64, b: u64) -> u64 {
    if a + b > u64::MAX { u64::MAX } else { (a + b) as u64 }
}

/// Execution counts of two results merged: a line of both gets the sum of its counts.
pub open spec fn merged_lines(a: Map<u32, u64>, b: Map<u32, u64>) -> Map<u32, u64> {
    Map::new(
        |k: u32| a.contains_key(k) || b.contains_key(k),
        |k: u32|
            if a.contains_key(k) && b.contains_key(k) {
                saturating_sum(a[k], b[k])
            } else if a.contains_key(k) {
                a[k]
            } else {
                b[k]
            },
    )
}

/// Outcomes of the branches of one line merged: a branch is taken if it is taken in either.
pub open spec fn merged_taken(a: Seq<bool>, b: Seq<bool>) -> Seq<bool> {
    Seq::new(
        if a.len() >= b.len() { a.len() } else { b.len() },
        |i: int| (i < a.len() && a[i]) || (i < b.len() && b[i]),
    )
}

/// Branches of two results merged line by line.
pub open spec fn merged_branches(a: Map<u32, Seq<bool>>, b: Map<u32, Seq<bool>>) -> Map<u32, Seq<bool>> {
    Map::new(
        |k: u32| a.contains_key(k) || b.contains_key(k),
        |k: u32|
            if a.contains_key(k) && b.contains_key(k) {
                merged_taken(a[k], b[k])
            } else if a.contains_key(k) {
                a[k]
            } else {
                b[k]
            },
    )
}

/// Functions of two results merged: a function keeps its first start line and
/// has run if it ran in either.
pub open spec fn merged_functions(a: Map<Seq<char>, Function>, b: Map<Seq<char>, Function>) -> Map<Seq<char>, Function> {
    Map::new(
        |k: Seq<char>| a.contains_key(k) || b.contains_key(k),
        |k: Seq<char>|
            if a.contains_key(k) && b.contains_key(k) {
                Function { start: a[k].start, executed: a[k].executed || b[k].executed }
            } else if a.contains_key(k) {
                a[k]
            } else {
                b[k]
            },
    )
}

/// Whether some line of both results has counts whose sum overflows.
pub open spec fn merge_overflows(a: Map<u32, u64>, b: Map<u32, u64>) -> bool {
    exists|k: u32| a.contains_key(k) && b.contains_key(k) && a[k] + b[k] > u64::MAX
}

/// The merge of two results.
pub open spec fn merged(a: CovView, b: CovView) -> CovView {
    CovView {
        lines: merged_lines(a.lines, b.lines),
        branches: merged_branches(a.branches, b.branches),
        functions: merged_functions(a.functions, b.functions),
    }
}

/// The keys of the first `n` entries of a sequence of map entries.
pub open spec fn keys_before<V>(s: Seq<(&u32, &V)>, n: int) -> Set<u32> {
    Set::new(|k: u32| exists|j: int| 0 <= j < n && #[trigger] s[j].0 == &k)
}

/// What a walk over a map's entries yields: each entry of the map once.
pub open spec fn walks_map<V>(s: Seq<(&u32, &V)>, m: Map<u32, V>) -> bool {
    &&& forall|i: int| 0 <= i < s.len() ==> #[trigger] m.contains_key(*s[i].0) && m[*s[i].0] == *s[i].1
    &&& forall|i: int, j: int| 0 <= i < s.len() && 0 <= j < s.len() && i != j ==> #[trigger] s[i].0 != #[trigger] s[j].0
    &&& forall|k: u32| m.contains_key(k) ==> exists|j: int| 0 <= j < s.len() && #[trigger] s[j].0 == &k
}

/// The first `n` names of a sequence of names, as a set.
pub open spec fn names_before(s: Seq<Seq<char>>, n: int) -> Set<Seq<char>> {
    Set::new(|k: Seq<char>| exists|j: int| 0 <= j < n && #[trigger] s[j] == k)
}

/// A walk over a `BTreeMap` yields each of its entries once.
proof fn lemma_btree_walk<V>(m: &BTreeMap<u32, V>, s: Seq<(&u32, &V)>)
    requires
        s == vstd::std_specs::iter::IteratorSpec::remaining(&vstd::std_specs::btree::spec_btree_map_iter(m)),
        s.no_duplicates(),
    ensures
        walks_map(s, m@),
{
    assert forall|i: int| 0 <= i < s.len() implies #[trigger] m@.contains_key(*s[i].0) && m@[*s[i].0] == *s[i].1 by {
        assert(m@.contains_key(*s[i].0));
    }
    assert forall|i: int, j: int| 0 <= i < s.len() && 0 <= j < s.len() && i != j implies #[trigger] s[i].0 != #[trigger] s[j].0 by {
        assert(m@.contains_key(*s[i].0));
        assert(m@.contains_key(*s[j].0));
        if s[i].0 == s[j].0 {
            assert(s[i] == s[j]);
        }
    }
    assert forall|k: u32| m@.contains_key(k) implies exists|j: int| 0 <= j < s.len() && #[trigger] s[j].0 == &k by {
        assert(s.contains((&k, &m@[k])));
        let j = choose|j: int| 0 <= j < s.len() && s[j] == (&k, &m@[k]);
        assert(s[j].0 == &k);
    }
}

/// The outcomes of one line's branches in two results, merged.
fn merge_taken(v: &Vec<bool>, taken: &Vec<bool>) -> (res: Vec<bool>)
    ensures
        res@ == merged_taken(v@, taken@),
{
    let n = if v.len() >= taken.len() { v.len() } else { taken.len() };
    let mut res: Vec<bool> = Vec::new();
    let mut i: usize = 0;
    while i < n
        invariant
            n == (if v@.len() >= taken@.len() { v@.len() } else { taken@.len() }),
            i <= n,
            res@.len() == i,
            forall|j: int| 0 <= j < i ==> res@[j] == ((j < v@.len() && v@[j]) || (j < taken@.len() && taken@[j])),
        decreases n - i,
    {
        let a = i < v.len() && v[i];
        let b = i < taken.len() && taken[i];
        res.push(a || b);
        i += 1;
    }
    assert(res@ =~= merged_taken(v@, taken@));
    res
}

/// Merges the execution counts of `b` into `a`; returns whether a sum overflowed.
fn merge_lines(a: &mut BTreeMap<u32, u64>, b_map: &BTreeMap<u32, u64>) -> (warn_overflow: bool)
    ensures
        final(a)@ == merged_lines(old(a)@, b_map@),
        warn_overflow == merge_overflows(old(a)@, b_map@),
{
    let ghost b = b_map@;
    let ghost old_lines = a@;
    let mut warn_overflow = false;
    let entries = b_map.iter();
    let ghost s0 = vstd::std_specs::iter::IteratorSpec::remaining(&entries);
    proof { lemma_btree_walk(b_map, s0); }
    for (k, v) in it: entries
        invariant
            it.seq() == s0,
            b == b_map@,
            walks_map(s0, b),
            a@ == merged_lines(old_lines, b.restrict(keys_before(s0, it.index()))),
            warn_overflow == merge_overflows(old_lines, b.restrict(keys_before(s0, it.index()))),
    {
        let ghost i = it.index();
        assert(s0[i] == (k, v));
        assert(!keys_before(s0, i).contains(*k));
        assert(keys_before(s0, i + 1) =~= keys_before(s0, i).insert(*k)) by {
            assert(s0[i].0 == k);
        }
        let cur = a.get(k);
        match cur {
            Some(c) => {
                let s = c.checked_add(*v);
                match s {
                    Some(x) => { a.insert(*k, x); }
                    None => { warn_overflow = true; a.insert(*k, u64::MAX); }
                }
            }
            None => { a.insert(*k, *v); }
        }
        assert(a@ =~= merged_lines(old_lines, b.restrict(keys_before(s0, i + 1))));
        assert(warn_overflow == merge_overflows(old_lines, b.restrict(keys_before(s0, i + 1)))) by {
            if warn_overflow != merge_overflows(old_lines, b.restrict(keys_before(s0, i + 1))) {
                if warn_overflow {
                    assert(merge_overflows(old_lines, b.restrict(keys_before(s0, i))) || (old_lines.contains_key(*k) && old_lines[*k] + b[*k] > u64::MAX));
                } else {
                    let w = choose|w: u32| old_lines.contains_key(w) && b.restrict(keys_before(s0, i + 1)).contains_key(w) && old_lines[w] + b.restrict(keys_before(s0, i + 1))[w] > u64::MAX;
                    assert(w == *k || b.restrict(keys_before(s0, i)).contains_key(w));
                }
            }
        }
    }
    assert(b.restrict(keys_before(s0, s0.len() as int)) =~= b);
    warn_overflow
}

/// Merges the branches of `b` into `a`.
#[verifier::spinoff_prover]
fn merge_branches(a: &mut BTreeMap<u32, Vec<bool>>, b_map: &BTreeMap<u32, Vec<bool>>)
    ensures
        crate::defs::branches_view(*final(a)) == merged_branches(crate::defs::branches_view(*old(a)), crate::defs::branches_view(*b_map)),
{
    let ghost bb = crate::defs::branches_view(*b_map);
    let ghost old_branches = crate::defs::branches_view(*a);
    let entries = b_map.iter();
    let ghost s1 = vstd::std_specs::iter::IteratorSpec::remaining(&entries);
    let ghost bm = b_map@;
    proof { lemma_btree_walk(b_map, s1); }
    for (k, t) in it: entries
        invariant
            it.seq() == s1,
            walks_map(s1, bm),
            bm == b_map@,
            bb == crate::defs::branches_view(*b_map),
            crate::defs::branches_view(*a) == merged_branches(old_branches, bb.restrict(keys_before(s1, it.index()))),
    {
        let ghost i = it.index();
        assert(s1[i] == (k, t));
        assert(!keys_before(s1, i).contains(*k));
        assert(keys_before(s1, i + 1) =~= keys_before(s1, i).insert(*k)) by {
            assert(s1[i].0 == k);
        }
        assert(0 <= i < s1.len());
        assert(walks_map(s1, bm));
        assert(bm.contains_key(*s1[i].0));
        assert(bm[*s1[i].0] == *s1[i].1);
        assert(bb.contains_key(*k));
        assert(bb[*k] == t@);
        let ghost before_bv = crate::defs::branches_view(*a);
        let ghost before_b = a@;
        let cur = a.get(k);
        match cur {
            Some(c) => {
                assert(a@.contains_key(*k) && a@[*k] == *c);
                assert(crate::defs::branches_view(*a).contains_key(*k));
                assert(crate::defs::branches_view(*a)[*k] == c@);
                assert(!bb.restrict(keys_before(s1, i)).contains_key(*k));
                assert(old_branches.contains_key(*k));
                assert(c@ == old_branches[*k]);
                let nv = merge_taken(c, t);
                let ghost nvv = nv@;
                a.insert(*k, nv);
                assert(crate::defs::branches_view(*a) =~= before_bv.insert(*k, nvv));
            }
            None => {
                let nv = t.clone();
                assert(nv@ == t@);
                let ghost nvv = nv@;
                a.insert(*k, nv);
                assert(crate::defs::branches_view(*a) =~= before_bv.insert(*k, nvv));
            }
        }
        assert(crate::defs::branches_view(*a) =~= merged_branches(old_branches, bb.restrict(keys_before(s1, i + 1))));
    }
    assert(bb.restrict(keys_before(s1, s1.len() as int)) =~= bb);
}

/// Merges the functions of `b` into `a`.
fn merge_functions(a: &mut FunctionMap, b_map: &FunctionMap)
    ensures
        crate::defs::fmap(*final(a)) == merged_functions(crate::defs::fmap(*old(a)), crate::defs::fmap(*b_map)),
{
    let entries = crate::defs::function_map_entries(b_map);
    let ghost bf = crate::defs::fmap(*b_map);
    let ghost old_functions = crate::defs::fmap(*a);
    let mut i: usize = 0;
    while i < entries.len()
        invariant
            i <= entries@.len(),
            bf == crate::defs::fmap(*b_map),
            bf.dom() == crate::defs::entry_names(entries@).to_set(),
            entries@.len() == crate::defs::entry_names(entries@).len(),
            crate::defs::entry_names(entries@).no_duplicates(),
            forall|j: int| 0 <= j < entries@.len() ==> #[trigger] bf[entries@[j].0@] == entries@[j].1,
            crate::defs::fmap(*a) == merged_functions(old_functions, bf.restrict(names_before(crate::defs::entry_names(entries@), i as int))),
        decreases entries@.len() - i,
    {
        let ghost names = crate::defs::entry_names(entries@);
        let name = &entries[i].0;
        let f = entries[i].1;
        assert(names[i as int] == name@);
        assert(!names_before(names, i as int).contains(name@)) by {
            if names_before(names, i as int).contains(name@) {
                let j = choose|j: int| 0 <= j < i && names[j] == name@;
                assert(names[j] == names[i as int]);
            }
        }
        assert(names_before(names, i + 1) =~= names_before(names, i as int).insert(name@));
        let g = crate::defs::function_map_get(a, name.as_str());
        match g {
            Some(g) => {
                crate::defs::function_map_insert(a, name.clone(), Function { start: g.start, executed: g.executed || f.executed });
            }
            None => {
                crate::defs::function_map_insert(a, name.clone(), f);
            }
        }
        assert(crate::defs::fmap(*a) =~= merged_functions(old_functions, bf.restrict(names_before(names, i + 1))));
        i += 1;
    }
    assert(names_before(crate::defs::entry_names(entries@), entries@.len() as int) =~= crate::defs::entry_names(entries@).to_set());
    assert(bf.restrict(crate::defs::entry_names(entries@).to_set()) =~= bf);
}

/// Merges `result2` into `result`: counts of a line in both are added (held at
/// `u64::MAX` on overflow), the branches of a line are taken where they are taken
/// in either, and a function keeps the start line it had in `result` and has run
/// if it ran in either. Returns whether some sum of counts overflowed.
pub fn merge_results(result: &mut CovResult, result2: CovResult) -> (warn_overflow: bool)
    ensures
        final(result)@ == merged(old(result)@, result2@),
        warn_overflow == merge_overflows(old(result)@.lines, result2@.lines),
{
    let warn_overflow = merge_lines(&mut result.lines, &result2.lines);
    merge_branches(&mut result.branches, &result2.branches);
    merge_functions(&mut result.functions, &result2.functions);
    warn_overflow
}

/// The result that records nothing.
pub open spec fn empty_view() -> CovView {
    CovView { lines: Map::empty(), branches: Map::empty(), functions: Map::empty() }
}

/// Merging a result that records nothing, on either side, changes nothing.
pub proof fn law_merge_empty(a: CovView)
    ensures
        merged(a, empty_view()) == a,
        merged(empty_view(), a) == a,
{
    assert(merged_lines(a.lines, Map::empty()) =~= a.lines);
    assert(merged_lines(Map::empty(), a.lines) =~= a.lines);
    assert(merged_branches(a.branches, Map::empty()) =~= a.branches);
    assert(merged_branches(Map::empty(), a.branches) =~= a.branches);
    assert(merged_functions(a.functions, Map::empty()) =~= a.functions);
    assert(merged_functions(Map::empty(), a.functions) =~= a.functions);
}

/// The order in which two results are merged does not matter for lines and
/// branches, nor for which functions there are and whether they ran.
pub proof fn law_merge_commutes(a: CovView, b: CovView)
    ensures
        merged(a, b).lines == merged(b, a).lines,
        merged(a, b).branches == merged(b, a).branches,
        merged(a, b).functions.dom() == merged(b, a).functions.dom(),
        forall|k: Seq<char>| #[trigger] merged(a, b).functions.contains_key(k)
            ==> merged(a, b).functions[k].executed == merged(b, a).functions[k].executed,
        merge_overflows(a.lines, b.lines) == merge_overflows(b.lines, a.lines),
{
    assert(merged_lines(a.lines, b.lines) =~= merged_lines(b.lines, a.lines));
    assert forall|k: u32| a.branches.contains_key(k) && b.branches.contains_key(k)
        implies merged_taken(a.branches[k], b.branches[k]) == merged_taken(b.branches[k], a.branches[k]) by {
        assert(merged_taken(a.branches[k], b.branches[k]) =~= merged_taken(b.branches[k], a.branches[k]));
    }
    assert(merged_branches(a.branches, b.branches) =~= merged_branches(b.branches, a.branches));
    assert(merged(a, b).functions.dom() =~= merged(b, a).functions.dom());
}

/// Merging is associative: merging three results gives the same result
/// whichever pair is merged first.
pub proof fn law_merge_associates(a: CovView, b: CovView, c: CovView)
    ensures
        merged(merged(a, b), c) == merged(a, merged(b, c)),
{
    assert(merged_lines(merged_lines(a.lines, b.lines), c.lines) =~= merged_lines(a.lines, merged_lines(b.lines, c.lines)));
    assert forall|k: u32| #[trigger] merged_branches(merged_branches(a.branches, b.branches), c.branches).contains_key(k)
        implies merged_branches(merged_branches(a.branches, b.branches), c.branches)[k] == merged_branches(a.branches, merged_branches(b.branches, c.branches))[k] by {
        if a.branches.contains_key(k) && b.branches.contains_key(k) && c.branches.contains_key(k) {
            assert(merged_taken(merged_taken(a.branches[k], b.branches[k]), c.branches[k]) =~= merged_taken(a.branches[k], merged_taken(b.branches[k], c.branches[k])));
        }
    }
    assert(merged_branches(merged_branches(a.branches, b.branches), c.branches) =~= merged_branches(a.branches, merged_branches(b.branches, c.branches)));
    assert(merged_functions(merged_functions(a.functions, b.functions), c.functions) =~= merged_functions(a.functions, merged_functions(b.functions, c.functions)));
}

/// Merging a result's branches with themselves changes nothing.
pub proof fn law_merge_branches_idempotent(a: Map<u32, Seq<bool>>)
    ensures
        merged_branches(a, a) == a,
{
    assert forall|k: u32| #[trigger] a.contains_key(k) implies merged_taken(a[k], a[k]) == a[k] by {
        assert(merged_taken(a[k], a[k]) =~= a[k]);
    }
    assert(merged_branches(a, a) =~= a);
}

/// A merge loses no coverage: every line of either result is in the merge with
/// at least its count, every branch taken in either is taken in the merge, and
/// every function that ran in either ran in the merge.
pub proof fn law_merge_keeps_coverage(a: CovView, b: CovView)
    ensures
        forall|k: u32| #[trigger] a.lines.contains_key(k) ==> merged(a, b).lines.contains_key(k) && merged(a, b).lines[k] >= a.lines[k],
        forall|k: u32| #[trigger] b.lines.contains_key(k) ==> merged(a, b).lines.contains_key(k) && merged(a, b).lines[k] >= b.lines[k],
        forall|k: u32, i: int| #![trigger a.branches[k][i]] a.branches.contains_key(k) && 0 <= i < a.branches[k].len() && a.branches[k][i]
            ==> merged(a, b).branches[k][i],
        forall|k: u32, i: int| #![trigger b.branches[k][i]] b.branches.contains_key(k) && 0 <= i < b.branches[k].len() && b.branches[k][i]
            ==> merged(a, b).branches[k][i],
        forall|k: Seq<char>| #[trigger] a.functions.contains_key(k) && a.functions[k].executed ==> merged(a, b).functions[k].executed,
        forall|k: Seq<char>| #[trigger] b.functions.contains_key(k) && b.functions[k].executed ==> merged(a, b).functions[k].executed,
{
}

}
