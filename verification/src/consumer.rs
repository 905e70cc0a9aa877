use vstd::prelude::*;
use std::collections::BTreeMap;
use std::path::PathBuf;
use crate::defs::{CovResult, CovView, CovResultMap, ItemFormat, ItemType, WorkItem, cov_map_contents, cov_map_remove, cov_map_insert, function_map_new};
use crate::parser::{ParserError, results_view};
use crate::reader::{Gcno, GcovReaderError, ReadErrorView};
use crate::results::{computed, buffers_view, opt_results_view};
use crate::jacoco::{report_outcome, report_packages, xml_tokens};
use crate::parser::{ParserErrorView, LcovOutcome, lcov_parse, try_parse_lcov};
use crate::paths::{parent_of, join_paths, has_no_parent, path_parent, path_join, bare_name};
use crate::results::results_views;
use crate::{merge_results, merged, merge_overflows};

verus! {

/// The results of a map after adding, one after the other, the results of
/// a sequence: a file already there gets the merge of both.
pub open spec fn add_all(m: Map<Seq<char>, CovView>, rs: Seq<(Seq<char>, CovView)>) -> Map<Seq<char>, CovView>
    decreases rs.len(),
{
    if rs.len() == 0 {
        m
    } else {
        let m1 = add_all(m, rs.drop_last());
        let (n, r) = rs.last();
        m1.insert(n, if m1.contains_key(n) { merged(m1[n], r) } else { r })
    }
}

/// Whether adding the results of a sequence to a map overflows some count.
pub open spec fn add_all_overflows(m: Map<Seq<char>, CovView>, rs: Seq<(Seq<char>, CovView)>) -> bool
    decreases rs.len(),
{
    if rs.len() == 0 {
        false
    } else {
        let m1 = add_all(m, rs.drop_last());
        let (n, r) = rs.last();
        add_all_overflows(m, rs.drop_last()) || (m1.contains_key(n) && merge_overflows(m1[n].lines, r.lines))
    }
}

/// An empty result, to take another's place.
fn blank_result() -> (r: CovResult)
    ensures
        r@ == (CovView { lines: Map::empty(), branches: Map::empty(), functions: Map::empty() }),
{
    let r = CovResult { lines: BTreeMap::new(), branches: BTreeMap::new(), functions: function_map_new() };
    assert(r@.lines =~= Map::empty());
    assert(r@.branches =~= Map::empty());
    assert(r@.functions =~= Map::empty());
    r
}

/// Adds results to the map of all results, merging those of a file already
/// there. Returns whether some count overflowed.
pub fn add_results(results: Vec<(String, CovResult)>, map: &mut CovResultMap) -> (warn_overflow: bool)
    ensures
        results_views(cov_map_contents(*final(map))) == add_all(results_views(cov_map_contents(*old(map))), results_view(results@)),
        warn_overflow == add_all_overflows(results_views(cov_map_contents(*old(map))), results_view(results@)),
{
    let ghost m0 = results_views(cov_map_contents(*map));
    let ghost rs = results_view(results@);
    let mut items = results;
    let n = items.len();
    let mut warn = false;
    let mut k: usize = 0;
    while k < n
        invariant
            m0 == results_views(cov_map_contents(*old(map))),
            rs == results_view(results@),
            n == rs.len(),
            k <= n,
            items@.len() == n,
            forall|j: int| k <= j < n ==> (#[trigger] items@[j]).0@ == rs[j].0 && items@[j].1@ == rs[j].1,
            results_views(cov_map_contents(*map)) == add_all(m0, rs.subrange(0, k as int)),
            warn == add_all_overflows(m0, rs.subrange(0, k as int)),
        decreases n - k,
    {
        let mut e = (String::new(), blank_result());
        std::mem::swap(&mut e, &mut items[k]);
        let (name, res) = e;
        let ghost before = results_views(cov_map_contents(*map));
        let ghost rv = res@;
        assert(rs.subrange(0, k + 1).drop_last() =~= rs.subrange(0, k as int));
        assert(rs.subrange(0, k + 1).last() == rs[k as int]);
        match cov_map_remove(map, name.as_str()) {
            Some(mut cur) => {
                let ghost cv = cur@;
                let w = merge_results(&mut cur, res);
                warn = warn || w;
                cov_map_insert(map, name, cur);
                assert(results_views(cov_map_contents(*map)) =~= before.insert(rs[k as int].0, merged(cv, rv)));
            }
            None => {
                cov_map_insert(map, name, res);
                assert(results_views(cov_map_contents(*map)) =~= before.insert(rs[k as int].0, rv));
            }
        }
        k += 1;
    }
    assert(rs.subrange(0, n as int) =~= rs);
    warn
}

/// The name a file gets when a gcno file only holds its bare name: the
/// directory of the gcno's stem before it.
pub open spec fn guessed_name(name: Seq<char>, stem: Seq<char>) -> Seq<char> {
    match path_parent(stem) {
        Some(par) => if bare_name(name) { path_join(par, name) } else { name },
        None => name,
    }
}

/// Puts the directory of `stem` before each file name that has none.
pub fn rename_single_files(results: &mut Vec<(String, CovResult)>, stem: &str)
    ensures
        final(results)@.len() == old(results)@.len(),
        forall|i: int| 0 <= i < final(results)@.len() ==>
            (#[trigger] final(results)@[i]).0@ == guessed_name(old(results)@[i].0@, stem@)
                && final(results)@[i].1 == old(results)@[i].1,
{
    let parent = parent_of(stem);
    let ghost orig = results@;
    match parent {
        None => {}
        Some(par) => {
            let mut k: usize = 0;
            while k < results.len()
                invariant
                    opt_par(Some(par)) == path_parent(stem@),
                    results@.len() == orig.len(),
                    k <= orig.len(),
                    forall|i: int| 0 <= i < orig.len() ==> (#[trigger] results@[i]).1 == orig[i].1,
                    forall|i: int| k <= i < orig.len() ==> (#[trigger] results@[i]).0 == orig[i].0,
                    forall|i: int| 0 <= i < k ==> (#[trigger] results@[i]).0@ == guessed_name(orig[i].0@, stem@),
                decreases orig.len() - k,
            {
                if has_no_parent(results[k].0.as_str()) {
                    let joined = join_paths(par.as_str(), results[k].0.as_str());
                    results[k].0 = joined;
                }
                k += 1;
            }
        }
    }
}

/// A parent path as a spec value.
pub open spec fn opt_par(o: Option<String>) -> Option<Seq<char>> {
    crate::paths::opt_view(o)
}

/// Results with each bare file name put under the directory of `stem`.
pub open spec fn renamed(v: Seq<(Seq<char>, CovView)>, stem: Seq<char>) -> Seq<(Seq<char>, CovView)> {
    v.map_values(|e: (Seq<char>, CovView)| (guessed_name(e.0, stem), e.1))
}

/// What to do with a work item.
pub enum ItemAction {
    /// Add these results to the map of all results.
    Add(Vec<(String, CovResult)>),
    /// Add nothing: the counters could not be computed.
    ComputeFailed(GcovReaderError),
    /// Skip the item: it could not be parsed.
    ParseFailed(ParserError),
    /// Skip the item: its data is not of a kind its format can have.
    InvalidContent,
    /// Skip the item: source-based coverage needs the path of the binary.
    NoBinary,
    /// Run gcov on the gcno file at the path (the stem comes first), then
    /// read the gcov files it writes.
    RunGcov(String, PathBuf),
    /// Turn the raw profiles into lcov with the llvm tools, then read that.
    RunLlvm(Vec<PathBuf>),
    /// The item cannot be handled: handling it would panic or never finish.
    Abort,
}

/// An action that adds the results of a computation, or reports how it failed.
pub open spec fn acts_on_compute(act: ItemAction, r: Option<Result<Seq<(Seq<char>, CovView)>, ReadErrorView>>, stem: Seq<char>, guess: bool) -> bool {
    match r {
        None => act is Abort,
        Some(Err(e)) => act matches ItemAction::ComputeFailed(x) && x@ == e,
        Some(Ok(v)) => act matches ItemAction::Add(w) && results_view(w@) == (if guess { renamed(v, stem) } else { v }),
    }
}

/// An action that adds the results of a parser, or reports how it failed.
pub open spec fn acts_on_parse(act: ItemAction, r: Option<Result<Seq<(Seq<char>, CovView)>, ParserErrorView>>) -> bool {
    match r {
        None => act is Abort,
        Some(Err(e)) => act matches ItemAction::ParseFailed(x) && x@ == e,
        Some(Ok(v)) => act matches ItemAction::Add(w) && results_view(w@) == v,
    }
}

/// What a parse of lcov data gives, as an optional result.
pub open spec fn lcov_result(b: Seq<u8>, branch_enabled: bool) -> Option<Result<Seq<(Seq<char>, CovView)>, ParserErrorView>> {
    match lcov_parse(b, branch_enabled) {
        LcovOutcome::Done(rs) => Some(Ok(rs)),
        LcovOutcome::Failed(e) => Some(Err(e)),
        LcovOutcome::Panics => None,
    }
}

/// Computes the results of a gcno file and its gcda files held in memory.
fn consume_buffers(b: crate::defs::GcnoBuffers, branch_enabled: bool, guess_directory: bool) -> (act: ItemAction)
    requires
        b.gcno_buf@.len() + 8 <= usize::MAX,
        forall|k: int| 0 <= k < b.gcda_buf@.len() ==> #[trigger] b.gcda_buf@[k]@.len() + 8 <= usize::MAX,
    ensures
        exists|r: Option<Result<Seq<(Seq<char>, CovView)>, ReadErrorView>>|
            computed(b.stem@, b.gcno_buf@, buffers_view(b.gcda_buf@), branch_enabled, r) && #[trigger] acts_on_compute(act, r, b.stem@, guess_directory),
{
    let ghost sv = b.stem@;
    let stem = b.stem;
    let r = Gcno::compute(stem.as_str(), b.gcno_buf, b.gcda_buf, branch_enabled);
    let ghost rv = opt_results_view(r);
    match r {
        None => {
            assert(acts_on_compute(ItemAction::Abort, rv, sv, guess_directory));
            ItemAction::Abort
        }
        Some(Err(e)) => {
            let act = ItemAction::ComputeFailed(e);
            assert(acts_on_compute(act, rv, sv, guess_directory));
            act
        }
        Some(Ok(v)) => {
            let mut v = v;
            let ghost v0 = v@;
            if guess_directory {
                rename_single_files(&mut v, stem.as_str());
                assert(results_view(v@) =~= renamed(results_view(v0), sv));
            }
            let act = ItemAction::Add(v);
            assert(acts_on_compute(act, rv, sv, guess_directory));
            act
        }
    }
}

/// Parses lcov data held in memory.
fn consume_lcov(c: Vec<u8>, branch_enabled: bool) -> (act: ItemAction)
    ensures
        acts_on_parse(act, lcov_result(c@, branch_enabled)),
{
    match try_parse_lcov(&c, branch_enabled) {
        None => ItemAction::Abort,
        Some(Err(e)) => ItemAction::ParseFailed(e),
        Some(Ok(v)) => ItemAction::Add(v),
    }
}

/// Parses a JaCoCo XML report held in memory.
fn consume_jacoco(c: Vec<u8>) -> (act: ItemAction)
    ensures
        exists|r: Option<Result<Vec<(String, CovResult)>, ParserError>>|
            report_outcome(r, report_packages(xml_tokens(c@), 0, Seq::empty())) && #[trigger] acts_on_parse(act, opt_results_view(r)),
{
    let r = crate::jacoco::parse_jacoco_xml_report(c.as_slice());
    let ghost rv = opt_results_view(r);
    let act = match r {
        None => ItemAction::Abort,
        Some(Err(e)) => ItemAction::ParseFailed(e),
        Some(Ok(v)) => ItemAction::Add(v),
    };
    assert(acts_on_parse(act, rv));
    act
}

/// Decides what a work item gives: the in-memory data is parsed or
/// computed here; what needs gcov or the llvm tools is handed back.
pub fn consume_item(item: WorkItem, branch_enabled: bool, guess_directory: bool, has_binary: bool) -> (act: ItemAction)
    requires
        item.item matches ItemType::Buffers(b) ==> b.gcno_buf@.len() + 8 <= usize::MAX
            && forall|k: int| 0 <= k < b.gcda_buf@.len() ==> #[trigger] b.gcda_buf@[k]@.len() + 8 <= usize::MAX,
    ensures
        match (item.format, item.item) {
            (ItemFormat::Gcno, ItemType::Buffers(b)) => exists|r: Option<Result<Seq<(Seq<char>, CovView)>, ReadErrorView>>|
                computed(b.stem@, b.gcno_buf@, buffers_view(b.gcda_buf@), branch_enabled, r) && #[trigger] acts_on_compute(act, r, b.stem@, guess_directory),
            (ItemFormat::Gcno, ItemType::Path((stem, p))) => act == ItemAction::RunGcov(stem, p),
            (ItemFormat::Gcno, _) => act is InvalidContent,
            (ItemFormat::Profraw, ItemType::Paths(ps)) => if has_binary { act == ItemAction::RunLlvm(ps) } else { act is NoBinary },
            (ItemFormat::Profraw, _) => if has_binary { act is InvalidContent } else { act is NoBinary },
            (ItemFormat::Info, ItemType::Content(c)) => acts_on_parse(act, lcov_result(c@, branch_enabled)),
            (ItemFormat::JacocoXml, ItemType::Content(c)) => exists|r: Option<Result<Vec<(String, CovResult)>, ParserError>>|
                report_outcome(r, report_packages(xml_tokens(c@), 0, Seq::empty())) && #[trigger] acts_on_parse(act, opt_results_view(r)),
            _ => act is InvalidContent,
        },
{
    match item.format {
        ItemFormat::Gcno => match item.item {
            ItemType::Buffers(b) => consume_buffers(b, branch_enabled, guess_directory),
            ItemType::Path((stem, p)) => ItemAction::RunGcov(stem, p),
            _ => ItemAction::InvalidContent,
        },
        ItemFormat::Profraw => {
            if !has_binary {
                return ItemAction::NoBinary;
            }
            match item.item {
                ItemType::Paths(ps) => ItemAction::RunLlvm(ps),
                _ => ItemAction::InvalidContent,
            }
        }
        ItemFormat::Info => match item.item {
            ItemType::Content(c) => consume_lcov(c, branch_enabled),
            _ => ItemAction::InvalidContent,
        },
        ItemFormat::JacocoXml => match item.item {
            ItemType::Content(c) => consume_jacoco(c),
            _ => ItemAction::InvalidContent,
        },
        _ => ItemAction::InvalidContent,
    }
}

/// How gcov lays out what it writes for a gcno file: one file, or one per
/// source file; unknown until the first gcno file has been run.
#[derive(Debug, PartialEq, Eq, Structural)]
pub enum GcovType {
    Unknown,
    SingleFile,
    MultipleFiles,
}

/// The layout after a gcno file has been run: an unknown layout is settled by
/// whether gcov wrote a single file for it; a known one stays.
pub fn settle_gcov_type(t: GcovType, single_file_written: bool) -> (r: GcovType)
    ensures
        r == (match t {
            GcovType::Unknown => if single_file_written { GcovType::SingleFile } else { GcovType::MultipleFiles },
            _ => t,
        }),
{
    match t {
        GcovType::Unknown => {
            if single_file_written {
                GcovType::SingleFile
            } else {
                GcovType::MultipleFiles
            }
        }
        _ => t,
    }
}

/// Adding results in two batches gives the same map as adding them all at
/// once.
pub proof fn law_add_in_batches(m: Map<Seq<char>, CovView>, a: Seq<(Seq<char>, CovView)>, b: Seq<(Seq<char>, CovView)>)
    ensures
        add_all(add_all(m, a), b) == add_all(m, a + b),
    decreases b.len(),
{
    if b.len() == 0 {
        assert(a + b =~= a);
    } else {
        law_add_in_batches(m, a, b.drop_last());
        assert((a + b).drop_last() =~= a + b.drop_last());
        assert((a + b).last() == b.last());
    }
}

/// Adding no results leaves the map as it is.
pub proof fn law_add_nothing(m: Map<Seq<char>, CovView>)
    ensures
        add_all(m, Seq::empty()) == m,
        !add_all_overflows(m, Seq::empty()),
{
}

}
