use std::collections::BTreeMap;

use grcov::defs::{HtmlDirStats, HtmlFileStats, HtmlGlobalStats, HtmlItemStats, HtmlStats};
use grcov::filters::is_covered;
use grcov::gcov::parse_version;
use grcov::parser::remove_newline;
use grcov::paths::{has_no_parent, normalize_path, to_lowercase_first, to_uppercase_first};
use grcov::summary::get_coverage_stats;
use grcov::{merge_results, CovResult, Function, FunctionMap};
use rustc_hash::FxHashMap;

#[test]
fn test_remove_newline() {
    let mut l = "Marco".as_bytes().to_vec();
    remove_newline(&mut l);
    assert_eq!(l, "Marco".as_bytes().to_vec());

    let mut l = "Marco\n".as_bytes().to_vec();
    remove_newline(&mut l);
    assert_eq!(l, "Marco".as_bytes().to_vec());

    let mut l = "Marco\r".as_bytes().to_vec();
    remove_newline(&mut l);
    assert_eq!(l, "Marco".as_bytes().to_vec());

    let mut l = "Marco\r\n".as_bytes().to_vec();
    remove_newline(&mut l);
    assert_eq!(l, "Marco".as_bytes().to_vec());

    let mut l = "\r\n".as_bytes().to_vec();
    remove_newline(&mut l);
    assert_eq!(l, "".as_bytes().to_vec());
}

#[test]
fn test_merge_results() {
    let mut functions1: FunctionMap = FxHashMap::default();
    functions1.insert("f1".to_string(), Function { start: 1, executed: false });
    functions1.insert("f2".to_string(), Function { start: 2, executed: false });
    let mut result = CovResult {
        lines: [(1, 21), (2, 7), (7, 0)].iter().cloned().collect(),
        branches: [(1, vec![false, false]), (2, vec![false, true]), (4, vec![true])]
            .iter()
            .cloned()
            .collect(),
        functions: functions1,
    };
    let mut functions2: FunctionMap = FxHashMap::default();
    functions2.insert("f1".to_string(), Function { start: 1, executed: false });
    functions2.insert("f2".to_string(), Function { start: 2, executed: true });
    let result2 = CovResult {
        lines: [(1, 21), (3, 42), (4, 7), (2, 0), (8, 0)].iter().cloned().collect(),
        branches: [(1, vec![false, false]), (2, vec![false, true]), (3, vec![true])]
            .iter()
            .cloned()
            .collect(),
        functions: functions2,
    };

    merge_results(&mut result, result2);
    assert_eq!(
        result.lines,
        [(1, 42), (2, 7), (3, 42), (4, 7), (7, 0), (8, 0)].iter().cloned().collect()
    );
    assert_eq!(
        result.branches,
        [(1, vec![false, false]), (2, vec![false, true]), (3, vec![true]), (4, vec![true])]
            .iter()
            .cloned()
            .collect()
    );
    assert!(result.functions.contains_key("f1"));
    assert!(result.functions.contains_key("f2"));
    let mut func = result.functions.get("f1").unwrap();
    assert_eq!(func.start, 1);
    assert!(!func.executed);
    func = result.functions.get("f2").unwrap();
    assert_eq!(func.start, 2);
    assert!(func.executed);
}

fn two_functions(e1: bool, e2: bool, first: &str) -> FunctionMap {
    let mut functions: FunctionMap = FxHashMap::default();
    functions.insert(first.to_string(), Function { start: 1, executed: e1 });
    functions.insert("f2".to_string(), Function { start: 2, executed: e2 });
    functions
}

#[test]
fn test_covered() {
    let result = CovResult {
        lines: [(1, 21), (2, 7), (7, 0)].iter().cloned().collect(),
        branches: [].iter().cloned().collect(),
        functions: two_functions(true, false, "f1"),
    };
    assert!(is_covered(&result));
}

#[test]
fn test_covered_no_functions() {
    let result = CovResult {
        lines: [(1, 21), (2, 7), (7, 0)].iter().cloned().collect(),
        branches: [].iter().cloned().collect(),
        functions: FxHashMap::default(),
    };
    assert!(is_covered(&result));
}

#[test]
fn test_uncovered_no_lines_executed() {
    let result = CovResult {
        lines: [(1, 0), (2, 0), (7, 0)].iter().cloned().collect(),
        branches: [].iter().cloned().collect(),
        functions: two_functions(true, false, "f1"),
    };
    assert!(!is_covered(&result));
}

#[test]
fn test_covered_functions_executed() {
    let result = CovResult {
        lines: [(1, 21), (2, 7), (7, 0)].iter().cloned().collect(),
        branches: [].iter().cloned().collect(),
        functions: two_functions(true, true, "top-level"),
    };
    assert!(is_covered(&result));
}

#[test]
fn test_covered_toplevel_executed() {
    let mut functions: FunctionMap = FxHashMap::default();
    functions.insert("top-level".to_string(), Function { start: 1, executed: true });
    let result = CovResult {
        lines: [(1, 21), (2, 7), (7, 0)].iter().cloned().collect(),
        branches: [].iter().cloned().collect(),
        functions,
    };
    assert!(is_covered(&result));
}

#[test]
fn test_uncovered_functions_not_executed() {
    let result = CovResult {
        lines: [(1, 21), (2, 7), (7, 0)].iter().cloned().collect(),
        branches: [].iter().cloned().collect(),
        functions: two_functions(true, false, "top-level"),
    };
    assert!(!is_covered(&result));
}

fn version_of(s: &str) -> (u64, u64, u64) {
    let v = parse_version(s).unwrap();
    (v.major, v.minor, v.patch)
}

#[test]
fn test_parse_version() {
    assert_eq!(version_of("gcov (Ubuntu 4.3.0-12ubuntu2) 4.3.0 20170406"), (4, 3, 0));
    assert_eq!(version_of("gcov (Ubuntu 4.9.0-12ubuntu2) 4.9.0 20170406"), (4, 9, 0));
    assert_eq!(version_of("gcov (Ubuntu 6.3.0-12ubuntu2) 6.3.0 20170406"), (6, 3, 0));
    assert_eq!(version_of("gcov (GCC) 12.2.0"), (12, 2, 0));
    assert_eq!(version_of("gcov (GCC) 12.2.0\r"), (12, 2, 0));
}

#[test]
fn test_to_lowercase_first() {
    assert_eq!(to_lowercase_first("marco"), "marco");
    assert_eq!(to_lowercase_first("Marco"), "marco");
}

#[test]
fn test_to_uppercase_first() {
    assert_eq!(to_uppercase_first("marco"), "Marco");
    assert_eq!(to_uppercase_first("Marco"), "Marco");
}

#[test]
fn test_normalize_path() {
    assert_eq!(normalize_path("./foo/bar").unwrap(), "foo/bar");
    assert_eq!(normalize_path("./foo//bar").unwrap(), "foo/bar");
    assert_eq!(normalize_path("./foo/./bar/./oof/").unwrap(), "foo/bar/oof");
    assert_eq!(normalize_path("./foo/../bar/./oof/").unwrap(), "bar/oof");
    assert!(normalize_path("../bar/oof/").is_none());
    assert!(normalize_path("bar/foo/../../../oof/").is_none());
}

#[test]
fn test_has_no_parent() {
    assert!(has_no_parent("foo.bar"));
    assert!(has_no_parent("foo"));
    assert!(!has_no_parent("/foo.bar"));
    assert!(!has_no_parent("./foo.bar"));
    assert!(!has_no_parent("../foo.bar"));
    assert!(!has_no_parent("foo/foo.bar"));
    assert!(!has_no_parent("bar/foo/foo.bar"));
    assert!(!has_no_parent("/"));
    assert!(!has_no_parent("/foo/bar.oof"));
}

/// The coverage of the `main.rs` of a small program.
pub fn main_rs_result() -> CovResult {
    let mut branches = BTreeMap::new();
    branches.insert(3, vec![true, false]);
    branches.insert(5, vec![false, false]);
    let mut functions = FxHashMap::default();
    functions.insert(
        "_ZN8cov_test4main17h7eb435a3fb3e6f20E".to_string(),
        Function { start: 1, executed: true },
    );
    CovResult {
        lines: [(1, 1), (2, 1), (3, 2), (4, 1), (5, 0), (6, 0), (8, 1), (9, 1)]
            .iter()
            .cloned()
            .collect(),
        branches,
        functions,
    }
}

#[test]
fn test_summary() {
    let results = vec![("src/main.rs".to_string(), "src/main.rs".to_string(), main_rs_result())];
    let stats = get_coverage_stats(&results).unwrap();
    assert_eq!(stats.lines_covered, 6);
    assert_eq!(stats.lines_valid, 8);
    assert_eq!(stats.branches_covered, 1);
    assert_eq!(stats.branches_valid, 4);
}

fn stats(tl: usize, cl: usize, tf: usize, cf: usize, tb: usize, cb: usize) -> HtmlStats {
    HtmlStats {
        total_lines: tl,
        covered_lines: cl,
        total_funs: tf,
        covered_funs: cf,
        total_branches: tb,
        covered_branches: cb,
    }
}

fn dir(files: &[(&str, HtmlStats)], st: HtmlStats) -> HtmlDirStats {
    let mut m = BTreeMap::new();
    for (n, s) in files {
        m.insert(n.to_string(), HtmlFileStats { stats: *s, abs_prefix: None });
    }
    HtmlDirStats { files: m, stats: st, abs_prefix: None }
}

#[test]
fn test_html_global_stats_list() {
    let mut dirs = BTreeMap::new();
    dirs.insert("".to_string(), dir(&[("build.rs", stats(30, 25, 3, 2, 6, 5))], stats(30, 25, 3, 2, 6, 5)));
    dirs.insert("src".to_string(), dir(&[("lib.rs", stats(50, 40, 5, 4, 10, 8))], stats(100, 80, 10, 8, 20, 16)));
    dirs.insert("src/utils".to_string(), dir(&[("mod.rs", stats(50, 40, 5, 4, 10, 8))], stats(50, 40, 5, 4, 10, 8)));
    let global = HtmlGlobalStats { dirs, stats: stats(130, 105, 13, 10, 26, 21), abs_prefix: None };

    let root_items = global.list("".to_string());
    assert_eq!(root_items.len(), 2);
    assert!(root_items.contains_key("build.rs"));
    assert!(root_items.contains_key("src"));
    match root_items.get("build.rs").unwrap() {
        HtmlItemStats::File(_) => {}
        HtmlItemStats::Directory(_) => panic!("build.rs should be a file"),
    }
    match root_items.get("src").unwrap() {
        HtmlItemStats::Directory(_) => {}
        HtmlItemStats::File(_) => panic!("src should be a directory"),
    }

    let src_items = global.list("src".to_string());
    assert_eq!(src_items.len(), 2);
    assert!(src_items.contains_key("lib.rs"));
    assert!(src_items.contains_key("utils"));
    match src_items.get("utils").unwrap() {
        HtmlItemStats::Directory(_) => {}
        HtmlItemStats::File(_) => panic!("utils should be a directory"),
    }

    let utils_items = global.list("src/utils".to_string());
    assert_eq!(utils_items.len(), 1);
    assert!(utils_items.contains_key("mod.rs"));
}
