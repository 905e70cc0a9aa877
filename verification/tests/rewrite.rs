use std::collections::BTreeMap;
use std::io::Write;

use grcov::filters::FileFilter;
use grcov::globs::{keep_rel_path, PathGlobs};
use grcov::output::source_digest;
use grcov::parser::gcov_gz_json;
use grcov::rewrite::{finish_result, rel_path_of, to_slashes};
use grcov::CovResult;
use rustc_hash::FxHashMap;

fn empty_result() -> CovResult {
    CovResult { lines: BTreeMap::new(), branches: BTreeMap::new(), functions: FxHashMap::default() }
}

fn covered_result() -> CovResult {
    CovResult { lines: [(42, 1)].iter().cloned().collect(), branches: BTreeMap::new(), functions: FxHashMap::default() }
}

fn uncovered_result() -> CovResult {
    CovResult { lines: [(42, 0)].iter().cloned().collect(), branches: BTreeMap::new(), functions: FxHashMap::default() }
}

fn same(a: &CovResult, b: &CovResult) -> bool {
    a.lines == b.lines && a.branches == b.branches && a.functions == b.functions
}

fn no_filter() -> FileFilter {
    FileFilter::new(None, None, None, None, None, None)
}

fn globs(ps: &[&str]) -> PathGlobs {
    PathGlobs::build(ps.iter().map(|p| p.to_string()).collect()).ok().unwrap()
}

/// The steps of path rewriting for files that are not on the disk and with
/// no source directory: the absolute path is the relative one.
fn rewrite(
    results: Vec<(&str, CovResult)>,
    mapping: Option<Vec<(String, Option<String>)>>,
    prefix: Option<&str>,
    ignore: &[&str],
    keep: &[&str],
    filter_option: Option<bool>,
) -> Vec<(String, String, CovResult)> {
    let files: FxHashMap<String, Vec<String>> = FxHashMap::default();
    let (ig, kp) = (globs(ignore), globs(keep));
    let mut out = Vec::new();
    for (path, r) in results {
        let rel = rel_path_of(path, mapping.as_ref(), prefix, &files).unwrap();
        let abs = rel.clone();
        if let Some(t) = finish_result(None, &abs, rel, &ig, &kp, false, false, None, &no_filter(), filter_option, r) {
            out.push(t);
        }
    }
    out
}

#[test]
fn test_rewrite_paths_basic() {
    let results = rewrite(vec![("main.cpp", empty_result())], None, None, &[], &[], None);
    assert_eq!(results.len(), 1);
    assert_eq!(results[0].0, "main.cpp");
    assert_eq!(results[0].1, "main.cpp");
    assert!(same(&results[0].2, &empty_result()));
}

#[test]
fn path_rewriting_test_rewrite_paths_remove_prefix() {
    let results = rewrite(
        vec![("/home/worker/src/workspace/main.cpp", empty_result())],
        None,
        Some("/home/worker/src/workspace/"),
        &[],
        &[],
        None,
    );
    assert_eq!(results.len(), 1);
    assert_eq!(results[0].0, "main.cpp");
    assert_eq!(results[0].1, "main.cpp");
}

#[test]
fn path_rewriting_test_rewrite_paths_ignore_a_directory() {
    let results = rewrite(
        vec![("main.cpp", empty_result()), ("mydir/prova.h", empty_result())],
        None,
        None,
        &["mydir/*"],
        &[],
        None,
    );
    assert_eq!(results.len(), 1);
    assert_eq!(results[0].0, "main.cpp");
    assert_eq!(results[0].1, "main.cpp");
}

#[test]
fn path_rewriting_test_rewrite_paths_rewrite_path_using_mapping() {
    let mapping = vec![("class/main.cpp".to_string(), Some("rewritten/main.cpp".to_string()))];
    let results = rewrite(vec![("class/main.cpp", empty_result())], Some(mapping), None, &[], &[], None);
    assert_eq!(results.len(), 1);
    assert_eq!(results[0].0, "rewritten/main.cpp");
    assert_eq!(results[0].1, "rewritten/main.cpp");
}

#[test]
fn test_rewrite_paths_only_covered() {
    let results = rewrite(
        vec![("covered.cpp", covered_result()), ("uncovered.cpp", uncovered_result())],
        None,
        None,
        &[],
        &[],
        Some(true),
    );
    assert_eq!(results.len(), 1);
    assert_eq!(results[0].1, "covered.cpp");
    assert!(same(&results[0].2, &covered_result()));
}

#[test]
fn test_rewrite_paths_only_uncovered() {
    let results = rewrite(
        vec![("covered.cpp", covered_result()), ("uncovered.cpp", uncovered_result())],
        None,
        None,
        &[],
        &[],
        Some(false),
    );
    assert_eq!(results.len(), 1);
    assert_eq!(results[0].1, "uncovered.cpp");
    assert!(same(&results[0].2, &uncovered_result()));
}

#[test]
fn keep_only_and_ignore_globs() {
    let (ig, kp) = (globs(&["foo/bar/*"]), globs(&["foo/*"]));
    assert!(keep_rel_path(&ig, &kp, "foo/x.c"));
    assert!(!keep_rel_path(&ig, &kp, "foo/bar/x.c"));
    assert!(!keep_rel_path(&ig, &kp, "baz/x.c"));
    assert!(PathGlobs::build(vec!["a[".to_string()]).is_err());
}

#[test]
fn mapping_falls_back_to_upper_case_and_fails_on_bad_values() {
    let files: FxHashMap<String, Vec<String>> = FxHashMap::default();
    let m = vec![("Main.cpp".to_string(), Some("x/Main.cpp".to_string())), ("bad.c".to_string(), None)];
    assert_eq!(rel_path_of("main.cpp", Some(&m), None, &files), Some("x/Main.cpp".to_string()));
    assert_eq!(rel_path_of("bad.c", Some(&m), None, &files), None);
    assert_eq!(rel_path_of("", Some(&m), None, &files), None);
    assert_eq!(to_slashes("a\\b\\c"), "a/b/c");
}

#[test]
fn java_partial_path_is_completed() {
    let mut files: FxHashMap<String, Vec<String>> = FxHashMap::default();
    files.insert("Main.java".to_string(), vec!["src/org/a/Main.java".to_string(), "src/org/b/Main.java".to_string()]);
    assert_eq!(rel_path_of("b/Main.java", None, None, &files), Some("src/org/b/Main.java".to_string()));
    assert_eq!(rel_path_of("Main.java", None, None, &files), None);
}

#[test]
fn digests_and_decompression() {
    assert_eq!(source_digest(b""), "d41d8cd98f00b204e9800998ecf8427e");
    assert_eq!(source_digest(b"abc"), "900150983cd24fb0d6963f7d28e17f72");
    let mut e = flate2::write::GzEncoder::new(Vec::new(), flate2::Compression::default());
    e.write_all(b"{\"format_version\":\"1\"}").unwrap();
    let gz = e.finish().unwrap();
    assert_eq!(gcov_gz_json(&gz), Some(b"{\"format_version\":\"1\"}".to_vec()));
    assert_eq!(gcov_gz_json(b"not gzip"), None);
}
