use std::collections::BTreeMap;

use grcov::cobertura::{class_stats, coverage_stats, get_coverage, line_stats, package_stats, Line};
use grcov::cargo_env::{add_flag, coverage_rustflags, get_coverage_env_vars, get_target_dir, is_release, is_white_space, parse_flags, plan_actions, profdata_dir, CargoAction, CargoCommand};
use grcov::consumer::{add_results, consume_item, rename_single_files, settle_gcov_type, GcovType, ItemAction};
use grcov::defs::{cov_map_new, GcnoBuffers, ItemFormat, ItemType, WorkItem};
use grcov::filters::{apply_filters, keep_by_coverage, CompiledRegex, FileFilter, FilterType};
use grcov::fuzzmanager::{covdir_place, FMDirStats, FMFileStats, FMStats};
use grcov::gcov::GcovToolError;
use grcov::html::BadgeStyle;
use grcov::jacoco::parse_jacoco_xml_report;
use grcov::llvm_tools::{export_plan, llvm_profiles_to_lcov, merge_plan, profile_list_text};
use grcov::output::{activedata_file, coveralls_branches, coveralls_coverage, coveralls_extra_keys, lcov_record_text};
use grcov::parser::{add_branch, parse_gcov_content, parse_lcov, try_parse_lcov, ParserError};
use grcov::paths::{check_extension, fixup_rel_path, remove_prefix};
use grcov::producer::{classify_file, classify_input, is_gcno_llvm, is_info, is_jacoco, is_known_binary, FileKind, InputKind};
use grcov::reader::Gcno;
use grcov::results::FileType;
use grcov::summary::missed_lines;
use grcov::{merge_results, CovResult, Function, FunctionMap};
use rustc_hash::FxHashMap;

fn result_of(lines: &[(u32, u64)], branches: &[(u32, Vec<bool>)], functions: &[(&str, u32, bool)]) -> CovResult {
    let mut f: FunctionMap = FxHashMap::default();
    for (n, s, e) in functions {
        f.insert(n.to_string(), Function { start: *s, executed: *e });
    }
    CovResult {
        lines: lines.iter().cloned().collect(),
        branches: branches.iter().cloned().collect(),
        functions: f,
    }
}

#[test]
fn lcov_record_fields() {
    let text = "TN:\nSF:a.c\nFN:1,main\nFNDA:1,main\nDA:1,1\nDA:2,0\nBRDA:1,0,0,1\nBRDA:1,0,1,-\nend_of_record\n";
    let results = parse_lcov(text.as_bytes().to_vec(), true).unwrap();
    assert_eq!(results.len(), 1);
    assert_eq!(results[0].0, "a.c");
    let r = &results[0].1;
    assert_eq!(r.lines, [(1, 1), (2, 0)].iter().cloned().collect());
    assert_eq!(r.branches, [(1, vec![true, false])].iter().cloned().collect());
    assert_eq!(r.functions.get("main"), Some(&Function { start: 1, executed: true }));
}

#[test]
fn lcov_branches_left_out_unless_asked() {
    let text = "SF:a.c\nDA:1,1\nBRDA:1,0,0,1\nend_of_record\n";
    let results = parse_lcov(text.as_bytes().to_vec(), false).unwrap();
    assert!(results[0].1.branches.is_empty());
}

#[test]
fn lcov_branch_flag_only_fills_branches() {
    let text = "TN:\nSF:a.c\nFN:1,main\nFNDA:1,main\nDA:1,1\nBRDA:1,0,0,12\nBRDA:1,0,1,-\nDA:2,0\nend_of_record\nSF:b.c\nDA:3,4\nBRDA:3,0,0,1\r\nend_of_record\n";
    let with = parse_lcov(text.as_bytes().to_vec(), true).unwrap();
    let without = parse_lcov(text.as_bytes().to_vec(), false).unwrap();
    assert_eq!(with.len(), without.len());
    for (a, b) in with.iter().zip(without.iter()) {
        assert_eq!(a.0, b.0);
        assert_eq!(a.1.lines, b.1.lines);
        assert_eq!(a.1.functions, b.1.functions);
        assert!(b.1.branches.is_empty());
    }
    assert_eq!(with[0].1.branches, [(1, vec![true, false])].iter().cloned().collect());
    assert_eq!(with[1].1.branches, [(3, vec![true])].iter().cloned().collect());
}

#[test]
fn lcov_taken_field_running_into_a_record() {
    // The taken field is read up to its first byte other than `-`, and the
    // record that follows that byte on the same line is read as well.
    let text = "SF:a\nBRDA:1,0,0,1DA:5,3\nend_of_record\n";
    let with = parse_lcov(text.as_bytes().to_vec(), true).unwrap();
    let without = parse_lcov(text.as_bytes().to_vec(), false).unwrap();
    assert_eq!(with[0].1.lines.get(&5), Some(&3));
    assert!(without[0].1.lines.is_empty());
}

#[test]
fn lcov_invalid_da_record_is_an_error() {
    let text = "SF:a.c\nDA:12";
    assert!(matches!(try_parse_lcov(&text.as_bytes().to_vec(), true), Some(Err(_))));
}

#[test]
fn gcov_intermediate_text() {
    let text = "file:foo.c\nfunction:1,1,main\nlcount:1,5\nlcount:2,0\nlcount:3,-1\nbranch:1,taken\nbranch:1,nottaken\n";
    let results = parse_gcov_content(&text.as_bytes().to_vec()).unwrap();
    assert_eq!(results.len(), 1);
    assert_eq!(results[0].0, "foo.c");
    let r = &results[0].1;
    assert_eq!(r.lines, [(1, 5), (2, 0), (3, 0)].iter().cloned().collect());
    assert_eq!(r.branches, [(1, vec![true, false])].iter().cloned().collect());
    assert_eq!(r.functions.get("main"), Some(&Function { start: 1, executed: true }));
}

#[test]
fn add_branch_grows_the_line() {
    let mut b = BTreeMap::new();
    add_branch(&mut b, 3, 0, true);
    add_branch(&mut b, 3, 2, false);
    assert_eq!(b.get(&3), Some(&vec![true, false, false]));
}

const JACOCO: &str = r#"<?xml version="1.0" encoding="UTF-8" standalone="yes"?><!DOCTYPE report PUBLIC "-//JACOCO//DTD Report 1.1//EN" "report.dtd"><report name="r"><package name="hello"><class name="hello/Hello" sourcefilename="Hello.java"><method name="&lt;init&gt;" desc="()V" line="3"><counter type="INSTRUCTION" missed="0" covered="3"/><counter type="METHOD" missed="0" covered="1"/></method><method name="main" desc="([Ljava/lang/String;)V" line="5"><counter type="METHOD" missed="1" covered="0"/></method></class><class name="hello/Hello$Inner" sourcefilename="Hello.java"><method name="run" desc="()V" line="9"><counter type="METHOD" missed="0" covered="1"/></method></class><sourcefile name="Hello.java"><line nr="3" mi="0" ci="3" mb="0" cb="0"/><line nr="5" mi="2" ci="0" mb="1" cb="1"/><line nr="6" mi="0" ci="0" mb="0" cb="0"/></sourcefile></package></report>"#;

#[test]
fn jacoco_report_classes_and_lines() {
    let results = parse_jacoco_xml_report(JACOCO.as_bytes()).unwrap().unwrap();
    assert_eq!(results.len(), 1);
    assert_eq!(results[0].0, "hello/Hello.java");
    let r = &results[0].1;
    assert_eq!(r.lines, [(3, 1), (6, 0)].iter().cloned().collect());
    assert_eq!(r.branches, [(5, vec![true, false])].iter().cloned().collect());
    assert_eq!(r.functions.get("Hello#<init>"), Some(&Function { start: 3, executed: true }));
    assert_eq!(r.functions.get("Hello#main"), Some(&Function { start: 5, executed: false }));
    assert_eq!(r.functions.get("Hello$Inner#run"), Some(&Function { start: 9, executed: true }));
}

#[test]
fn jacoco_class_without_source_file_is_an_error() {
    let xml = r#"<report><package name="p"><class name="p/Other"><method name="m" line="1"><counter type="METHOD" missed="0" covered="1"/></method></class></package></report>"#;
    match parse_jacoco_xml_report(xml.as_bytes()) {
        Some(Err(ParserError::InvalidData(m))) => assert_eq!(m, "Class p/Other is not the top class in its file."),
        other => panic!("unexpected: {:?}", other.map(|r| r.map(|v| v.len()))),
    }
}

#[test]
fn jacoco_empty_package_name_gives_relative_path() {
    let xml = r#"<report><package name=""><sourcefile name="A.java"><line nr="1" mi="0" ci="1" mb="0" cb="0"/></sourcefile></package></report>"#;
    let results = parse_jacoco_xml_report(xml.as_bytes()).unwrap().unwrap();
    assert_eq!(results[0].0, "A.java");
    assert_eq!(results[0].1.lines, [(1, 1)].iter().cloned().collect());
}

#[test]
fn jacoco_missing_attribute_is_an_error() {
    let xml = r#"<report><package name="p"><sourcefile name="A.java"><line nr="1" mi="0" mb="0" cb="0"/></sourcefile></package></report>"#;
    match parse_jacoco_xml_report(xml.as_bytes()) {
        Some(Err(ParserError::InvalidRecord(m))) => assert_eq!(m, "Attribute ci not found"),
        _ => panic!("expected a missing attribute"),
    }
}

fn main_rs_result() -> CovResult {
    result_of(
        &[(1, 1), (2, 1), (3, 2), (4, 1), (5, 0), (6, 0), (8, 1), (9, 1)],
        &[(3, vec![true, false]), (5, vec![false, false])],
        &[("_ZN8cov_test4main17h7eb435a3fb3e6f20E", 1, true)],
    )
}

#[test]
fn cobertura_report_of_main() {
    let results = vec![("src/main.rs".to_string(), "src/main.rs".to_string(), main_rs_result())];
    let cov = get_coverage(&results, vec![".".to_string()], true);
    assert_eq!(cov.sources, vec![".".to_string()]);
    assert_eq!(cov.packages.len(), 1);
    let p = &cov.packages[0];
    assert_eq!(p.name, "src/main.rs");
    let c = &p.classes[0];
    assert_eq!(c.name, "main");
    assert_eq!(c.file_name, "src/main.rs");
    assert_eq!(c.methods.len(), 1);
    assert_eq!(c.methods[0].name, "cov_test::main");
    assert_eq!(c.methods[0].lines.len(), 8);
    assert!(matches!(c.lines[2], Line::Branch { number: 3, hits: 2, .. }));
    let st = coverage_stats(&cov).unwrap();
    assert_eq!(st.lines_covered, 6);
    assert_eq!(st.lines_valid, 8);
    assert_eq!(st.branches_covered, 1);
    assert_eq!(st.branches_valid, 4);
    let ms = line_stats(&c.methods[0].lines).unwrap();
    assert_eq!(ms.lines_valid, 8);
}

#[test]
fn cobertura_methods_end_at_next_function() {
    let r = result_of(&[(1, 1), (2, 0), (5, 1), (7, 1)], &[], &[("a", 1, true), ("b", 5, true)]);
    let cov = get_coverage(&[("a.c".to_string(), "a.c".to_string(), r)], vec![], false);
    let c = &cov.packages[0].classes[0];
    for m in &c.methods {
        let n = m.lines.len();
        if m.name == "a" {
            assert_eq!(n, 2);
        } else {
            assert_eq!(m.name, "b");
            assert_eq!(n, 2);
        }
    }
}

#[test]
fn lcov_record_text_exact() {
    let r = result_of(&[(1, 2), (3, 0)], &[(1, vec![true, false])], &[("f", 1, true)]);
    let t = lcov_record_text("a.c", &r, false).unwrap();
    assert_eq!(
        t,
        "SF:a.c\nFN:1,f\nFNDA:1,f\nFNF:1\nFNH:1\nBRDA:1,0,0,1\nBRDA:1,0,1,-\nBRF:2\nBRH:1\nDA:1,2\nDA:3,0\nLF:2\nLH:1\nend_of_record\n"
    );
}

#[test]
fn lcov_record_without_functions() {
    let r = result_of(&[(4, 7)], &[], &[]);
    let t = lcov_record_text("b.c", &r, false).unwrap();
    assert_eq!(t, "SF:b.c\nBRF:0\nBRH:0\nDA:4,7\nLF:1\nLH:1\nend_of_record\n");
}

#[test]
fn coveralls_arrays() {
    let r = result_of(&[(1, 5), (3, 0)], &[(2, vec![true, false])], &[]);
    assert_eq!(coveralls_coverage(&r), vec![Some(5), None, Some(0)]);
    assert_eq!(coveralls_branches(&r), vec![2, 0, 0, 1, 2, 0, 1, 0]);
}

#[test]
fn activedata_lines_by_function() {
    let r = result_of(&[(1, 1), (2, 0), (5, 1), (6, 0)], &[], &[("f", 5, true)]);
    let a = activedata_file(&r, false);
    assert_eq!(a.covered, vec![1, 5]);
    assert_eq!(a.uncovered, vec![2, 6]);
    assert_eq!(a.methods.len(), 1);
    assert_eq!(a.methods[0].name, "f");
    assert_eq!(a.methods[0].covered, vec![5]);
    assert_eq!(a.methods[0].uncovered, vec![6]);
    assert_eq!(a.orphan_covered, vec![1]);
    assert_eq!(a.orphan_uncovered, vec![2]);
}

#[test]
fn file_headers() {
    assert!(is_info(b"TN:\nSF:x"));
    assert!(is_info(b"SF:x"));
    assert!(!is_info(b"TN"));
    assert!(is_gcno_llvm(b"oncg*204xyz"));
    assert!(is_gcno_llvm(b"oncg*804\0"));
    assert!(!is_gcno_llvm(b"oncg*404\0"));
    let mut x = JACOCO.as_bytes().to_vec();
    x.resize(300, b' ');
    assert!(is_jacoco(&x));
    assert!(!is_jacoco(&JACOCO.as_bytes()[..100]));
}

#[test]
fn files_classified_by_extension() {
    match classify_file("dir/foo.gcno", Some(b"oncg*804\0".to_vec()), false) {
        FileKind::Gcno(g) => {
            assert_eq!(g.stem, "dir/foo");
            assert!(g.llvm);
        }
        _ => panic!("expected a gcno file"),
    }
    assert!(matches!(classify_file("dir/foo.gcda", None, false), FileKind::Gcda(s) if s == "dir/foo"));
    assert!(matches!(classify_file("x.profraw", None, false), FileKind::Profraw(_)));
    assert!(matches!(classify_file("x.info", Some(b"SF:a".to_vec()), false), FileKind::Info(_)));
    assert!(matches!(classify_file("x.info", Some(b"zz".to_vec()), false), FileKind::Other));
    assert!(matches!(classify_file("a/linked-files-map.json", None, false), FileKind::LinkedFilesMap(_)));
    assert!(matches!(classify_file("a/other.json", None, false), FileKind::Other));
    assert!(matches!(classify_file("Makefile", None, false), FileKind::Other));
}

fn re(p: &str) -> Option<CompiledRegex> {
    CompiledRegex::compile(p)
}

#[test]
fn file_filter_regions_and_lines() {
    let ff = FileFilter::new(re("LCOV_EXCL_LINE"), re("LCOV_EXCL_START"), re("LCOV_EXCL_STOP"), re("LCOV_EXCL_BR_LINE"), None, None);
    let text = "a\nb // LCOV_EXCL_LINE\nLCOV_EXCL_START\nc\nLCOV_EXCL_STOP\nd // LCOV_EXCL_BR_LINE\ne\r";
    let fs = ff.create(text);
    assert_eq!(
        fs,
        vec![FilterType::Line(2), FilterType::Line(3), FilterType::Line(4), FilterType::Line(5), FilterType::Branch(6)]
    );
    let inert = FileFilter::new(None, None, re("X"), None, None, None);
    assert!(inert.create("X\nX").is_empty());
}

#[test]
fn filters_take_out_lines_and_branches() {
    let mut r = result_of(&[(1, 1), (2, 1), (3, 0)], &[(2, vec![true]), (3, vec![false])], &[]);
    apply_filters(&mut r, &vec![FilterType::Line(1), FilterType::Both(2), FilterType::Branch(3)]);
    assert_eq!(r.lines, [(3, 0)].iter().cloned().collect());
    assert!(r.branches.is_empty());
    assert!(!keep_by_coverage(&r, Some(true)));
    assert!(keep_by_coverage(&r, Some(false)));
    assert!(keep_by_coverage(&r, None));
}

#[test]
fn fuzzmanager_counts() {
    let s = FMStats::new(&vec![-1, 0, 3, 5]);
    assert_eq!((s.total, s.covered, s.missed), (3, 2, 1));
    assert_eq!(s.percent_hundredths, 6667);
    let mut d = FMDirStats::new("root".to_string());
    d.files.push(FMFileStats::new("a".to_string(), vec![1, 0]));
    let mut sub = FMDirStats::new("sub".to_string());
    sub.files.push(FMFileStats::new("b".to_string(), vec![1, 1, -1]));
    d.dirs.push(sub);
    d.set_stats();
    assert_eq!((d.stats.total, d.stats.covered, d.stats.missed), (4, 3, 1));
    assert_eq!(d.stats.percent_hundredths, 7500);
    assert_eq!(d.dirs[0].stats.total, 2);
}

#[test]
fn badge_styles() {
    let all = BadgeStyle::iter();
    assert_eq!(all.len(), 5);
    assert_eq!(all[0].template_name(), "badge_flat.svg");
    assert_eq!(BadgeStyle::Social.path(), "badges/social.svg");
}

#[test]
fn llvm_outputs_keep_successes() {
    let r = llvm_profiles_to_lcov(Ok(()), Ok(()), vec![Ok(vec![1]), Err("bad".to_string()), Ok(vec![2])]).unwrap();
    assert_eq!(r, vec![vec![1], vec![2]]);
    assert_eq!(llvm_profiles_to_lcov(Err("no".to_string()), Ok(()), vec![]), Err("no".to_string()));
    assert_eq!(llvm_profiles_to_lcov(Ok(()), Err("cov".to_string()), vec![]), Err("cov".to_string()));
    assert_eq!(profile_list_text(&vec!["a.profraw".to_string(), "b.profraw".to_string()]), "a.profraw\nb.profraw\n");
}

#[test]
fn work_items_decided() {
    let item = WorkItem {
        format: ItemFormat::Info,
        item: ItemType::Content(b"SF:a.c\nDA:1,1\nend_of_record\n".to_vec()),
        name: "x".to_string(),
    };
    match consume_item(item, false, false, false) {
        ItemAction::Add(v) => assert_eq!(v[0].0, "a.c"),
        _ => panic!("expected results"),
    }
    let bad = WorkItem { format: ItemFormat::Gcno, item: ItemType::Content(vec![]), name: "x".to_string() };
    assert!(matches!(consume_item(bad, false, false, false), ItemAction::InvalidContent));
    let raw = WorkItem { format: ItemFormat::Profraw, item: ItemType::Paths(vec![]), name: "x".to_string() };
    assert!(matches!(consume_item(raw, false, false, false), ItemAction::NoBinary));
    let gc = WorkItem {
        format: ItemFormat::Gcno,
        item: ItemType::Buffers(GcnoBuffers { stem: "s".to_string(), gcno_buf: b"junk".to_vec(), gcda_buf: vec![] }),
        name: "x".to_string(),
    };
    assert!(matches!(consume_item(gc, false, false, false), ItemAction::ComputeFailed(_)));
}

#[test]
fn compute_rejects_a_bad_gcno() {
    assert!(matches!(Gcno::compute("s", b"junk".to_vec(), vec![], false), Some(Err(_))));
}

#[test]
fn results_added_and_merged() {
    let mut map = cov_map_new();
    let w = add_results(
        vec![
            ("a.c".to_string(), result_of(&[(1, 1)], &[], &[])),
            ("b.c".to_string(), result_of(&[(2, 0)], &[], &[])),
            ("a.c".to_string(), result_of(&[(1, 2), (3, 1)], &[], &[])),
        ],
        &mut map,
    );
    assert!(!w);
    assert_eq!(map.len(), 2);
    assert_eq!(map.get("a.c").unwrap().lines, [(1, 3), (3, 1)].iter().cloned().collect());
    let w = add_results(vec![("b.c".to_string(), result_of(&[(2, u64::MAX)], &[], &[]))], &mut map);
    assert!(!w);
    let w = add_results(vec![("b.c".to_string(), result_of(&[(2, 1)], &[], &[]))], &mut map);
    assert!(w);
    assert_eq!(map.get("b.c").unwrap().lines.get(&2), Some(&u64::MAX));
}

#[test]
fn bare_names_put_under_the_stem_directory() {
    let mut v = vec![
        ("foo.c".to_string(), result_of(&[], &[], &[])),
        ("x/y.c".to_string(), result_of(&[], &[], &[])),
    ];
    rename_single_files(&mut v, "dir/sub/foo");
    assert_eq!(v[0].0, "dir/sub/foo.c");
    assert_eq!(v[1].0, "x/y.c");
}

#[test]
fn gcov_layout_settles_once() {
    assert_eq!(settle_gcov_type(GcovType::Unknown, true), GcovType::SingleFile);
    assert_eq!(settle_gcov_type(GcovType::Unknown, false), GcovType::MultipleFiles);
    assert_eq!(settle_gcov_type(GcovType::SingleFile, false), GcovType::SingleFile);
}

#[test]
fn gcov_error_messages() {
    assert_eq!(GcovToolError::ProcessFailure.message(), "Failed to execute gcov process");
    let e = GcovToolError::Failure(("a.gcno".to_string(), "o".to_string(), "e".to_string()));
    assert_eq!(e.message(), "gcov execution failed on a.gcno\ngcov stdout: o\ngcov stderr: e\n");
}

#[test]
fn path_helpers() {
    assert_eq!(remove_prefix(Some("/home/user"), "/home/user/src/a.c".to_string()), "src/a.c");
    assert_eq!(remove_prefix(Some("/other"), "/home/user/src/a.c".to_string()), "/home/user/src/a.c");
    assert_eq!(remove_prefix(None, "a.c".to_string()), "a.c");
    assert_eq!(fixup_rel_path(Some("/src"), "/src/x/a.c", "y/a.c".to_string()), "x/a.c");
    assert_eq!(fixup_rel_path(Some("/src"), "/else/a.c", "/else/a.c".to_string()), "/else/a.c");
    assert_eq!(fixup_rel_path(Some("/src"), "/else/a.c", "a.c".to_string()), "a.c");
    assert!(check_extension("A.java", "java"));
    assert!(!check_extension("A.jav", "java"));
}

#[test]
fn merge_is_the_same_either_way() {
    let a = result_of(&[(1, 1), (2, 0)], &[(1, vec![true, false])], &[("f", 1, false)]);
    let b = result_of(&[(2, 3)], &[(1, vec![false, true, true])], &[("f", 1, true)]);
    let mut x = a.clone();
    merge_results(&mut x, b.clone());
    let mut y = b;
    merge_results(&mut y, a);
    assert_eq!(x.lines, y.lines);
    assert_eq!(x.branches, y.branches);
    assert_eq!(x.functions, y.functions);
    assert_eq!(x.branches.get(&1), Some(&vec![true, true, true]));
}

#[test]
fn filters_twice_same_as_once() {
    let fs = vec![FilterType::Line(1), FilterType::Branch(2)];
    let mut r = result_of(&[(1, 1), (2, 1)], &[(2, vec![true])], &[]);
    apply_filters(&mut r, &fs);
    let once = r.clone();
    apply_filters(&mut r, &fs);
    assert_eq!(r.lines, once.lines);
    assert_eq!(r.branches, once.branches);
}

fn lcov_report(results: &[(&str, CovResult)], demangle: bool) -> String {
    let mut out = String::from("TN:\n");
    for (rel_path, r) in results {
        out.push_str(&lcov_record_text(rel_path, r, demangle).unwrap());
    }
    out
}

#[test]
fn test_lcov_brf_brh() {
    let results = vec![(
        "foo/bar/a.cpp",
        CovResult {
            lines: [(1, 10), (2, 11)].iter().cloned().collect(),
            branches: {
                let mut map = BTreeMap::new();
                map.insert(1, vec![true, false, false, true, false, false]);
                map.insert(2, vec![false, false, false, true]);
                map
            },
            functions: FxHashMap::default(),
        },
    )];
    let results = lcov_report(&results, false);
    assert!(results.contains("BRF:10\n"));
    assert!(results.contains("BRH:3\n"));
}

#[test]
fn test_lcov_demangle() {
    let results = vec![(
        "foo/bar/a.cpp",
        CovResult {
            lines: BTreeMap::new(),
            branches: BTreeMap::new(),
            functions: {
                let mut map = FxHashMap::default();
                map.insert(
                    "_RINvNtC3std3mem8align_ofNtNtC3std3mem12DiscriminantE".to_string(),
                    Function { start: 1, executed: true },
                );
                map.insert("_ZN9wikipedia7article6formatEv".to_string(), Function { start: 2, executed: true });
                map.insert("hello_world".to_string(), Function { start: 3, executed: true });
                map
            },
        },
    )];
    let results = lcov_report(&results, true);
    assert!(results.contains("FN:1,std::mem::align_of::<std::mem::Discriminant>\n"));
    assert!(results.contains("FN:2,wikipedia::article::format\n"));
    assert!(results.contains("FN:3,hello_world\n"));
}

#[test]
fn missed_line_ranges() {
    let a = result_of(&[(1, 10), (2, 11)], &[], &[]);
    assert_eq!(missed_lines(&a.lines), (0, String::new()));
    let b = result_of(&[(1, 0), (2, 10), (4, 10), (5, 0), (7, 0)], &[], &[]);
    assert_eq!(missed_lines(&b.lines), (3, "1, 5-7".to_string()));
    let c = result_of(&[(0, 0), (1, 0), (3, 0), (9, 1), (10, 0)], &[], &[]);
    assert_eq!(missed_lines(&c.lines), (4, "1-3, 10".to_string()));
}

#[test]
fn package_counts_sum_classes() {
    let results = vec![("src/main.rs".to_string(), "src/main.rs".to_string(), main_rs_result())];
    let cov = get_coverage(&results, vec![".".to_string()], false);
    let p = package_stats(&cov.packages[0]).unwrap();
    let c = class_stats(&cov.packages[0].classes[0]).unwrap();
    assert_eq!(p, c);
    assert_eq!(coverage_stats(&cov).unwrap(), p);
}

fn owned(v: &[&str]) -> Vec<String> {
    v.iter().map(|s| s.to_string()).collect()
}

#[test]
fn flags_split_at_white_space() {
    assert_eq!(parse_flags("  -Ca=1\t-Zb \n x "), owned(&["-Ca=1", "-Zb", "x"]));
    assert_eq!(parse_flags(""), Vec::<String>::new());
    assert_eq!(parse_flags("a\u{3000}b"), owned(&["a", "b"]));
    assert!(is_white_space('\u{85}'));
    assert!(!is_white_space('-'));
}

#[test]
fn flags_set_or_added() {
    let mut f = owned(&["-Copt-level=3", "-Copt-level=2", "-Zx"]);
    add_flag(&mut f, "-Copt-level", Some("0"));
    assert_eq!(f, owned(&["-Copt-level=0", "-Copt-level=2", "-Zx"]));
    add_flag(&mut f, "-Zx", None);
    assert_eq!(f, owned(&["-Copt-level=0", "-Copt-level=2", "-Zx"]));
    add_flag(&mut f, "-Zprofile", None);
    add_flag(&mut f, "-Ccodegen-units", Some("1"));
    assert_eq!(f, owned(&["-Copt-level=0", "-Copt-level=2", "-Zx", "-Zprofile", "-Ccodegen-units=1"]));
}

#[test]
fn coverage_flags_and_environment() {
    assert_eq!(
        coverage_rustflags("-Copt-level=3 --cfg x"),
        "-Copt-level=0 --cfg x -Zprofile -Ccodegen-units=1 -Clink-dead-code -Coverflow-checks=off "
    );
    let t = get_target_dir(None);
    assert_eq!(t, "target/coverage");
    assert_eq!(get_target_dir(Some("/tmp/t")), "/tmp/t/coverage");
    assert_eq!(profdata_dir(None, &t, "debug"), "target/coverage/debug");
    assert_eq!(profdata_dir(Some("/p"), &t, "debug"), "/p");
    let vars = get_coverage_env_vars(None, &t, "/abs/debug");
    assert_eq!(vars[0].0, "RUSTFLAGS");
    assert_eq!(vars[0].1, "-Zprofile -Ccodegen-units=1 -Copt-level=0 -Clink-dead-code -Coverflow-checks=off ");
    assert_eq!(vars[2], ("CARGO_TARGET_DIR".to_string(), "target/coverage".to_string()));
    assert_eq!(vars[4], ("LLVM_PROFILE_FILE".to_string(), "/abs/debug/default.profraw".to_string()));
    assert!(is_release(&owned(&["cargo", "--release"])));
    assert!(!is_release(&owned(&["cargo", "--releases"])));
}

fn setup(a: &CargoAction) -> Vec<String> {
    match a {
        CargoAction::SetupEnv(c) => c.clone(),
        CargoAction::Report { .. } => panic!("not a setup"),
    }
}

#[test]
fn cargo_actions_planned() {
    let r = plan_actions(CargoCommand::Env(None), String::new(), false);
    assert_eq!(setup(&r[0]), owned(&["cargo", "test"]));
    let r = plan_actions(CargoCommand::Build(Some(owned(&["--all"]))), String::new(), false);
    assert_eq!(setup(&r[0]), owned(&["cargo", "build", "--all"]));
    let r = plan_actions(CargoCommand::Report { test_cmd: None, output_type: None, release: Some(true) }, "d".to_string(), false);
    assert_eq!(r.len(), 2);
    assert_eq!(setup(&r[0]), owned(&["cargo", "test", "--release"]));
    assert!(matches!(&r[1], CargoAction::Report { path, output_type } if path == "d" && output_type == "html"));
    let r = plan_actions(CargoCommand::Report { test_cmd: None, output_type: Some("lcov".to_string()), release: None }, "d".to_string(), true);
    assert_eq!(r.len(), 1);
    assert!(matches!(&r[0], CargoAction::Report { output_type, .. } if output_type == "lcov"));
}

#[test]
fn binaries_known_by_their_first_bytes() {
    assert!(is_known_binary(b"\x7fELF\x02\x01"));
    assert!(is_known_binary(b"MZ\x90\x00"));
    assert!(is_known_binary(&[0xCF, 0xFA, 0xED, 0xFE, 7]));
    assert!(is_known_binary(&[0x64, 0x86]));
    assert!(is_known_binary(&[0x4C, 0x01, 0]));
    assert!(!is_known_binary(b"\x7fEL"));
    assert!(!is_known_binary(b"#!/bin/sh"));
    assert!(!is_known_binary(&[]));
}

#[test]
fn excluded_region_includes_its_stop_line() {
    let ff = FileFilter::new(None, re("START"), re("STOP"), None, None, None);
    assert_eq!(ff.create("a\nSTART\nb\nSTOP\nc"), vec![FilterType::Line(2), FilterType::Line(3), FilterType::Line(4)]);
    let fb = FileFilter::new(None, None, None, None, re("BSTART"), re("BSTOP"));
    assert_eq!(fb.create("a\nBSTART\nb\nBSTOP\nc"), vec![FilterType::Branch(2), FilterType::Branch(3), FilterType::Branch(4)]);
    let outside = FileFilter::new(None, re("START"), re("STOP"), None, None, None);
    assert!(outside.create("STOP\na").is_empty());
}

#[test]
fn covdir_tree_groups_files_by_directory() {
    let mut root = FMDirStats::new(String::new());
    let (names, name) = covdir_place("/abs/src/a/x.rs", "src/a/x.rs").unwrap();
    assert_eq!(names, vec!["src".to_string(), "a".to_string()]);
    assert_eq!(name, "x.rs");
    root.add_file(&names, FMFileStats::new(name, vec![1, 0, -1]));
    let (names, name) = covdir_place("/abs/src/y.rs", "src/y.rs").unwrap();
    root.add_file(&names, FMFileStats::new(name, vec![2]));
    let (names, name) = covdir_place("/abs/src/a/z.rs", "src/a/z.rs").unwrap();
    root.add_file(&names, FMFileStats::new(name, vec![0]));
    assert_eq!(root.dirs.len(), 1);
    let src = &root.dirs[0];
    assert_eq!(src.name, "src");
    assert_eq!(src.files.len(), 1);
    assert_eq!(src.files[0].name, "y.rs");
    assert_eq!(src.dirs.len(), 1);
    assert_eq!(src.dirs[0].name, "a");
    let names: Vec<&str> = src.dirs[0].files.iter().map(|f| f.name.as_str()).collect();
    assert_eq!(names, vec!["x.rs", "z.rs"]);
    root.set_stats();
    assert_eq!(root.stats.total, 4);
    assert_eq!(root.stats.covered, 2);
}

#[test]
fn covdir_place_of_absolute_and_odd_paths() {
    let (names, name) = covdir_place("/usr/include/stdio.h", "/usr/include/stdio.h").unwrap();
    assert_eq!(names, vec!["/".to_string(), "usr".to_string(), "include".to_string()]);
    assert_eq!(name, "stdio.h");
    let (names, name) = covdir_place("/abs/main.c", "main.c").unwrap();
    assert!(names.is_empty());
    assert_eq!(name, "main.c");
    assert!(covdir_place("/abs/x", "../x/y.c").is_none());
    assert!(covdir_place("/", "/").is_none());
}

#[test]
fn lcov_written_record_reads_back() {
    let r = result_of(&[(1, 3), (2, 0), (7, 12)], &[(2, vec![true, false, true])], &[("main", 1, true), ("helper", 5, false)]);
    let text = lcov_record_text("src/a.c", &r, false).unwrap();
    let mut bytes = b"TN:\n".to_vec();
    bytes.extend_from_slice(text.as_bytes());
    let parsed = parse_lcov(bytes, true).unwrap();
    assert_eq!(parsed.len(), 1);
    assert_eq!(parsed[0].0, "src/a.c");
    assert_eq!(parsed[0].1.lines, r.lines);
    assert_eq!(parsed[0].1.branches, r.branches);
    assert_eq!(parsed[0].1.functions, r.functions);
}

fn words(ws: &[u32]) -> Vec<u8> {
    ws.iter().flat_map(|w| w.to_le_bytes()).collect()
}

// A gcno of version 4.2 with one function `main` in `a.c`: two blocks, one
// counted arc from block 0 to block 1, and line 5 in block 1.
fn tiny_gcno() -> Vec<u8> {
    let mut b = b"oncg*204".to_vec();
    b.extend(words(&[0]));
    b.extend(words(&[0x0100_0000, 0, 1, 0]));
    b.extend(words(&[1]));
    b.extend_from_slice(b"main");
    b.extend(words(&[1]));
    b.extend_from_slice(b"a.c\0");
    b.extend(words(&[1]));
    b.extend(words(&[0x0141_0000, 2, 0, 0]));
    b.extend(words(&[0x0143_0000, 3, 0, 1, 0]));
    b.extend(words(&[0x0145_0000, 0, 1, 0, 1]));
    b.extend_from_slice(b"a.c\0");
    b.extend(words(&[5, 0, 0]));
    b.extend(words(&[0]));
    b
}

// A gcda for `tiny_gcno` in which the counted arc ran `n` times.
fn tiny_gcda(n: u32) -> Vec<u8> {
    let mut b = b"adcg*204".to_vec();
    b.extend(words(&[0]));
    b.extend(words(&[0x0100_0000, 2, 1, 0]));
    b.extend(words(&[0x01a1_0000, 2, n, 0]));
    b.extend(words(&[0]));
    b
}

#[test]
fn gcda_read_twice_adds_up() {
    let once = Gcno::compute("a", tiny_gcno(), vec![tiny_gcda(3)], false).unwrap().unwrap();
    let twice = Gcno::compute("a", tiny_gcno(), vec![tiny_gcda(3), tiny_gcda(3)], false).unwrap().unwrap();
    let both = Gcno::compute("a", tiny_gcno(), vec![tiny_gcda(3), tiny_gcda(4)], false).unwrap().unwrap();
    assert_eq!(once.len(), 1);
    assert_eq!(once[0].0, "a.c");
    assert_eq!(once[0].1.lines.get(&5), Some(&3));
    assert_eq!(twice[0].1.lines.get(&5), Some(&6));
    assert_eq!(both[0].1.lines.get(&5), Some(&7));
    assert_eq!(once[0].1.functions.get("main"), Some(&Function { start: 1, executed: true }));
}

fn tiny_unit(gcdas: &[u32]) -> Gcno {
    let mut g = Gcno::new();
    assert!(matches!(g.read(FileType::Gcno, tiny_gcno(), "a"), Some(Ok(()))));
    for n in gcdas {
        assert!(matches!(g.read(FileType::Gcda, tiny_gcda(*n), "a"), Some(Ok(()))));
    }
    assert!(g.stop());
    g
}

#[test]
fn dump_shows_counts_by_line() {
    let mut g = tiny_unit(&[3, 4]);
    let text = g.dump("a.c", "int a;\n\nint b;\nint c;\nint main() {}\n").unwrap();
    let expected = [
        "        -:    0:Source:a.c\n",
        "        -:    0:Graph:a.gcno\n",
        "        -:    0:Data:-\n",
        "        -:    0:Runs:0\n",
        "        -:    0:Programs:0\n",
        "        -:    1:int a;\n",
        "        -:    2:\n",
        "        -:    3:int b;\n",
        "        -:    4:int c;\n",
        "        7:    5:int main() {}\n",
    ]
    .concat();
    assert_eq!(text, expected);
}

#[test]
fn dump_marks_lines_never_run() {
    let mut g = tiny_unit(&[0]);
    let text = g.dump("a.c", "1\n2\n3\n4\n5\n6").unwrap();
    assert!(text.ends_with("    #####:    5:5\n        -:    6:6\n"));
    let mut g = tiny_unit(&[1]);
    assert_eq!(g.dump("b.c", "x\n"), None);
}

#[test]
fn gcda_of_another_unit_is_refused() {
    let mut bad = tiny_gcda(3);
    bad[8] = 7;
    assert!(matches!(Gcno::compute("a", tiny_gcno(), vec![bad], false), Some(Err(_))));
}

#[test]
fn merge_and_export_plans() {
    let plan = merge_plan(&vec!["a.profraw".to_string(), "b.profraw".to_string()], "/w");
    assert_eq!(plan.profdata, "/w/grcov.profdata");
    assert_eq!(plan.args, vec!["merge", "-f", "-", "-sparse", "-o", "/w/grcov.profdata"]);
    assert_eq!(plan.stdin, "a.profraw\nb.profraw\n");
    let bins = vec!["bin1".to_string(), "bin2".to_string()];
    let runs = export_plan(&Ok(()), &Ok(()), &bins, &plan.profdata).unwrap();
    assert_eq!(runs.len(), 2);
    assert_eq!(runs[1], vec!["export", "bin2", "--instr-profile", "/w/grcov.profdata", "--format", "lcov"]);
    assert_eq!(export_plan(&Err("no merge".to_string()), &Ok(()), &bins, "p"), Err("no merge".to_string()));
    assert_eq!(export_plan(&Ok(()), &Err("no cov".to_string()), &bins, "p"), Err("no cov".to_string()));
}

#[test]
fn inputs_are_classified_by_kind() {
    assert_eq!(classify_input("x.zip", "/c/x.zip", false), InputKind::Zip);
    assert_eq!(classify_input("d", "/c/d", true), InputKind::Dir);
    assert_eq!(classify_input("f.info", "/c/f.info", false), InputKind::Plain);
    assert_eq!(classify_input("f.profraw", "/c/f.profraw", false), InputKind::Plain);
    assert_eq!(classify_input("f.txt", "/c/f.txt", false), InputKind::BadExtension);
    assert_eq!(classify_input("f", "/c/f", false), InputKind::NoExtension);
}

#[test]
fn coveralls_optional_keys_in_order() {
    let keys = coveralls_extra_keys(Some("tok"), None, Some("flag"), Some("7"));
    assert_eq!(
        keys,
        vec![
            ("repo_token".to_string(), "tok".to_string()),
            ("flag_name".to_string(), "flag".to_string()),
            ("service_job_id".to_string(), "7".to_string()),
        ]
    );
    assert!(coveralls_extra_keys(None, None, None, None).is_empty());
}

#[test]
fn lcov_branch_followed_by_no_record() {
    // After the taken field, `Dx:` starts like a record key but is none: the
    // rest of the line is skipped either way.
    let text = "SF:a.c\nDA:1,1\nBRDA:1,0,0,1Dx:7\nBRDA:1,0,1,-\nDA:2,0\nend_of_record\n";
    let with = parse_lcov(text.as_bytes().to_vec(), true).unwrap();
    let without = parse_lcov(text.as_bytes().to_vec(), false).unwrap();
    assert_eq!(with.len(), 1);
    assert_eq!(without.len(), 1);
    assert_eq!(with[0].0, "a.c");
    assert_eq!(with[0].1.lines, without[0].1.lines);
    assert_eq!(with[0].1.lines, [(1, 1), (2, 0)].iter().cloned().collect());
    assert_eq!(with[0].1.branches, [(1, vec![true, false])].iter().cloned().collect());
    assert!(without[0].1.branches.is_empty());
}

#[test]
fn lcov_branch_text_inside_a_name_is_no_record() {
    let text = "SF:a.c\nFN:1,fBRDA:1,0,0,1DA:5,3\nFNDA:1,fBRDA:1,0,0,1DA:5,3\nDA:1,2\nBRDA:1,0,0,1\nend_of_record\n";
    let with = parse_lcov(text.as_bytes().to_vec(), true).unwrap();
    let without = parse_lcov(text.as_bytes().to_vec(), false).unwrap();
    assert_eq!(with[0].1.lines, without[0].1.lines);
    assert_eq!(with[0].1.functions, without[0].1.functions);
    assert!(with[0].1.functions.contains_key("fBRDA:1,0,0,1DA:5,3"));
    assert!(without[0].1.branches.is_empty());
    assert_eq!(with[0].1.branches, [(1, vec![true])].iter().cloned().collect());
}
