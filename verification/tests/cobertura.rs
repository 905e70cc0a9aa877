use grcov::cobertura::{
    class_stats, cobertura_document, coverage_stats, get_coverage, line_stats, package_stats, Class, Coverage,
    CoverageStats, Line, Method, Package,
};
use grcov::{CovResult, Function, FunctionMap};
use rustc_hash::FxHashMap;

enum Which {
    Main,
    Test,
}

fn coverage_result(which: Which) -> CovResult {
    let mut functions: FunctionMap = FxHashMap::default();
    match which {
        Which::Main => {
            functions.insert("_ZN8cov_test4main17h7eb435a3fb3e6f20E".to_string(), Function { start: 1, executed: true });
            CovResult {
                lines: [(1, 1), (2, 1), (3, 2), (4, 1), (5, 0), (6, 0), (8, 1), (9, 1)].iter().cloned().collect(),
                branches: [(3, vec![true, false]), (5, vec![false, false])].iter().cloned().collect(),
                functions,
            }
        }
        Which::Test => {
            functions.insert("_ZN8cov_test7test_fn17hbf19ec7bfabe8524E".to_string(), Function { start: 6, executed: true });
            functions.insert("_ZN8cov_test4main17h7eb435a3fb3e6f20E".to_string(), Function { start: 1, executed: false });
            functions.insert("_ZN8cov_test4main17h29b45b3d7d8851d2E".to_string(), Function { start: 1, executed: true });
            functions.insert(
                "_ZN8cov_test7test_fn28_$u7b$$u7b$closure$u7d$$u7d$17hab7a162ac9b573fcE".to_string(),
                Function { start: 6, executed: true },
            );
            functions.insert("_ZN8cov_test4main17h679717cd8503f8adE".to_string(), Function { start: 1, executed: false });
            CovResult {
                lines: [(1, 2), (3, 0), (6, 2), (7, 1), (8, 2), (9, 1), (11, 1), (12, 2)].iter().cloned().collect(),
                branches: [(8, vec![true, false])].iter().cloned().collect(),
                functions,
            }
        }
    }
}

fn rate(covered: u128, valid: u128) -> f64 {
    if valid > 0 {
        covered as f64 / valid as f64
    } else {
        0.0
    }
}

fn rates_of(st: &CoverageStats) -> (String, String) {
    (rate(st.lines_covered, st.lines_valid).to_string(), rate(st.branches_covered, st.branches_valid).to_string())
}

fn report(results: &[(&str, CovResult)], source: &str, pretty: bool) -> String {
    let results: Vec<(String, String, CovResult)> =
        results.iter().map(|(p, r)| (p.to_string(), p.to_string(), r.clone())).collect();
    let cov = get_coverage(&results, vec![source.to_string()], true);
    let mut rates = vec![rates_of(&coverage_stats(&cov).unwrap())];
    for p in &cov.packages {
        rates.push(rates_of(&package_stats(p).unwrap()));
        for c in &p.classes {
            rates.push(rates_of(&class_stats(c).unwrap()));
            for m in &c.methods {
                rates.push(rates_of(&line_stats(&m.lines).unwrap()));
            }
        }
    }
    String::from_utf8(cobertura_document(&cov, &rates, "0", pretty).unwrap()).unwrap()
}

#[test]
fn test_cobertura() {
    for pretty in [false, true] {
        let results = report(&[("src/main.rs", coverage_result(Which::Main))], ".", pretty);

        assert!(results.contains(r#"<source>.</source>"#));

        assert!(results.contains(r#"package name="src/main.rs""#));
        assert!(results.contains(r#"class name="main" filename="src/main.rs""#));
        assert!(results.contains(r#"method name="cov_test::main""#));
        assert!(results.contains(r#"line number="1" hits="1"/>"#));
        assert!(results.contains(r#"line number="3" hits="2" branch="true""#));
        assert!(results.contains(r#"<condition number="0" type="jump" coverage="1"/>"#));

        assert!(results.contains(r#"lines-covered="6""#));
        assert!(results.contains(r#"lines-valid="8""#));
        assert!(results.contains(r#"line-rate="0.75""#));

        assert!(results.contains(r#"branches-covered="1""#));
        assert!(results.contains(r#"branches-valid="4""#));
        assert!(results.contains(r#"branch-rate="0.25""#));
    }
}

#[test]
fn test_cobertura_double_lines() {
    let results = report(&[("src/main.rs", coverage_result(Which::Test))], ".", true);

    assert!(results.contains(r#"<source>.</source>"#));

    assert!(results.contains(r#"package name="src/main.rs""#));
    assert!(results.contains(r#"class name="main" filename="src/main.rs""#));
    assert!(results.contains(r#"method name="cov_test::main""#));
    assert!(results.contains(r#"method name="cov_test::test_fn""#));

    assert!(results.contains(r#"lines-covered="7""#));
    assert!(results.contains(r#"lines-valid="8""#));
    assert!(results.contains(r#"line-rate="0.875""#));

    assert!(results.contains(r#"branches-covered="1""#));
    assert!(results.contains(r#"branches-valid="2""#));
    assert!(results.contains(r#"branch-rate="0.5""#));
}

#[test]
fn test_cobertura_multiple_files() {
    let results = report(
        &[("src/main.rs", coverage_result(Which::Main)), ("src/test.rs", coverage_result(Which::Test))],
        ".",
        true,
    );

    assert!(results.contains(r#"<source>.</source>"#));

    assert!(results.contains(r#"package name="src/main.rs""#));
    assert!(results.contains(r#"class name="main" filename="src/main.rs""#));
    assert!(results.contains(r#"package name="src/test.rs""#));
    assert!(results.contains(r#"class name="test" filename="src/test.rs""#));

    assert!(results.contains(r#"lines-covered="13""#));
    assert!(results.contains(r#"lines-valid="16""#));
    assert!(results.contains(r#"line-rate="0.8125""#));

    assert!(results.contains(r#"branches-covered="2""#));
    assert!(results.contains(r#"branches-valid="6""#));
    assert!(results.contains(r#"branch-rate="0.3333333333333333""#));
}

#[test]
fn test_cobertura_source_root_none() {
    let results = report(&[("src/main.rs", CovResult::default())], ".", true);

    assert!(results.contains(r#"<source>.</source>"#));
    assert!(results.contains(r#"package name="src/main.rs""#));
}

#[test]
fn test_cobertura_source_root_some() {
    let results = report(&[("main.rs", CovResult::default())], "src", true);

    assert!(results.contains(r#"<source>src</source>"#));
}

fn pair(a: &str, b: &str) -> (String, String) {
    (a.to_string(), b.to_string())
}

fn small_coverage() -> Coverage {
    Coverage {
        sources: vec![".".to_string()],
        packages: vec![Package {
            name: "p".to_string(),
            classes: vec![Class {
                name: "c".to_string(),
                file_name: "f.c".to_string(),
                lines: vec![
                    Line::Plain { number: 1, hits: 2 },
                    Line::Branch { number: 2, hits: 0, conditions: vec![true, false] },
                ],
                methods: vec![Method {
                    name: "m<T>".to_string(),
                    signature: String::new(),
                    lines: vec![Line::Plain { number: 1, hits: 2 }],
                }],
            }],
        }],
    }
}

#[test]
fn cobertura_document_exact_bytes() {
    let rates = vec![pair("a", "b"), pair("c", "d"), pair("e", "f"), pair("g", "h")];
    let out = cobertura_document(&small_coverage(), &rates, "123", false).unwrap();
    let expected = [
        r#"<?xml version="1.0"?><!DOCTYPE  coverage SYSTEM 'http://cobertura.sourceforge.net/xml/coverage-04.dtd'>"#,
        r#"<coverage lines-covered="1" lines-valid="2" line-rate="a" branches-covered="1" branches-valid="2" branch-rate="b" complexity="0" version="1.9" timestamp="123">"#,
        r#"<sources><source>.</source></sources><packages>"#,
        r#"<package name="p" line-rate="c" branch-rate="d" complexity="0"><classes>"#,
        r#"<class name="c" filename="f.c" line-rate="e" branch-rate="f" complexity="0"><methods>"#,
        r#"<method name="m&lt;T&gt;" signature="" line-rate="g" branch-rate="h" complexity="0"><lines><line number="1" hits="2"/></lines></method>"#,
        r#"</methods><lines><line number="1" hits="2"/><line number="2" hits="0" branch="true"><conditions>"#,
        r#"<condition number="0" type="jump" coverage="1"/><condition number="1" type="jump" coverage="0"/>"#,
        r#"</conditions></line></lines></class></classes></package></packages></coverage>"#,
    ]
    .concat();
    assert_eq!(String::from_utf8(out).unwrap(), expected);
}

#[test]
fn cobertura_document_pretty_indents() {
    let cov = Coverage { sources: vec!["<src>".to_string()], packages: vec![] };
    let out = cobertura_document(&cov, &vec![pair("0", "0")], "7", true).unwrap();
    let expected = [
        "<?xml version=\"1.0\"?>\n<!DOCTYPE  coverage SYSTEM 'http://cobertura.sourceforge.net/xml/coverage-04.dtd'>\n",
        "<coverage lines-covered=\"0\" lines-valid=\"0\" line-rate=\"0\" branches-covered=\"0\" branches-valid=\"0\" branch-rate=\"0\" complexity=\"0\" version=\"1.9\" timestamp=\"7\">\n",
        "    <sources>\n        <source>&lt;src&gt;</source>\n    </sources>\n    <packages>\n    </packages>\n</coverage>",
    ]
    .concat();
    assert_eq!(String::from_utf8(out).unwrap(), expected);
}
