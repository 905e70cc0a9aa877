use std::collections::BTreeMap;

use grcov::parser::parse_gcov_content;
use grcov::{CovResult, Function};

// The gcov files these tests read are written here from what the tests
// expect of them: each file's `file:`, `function:`, `lcount:` and `branch:`
// records.

fn file_text(name: &str, functions: &[(u32, bool, &str)], lines: &[(u32, &str)], branches: &[(u32, &str)]) -> String {
    let mut t = format!("file:{}\n", name);
    for (start, executed, f) in functions {
        t += &format!("function:{},{},{}\n", start, if *executed { 1 } else { 0 }, f);
    }
    for (l, c) in lines {
        t += &format!("lcount:{},{}\n", l, c);
    }
    for (l, b) in branches {
        t += &format!("branch:{},{}\n", l, b);
    }
    t
}

fn counts(lines: &[(u32, u64)]) -> Vec<(u32, String)> {
    lines.iter().map(|(l, c)| (*l, c.to_string())).collect()
}

fn with_counts(name: &str, functions: &[(u32, bool, &str)], lines: &[(u32, u64)]) -> String {
    let c = counts(lines);
    let refs: Vec<(u32, &str)> = c.iter().map(|(l, s)| (*l, s.as_str())).collect();
    file_text(name, functions, &refs, &[])
}

fn filler(i: usize) -> String {
    file_text(&format!("/src/other{}.h", i), &[], &[(1, "1")], &[])
}

/// A gcov text of `n` files where those at the given places are given and
/// the others are small files of their own.
fn files(n: usize, given: &[(usize, String)]) -> Vec<u8> {
    let mut t = String::new();
    for i in 0..n {
        match given.iter().find(|(k, _)| *k == i) {
            Some((_, g)) => t += g,
            None => t += &filler(i),
        }
    }
    t.into_bytes()
}

fn parse(text: Vec<u8>) -> Vec<(String, CovResult)> {
    parse_gcov_content(&text).unwrap()
}

const TRACKER: &str = "/home/marco/Documenti/FD/mozilla-central/build-cov-gcc/dist/include/nsExpirationTracker.h";
const RELEASE: &str = "_ZN19nsExpirationTrackerIN11nsIDocument16SelectorCacheKeyELj4EE25ExpirationTrackerObserver7ReleaseEv";
const PLATFORM: &str = "/home/marco/Documenti/FD/mozilla-central/accessible/atk/Platform.cpp";

const TRACKER_LINES: [(u32, u64); 7] = [
    (393, 0), (397, 0), (399, 0), (401, 0), (402, 0), (403, 0), (405, 0),
];

const PLATFORM_LINES: [(u32, u64); 132] = [
    (81, 0), (83, 0), (85, 0), (87, 0), (88, 0), (90, 0), (94, 0), (96, 0),
    (97, 0), (98, 0), (99, 0), (100, 0), (101, 0), (103, 0), (104, 0), (108, 0),
    (110, 0), (111, 0), (112, 0), (115, 0), (117, 0), (118, 0), (122, 0), (123, 0),
    (124, 0), (128, 0), (129, 0), (130, 0), (136, 17), (138, 17), (141, 0), (142, 0),
    (146, 0), (147, 0), (148, 0), (151, 0), (152, 0), (153, 0), (154, 0), (155, 0),
    (156, 0), (157, 0), (161, 0), (162, 0), (165, 0), (166, 0), (167, 0), (168, 0),
    (169, 0), (170, 0), (171, 0), (172, 0), (184, 0), (187, 0), (189, 0), (190, 0),
    (194, 0), (195, 0), (196, 0), (200, 0), (201, 0), (202, 0), (203, 0), (207, 0),
    (208, 0), (216, 17), (218, 17), (219, 0), (220, 0), (221, 0), (222, 0), (223, 0),
    (226, 17), (232, 0), (233, 0), (234, 0), (253, 17), (261, 11390), (265, 11390), (268, 373),
    (274, 373), (277, 373), (278, 373), (281, 373), (288, 373), (289, 373), (293, 373), (294, 373),
    (295, 373), (298, 373), (303, 5794), (306, 5794), (307, 5558), (309, 236), (311, 236), (312, 236),
    (313, 0), (316, 236), (317, 236), (318, 0), (321, 236), (322, 236), (323, 236), (324, 236),
    (327, 236), (328, 236), (329, 236), (330, 236), (331, 472), (332, 472), (333, 236), (338, 236),
    (339, 236), (340, 236), (343, 0), (344, 0), (345, 0), (346, 0), (347, 0), (352, 236),
    (353, 236), (354, 236), (355, 236), (361, 236), (362, 236), (364, 236), (365, 236), (370, 0),
    (372, 0), (373, 0), (374, 0), (376, 0),
];

const HASH_TABLE_LINES: [(u32, u64); 221] = [
    (324, 8096), (343, 12174), (344, 6085), (345, 23331), (357, 10720), (361, 313_165_934), (399, 272_539_208), (402, 31_491_125),
    (403, 35_509_735), (420, 434_104), (709, 313_172_766), (715, 272_542_535), (801, 584_943_263), (822, 0), (825, 0), (826, 0),
    (828, 0), (829, 0), (831, 0), (834, 2_210_404_897), (835, 196_249_666), (838, 3_764_974), (840, 516_370_744), (841, 1_541_684),
    (842, 2_253_988_941), (843, 197_245_483), (844, 0), (845, 5_306_658), (846, 821_426_720), (847, 47_096_565), (853, 82_598_134), (854, 247_796_865),
    (886, 272_542_256), (887, 272_542_256), (904, 599_154_437), (908, 584_933_028), (913, 584_943_263), (916, 543_534_922), (917, 584_933_028), (940, 508_959_481),
    (945, 1_084_660_344), (960, 545_084_512), (989, 534_593), (990, 128_435), (1019, 427_973_453), (1029, 504_065_334), (1038, 1_910_289_238), (1065, 425_402),
    (1075, 10_613_316), (1076, 5_306_658), (1090, 392_499_332), (1112, 48_208), (1113, 48_208), (1114, 0), (1115, 0), (1118, 48211),
    (1119, 8009), (1120, 48211), (1197, 40347), (1202, 585_715_301), (1207, 1_171_430_602), (1210, 585_715_301), (1211, 910_968), (1212, 585_715_301),
    (1222, 30_644), (1223, 70_165), (1225, 1647), (1237, 4048), (1238, 4048), (1240, 8096), (1244, 6087), (1250, 6087),
    (1257, 6085), (1264, 6085), (1278, 6085), (1279, 6085), (1280, 0), (1283, 6085), (1284, 66935), (1285, 30425),
    (1286, 30425), (1289, 6085), (1293, 12171), (1294, 6086), (1297, 6087), (1299, 6087), (1309, 4048), (1310, 4048),
    (1316, 632_104_110), (1327, 251_893_735), (1329, 251_893_735), (1330, 251_893_735), (1331, 503_787_470), (1337, 528_619_265), (1344, 35_325_952), (1345, 35_325_952),
    (1353, 26236), (1354, 13118), (1364, 305_520_839), (1372, 585_099_705), (1381, 585_099_705), (1382, 585_099_705), (1385, 585_099_705), (1391, 1_135_737_600),
    (1397, 242_807_686), (1400, 242_807_686), (1403, 1_032_741_488), (1404, 1_290_630), (1405, 1_042_115), (1407, 515_080_114), (1408, 184_996_962), (1412, 516_370_744),
    (1414, 516_370_744), (1415, 516_370_744), (1417, 154_330_912), (1420, 812_664_176), (1433, 47_004_405), (1442, 47_004_405), (1443, 47_004_405), (1446, 94_008_810),
    (1452, 9_086_049), (1456, 24_497_042), (1459, 12_248_521), (1461, 12_248_521), (1462, 24_497_042), (1471, 30642), (1474, 30642), (1475, 30642),
    (1476, 30642), (1477, 30642), (1478, 30642), (1484, 64904), (1485, 34260), (1489, 34260), (1490, 34260), (1491, 34260),
    (1492, 34260), (1495, 34260), (1496, 69_792_911), (1497, 139_524_496), (1498, 94_193_130), (1499, 47_096_565), (1500, 47_096_565), (1506, 61326),
    (1507, 30663), (1513, 58000), (1516, 35_325_952), (1518, 35_325_952), (1522, 29000), (1527, 29000), (1530, 29000), (1534, 0),
    (1536, 0), (1537, 0), (1538, 0), (1540, 0), (1547, 10_613_316), (1548, 1_541_684), (1549, 1_541_684), (1552, 3_764_974),
    (1554, 5_306_658), (1571, 8009), (1573, 8009), (1574, 8009), (1575, 31345), (1576, 5109), (1577, 5109), (1580, 8009),
    (1581, 1647), (1582, 8009), (1589, 0), (1592, 0), (1593, 0), (1594, 0), (1596, 0), (1597, 0),
    (1599, 0), (1600, 0), (1601, 0), (1604, 0), (1605, 0), (1606, 0), (1607, 0), (1609, 0),
    (1610, 0), (1611, 0), (1615, 0), (1616, 0), (1625, 0), (1693, 655_507), (1711, 35_615_006), (1730, 10720),
    (1732, 10720), (1733, 10720), (1735, 10720), (1736, 10720), (1739, 313_162_046), (1741, 313_162_046), (1743, 313_162_046), (1744, 313_162_046),
    (1747, 272_542_535), (1749, 272_542_535), (1750, 272_542_535), (1752, 272_542_535), (1753, 272_542_535), (1754, 272_542_256), (1755, 272_542_256), (1759, 35_509_724),
    (1761, 35_509_724), (1767, 71_019_448), (1772, 35_505_028), (1773, 179_105), (1776, 179_105), (1777, 179_105), (1780, 35_325_923), (1781, 35_326_057),
    (1785, 35_326_058), (1786, 29011), (1789, 71_010_332), (1790, 35_505_166), (1796, 35_505_166),
];

fn lines_map(v: &[(u32, u64)]) -> BTreeMap<u32, u64> {
    v.iter().cloned().collect()
}

#[test]
fn test_parser() {
    let platform_functions = [
        (81, false, "_ZL13LoadGtkModuleR24GnomeAccessibilityModule"),
        (136, true, "_ZN7mozilla4a11y12PlatformInitEv"),
        (216, true, "_ZN7mozilla4a11y16PlatformShutdownEv"),
        (261, true, "_ZN7mozilla4a11y7PreInitEv"),
        (303, true, "_ZN7mozilla4a11y19ShouldA11yBeEnabledEv"),
    ];
    let results = parse(files(
        10,
        &[
            (0, with_counts(TRACKER, &[(393, false, RELEASE)], &TRACKER_LINES)),
            (5, with_counts(PLATFORM, &platform_functions, &PLATFORM_LINES)),
        ],
    ));

    assert_eq!(results.len(), 10);

    let (ref source_name, ref result) = results[0];
    assert_eq!(source_name, TRACKER);
    assert_eq!(result.lines, lines_map(&TRACKER_LINES));
    assert!(result.functions.contains_key(RELEASE));
    let mut func = result.functions.get(RELEASE).unwrap();
    assert_eq!(func.start, 393);
    assert!(!func.executed);

    let (ref source_name, ref result) = results[5];
    assert_eq!(source_name, PLATFORM);
    assert_eq!(result.lines, lines_map(&PLATFORM_LINES));
    assert!(result.functions.contains_key("_ZL13LoadGtkModuleR24GnomeAccessibilityModule"));
    func = result.functions.get("_ZL13LoadGtkModuleR24GnomeAccessibilityModule").unwrap();
    assert_eq!(func.start, 81);
    assert!(!func.executed);
    assert!(result.functions.contains_key("_ZN7mozilla4a11y12PlatformInitEv"));
    func = result.functions.get("_ZN7mozilla4a11y12PlatformInitEv").unwrap();
    assert_eq!(func.start, 136);
    assert!(func.executed);
    assert!(result.functions.contains_key("_ZN7mozilla4a11y16PlatformShutdownEv"));
    func = result.functions.get("_ZN7mozilla4a11y16PlatformShutdownEv").unwrap();
    assert_eq!(func.start, 216);
    assert!(func.executed);
    assert!(result.functions.contains_key("_ZN7mozilla4a11y7PreInitEv"));
    func = result.functions.get("_ZN7mozilla4a11y7PreInitEv").unwrap();
    assert_eq!(func.start, 261);
    assert!(func.executed);
    assert!(result.functions.contains_key("_ZN7mozilla4a11y19ShouldA11yBeEnabledEv"));
    func = result.functions.get("_ZN7mozilla4a11y19ShouldA11yBeEnabledEv").unwrap();
    assert_eq!(func.start, 303);
    assert!(func.executed);
}

#[test]
fn test_parser_gcov_with_negative_counts() {
    let assertions = "/home/marco/Documenti/FD/mozilla-central/build-cov-gcc/dist/include/mozilla/Assertions.h";
    let results = parse(files(118, &[(14, file_text(assertions, &[], &[(40, "-1")], &[]))]));
    assert_eq!(results.len(), 118);
    let (ref source_name, ref result) = results[14];
    assert_eq!(source_name, assertions);
    assert_eq!(result.lines, [(40, 0)].iter().cloned().collect());
}

#[test]
fn test_parser_gcov_with_64bit_counts() {
    let hash_table = "/home/marco/Documenti/FD/mozilla-central/build-cov-gcc/dist/include/js/HashTable.h";
    let results = parse(files(46, &[(8, with_counts(hash_table, &[], &HASH_TABLE_LINES))]));
    assert_eq!(results.len(), 46);
    let (ref source_name, ref result) = results[8];
    assert_eq!(source_name, hash_table);
    assert_eq!(result.lines, lines_map(&HASH_TABLE_LINES));
}

#[test]
fn test_parser_gcov_with_branches() {
    let lines = [(393, "0"), (397, "0"), (399, "0"), (401, "1"), (402, "0"), (403, "0"), (405, "0")];
    let branches = [(399, "notexec"), (399, "nottaken"), (401, "taken"), (401, "nottaken")];
    let results = parse(file_text(TRACKER, &[(393, false, RELEASE)], &lines, &branches).into_bytes());
    assert_eq!(results.len(), 1);
    let (ref source_name, ref result) = results[0];

    assert_eq!(source_name, TRACKER);

    assert_eq!(
        result.lines,
        [(393, 0), (397, 0), (399, 0), (401, 1), (402, 0), (403, 0), (405, 0)].iter().cloned().collect()
    );

    assert_eq!(result.branches, [(399, vec![false, false]), (401, vec![true, false])].iter().cloned().collect());

    assert!(result.functions.contains_key(RELEASE));
    let func = result.functions.get(RELEASE).unwrap();
    assert_eq!(func.start, 393);
    assert!(!func.executed);
}

#[test]
fn test_parser_gcov_rust_generics_with_two_parameters() {
    let compare = "_ZN27rust_code_coverage_sample_244compare_types<[i32; 3],alloc::vec::Vec<i32>>E";
    let lines = [(4, "3"), (5, "3"), (6, "1"), (9, "2"), (10, "1"), (11, "1"), (12, "2")];
    let functions = [(3, true, compare), (8, true, "_ZN27rust_code_coverage_sample_24mainE")];
    let results = parse(file_text("src/main.rs", &functions, &lines, &[]).into_bytes());
    assert_eq!(results.len(), 1);
    let (ref source_name, ref result) = results[0];

    assert_eq!(source_name, "src/main.rs");

    assert_eq!(result.lines, [(4, 3), (5, 3), (6, 1), (9, 2), (10, 1), (11, 1), (12, 2)].iter().cloned().collect());

    assert_eq!(result.branches, [].iter().cloned().collect());

    assert!(result.functions.contains_key("_ZN27rust_code_coverage_sample_24mainE"));
    let func = result.functions.get("_ZN27rust_code_coverage_sample_24mainE").unwrap();
    assert_eq!(func.start, 8);
    assert!(func.executed);

    assert!(result.functions.contains_key(compare));
    let func = result.functions.get(compare).unwrap();
    assert_eq!(func.start, 3);
    assert!(func.executed);
    assert_eq!(result.functions.get(compare), Some(&Function { start: 3, executed: true }));
}
