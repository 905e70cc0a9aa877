use vstd::prelude::*;
use rustc_hash::FxHashMap;
use crate::cargo_env::opt_text;
use crate::defs::{CovResult, CovView};
use crate::filters::{apply_filters, covered, filtered_branches, filtered_lines, filters_of, inert, keep_by_coverage, split_lines, FileFilter, FilterType};
use crate::globs::{glob_match, keep_rel_path, PathGlobs};
use crate::paths::{
    char_lower, char_upper, check_extension, fixed_rel_path, fixup_rel_path, full_path, map_partial_path,
    normalize_path, normalized_parts, partial_path_fails, path_components, path_extension, path_file_name,
    path_of_parts, paths_by_name, remove_prefix, to_lowercase_first, to_uppercase_first, without_prefix,
};
use crate::text::{chars_of, push_char};

verus! {

/// A path with each backslash turned into a slash.
pub open spec fn slashed(p: Seq<char>) -> Seq<char> {
    p.map_values(|c: char| if c == '\\' { '/' } else { c })
}

/// Turns each backslash of a path into a slash.
pub fn to_slashes(p: &str) -> (r: String)
    ensures
        r@ == slashed(p@),
{
    let cs = chars_of(p);
    let mut r = String::new();
    let mut k: usize = 0;
    while k < cs.len()
        invariant
            k <= cs@.len(),
            cs@ == p@,
            r@ == slashed(cs@.subrange(0, k as int)),
        decreases cs@.len() - k,
    {
        let c = if cs[k] == '\\' { '/' } else { cs[k] };
        push_char(&mut r, c);
        assert(slashed(cs@.subrange(0, k + 1)) =~= slashed(cs@.subrange(0, k as int)).push(c));
        k += 1;
    }
    assert(cs@.subrange(0, cs@.len() as int) =~= cs@);
    r
}

/// A path mapping as spec values: each key with its value, `None` for a
/// value that is not a string.
pub open spec fn mapping_view(m: Seq<(String, Option<String>)>) -> Seq<(Seq<char>, Option<Seq<char>>)> {
    m.map_values(|e: (String, Option<String>)| (e.0@, match e.1 { Some(v) => Some(v@), None => None }))
}

/// The value of a key in a mapping (the last entry of that key).
pub open spec fn lookup(m: Seq<(Seq<char>, Option<Seq<char>>)>, k: Seq<char>) -> Option<Option<Seq<char>>>
    decreases m.len(),
{
    if m.len() == 0 {
        None
    } else if m.last().0 == k {
        Some(m.last().1)
    } else {
        lookup(m.drop_last(), k)
    }
}

/// A path once mapped: where a mapping is given, the value of the path with
/// its first character in lower case, else of it in upper case, else the
/// path itself. `None` on input it cannot map: a path with no character,
/// or a value that is not a string.
pub open spec fn mapped_path(path: Seq<char>, m: Option<Seq<(Seq<char>, Option<Seq<char>>)>>) -> Option<Seq<char>> {
    match m {
        None => Some(path),
        Some(ps) => if path.len() == 0 {
            None
        } else {
            match lookup(ps, char_lower(path[0]) + path.drop_first()) {
                Some(v) => v,
                None => match lookup(ps, char_upper(path[0]) + path.drop_first()) {
                    Some(v) => v,
                    None => Some(path),
                },
            }
        },
    }
}

/// The relative path of a result's file before the disk is looked at: its
/// path with slashes, mapped, with the prefix taken off, and, for a Java
/// file, the one file of the source tree that ends with it. `None` where one of
/// these steps cannot be taken.
pub open spec fn rel_path_step(
    path: Seq<char>,
    m: Option<Seq<(Seq<char>, Option<Seq<char>>)>>,
    prefix: Option<Seq<char>>,
    files: Map<Seq<char>, Seq<Seq<char>>>,
) -> Option<Seq<char>> {
    match mapped_path(slashed(path), m) {
        None => None,
        Some(p) => {
            let r = without_prefix(prefix, p);
            if path_extension(r) == Some("java"@) {
                if partial_path_fails(files, r) { None } else { Some(full_path(files, path_file_name(r)->0, r)) }
            } else {
                Some(r)
            }
        },
    }
}

/// The value of a key in a mapping (see [`lookup`]).
fn lookup_exec(m: &Vec<(String, Option<String>)>, k: &str) -> (r: Option<Option<String>>)
    ensures
        match lookup(mapping_view(m@), k@) {
            Some(Some(v)) => r matches Some(Some(x)) && x@ == v,
            Some(None) => r == Some(None::<String>),
            None => r is None,
        },
{
    let ghost mv = mapping_view(m@);
    let mut i = m.len();
    assert(mv.subrange(0, i as int) =~= mv);
    while i > 0
        invariant
            i <= m@.len(),
            mv == mapping_view(m@),
            lookup(mv, k@) == lookup(mv.subrange(0, i as int), k@),
        decreases i,
    {
        let j = i - 1;
        let ghost sub = mv.subrange(0, i as int);
        assert(sub.drop_last() =~= mv.subrange(0, j as int));
        assert(sub.last() == mv[j as int]);
        if crate::gcov::str_same(m[j].0.as_str(), k) {
            return match &m[j].1 {
                Some(v) => Some(Some(v.as_str().to_string())),
                None => Some(None),
            };
        }
        i = j;
    }
    None
}

/// The relative path of a result's file before the disk is looked at (see
/// [`rel_path_step`]); `None` where one of its steps cannot be taken.
pub fn rel_path_of(
    path: &str,
    mapping: Option<&Vec<(String, Option<String>)>>,
    prefix: Option<&str>,
    file_to_paths: &FxHashMap<String, Vec<String>>,
) -> (r: Option<String>)
    ensures
        match rel_path_step(path@, match mapping { Some(m) => Some(mapping_view(m@)), None => None }, opt_text(prefix), paths_by_name(*file_to_paths)) {
            Some(p) => r matches Some(x) && x@ == p,
            None => r is None,
        },
{
    let p = to_slashes(path);
    let mapped = match mapping {
        None => p,
        Some(m) => {
            if chars_of(p.as_str()).len() == 0 {
                return None;
            }
            let lower = to_lowercase_first(p.as_str());
            match lookup_exec(m, lower.as_str()) {
                Some(Some(v)) => v,
                Some(None) => { return None; },
                None => {
                    let upper = to_uppercase_first(p.as_str());
                    match lookup_exec(m, upper.as_str()) {
                        Some(Some(v)) => v,
                        Some(None) => { return None; },
                        None => p,
                    }
                },
            }
        },
    };
    let rel = remove_prefix(prefix, mapped);
    proof {
        reveal_strlit("java");
    }
    if check_extension(rel.as_str(), "java") {
        map_partial_path(file_to_paths, rel)
    } else {
        Some(rel)
    }
}

/// The filters of a file: none where its text could not be read.
pub open spec fn file_filters(ff: FileFilter, text: Option<Seq<char>>) -> Seq<FilterType> {
    match text {
        Some(t) => if inert(ff) { Seq::empty() } else { filters_of(ff, split_lines(t)).0 },
        None => Seq::empty(),
    }
}

/// A result with the lines and branches that filters name taken out.
pub open spec fn filtered(r: CovView, fs: Seq<FilterType>) -> CovView {
    CovView {
        lines: r.lines.remove_keys(filtered_lines(fs)),
        branches: r.branches.remove_keys(filtered_branches(fs)),
        functions: r.functions,
    }
}

/// Whether a result is kept by a filter on coverage.
pub open spec fn kept_by(r: CovView, filter_option: Option<bool>) -> bool {
    match filter_option {
        Some(true) => covered(r),
        Some(false) => !covered(r),
        None => true,
    }
}

/// What becomes of a result once its absolute path `abs` is known: its
/// relative path fixed (see [`fixed_rel_path`]), both paths normalized, the
/// relative one matched against the patterns to ignore and to keep, the file
/// dropped where it must exist and does not, the relative path with slashes,
/// the lines and branches that the file's markers exclude taken out, and the
/// filter on coverage applied. `None` where the result is skipped. `exists`
/// says whether the normalized absolute path exists, and `text` holds the
/// file's text where it could be read.
pub open spec fn finished(
    source_dir: Option<Seq<char>>,
    abs: Seq<char>,
    rel: Seq<char>,
    ignore: Seq<Seq<char>>,
    keep: Seq<Seq<char>>,
    ignore_not_existing: bool,
    exists: bool,
    text: Option<Seq<char>>,
    ff: FileFilter,
    filter_option: Option<bool>,
    r: CovView,
) -> Option<(Seq<char>, Seq<char>, CovView)> {
    let rel_n = normalized_parts(path_components(fixed_rel_path(source_dir, abs, rel)));
    let abs_n = normalized_parts(path_components(abs));
    if rel_n is None || abs_n is None {
        None
    } else {
        let rp = path_of_parts(rel_n->0);
        let ap = path_of_parts(abs_n->0);
        let r2 = filtered(r, file_filters(ff, text));
        if glob_match(ignore, rp) || (keep.len() > 0 && !glob_match(keep, rp)) {
            None
        } else if ignore_not_existing && !exists {
            None
        } else if !kept_by(r2, filter_option) {
            None
        } else {
            Some((ap, slashed(rp), r2))
        }
    }
}

/// What becomes of a result once its absolute path is known (see
/// [`finished`]).
pub fn finish_result(
    source_dir: Option<&str>,
    abs: &str,
    rel: String,
    ignore: &PathGlobs,
    keep: &PathGlobs,
    ignore_not_existing: bool,
    exists: bool,
    text: Option<&str>,
    ff: &FileFilter,
    filter_option: Option<bool>,
    result: CovResult,
) -> (out: Option<(String, String, CovResult)>)
    ensures
        match finished(opt_text(source_dir), abs@, rel@, ignore.patterns(), keep.patterns(), ignore_not_existing,
            exists, opt_text(text), *ff, filter_option, result@) {
            Some((a, r, c)) => out matches Some(o) && o.0@ == a && o.1@ == r && o.2@ == c,
            None => out is None,
        },
{
    let rel2 = fixup_rel_path(source_dir, abs, rel);
    let rel_n = match normalize_path(rel2.as_str()) {
        Some(x) => x,
        None => { return None; },
    };
    let abs_n = match normalize_path(abs) {
        Some(x) => x,
        None => { return None; },
    };
    let mut result = result;
    let filters = match text {
        Some(t) => ff.create(t),
        None => Vec::new(),
    };
    let ghost r0 = result@;
    apply_filters(&mut result, &filters);
    assert(result@ =~= filtered(r0, file_filters(*ff, opt_text(text))));
    if !keep_rel_path(ignore, keep, rel_n.as_str()) {
        return None;
    }
    if ignore_not_existing && !exists {
        return None;
    }
    if !keep_by_coverage(&result, filter_option) {
        return None;
    }
    let rel_s = to_slashes(rel_n.as_str());
    Some((abs_n, rel_s, result))
}

}
