use vstd::prelude::*;
use vstd::string::StringExecFns;
use rustc_hash::FxHashMap;

verus! {

// The names below stand for what `std::path` gives on the platform the
// crate is built for (its separators and prefixes): within one build they
// are fixed functions of their arguments, and the results of this module are
// those of that platform.

/// What `Path::parent` gives for a path: the path without its last
/// component, or `None` where it ends in a root or prefix or is empty.
pub uninterp spec fn path_parent(p: Seq<char>) -> Option<Seq<char>>;

/// What `Path::join` gives for two paths (the second replaces the first
/// where it is absolute).
pub uninterp spec fn path_join(a: Seq<char>, b: Seq<char>) -> Seq<char>;

/// A string as a spec value, where there is one.
pub open spec fn opt_view(o: Option<String>) -> Option<Seq<char>> {
    match o {
        Some(s) => Some(s@),
        None => None,
    }
}

/// Calls `Path::parent` on a path given as a string; a parent of a string
/// path is a string path too.
#[verifier::external_body]
pub fn parent_of(p: &str) -> (r: Option<String>)
    ensures
        opt_view(r) == path_parent(p@),
{
    std::path::Path::new(p).parent().map(|q| q.to_string_lossy().into_owned())
}

/// Calls `Path::join` on two paths given as strings.
#[verifier::external_body]
pub fn join_paths(a: &str, b: &str) -> (r: String)
    ensures
        r@ == path_join(a@, b@),
{
    std::path::Path::new(a).join(b).to_string_lossy().into_owned()
}

/// A path that is a bare name: its parent is the empty path.
pub open spec fn bare_name(p: Seq<char>) -> bool {
    path_parent(p) == Some(Seq::<char>::empty())
}

/// Whether a path is a bare file name, with no directory before it.
pub fn has_no_parent(path: &str) -> (r: bool)
    ensures
        r == bare_name(path@),
{
    match parent_of(path) {
        Some(p) => {
            let e = p.as_str().is_empty();
            proof {
                if e {
                    assert(p@ =~= Seq::<char>::empty());
                }
            }
            e
        }
        None => false,
    }
}

/// What `Path::extension` gives: the extension of the file name, if any.
pub uninterp spec fn path_extension(p: Seq<char>) -> Option<Seq<char>>;

/// What `Path::with_extension("")` gives: the path with the extension of its
/// file name taken off.
pub uninterp spec fn path_without_extension(p: Seq<char>) -> Seq<char>;

/// What `Path::file_name` gives: the last component, if it is a name.
pub uninterp spec fn path_file_name(p: Seq<char>) -> Option<Seq<char>>;

/// Calls `Path::extension` on a path given as a string.
#[verifier::external_body]
pub fn extension_of(p: &str) -> (r: Option<String>)
    ensures
        opt_view(r) == path_extension(p@),
{
    std::path::Path::new(p).extension().map(|e| e.to_string_lossy().into_owned())
}

/// Calls `Path::with_extension("")` on a path given as a string.
#[verifier::external_body]
pub fn without_extension(p: &str) -> (r: String)
    ensures
        r@ == path_without_extension(p@),
{
    std::path::Path::new(p).with_extension("").to_string_lossy().into_owned()
}

/// Calls `Path::file_name` on a path given as a string.
#[verifier::external_body]
pub fn file_name_of(p: &str) -> (r: Option<String>)
    ensures
        opt_view(r) == path_file_name(p@),
{
    std::path::Path::new(p).file_name().map(|e| e.to_string_lossy().into_owned())
}

/// A component of a path, as `Path::components` gives it.
#[derive(Debug)]
pub enum PathPart {
    Prefix(String),
    RootDir,
    CurDir,
    ParentDir,
    Normal(String),
}

/// A component as a spec value.
pub enum PartView {
    Prefix(Seq<char>),
    RootDir,
    CurDir,
    ParentDir,
    Normal(Seq<char>),
}

impl View for PathPart {
    type V = PartView;

    open spec fn view(&self) -> PartView {
        match self {
            PathPart::Prefix(s) => PartView::Prefix(s@),
            PathPart::RootDir => PartView::RootDir,
            PathPart::CurDir => PartView::CurDir,
            PathPart::ParentDir => PartView::ParentDir,
            PathPart::Normal(s) => PartView::Normal(s@),
        }
    }
}

/// The components of a sequence as spec values.
pub open spec fn parts_view(v: Seq<PathPart>) -> Seq<PartView> {
    v.map_values(|p: PathPart| p@)
}

/// What `Path::components` gives for a path.
pub uninterp spec fn path_components(p: Seq<char>) -> Seq<PartView>;

/// What a `PathBuf` holds once each component is pushed onto an empty one.
pub uninterp spec fn path_of_parts(ps: Seq<PartView>) -> Seq<char>;

/// Calls `Path::components` on a path given as a string.
#[verifier::external_body]
pub fn components_of(p: &str) -> (r: Vec<PathPart>)
    ensures
        parts_view(r@) == path_components(p@),
{
    std::path::Path::new(p).components().map(|c| match c {
        std::path::Component::Prefix(x) => PathPart::Prefix(x.as_os_str().to_string_lossy().into_owned()),
        std::path::Component::RootDir => PathPart::RootDir,
        std::path::Component::CurDir => PathPart::CurDir,
        std::path::Component::ParentDir => PathPart::ParentDir,
        std::path::Component::Normal(x) => PathPart::Normal(x.to_string_lossy().into_owned()),
    }).collect()
}

/// Calls `PathBuf::push` with each component in turn, from an empty path.
#[verifier::external_body]
pub fn path_from_parts(ps: &Vec<PathPart>) -> (r: String)
    ensures
        r@ == path_of_parts(parts_view(ps@)),
{
    let mut b = std::path::PathBuf::new();
    for p in ps {
        match p {
            PathPart::Prefix(x) => b.push(x),
            PathPart::RootDir => b.push(std::path::MAIN_SEPARATOR_STR),
            PathPart::CurDir => b.push("."),
            PathPart::ParentDir => b.push(".."),
            PathPart::Normal(x) => b.push(x),
        }
    }
    b.to_string_lossy().into_owned()
}

/// The components kept once `.` is dropped and each `..` takes off the
/// name before it; `None` where a `..` has no name before it to take off.
/// A leading prefix is kept as it is.
pub open spec fn normalized_parts(cs: Seq<PartView>) -> Option<Seq<PartView>>
    decreases cs.len(),
{
    if cs.len() == 0 {
        Some(Seq::empty())
    } else {
        match normalized_parts(cs.drop_last()) {
            None => None,
            Some(ret) => match cs.last() {
                PartView::CurDir => Some(ret),
                PartView::ParentDir => if ret.len() > 0 && ret.last() is Normal { Some(ret.drop_last()) } else { None },
                p => Some(ret.push(p)),
            },
        }
    }
}

proof fn lemma_normalized_stuck(cs: Seq<PartView>, k: int)
    requires
        0 <= k <= cs.len(),
        normalized_parts(cs.subrange(0, k)) is None,
    ensures
        normalized_parts(cs) is None,
    decreases cs.len() - k,
{
    if k < cs.len() {
        assert(cs.subrange(0, k + 1).drop_last() =~= cs.subrange(0, k));
        lemma_normalized_stuck(cs, k + 1);
    } else {
        assert(cs.subrange(0, k) =~= cs);
    }
}

/// A path with `.` dropped and each `..` resolved against the name before
/// it; `None` where a `..` has no name before it.
pub fn normalize_path(path: &str) -> (r: Option<String>)
    ensures
        match normalized_parts(path_components(path@)) {
            Some(ps) => r is Some && r->0@ == path_of_parts(ps),
            None => r is None,
        },
{
    let cs = components_of(path);
    let mut ret: Vec<PathPart> = Vec::new();
    let mut rest = cs;
    let n = rest.len();
    let ghost all = parts_view(rest@);
    let mut k: usize = 0;
    while k < n
        invariant
            k <= n,
            n == all.len(),
            rest@.len() == n,
            all == path_components(path@),
            forall|j: int| k <= j < n ==> #[trigger] rest@[j]@ == all[j],
            normalized_parts(all.subrange(0, k as int)) == Some(parts_view(ret@)),
        decreases n - k,
    {
        assert(all.subrange(0, k + 1).drop_last() =~= all.subrange(0, k as int));
        let mut c = PathPart::CurDir;
        std::mem::swap(&mut c, &mut rest[k]);
        assert(c@ == all[k as int]);
        assert(all.subrange(0, k + 1).last() == all[k as int]);
        let ghost before = parts_view(ret@);
        match c {
            PathPart::CurDir => {}
            PathPart::ParentDir => {
                let last_normal = ret.len() > 0 && match &ret[ret.len() - 1] {
                    PathPart::Normal(_) => true,
                    _ => false,
                };
                assert(last_normal == (before.len() > 0 && before.last() is Normal)) by {
                    if ret@.len() > 0 {
                        assert(before.last() == ret@[ret@.len() - 1]@);
                    }
                }
                if !last_normal {
                    proof {
                        lemma_normalized_stuck(all, k + 1);
                    }
                    return None;
                }
                ret.pop();
                assert(parts_view(ret@) =~= before.drop_last());
            }
            other => {
                let ghost ov = other@;
                ret.push(other);
                assert(parts_view(ret@) =~= before.push(ov));
            }
        }
        k += 1;
    }
    assert(all.subrange(0, n as int) =~= all);
    Some(path_from_parts(&ret))
}

/// What `Path::starts_with` says: whether `base` is a leading run of whole
/// components of `p`.
pub uninterp spec fn path_starts_with(p: Seq<char>, base: Seq<char>) -> bool;

/// What `Path::strip_prefix` gives: the rest of `p` after `base`, where `base`
/// is a leading run of its components.
pub uninterp spec fn path_strip_prefix(p: Seq<char>, base: Seq<char>) -> Option<Seq<char>>;

/// What `Path::is_relative` says of a path.
pub uninterp spec fn path_is_relative(p: Seq<char>) -> bool;

/// Calls `Path::starts_with` on paths given as strings.
#[verifier::external_body]
pub fn starts_with_path(p: &str, base: &str) -> (b: bool)
    ensures
        b == path_starts_with(p@, base@),
{
    std::path::Path::new(p).starts_with(base)
}

/// Calls `Path::strip_prefix` on paths given as strings; it succeeds exactly
/// where `Path::starts_with` holds.
#[verifier::external_body]
pub fn strip_prefix_path(p: &str, base: &str) -> (r: Option<String>)
    ensures
        opt_view(r) == path_strip_prefix(p@, base@),
        r is Some <==> path_starts_with(p@, base@),
{
    std::path::Path::new(p).strip_prefix(base).ok().map(|q| q.to_string_lossy().into_owned())
}

/// Calls `Path::is_relative` on a path given as a string.
#[verifier::external_body]
pub fn is_relative_path(p: &str) -> (b: bool)
    ensures
        b == path_is_relative(p@),
{
    std::path::Path::new(p).is_relative()
}

/// A path with `prefix_dir` taken off its start, where it starts with it.
pub open spec fn without_prefix(prefix_dir: Option<Seq<char>>, path: Seq<char>) -> Seq<char> {
    match prefix_dir {
        Some(d) => if path_starts_with(path, d) { path_strip_prefix(path, d)->0 } else { path },
        None => path,
    }
}

/// Takes `prefix_dir` off the start of a path, where it starts with it.
pub fn remove_prefix(prefix_dir: Option<&str>, path: String) -> (r: String)
    ensures
        r@ == without_prefix(match prefix_dir { Some(d) => Some(d@), None => None }, path@),
{
    match prefix_dir {
        Some(d) => {
            if starts_with_path(path.as_str(), d) {
                match strip_prefix_path(path.as_str(), d) {
                    Some(q) => q,
                    None => path,
                }
            } else {
                path
            }
        }
        None => path,
    }
}

/// The relative path of a file once its absolute path is known: the part
/// under the source directory, or the absolute path where the relative one
/// is not relative, else the relative path as it was.
pub open spec fn fixed_rel_path(source_dir: Option<Seq<char>>, abs_path: Seq<char>, rel_path: Seq<char>) -> Seq<char> {
    match source_dir {
        Some(d) => if path_starts_with(abs_path, d) {
            path_strip_prefix(abs_path, d)->0
        } else if !path_is_relative(rel_path) {
            abs_path
        } else {
            rel_path
        },
        None => rel_path,
    }
}

/// Fixes the relative path of a file once its absolute path is known (see
/// [`fixed_rel_path`]).
pub fn fixup_rel_path(source_dir: Option<&str>, abs_path: &str, rel_path: String) -> (r: String)
    ensures
        r@ == fixed_rel_path(match source_dir { Some(d) => Some(d@), None => None }, abs_path@, rel_path@),
{
    match source_dir {
        Some(d) => {
            if starts_with_path(abs_path, d) {
                match strip_prefix_path(abs_path, d) {
                    Some(q) => q,
                    None => rel_path,
                }
            } else if !is_relative_path(rel_path.as_str()) {
                abs_path.to_owned()
            } else {
                rel_path
            }
        }
        None => rel_path,
    }
}

/// Whether a path's extension is `e`.
pub fn check_extension(path: &str, e: &str) -> (b: bool)
    ensures
        b == (path_extension(path@) == Some(e@)),
{
    match extension_of(path) {
        Some(x) => crate::gcov::str_same(x.as_str(), e),
        None => false,
    }
}

/// What `char::to_lowercase` gives for a character.
pub uninterp spec fn char_lower(c: char) -> Seq<char>;

/// What `char::to_uppercase` gives for a character.
pub uninterp spec fn char_upper(c: char) -> Seq<char>;

/// Calls `char::to_lowercase` and collects the characters.
#[verifier::external_body]
fn lower_char(c: char) -> (r: String)
    ensures
        r@ == char_lower(c),
{
    c.to_lowercase().collect()
}

/// Calls `char::to_uppercase` and collects the characters.
#[verifier::external_body]
fn upper_char(c: char) -> (r: String)
    ensures
        r@ == char_upper(c),
{
    c.to_uppercase().collect()
}

/// A text with its first character in lower case.
pub fn to_lowercase_first(s: &str) -> (r: String)
    requires
        s@.len() > 0,
    ensures
        r@ == char_lower(s@[0]) + s@.drop_first(),
{
    let cs = crate::text::chars_of(s);
    let mut r = lower_char(cs[0]);
    let rest = crate::text::string_of(vstd::slice::slice_subrange(cs.as_slice(), 1, cs.len()));
    r.append(rest.as_str());
    assert(cs@.subrange(1, cs@.len() as int) =~= s@.drop_first());
    r
}

/// A text with its first character in upper case.
pub fn to_uppercase_first(s: &str) -> (r: String)
    requires
        s@.len() > 0,
    ensures
        r@ == char_upper(s@[0]) + s@.drop_first(),
{
    let cs = crate::text::chars_of(s);
    let mut r = upper_char(cs[0]);
    let rest = crate::text::string_of(vstd::slice::slice_subrange(cs.as_slice(), 1, cs.len()));
    r.append(rest.as_str());
    assert(cs@.subrange(1, cs@.len() as int) =~= s@.drop_first());
    r
}

/// What `Path::ends_with` says: whether `child` is a trailing run of whole
/// components of `p`.
pub uninterp spec fn path_ends_with(p: Seq<char>, child: Seq<char>) -> bool;

/// Calls `Path::ends_with` on paths given as strings.
#[verifier::external_body]
pub fn ends_with_path(p: &str, child: &str) -> (b: bool)
    ensures
        b == path_ends_with(p@, child@),
{
    std::path::Path::new(p).ends_with(child)
}

/// The paths of a sequence of strings as spec values.
pub open spec fn strings_view(v: Seq<String>) -> Seq<Seq<char>> {
    v.map_values(|s: String| s@)
}

/// What a map from file names to the paths of the files of that name holds.
pub uninterp spec fn paths_by_name(m: FxHashMap<String, Vec<String>>) -> Map<Seq<char>, Seq<Seq<char>>>;

/// Calls `HashMap::get` and copies out the paths of a file name, if any.
#[verifier::external_body]
pub fn paths_of_name(m: &FxHashMap<String, Vec<String>>, name: &str) -> (r: Option<Vec<String>>)
    ensures
        match r {
            Some(v) => paths_by_name(*m).contains_key(name@) && strings_view(v@) == paths_by_name(*m)[name@],
            None => !paths_by_name(*m).contains_key(name@),
        },
{
    m.get(name).cloned()
}

/// The number of paths of `ps` that end with `path`.
pub open spec fn ending_count(ps: Seq<Seq<char>>, path: Seq<char>) -> nat
    decreases ps.len(),
{
    if ps.len() == 0 { 0 } else { ending_count(ps.drop_last(), path) + if path_ends_with(ps.last(), path) { 1nat } else { 0nat } }
}

/// The last path of `ps` that ends with `path`, if any.
pub open spec fn last_ending(ps: Seq<Seq<char>>, path: Seq<char>) -> Option<Seq<char>>
    decreases ps.len(),
{
    if ps.len() == 0 {
        None
    } else if path_ends_with(ps.last(), path) {
        Some(ps.last())
    } else {
        last_ending(ps.drop_last(), path)
    }
}

/// The full path of a partial one: the only path of a file of the same name,
/// else the one path of such files that ends with it, else the path as it
/// was.
pub open spec fn full_path(m: Map<Seq<char>, Seq<Seq<char>>>, name: Seq<char>, path: Seq<char>) -> Seq<char> {
    if !m.contains_key(name) {
        path
    } else if m[name].len() == 1 {
        m[name][0]
    } else {
        match last_ending(m[name], path) {
            Some(p) => p,
            None => path,
        }
    }
}

/// Whether a partial path cannot be resolved: where it has no file
/// name, or where more than one path of a file of its name ends with it.
pub open spec fn partial_path_fails(m: Map<Seq<char>, Seq<Seq<char>>>, path: Seq<char>) -> bool {
    ||| path_file_name(path) is None
    ||| (m.contains_key(path_file_name(path)->0) && m[path_file_name(path)->0].len() != 1
        && ending_count(m[path_file_name(path)->0], path) > 1)
}

/// Maps a partial path to the full path of the one file of the source tree
/// that ends with it (see [`full_path`]); `None` where the path has no file
/// name or more than one file ends with it.
pub fn map_partial_path(file_to_paths: &FxHashMap<String, Vec<String>>, path: String) -> (r: Option<String>)
    ensures
        match r {
            Some(p) => !partial_path_fails(paths_by_name(*file_to_paths), path@)
                && p@ == full_path(paths_by_name(*file_to_paths), path_file_name(path@)->0, path@),
            None => partial_path_fails(paths_by_name(*file_to_paths), path@),
        },
{
    let name = match file_name_of(path.as_str()) {
        Some(n) => n,
        None => { return None; }
    };
    let options = match paths_of_name(file_to_paths, name.as_str()) {
        Some(o) => o,
        None => { return Some(path); }
    };
    if options.len() == 1 {
        return Some(options[0].clone());
    }
    let ghost ps = strings_view(options@);
    let mut count: usize = 0;
    let mut found: Option<usize> = None;
    let mut k: usize = 0;
    while k < options.len()
        invariant
            k <= options@.len(),
            ps == strings_view(options@),
            count == ending_count(ps.subrange(0, k as int), path@),
            count <= k,
            match found {
                Some(i) => i < k && last_ending(ps.subrange(0, k as int), path@) == Some(ps[i as int]),
                None => last_ending(ps.subrange(0, k as int), path@) is None,
            },
        decreases options@.len() - k,
    {
        assert(ps.subrange(0, k + 1).drop_last() =~= ps.subrange(0, k as int));
        assert(ps.subrange(0, k + 1).last() == ps[k as int]);
        if ends_with_path(options[k].as_str(), path.as_str()) {
            count += 1;
            found = Some(k);
        }
        k += 1;
    }
    assert(ps.subrange(0, ps.len() as int) =~= ps);
    if count > 1 {
        return None;
    }
    match found {
        Some(i) => Some(options[i].clone()),
        None => Some(path),
    }
}

}
