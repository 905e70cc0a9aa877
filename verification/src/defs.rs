use vstd::prelude::*;
use std::collections::BTreeMap;
use std::path::PathBuf;
use rustc_hash::FxHashMap;
use crate::text::{chars_of, string_of};

verus! {

#[verifier::external_type_specification]
#[verifier::external_body]
pub struct ExFxHasher(rustc_hash::FxHasher);

#[verifier::external_type_specification]
#[verifier::external_body]
#[verifier::reject_recursive_types(H)]
pub struct ExBuildHasherDefault<H>(std::hash::BuildHasherDefault<H>);

/// A function of a source file: its first line and whether it ran.
#[derive(Debug, Clone, Copy, PartialEq, Eq, Structural)]
pub struct Function {
    pub start: u32,
    pub executed: bool,
}

/// Functions of a source file, by name.
pub type FunctionMap = FxHashMap<String, Function>;

/// Results by file name.
pub type CovResultMap = FxHashMap<String, CovResult>;

/// What a map of functions holds, keyed by the characters of each name.
pub uninterp spec fn function_map_contents(m: FunctionMap) -> Map<Seq<char>, Function>;

/// The contents of a map of functions, as a spec value.
pub open spec fn fmap(m: FunctionMap) -> Map<Seq<char>, Function> {
    function_map_contents(m)
}

/// Calls `FxHashMap::default`: the new map holds nothing.
#[verifier::external_body]
pub fn function_map_new() -> (res: FunctionMap)
    ensures
        function_map_contents(res) =~= Map::empty(),
{
    FxHashMap::default()
}

/// Calls `HashMap::insert`: afterwards the name maps to the given function and
/// every other entry is as it was.
#[verifier::external_body]
pub fn function_map_insert(m: &mut FunctionMap, name: String, f: Function)
    ensures
        function_map_contents(*final(m)) == function_map_contents(*old(m)).insert(name@, f),
{
    m.insert(name, f);
}

/// Calls `HashMap::extend`: every entry of `other` goes in, replacing the
/// entry of the same name where there is one.
#[verifier::external_body]
pub fn function_map_extend(m: &mut FunctionMap, other: FunctionMap)
    ensures
        function_map_contents(*final(m)) == function_map_contents(*old(m)).union_prefer_right(function_map_contents(other)),
{
    m.extend(other);
}

/// Calls `HashMap::get` and copies out the function found, if any.
#[verifier::external_body]
pub fn function_map_get(m: &FunctionMap, name: &str) -> (res: Option<Function>)
    ensures
        res == (if function_map_contents(*m).contains_key(name@) {
            Some(function_map_contents(*m)[name@])
        } else {
            None::<Function>
        }),
{
    m.get(name).copied()
}

/// The names of a sequence of entries.
pub open spec fn entry_names(s: Seq<(String, Function)>) -> Seq<Seq<char>> {
    s.map_values(|e: (String, Function)| e.0@)
}

/// Calls `HashMap::iter` and copies out every entry. The names that come out are
/// those of the map, each once, with its function; the order is the map's own
/// and is left unsaid.
#[verifier::external_body]
pub fn function_map_entries(m: &FunctionMap) -> (res: Vec<(String, Function)>)
    ensures
        function_map_contents(*m).dom() == entry_names(res@).to_set(),
        entry_names(res@).no_duplicates(),
        forall|i: int|
            0 <= i < res@.len() ==> #[trigger] function_map_contents(*m)[res@[i].0@] == res@[i].1,
{
    m.iter().map(|(k, v)| (k.clone(), *v)).collect()
}

/// What a map from file names to results holds.
pub uninterp spec fn cov_map_contents(m: CovResultMap) -> Map<Seq<char>, CovResult>;

/// Calls `FxHashMap::default`: the map is empty.
#[verifier::external_body]
pub fn cov_map_new() -> (r: CovResultMap)
    ensures
        cov_map_contents(r) =~= Map::empty(),
{
    FxHashMap::default()
}

/// Calls `HashMap::remove`: the result of the file, if there is one, taken
/// out of the map.
#[verifier::external_body]
pub fn cov_map_remove(m: &mut CovResultMap, k: &str) -> (r: Option<CovResult>)
    ensures
        r == (if cov_map_contents(*old(m)).contains_key(k@) { Some(cov_map_contents(*old(m))[k@]) } else { None::<CovResult> }),
        cov_map_contents(*final(m)) == cov_map_contents(*old(m)).remove(k@),
{
    m.remove(k)
}

/// Calls `HashMap::insert`: the file now maps to the given result.
#[verifier::external_body]
pub fn cov_map_insert(m: &mut CovResultMap, k: String, v: CovResult)
    ensures
        cov_map_contents(*final(m)) == cov_map_contents(*old(m)).insert(k@, v),
{
    m.insert(k, v);
}

/// Calls `HashMap::into_iter`: every entry once, in the map's own order.
#[verifier::external_body]
pub fn cov_map_entries(m: CovResultMap) -> (r: Vec<(String, CovResult)>)
    ensures
        crate::results::result_names(r@).to_set() == cov_map_contents(m).dom(),
        crate::results::result_names(r@).no_duplicates(),
        forall|i: int| 0 <= i < r@.len() ==> cov_map_contents(m)[#[trigger] r@[i].0@] == r@[i].1,
{
    m.into_iter().collect()
}

/// Coverage of one source file: execution count per line, outcome of each
/// branch per line, and its functions.
#[derive(Debug, Default, Clone)]
pub struct CovResult {
    pub lines: BTreeMap<u32, u64>,
    pub branches: BTreeMap<u32, Vec<bool>>,
    pub functions: FunctionMap,
}

/// The branches of a file, each line's outcomes as a sequence.
pub open spec fn branches_view(b: BTreeMap<u32, Vec<bool>>) -> Map<u32, Seq<bool>> {
    b@.map_values(|v: Vec<bool>| v@)
}

/// A mathematical view of a file's coverage.
pub struct CovView {
    pub lines: Map<u32, u64>,
    pub branches: Map<u32, Seq<bool>>,
    pub functions: Map<Seq<char>, Function>,
}

impl View for CovResult {
    type V = CovView;

    open spec fn view(&self) -> CovView {
        CovView {
            lines: self.lines@,
            branches: branches_view(self.branches),
            functions: fmap(self.functions),
        }
    }
}

#[verifier::external_type_specification]
#[verifier::external_body]
pub struct ExPathBuf(std::path::PathBuf);

/// The kinds of coverage input.
#[derive(Debug, PartialEq, Eq, Structural, Copy, Clone)]
pub enum ItemFormat {
    Gcno,
    Profraw,
    Profdata,
    Info,
    JacocoXml,
    Gocov,
}

/// A gcno file with the gcda files that go with it.
#[derive(Debug)]
pub struct GcnoBuffers {
    pub stem: String,
    pub gcno_buf: Vec<u8>,
    pub gcda_buf: Vec<Vec<u8>>,
}

/// Where the data of a work item is.
#[derive(Debug)]
pub enum ItemType {
    Path((String, PathBuf)),
    Paths(Vec<PathBuf>),
    Content(Vec<u8>),
    Buffers(GcnoBuffers),
}

/// A unit of coverage input to be parsed.
#[derive(Debug)]
pub struct WorkItem {
    pub format: ItemFormat,
    pub item: ItemType,
    pub name: String,
}

/// Line, function and branch counts of a file or a directory.
#[derive(Clone, Copy, Debug, PartialEq, Eq, Structural)]
pub struct HtmlStats {
    pub total_lines: usize,
    pub covered_lines: usize,
    pub total_funs: usize,
    pub covered_funs: usize,
    pub total_branches: usize,
    pub covered_branches: usize,
}

impl Default for HtmlStats {
    fn default() -> (r: Self)
        ensures
            r == (HtmlStats {
                total_lines: 0,
                covered_lines: 0,
                total_funs: 0,
                covered_funs: 0,
                total_branches: 0,
                covered_branches: 0,
            }),
    {
        HtmlStats {
            total_lines: 0,
            covered_lines: 0,
            total_funs: 0,
            covered_funs: 0,
            total_branches: 0,
            covered_branches: 0,
        }
    }
}

/// The counts of two sets of statistics added field by field.
pub open spec fn stats_sum(a: HtmlStats, b: HtmlStats) -> HtmlStats {
    HtmlStats {
        total_lines: (a.total_lines + b.total_lines) as usize,
        covered_lines: (a.covered_lines + b.covered_lines) as usize,
        total_funs: (a.total_funs + b.total_funs) as usize,
        covered_funs: (a.covered_funs + b.covered_funs) as usize,
        total_branches: (a.total_branches + b.total_branches) as usize,
        covered_branches: (a.covered_branches + b.covered_branches) as usize,
    }
}

/// Whether adding two sets of statistics keeps every count within `usize`.
pub open spec fn stats_sum_fits(a: HtmlStats, b: HtmlStats) -> bool {
    &&& a.total_lines + b.total_lines <= usize::MAX
    &&& a.covered_lines + b.covered_lines <= usize::MAX
    &&& a.total_funs + b.total_funs <= usize::MAX
    &&& a.covered_funs + b.covered_funs <= usize::MAX
    &&& a.total_branches + b.total_branches <= usize::MAX
    &&& a.covered_branches + b.covered_branches <= usize::MAX
}

impl HtmlStats {
    /// Adds the counts of `stats` to these.
    pub fn add(&mut self, stats: &Self)
        requires
            stats_sum_fits(*old(self), *stats),
        ensures
            *final(self) == stats_sum(*old(self), *stats),
    {
        self.total_lines += stats.total_lines;
        self.covered_lines += stats.covered_lines;
        self.total_funs += stats.total_funs;
        self.covered_funs += stats.covered_funs;
        self.total_branches += stats.total_branches;
        self.covered_branches += stats.covered_branches;
    }
}

/// Statistics of one file.
#[derive(Clone, Debug)]
pub struct HtmlFileStats {
    pub stats: HtmlStats,
    pub abs_prefix: Option<PathBuf>,
}

/// Statistics of one directory and of its files.
#[derive(Clone, Debug)]
pub struct HtmlDirStats {
    pub files: BTreeMap<String, HtmlFileStats>,
    pub stats: HtmlStats,
    pub abs_prefix: Option<PathBuf>,
}

/// Statistics of every directory, and of the whole.
#[derive(Debug)]
pub struct HtmlGlobalStats {
    pub dirs: BTreeMap<String, HtmlDirStats>,
    pub stats: HtmlStats,
    pub abs_prefix: Option<PathBuf>,
}

/// An entry of a directory listing: a subdirectory or a file.
#[derive(Clone, Debug)]
pub enum HtmlItemStats {
    Directory(HtmlDirStats),
    File(HtmlFileStats),
}

/// What a map of directory statistics holds, by the characters of each path.
pub uninterp spec fn dir_entries(m: BTreeMap<String, HtmlDirStats>) -> Map<Seq<char>, HtmlDirStats>;

/// What a map of file statistics holds, by the characters of each name.
pub uninterp spec fn file_entries(m: BTreeMap<String, HtmlFileStats>) -> Map<Seq<char>, HtmlFileStats>;

/// What a directory listing holds, by the characters of each name.
pub uninterp spec fn item_entries(m: BTreeMap<String, HtmlItemStats>) -> Map<Seq<char>, HtmlItemStats>;

/// The characters of each string of a sequence.
pub open spec fn string_views(s: Seq<String>) -> Seq<Seq<char>> {
    s.map_values(|k: String| k@)
}

/// Calls `BTreeMap::keys` and clones each key: every path of the map, each once.
#[verifier::external_body]
fn dir_keys(m: &BTreeMap<String, HtmlDirStats>) -> (res: Vec<String>)
    ensures
        dir_entries(*m).dom() == string_views(res@).to_set(),
        string_views(res@).no_duplicates(),
{
    m.keys().cloned().collect()
}

/// Calls `BTreeMap::get` on a map of directory statistics.
#[verifier::external_body]
fn dir_get<'a>(m: &'a BTreeMap<String, HtmlDirStats>, k: &String) -> (res: Option<&'a HtmlDirStats>)
    ensures
        res.is_some() == dir_entries(*m).contains_key(k@),
        res.is_some() ==> *res.unwrap() == dir_entries(*m)[k@],
{
    m.get(k)
}

/// Calls `BTreeMap::remove` on a map of directory statistics: the entry of
/// the directory, taken out.
#[verifier::external_body]
pub fn dir_remove(m: &mut BTreeMap<String, HtmlDirStats>, k: &String) -> (res: Option<HtmlDirStats>)
    ensures
        res == (if dir_entries(*old(m)).contains_key(k@) { Some(dir_entries(*old(m))[k@]) } else { None::<HtmlDirStats> }),
        dir_entries(*final(m)) == dir_entries(*old(m)).remove(k@),
{
    m.remove(k)
}

/// Calls `BTreeMap::insert` on a map of directory statistics.
#[verifier::external_body]
pub fn dir_insert(m: &mut BTreeMap<String, HtmlDirStats>, k: String, v: HtmlDirStats)
    ensures
        dir_entries(*final(m)) == dir_entries(*old(m)).insert(k@, v),
{
    m.insert(k, v);
}

/// Calls `BTreeMap::new` for a map of file statistics: it holds nothing.
#[verifier::external_body]
pub fn files_new() -> (res: BTreeMap<String, HtmlFileStats>)
    ensures
        file_entries(res) =~= Map::empty(),
{
    BTreeMap::new()
}

/// Calls `BTreeMap::insert` on a map of file statistics.
#[verifier::external_body]
pub fn file_insert(m: &mut BTreeMap<String, HtmlFileStats>, k: String, v: HtmlFileStats)
    ensures
        file_entries(*final(m)) == file_entries(*old(m)).insert(k@, v),
{
    m.insert(k, v);
}

/// Calls `BTreeMap::keys` and clones each key: every file name of the map, each once.
#[verifier::external_body]
fn file_keys(m: &BTreeMap<String, HtmlFileStats>) -> (res: Vec<String>)
    ensures
        file_entries(*m).dom() == string_views(res@).to_set(),
        string_views(res@).no_duplicates(),
{
    m.keys().cloned().collect()
}

/// Calls `BTreeMap::get` on a map of file statistics.
#[verifier::external_body]
fn file_get<'a>(m: &'a BTreeMap<String, HtmlFileStats>, k: &String) -> (res: Option<&'a HtmlFileStats>)
    ensures
        res.is_some() == file_entries(*m).contains_key(k@),
        res.is_some() ==> *res.unwrap() == file_entries(*m)[k@],
{
    m.get(k)
}

/// Calls `BTreeMap::new` for a directory listing: it holds nothing.
#[verifier::external_body]
fn items_new() -> (res: BTreeMap<String, HtmlItemStats>)
    ensures
        item_entries(res) =~= Map::empty(),
{
    BTreeMap::new()
}

/// Calls `BTreeMap::insert` on a directory listing: the name maps to the item,
/// every other entry stays.
#[verifier::external_body]
fn items_insert(m: &mut BTreeMap<String, HtmlItemStats>, k: String, v: HtmlItemStats)
    ensures
        item_entries(*final(m)) == item_entries(*old(m)).insert(k@, v),
{
    m.insert(k, v);
}

/// Calls `Clone::clone` on an optional path: the copy is the same path.
#[verifier::external_body]
fn clone_prefix(p: &Option<PathBuf>) -> (r: Option<PathBuf>)
    ensures
        r == *p,
{
    p.clone()
}

/// A copy of file statistics.
fn copy_file_stats(f: &HtmlFileStats) -> (res: HtmlFileStats)
    ensures
        res == *f,
{
    HtmlFileStats { stats: f.stats, abs_prefix: clone_prefix(&f.abs_prefix) }
}

/// Whether two directory statistics hold the same counts, files and prefix.
pub open spec fn same_dir(a: HtmlDirStats, b: HtmlDirStats) -> bool {
    a.stats == b.stats && a.files@ == b.files@ && a.abs_prefix == b.abs_prefix
}

/// A copy of directory statistics.
fn copy_dir_stats(d: &HtmlDirStats) -> (res: HtmlDirStats)
    ensures
        same_dir(res, *d),
{
    HtmlDirStats { files: d.files.clone(), stats: d.stats, abs_prefix: clone_prefix(&d.abs_prefix) }
}

/// The prefix that the paths of the subdirectories of a nonempty directory begin with.
pub open spec fn dir_prefix(dir: Seq<char>) -> Seq<char> {
    if dir.len() > 0 && dir.last() == '/' { dir } else { dir.push('/') }
}

/// The path of the entry `name` of the listing of `dir`.
pub open spec fn entry_path(dir: Seq<char>, name: Seq<char>) -> Seq<char> {
    if dir.len() == 0 { name } else { dir_prefix(dir) + name }
}

/// Whether `name` is listed in `dir` as an immediate subdirectory.
pub open spec fn lists_dir(dirs: Map<Seq<char>, HtmlDirStats>, dir: Seq<char>, name: Seq<char>) -> bool {
    &&& name.len() > 0
    &&& !name.contains('/')
    &&& dirs.contains_key(entry_path(dir, name))
}

/// Whether `name` is listed in `dir` as one of its files.
pub open spec fn lists_file(dirs: Map<Seq<char>, HtmlDirStats>, dir: Seq<char>, name: Seq<char>) -> bool {
    &&& dirs.contains_key(dir)
    &&& file_entries(dirs[dir].files).contains_key(name)
}

/// Whether a listing holds exactly the files and immediate subdirectories of
/// `dir`, a subdirectory winning over a file of the same name, each a copy
/// of its entry.
pub open spec fn is_listing(items: Map<Seq<char>, HtmlItemStats>, dirs: Map<Seq<char>, HtmlDirStats>, dir: Seq<char>) -> bool {
    &&& forall|k: Seq<char>| #[trigger] items.contains_key(k) <==> (lists_dir(dirs, dir, k) || lists_file(dirs, dir, k))
    &&& forall|k: Seq<char>| #[trigger] items.contains_key(k) ==> match items[k] {
        HtmlItemStats::Directory(d) => lists_dir(dirs, dir, k) && same_dir(d, dirs[entry_path(dir, k)]),
        HtmlItemStats::File(f) => !lists_dir(dirs, dir, k) && f == file_entries(dirs[dir].files)[k],
    }
}

/// Whether a sequence of characters starts with another.
fn starts_with(s: &Vec<char>, pre: &Vec<char>) -> (res: bool)
    ensures
        res == pre@.is_prefix_of(s@),
{
    if pre.len() > s.len() {
        return false;
    }
    let mut i: usize = 0;
    while i < pre.len()
        invariant
            pre@.len() <= s@.len(),
            i <= pre@.len(),
            forall|j: int| 0 <= j < i ==> pre@[j] == s@[j],
        decreases pre@.len() - i,
    {
        if pre[i] != s[i] {
            return false;
        }
        i += 1;
    }
    true
}

/// Whether a sequence of characters holds `c` at or after position `from`.
fn contains_from(s: &Vec<char>, from: usize, c: char) -> (res: bool)
    requires
        from <= s@.len(),
    ensures
        res == s@.subrange(from as int, s@.len() as int).contains(c),
{
    let mut i = from;
    while i < s.len()
        invariant
            from <= i <= s@.len(),
            forall|j: int| from <= j < i ==> s@[j] != c,
        decreases s@.len() - i,
    {
        if s[i] == c {
            assert(s@.subrange(from as int, s@.len() as int)[i - from] == c);
            return true;
        }
        i += 1;
    }
    assert forall|j: int| 0 <= j < s@.len() - from implies s@.subrange(from as int, s@.len() as int)[j] != c by {
        assert(s@[from + j] != c);
    }
    false
}

impl HtmlGlobalStats {
    /// The listing of a directory: its files, then its immediate
    /// subdirectories, by name; for the root (`""`), the top-level directories.
    pub fn list(&self, dir: String) -> (res: BTreeMap<String, HtmlItemStats>)
        ensures
            is_listing(item_entries(res), dir_entries(self.dirs), dir@),
    {
        let ghost dirs = dir_entries(self.dirs);
        let mut result = items_new();
        let ghost mut files: Map<Seq<char>, HtmlFileStats> = Map::empty();
        if let Some(ds) = dir_get(&self.dirs, &dir) {
            proof { files = file_entries(ds.files); }
            let names = file_keys(&ds.files);
            let mut i: usize = 0;
            while i < names.len()
                invariant
                    i <= names@.len(),
                    files == file_entries(ds.files),
                    files.dom() == string_views(names@).to_set(),
                    forall|k: Seq<char>| #[trigger] item_entries(result).contains_key(k) <==>
                        exists|j: int| 0 <= j < i && string_views(names@)[j] == k,
                    forall|k: Seq<char>| #[trigger] item_entries(result).contains_key(k) ==> match item_entries(result)[k] {
                        HtmlItemStats::File(f) => files.contains_key(k) && f == files[k],
                        HtmlItemStats::Directory(d) => false,
                    },
                decreases names@.len() - i,
            {
                assert(string_views(names@).to_set().contains(names@[i as int]@)) by {
                    assert(string_views(names@)[i as int] == names@[i as int]@);
                }
                let f = file_get(&ds.files, &names[i]).unwrap();
                let item = HtmlItemStats::File(copy_file_stats(f));
                let ghost old_items = item_entries(result);
                items_insert(&mut result, names[i].clone(), item);
                assert forall|k: Seq<char>| #[trigger] item_entries(result).contains_key(k) <==>
                    exists|j: int| 0 <= j < i + 1 && string_views(names@)[j] == k by {
                    if item_entries(result).contains_key(k) && k != names@[i as int]@ {
                        assert(old_items.contains_key(k));
                        let j = choose|j: int| 0 <= j < i && string_views(names@)[j] == k;
                        assert(0 <= j < i + 1 && string_views(names@)[j] == k);
                    }
                    if k == names@[i as int]@ {
                        assert(string_views(names@)[i as int] == k);
                    }
                    if exists|j: int| 0 <= j < i + 1 && string_views(names@)[j] == k {
                        let j = choose|j: int| 0 <= j < i + 1 && string_views(names@)[j] == k;
                        if j < i {
                            assert(old_items.contains_key(k));
                        }
                    }
                }
                i += 1;
            }
            assert forall|k: Seq<char>| #[trigger] item_entries(result).contains_key(k) <==> files.contains_key(k) by {
                if files.contains_key(k) {
                    assert(string_views(names@).to_set().contains(k));
                    let j = choose|j: int| 0 <= j < string_views(names@).len() && string_views(names@)[j] == k;
                    assert(0 <= j < i && string_views(names@)[j] == k);
                }
                if item_entries(result).contains_key(k) {
                    let j = choose|j: int| 0 <= j < i && string_views(names@)[j] == k;
                    assert(string_views(names@).contains(k));
                }
            }
        }
        assert(dirs.contains_key(dir@) ==> files == file_entries(dirs[dir@].files));
        assert(forall|k: Seq<char>| #[trigger] item_entries(result).contains_key(k) <==> lists_file(dirs, dir@, k));

        let dir_chars = chars_of(dir.as_str());
        let mut prefix = dir_chars.clone();
        let keys = dir_keys(&self.dirs);
        if dir_chars.len() != 0 && dir_chars[dir_chars.len() - 1] != '/' {
            prefix.push('/');
        }
        assert(dir@.len() > 0 ==> prefix@ == dir_prefix(dir@));
        let mut i: usize = 0;
        while i < keys.len()
            invariant
                i <= keys@.len(),
                dirs == dir_entries(self.dirs),
                dir_chars@ == dir@,
                dir@.len() > 0 ==> prefix@ == dir_prefix(dir@),
                dirs.dom() == string_views(keys@).to_set(),
                string_views(keys@).no_duplicates(),
                dirs.contains_key(dir@) ==> files == file_entries(dirs[dir@].files),
                forall|k: Seq<char>| #[trigger] item_entries(result).contains_key(k) <==>
                    (lists_file(dirs, dir@, k) || (lists_dir(dirs, dir@, k)
                        && exists|j: int| 0 <= j < i && string_views(keys@)[j] == entry_path(dir@, k))),
                forall|k: Seq<char>| #[trigger] item_entries(result).contains_key(k) ==> match item_entries(result)[k] {
                    HtmlItemStats::Directory(d) => lists_dir(dirs, dir@, k) && same_dir(d, dirs[entry_path(dir@, k)]),
                    HtmlItemStats::File(f) => lists_file(dirs, dir@, k) && f == files[k]
                        && !(lists_dir(dirs, dir@, k)
                        && exists|j: int| 0 <= j < i && string_views(keys@)[j] == entry_path(dir@, k)),
                },
            decreases keys@.len() - i,
        {
            let ghost p = keys@[i as int]@;
            assert(string_views(keys@)[i as int] == p);
            assert(dirs.contains_key(p));
            let pc = chars_of(keys[i].as_str());
            let ghost old_items = item_entries(result);
            if dir_chars.len() == 0 {
                if pc.len() > 0 && !contains_from(&pc, 0, '/') {
                    assert(pc@.subrange(0, pc@.len() as int) =~= pc@);
                    let d = dir_get(&self.dirs, &keys[i]).unwrap();
                    let item = HtmlItemStats::Directory(copy_dir_stats(d));
                    items_insert(&mut result, keys[i].clone(), item);
                    assert(lists_dir(dirs, dir@, p));
                }
            } else if starts_with(&pc, &prefix) {
                let n = pc.len();
                if prefix.len() < n && !contains_from(&pc, prefix.len(), '/') {
                    let suffix = string_of(&pc.as_slice()[prefix.len()..n]);
                    let ghost k = suffix@;
                    assert(entry_path(dir@, k) =~= p);
                    let d = dir_get(&self.dirs, &keys[i]).unwrap();
                    let item = HtmlItemStats::Directory(copy_dir_stats(d));
                    items_insert(&mut result, suffix, item);
                    assert(lists_dir(dirs, dir@, k));
                }
            }
            assert forall|k: Seq<char>| #[trigger] item_entries(result).contains_key(k) <==>
                (lists_file(dirs, dir@, k) || (lists_dir(dirs, dir@, k)
                    && exists|j: int| 0 <= j < i + 1 && string_views(keys@)[j] == entry_path(dir@, k))) by {
                if lists_dir(dirs, dir@, k) && entry_path(dir@, k) == p {
                    if dir@.len() == 0 {
                        assert(k == p);
                    } else {
                        assert(dir_prefix(dir@).is_prefix_of(p));
                        assert(p.subrange(prefix@.len() as int, p.len() as int) =~= k);
                        assert(!pc@.subrange(prefix@.len() as int, pc@.len() as int).contains('/'));
                    }
                }
                if exists|j: int| 0 <= j < i + 1 && string_views(keys@)[j] == entry_path(dir@, k) {
                    let j = choose|j: int| 0 <= j < i + 1 && string_views(keys@)[j] == entry_path(dir@, k);
                    if j == i {
                        assert(entry_path(dir@, k) == p);
                    }
                }
            }
            assert forall|k: Seq<char>| #[trigger] item_entries(result).contains_key(k) implies match item_entries(result)[k] {
                HtmlItemStats::Directory(d) => lists_dir(dirs, dir@, k) && same_dir(d, dirs[entry_path(dir@, k)]),
                HtmlItemStats::File(f) => lists_file(dirs, dir@, k) && f == files[k]
                    && !(lists_dir(dirs, dir@, k)
                    && exists|j: int| 0 <= j < i + 1 && string_views(keys@)[j] == entry_path(dir@, k)),
            } by {
                if lists_dir(dirs, dir@, k) && entry_path(dir@, k) == p {
                    if dir@.len() == 0 {
                        assert(k == p);
                    } else {
                        assert(dir_prefix(dir@).is_prefix_of(p));
                        assert(p.subrange(prefix@.len() as int, p.len() as int) =~= k);
                        assert(!pc@.subrange(prefix@.len() as int, pc@.len() as int).contains('/'));
                    }
                }
                if exists|j: int| 0 <= j < i + 1 && string_views(keys@)[j] == entry_path(dir@, k) {
                    let j = choose|j: int| 0 <= j < i + 1 && string_views(keys@)[j] == entry_path(dir@, k);
                    if j == i {
                        assert(entry_path(dir@, k) == p);
                    }
                }
            }
            i += 1;
        }
        assert forall|k: Seq<char>| lists_dir(dirs, dir@, k) implies
            exists|j: int| 0 <= j < keys@.len() && string_views(keys@)[j] == entry_path(dir@, k) by {
            assert(string_views(keys@).to_set().contains(entry_path(dir@, k)));
        }
        result
    }
}

/// A string owned or borrowed.
pub enum StringOrRef<'a> {
    S(String),
    R(&'a String),
}

impl<'a> StringOrRef<'a> {
    /// The characters held.
    pub open spec fn chars(&self) -> Seq<char> {
        match self {
            StringOrRef::S(s) => s@,
            StringOrRef::R(s) => s@,
        }
    }

    /// The string held, as an owned string.
    pub fn text(&self) -> (res: String)
        ensures
            res@ == self.chars(),
    {
        match self {
            StringOrRef::S(s) => s.clone(),
            StringOrRef::R(s) => (*s).clone(),
        }
    }
}

/// Line counts and branch outcomes read from a JaCoCo report.
pub struct JacocoReport {
    pub lines: BTreeMap<u32, u64>,
    pub branches: BTreeMap<u32, Vec<bool>>,
}

}
