use vstd::prelude::*;
use vstd::string::StringExecFns;
use crate::paths::{PathPart, PartView, parts_view, opt_view, path_parent, path_components, path_file_name, path_is_relative, parent_of, components_of, file_name_of, is_relative_path};

verus! {

/// Lines in all, lines covered and lines missed, and the share covered in
/// hundredths of a percent.
#[derive(Clone, Copy, Debug, PartialEq, Eq, Structural)]
pub struct FMStats {
    pub total: usize,
    pub covered: usize,
    pub missed: usize,
    pub percent_hundredths: u128,
}

/// The number of entries of `c` that are at least 0 (lines), and above 0
/// (covered lines).
pub open spec fn counted(c: Seq<i64>) -> (nat, nat)
    decreases c.len(),
{
    if c.len() == 0 {
        (0, 0)
    } else {
        let t = counted(c.drop_last());
        (t.0 + if c.last() >= 0 { 1nat } else { 0nat }, t.1 + if c.last() > 0 { 1nat } else { 0nat })
    }
}

/// `x` out of `y` in hundredths of a percent, to the nearest (halves away
/// from zero); 0 where `y` is 0.
pub open spec fn hundredths(x: nat, y: nat) -> nat {
    if y == 0 { 0 } else { (20000 * x + y) / (2 * y) }
}

proof fn lemma_counted_bound(c: Seq<i64>)
    ensures
        counted(c).1 <= counted(c).0 <= c.len(),
    decreases c.len(),
{
    if c.len() > 0 {
        lemma_counted_bound(c.drop_last());
    }
}

/// `x` out of `y` in hundredths of a percent.
fn percent_of(x: usize, y: usize) -> (p: u128)
    ensures
        p == hundredths(x as nat, y as nat),
{
    if y == 0 {
        0
    } else {
        let num: u128 = 20000 * (x as u128) + (y as u128);
        let den: u128 = 2 * (y as u128);
        num / den
    }
}

impl FMStats {
    /// The counts of a line coverage list, where a negative entry is not a
    /// line, 0 a line not covered and a positive entry a covered line.
    pub fn new(coverage: &Vec<i64>) -> (r: Self)
        ensures
            r.total == counted(coverage@).0,
            r.covered == counted(coverage@).1,
            r.missed == r.total - r.covered,
            r.percent_hundredths == hundredths(r.covered as nat, r.total as nat),
    {
        let mut covered: usize = 0;
        let mut total: usize = 0;
        let mut k: usize = 0;
        while k < coverage.len()
            invariant
                k <= coverage@.len(),
                total == counted(coverage@.subrange(0, k as int)).0,
                covered == counted(coverage@.subrange(0, k as int)).1,
                covered <= total <= k,
            decreases coverage@.len() - k,
        {
            assert(coverage@.subrange(0, k + 1).drop_last() =~= coverage@.subrange(0, k as int));
            let x = coverage[k];
            if x >= 0 {
                total += 1;
            }
            if x > 0 {
                covered += 1;
            }
            k += 1;
        }
        assert(coverage@.subrange(0, coverage@.len() as int) =~= coverage@);
        let missed = total - covered;
        FMStats { total, covered, missed, percent_hundredths: percent_of(covered, total) }
    }

    /// Adds the counts of `other`, leaving the share as it was (see
    /// [`FMStats::set_percent`]).
    pub fn add(&mut self, other: &Self)
        requires
            old(self).total + other.total <= usize::MAX,
            old(self).covered + other.covered <= usize::MAX,
            old(self).missed + other.missed <= usize::MAX,
        ensures
            final(self).total == old(self).total + other.total,
            final(self).covered == old(self).covered + other.covered,
            final(self).missed == old(self).missed + other.missed,
            final(self).percent_hundredths == old(self).percent_hundredths,
    {
        self.total = self.total + other.total;
        self.covered = self.covered + other.covered;
        self.missed = self.missed + other.missed;
    }

    /// Sets the share covered from the counts.
    pub fn set_percent(&mut self)
        ensures
            final(self).percent_hundredths == hundredths(old(self).covered as nat, old(self).total as nat),
            final(self).total == old(self).total,
            final(self).covered == old(self).covered,
            final(self).missed == old(self).missed,
    {
        self.percent_hundredths = percent_of(self.covered, self.total);
    }
}

/// A file: its name, its line coverage list and its counts.
pub struct FMFileStats {
    pub name: String,
    pub coverage: Vec<i64>,
    pub stats: FMStats,
}

impl FMFileStats {
    pub fn new(name: String, coverage: Vec<i64>) -> (r: Self)
        ensures
            r.name == name,
            r.coverage == coverage,
            r.stats.total == counted(coverage@).0,
            r.stats.covered == counted(coverage@).1,
            r.stats.missed == r.stats.total - r.stats.covered,
            r.stats.percent_hundredths == hundredths(r.stats.covered as nat, r.stats.total as nat),
    {
        let stats = FMStats::new(&coverage);
        FMFileStats { name, coverage, stats }
    }
}

/// A directory: its name, files and subdirectories, and its counts.
pub struct FMDirStats {
    pub name: String,
    pub files: Vec<FMFileStats>,
    pub dirs: Vec<FMDirStats>,
    pub stats: FMStats,
}

/// The counts of files, summed: lines, covered lines, missed lines.
pub open spec fn file_sums(fs: Seq<FMFileStats>) -> (int, int, int)
    decreases fs.len(),
{
    if fs.len() == 0 {
        (0, 0, 0)
    } else {
        let t = file_sums(fs.drop_last());
        (t.0 + fs.last().stats.total, t.1 + fs.last().stats.covered, t.2 + fs.last().stats.missed)
    }
}

impl FMDirStats {
    pub fn new(name: String) -> (r: Self)
        ensures
            r.name == name,
            r.files@.len() == 0,
            r.dirs@.len() == 0,
            r.stats == (FMStats { total: 0, covered: 0, missed: 0, percent_hundredths: 0 }),
    {
        FMDirStats { name, files: Vec::new(), dirs: Vec::new(), stats: FMStats { total: 0, covered: 0, missed: 0, percent_hundredths: 0 } }
    }
}

/// The counts of a directory once settled: its own counts, plus those of its
/// files, plus those of its subdirectories once settled.
pub open spec fn settled(d: FMDirStats) -> (int, int, int)
    decreases d, 1int,
{
    let f = file_sums(d.files@);
    let c = settled_dirs(d.dirs@);
    (d.stats.total + f.0 + c.0, d.stats.covered + f.1 + c.1, d.stats.missed + f.2 + c.2)
}

/// The counts of directories once settled, summed.
pub open spec fn settled_dirs(ds: Seq<FMDirStats>) -> (int, int, int)
    decreases ds, 0int,
{
    if ds.len() == 0 {
        (0, 0, 0)
    } else {
        let t = settled_dirs(ds.drop_last());
        let u = settled(ds.last());
        (t.0 + u.0, t.1 + u.1, t.2 + u.2)
    }
}

proof fn lemma_file_sums_grow(fs: Seq<FMFileStats>, k: int)
    requires
        0 <= k <= fs.len(),
    ensures
        0 <= file_sums(fs.subrange(0, k)).0 <= file_sums(fs).0,
        0 <= file_sums(fs.subrange(0, k)).1 <= file_sums(fs).1,
        0 <= file_sums(fs.subrange(0, k)).2 <= file_sums(fs).2,
    decreases fs.len() - k,
{
    if k < fs.len() {
        lemma_file_sums_grow(fs, k + 1);
        assert(fs.subrange(0, k + 1).drop_last() =~= fs.subrange(0, k));
    } else {
        assert(fs.subrange(0, k) =~= fs);
    }
    lemma_file_sums_nonneg(fs.subrange(0, k));
}

proof fn lemma_file_sums_nonneg(fs: Seq<FMFileStats>)
    ensures
        0 <= file_sums(fs).0 && 0 <= file_sums(fs).1 && 0 <= file_sums(fs).2,
    decreases fs.len(),
{
    if fs.len() > 0 {
        lemma_file_sums_nonneg(fs.drop_last());
    }
}

proof fn lemma_settled_nonneg(d: FMDirStats)
    ensures
        0 <= settled(d).0 && 0 <= settled(d).1 && 0 <= settled(d).2,
    decreases d, 1int,
{
    lemma_file_sums_nonneg(d.files@);
    lemma_settled_dirs_nonneg(d.dirs@);
}

proof fn lemma_settled_dirs_nonneg(ds: Seq<FMDirStats>)
    ensures
        0 <= settled_dirs(ds).0 && 0 <= settled_dirs(ds).1 && 0 <= settled_dirs(ds).2,
    decreases ds, 0int,
{
    if ds.len() > 0 {
        lemma_settled_dirs_nonneg(ds.drop_last());
        lemma_settled_nonneg(ds.last());
    }
}

proof fn lemma_settled_dirs_grow(ds: Seq<FMDirStats>, k: int)
    requires
        0 <= k <= ds.len(),
    ensures
        settled_dirs(ds.subrange(0, k)).0 <= settled_dirs(ds).0,
        settled_dirs(ds.subrange(0, k)).1 <= settled_dirs(ds).1,
        settled_dirs(ds.subrange(0, k)).2 <= settled_dirs(ds).2,
    decreases ds.len() - k,
{
    if k < ds.len() {
        lemma_settled_dirs_grow(ds, k + 1);
        assert(ds.subrange(0, k + 1).drop_last() =~= ds.subrange(0, k));
        lemma_settled_nonneg(ds[k]);
    } else {
        assert(ds.subrange(0, k) =~= ds);
    }
}

/// The counts of a directory's stats.
pub open spec fn own(d: FMDirStats) -> (int, int, int) {
    (d.stats.total as int, d.stats.covered as int, d.stats.missed as int)
}

/// Counts that fit in a `usize`, with no more covered lines than lines.
pub open spec fn fits_usize(t: (int, int, int)) -> bool {
    t.0 <= usize::MAX && t.1 <= usize::MAX && t.2 <= usize::MAX
}

/// Whether `b` is `a` settled: same name and files, its counts those of `a`
/// settled (see [`settled`]) with their share covered, and each of its
/// subdirectories the settled form of the one of `a` at the same place.
pub open spec fn settled_into(a: FMDirStats, b: FMDirStats) -> bool
    decreases a, 1int,
{
    &&& b.name == a.name
    &&& b.files@ == a.files@
    &&& own(b) == settled(a)
    &&& b.stats.percent_hundredths == hundredths(settled(a).1 as nat, settled(a).0 as nat)
    &&& dirs_settled_into(a.dirs@, b.dirs@)
}

/// Whether each directory of `bs` is the settled form of the one of `as_`
/// at the same place.
pub open spec fn dirs_settled_into(as_: Seq<FMDirStats>, bs: Seq<FMDirStats>) -> bool
    decreases as_, 0int,
{
    &&& as_.len() == bs.len()
    &&& as_.len() > 0 ==> dirs_settled_into(as_.drop_last(), bs.drop_last()) && settled_into(as_.last(), bs.last())
}

impl FMDirStats {
    /// Adds to the counts of the directory those of its files and of its
    /// subdirectories, settling each subdirectory first, then sets the share
    /// covered.
    pub fn set_stats(&mut self)
        requires
            fits_usize(settled(*old(self))),
        ensures
            own(*final(self)) == settled(*old(self)),
            final(self).stats.percent_hundredths == hundredths(settled(*old(self)).1 as nat, settled(*old(self)).0 as nat),
            final(self).name == old(self).name,
            settled_into(*old(self), *final(self)),
        decreases *old(self),
    {
        let ghost d0 = *self;
        proof {
            lemma_file_sums_nonneg(d0.files@);
            lemma_settled_dirs_nonneg(d0.dirs@);
        }
        let mut k: usize = 0;
        while k < self.files.len()
            invariant
                k <= self.files@.len(),
                self.files == d0.files,
                self.dirs == d0.dirs,
                self.name == d0.name,
                fits_usize(settled(d0)),
                own(*self) == (own(d0).0 + file_sums(d0.files@.subrange(0, k as int)).0,
                    own(d0).1 + file_sums(d0.files@.subrange(0, k as int)).1,
                    own(d0).2 + file_sums(d0.files@.subrange(0, k as int)).2),
            decreases self.files@.len() - k,
        {
            proof {
                lemma_file_sums_grow(d0.files@, k + 1);
                assert(d0.files@.subrange(0, k + 1).drop_last() =~= d0.files@.subrange(0, k as int));
                lemma_settled_dirs_nonneg(d0.dirs@);
            }
            let fs = self.files[k].stats;
            self.stats.add(&fs);
            k += 1;
        }
        assert(d0.files@.subrange(0, d0.files@.len() as int) =~= d0.files@);
        let mut dirs: Vec<FMDirStats> = Vec::new();
        std::mem::swap(&mut dirs, &mut self.dirs);
        let mut j: usize = 0;
        while j < dirs.len()
            invariant
                d0 == *old(self),
                j <= dirs@.len(),
                dirs@.len() == d0.dirs@.len(),
                forall|i: int| j <= i < dirs@.len() ==> #[trigger] dirs@[i] == d0.dirs@[i],
                dirs_settled_into(d0.dirs@.subrange(0, j as int), dirs@.subrange(0, j as int)),
                self.files == d0.files,
                self.name == d0.name,
                fits_usize(settled(d0)),
                own(*self) == (own(d0).0 + file_sums(d0.files@).0 + settled_dirs(d0.dirs@.subrange(0, j as int)).0,
                    own(d0).1 + file_sums(d0.files@).1 + settled_dirs(d0.dirs@.subrange(0, j as int)).1,
                    own(d0).2 + file_sums(d0.files@).2 + settled_dirs(d0.dirs@.subrange(0, j as int)).2),
            decreases dirs@.len() - j,
        {
            let ghost head = dirs@;
            let mut child = FMDirStats::new(String::new());
            std::mem::swap(&mut child, &mut dirs[j]);
            assert(dirs@.subrange(0, j as int) =~= head.subrange(0, j as int));
            assert(child == d0.dirs@[j as int]);
            proof {
                lemma_settled_dirs_grow(d0.dirs@, j + 1);
                assert(d0.dirs@.subrange(0, j + 1).drop_last() =~= d0.dirs@.subrange(0, j as int));
                lemma_settled_dirs_nonneg(d0.dirs@.subrange(0, j as int));
                lemma_settled_nonneg(child);
                lemma_file_sums_nonneg(d0.files@);
                assert(decreases_to!(d0 => d0.dirs));
                assert(decreases_to!(d0.dirs => d0.dirs@));
                assert(decreases_to!(d0.dirs@ => d0.dirs@[j as int]));
                assert(decreases_to!(d0 => d0.dirs@[j as int]));
            }
            child.set_stats();
            let cs = child.stats;
            self.stats.add(&cs);
            let ghost before = dirs@;
            let ghost settled_child = child;
            assert(settled_into(d0.dirs@[j as int], settled_child));
            dirs.set(j, child);
            proof {
                assert(dirs@[j as int] == settled_child);
                assert(d0.dirs@.subrange(0, j + 1).drop_last() =~= d0.dirs@.subrange(0, j as int));
                assert(d0.dirs@.subrange(0, j + 1).last() == d0.dirs@[j as int]);
                assert(dirs@.subrange(0, j as int) =~= before.subrange(0, j as int));
                assert(dirs@.subrange(0, j + 1).drop_last() =~= dirs@.subrange(0, j as int));
                assert(dirs@.subrange(0, j + 1).last() == dirs@[j as int]);
                assert(dirs_settled_into(d0.dirs@.subrange(0, j + 1), dirs@.subrange(0, j + 1)));
            }
            j += 1;
        }
        assert(d0.dirs@.subrange(0, d0.dirs@.len() as int) =~= d0.dirs@);
        assert(dirs@.subrange(0, dirs@.len() as int) =~= dirs@);
        std::mem::swap(&mut dirs, &mut self.dirs);
        self.stats.set_percent();
    }
}

/// The first place from `k` on in `ds` of a directory named `name`, or the
/// length where none is.
pub open spec fn dir_from(ds: Seq<FMDirStats>, name: Seq<char>, k: int) -> int
    decreases ds.len() - k,
{
    if k < 0 || k >= ds.len() {
        ds.len() as int
    } else if ds[k].name@ == name {
        k
    } else {
        dir_from(ds, name, k + 1)
    }
}

/// Counts of nothing.
pub open spec fn no_stats() -> FMStats {
    FMStats { total: 0, covered: 0, missed: 0, percent_hundredths: 0 }
}

/// Whether `b` is the directory with name `name`, files `files`,
/// subdirectories `dirs` and counts `stats` once the file `f` is put at the
/// end of the path `parts`: each part is the first subdirectory of that name,
/// or a new empty one added last where there is none, and the file goes last
/// among the files of the directory the path leads to. Nothing else changes.
pub open spec fn file_added(name: Seq<char>, files: Seq<FMFileStats>, dirs: Seq<FMDirStats>, stats: FMStats,
    parts: Seq<Seq<char>>, f: FMFileStats, b: FMDirStats) -> bool
    decreases parts.len(),
{
    &&& b.name@ == name
    &&& b.stats == stats
    &&& if parts.len() == 0 {
        b.files@ == files.push(f) && b.dirs@ == dirs
    } else {
        let k = dir_from(dirs, parts[0], 0);
        &&& b.files@ == files
        &&& b.dirs@.len() == (if k < dirs.len() { dirs.len() as int } else { dirs.len() + 1int })
        &&& forall|j: int| 0 <= j < dirs.len() && j != k ==> #[trigger] b.dirs@[j] == dirs[j]
        &&& if k < dirs.len() {
            file_added(dirs[k].name@, dirs[k].files@, dirs[k].dirs@, dirs[k].stats, parts.drop_first(), f, b.dirs@[k])
        } else {
            file_added(parts[0], Seq::empty(), Seq::empty(), no_stats(), parts.drop_first(), f, b.dirs@[k])
        }
    }
}

impl FMDirStats {
    /// Puts the file `f` in the directory the path `parts` leads to from
    /// this one (see [`file_added`]), as the covdir report builds its tree
    /// from the parents of the files.
    pub fn add_file(&mut self, parts: &[String], f: FMFileStats)
        ensures
            file_added(old(self).name@, old(self).files@, old(self).dirs@, old(self).stats,
                parts@.map_values(|s: String| s@), f, *final(self)),
        decreases parts@.len(),
    {
        let ghost d0 = *self;
        let ghost ps = parts@.map_values(|s: String| s@);
        if parts.len() == 0 {
            self.files.push(f);
            return;
        }
        let first = parts[0].as_str();
        assert(first@ == ps[0]);
        let mut k: usize = 0;
        while k < self.dirs.len() && !crate::jacoco::str_eq(self.dirs[k].name.as_str(), first)
            invariant
                k <= self.dirs@.len(),
                self.dirs@ == d0.dirs@,
                first@ == ps[0],
                dir_from(d0.dirs@, ps[0], 0) == dir_from(d0.dirs@, ps[0], k as int),
            decreases self.dirs@.len() - k,
        {
            k += 1;
        }
        assert(dir_from(d0.dirs@, ps[0], 0) == k);
        if k == self.dirs.len() {
            self.dirs.push(FMDirStats::new(parts[0].clone()));
        }
        let ghost mid = self.dirs@;
        proof {
            if k < d0.dirs@.len() {
                assert(mid[k as int] == d0.dirs@[k as int]);
            } else {
                assert(mid[k as int].files@ =~= Seq::<FMFileStats>::empty());
                assert(mid[k as int].dirs@ =~= Seq::<FMDirStats>::empty());
                assert(mid[k as int].name@ == ps[0]);
                assert(mid[k as int].stats == no_stats());
            }
        }
        let mut child = FMDirStats::new(String::new());
        std::mem::swap(&mut child, &mut self.dirs[k]);
        let ghost c0 = child;
        assert(c0 == mid[k as int]);
        let rest = vstd::slice::slice_subrange(parts, 1, parts.len());
        assert(rest@.map_values(|s: String| s@) =~= ps.drop_first());
        child.add_file(rest, f);
        let ghost c1 = child;
        self.dirs.set(k, child);
        assert(self.dirs@[k as int] == c1);
        assert(self.dirs@.len() == mid.len());
        assert forall|j: int| 0 <= j < d0.dirs@.len() && j != k implies #[trigger] self.dirs@[j] == d0.dirs@[j] by {
            assert(mid[j] == d0.dirs@[j]);
        }
    }
}

/// The names under which the directories of a path's components are found in
/// the covdir tree: `/` for the root, its name for each plain component;
/// `None` where another component comes, which has no place in the tree.
pub open spec fn dir_names(ps: Seq<PartView>) -> Option<Seq<Seq<char>>>
    decreases ps.len(),
{
    if ps.len() == 0 {
        Some(Seq::empty())
    } else {
        match dir_names(ps.drop_last()) {
            None => None,
            Some(ns) => match ps.last() {
                PartView::RootDir => Some(ns.push("/"@)),
                PartView::Normal(x) => Some(ns.push(x)),
                _ => None,
            },
        }
    }
}

/// Where a file goes in the covdir tree: the path used is its relative path
/// where that is relative, else its absolute one; the names of the
/// directories of the path's parent (see [`dir_names`]), and the file's own
/// name. `None` for a path that has no place in the tree (a path without a parent or a file
/// name, or with a component other than the root and plain names).
pub fn covdir_place(abs_path: &str, rel_path: &str) -> (r: Option<(Vec<String>, String)>)
    ensures
        ({
            let p = if path_is_relative(rel_path@) { rel_path@ } else { abs_path@ };
            match path_parent(p) {
                None => r is None,
                Some(par) => match (dir_names(path_components(par)), path_file_name(p)) {
                    (Some(ns), Some(name)) => r matches Some((v, n)) && v@.map_values(|s: String| s@) == ns && n@ == name,
                    _ => r is None,
                },
            }
        }),
{
    let path = if is_relative_path(rel_path) { rel_path } else { abs_path };
    let parent = match parent_of(path) {
        Some(q) => q,
        None => return None,
    };
    let parts = components_of(parent.as_str());
    let ghost all = parts_view(parts@);
    let mut names: Vec<String> = Vec::new();
    let mut k: usize = 0;
    while k < parts.len()
        invariant
            k <= parts@.len(),
            all == parts_view(parts@),
            all == path_components(parent@),
            path_parent(path@) == Some(parent@),
            path@ == (if path_is_relative(rel_path@) { rel_path@ } else { abs_path@ }),
            all.len() == parts@.len(),
            dir_names(all.subrange(0, k as int)) == Some(names@.map_values(|s: String| s@)),
        decreases parts@.len() - k,
    {
        assert(all.subrange(0, k + 1).drop_last() =~= all.subrange(0, k as int));
        assert(all[k as int] == parts@[k as int]@);
        let ghost before = names@;
        match &parts[k] {
            PathPart::RootDir => {
                names.push("/".to_string());
                proof { reveal_strlit("/"); }
                assert(names@.map_values(|s: String| s@) =~= before.map_values(|s: String| s@).push("/"@));
            },
            PathPart::Normal(x) => {
                names.push(x.clone());
                assert(names@.map_values(|s: String| s@) =~= before.map_values(|s: String| s@).push(x@));
            },
            _ => {
                assert(dir_names(all.subrange(0, k + 1)) is None);
                proof {
                    lemma_dir_names_none(all, k as int + 1);
                }
                assert(all.subrange(0, all.len() as int) =~= all);
                return None;
            },
        }
        k += 1;
    }
    assert(all.subrange(0, all.len() as int) =~= all);
    match file_name_of(path) {
        Some(n) => Some((names, n)),
        None => None,
    }
}

proof fn lemma_dir_names_none(ps: Seq<PartView>, k: int)
    requires
        0 <= k <= ps.len(),
        dir_names(ps.subrange(0, k)) is None,
    ensures
        dir_names(ps) is None,
    decreases ps.len() - k,
{
    if k < ps.len() {
        assert(ps.subrange(0, k + 1).drop_last() =~= ps.subrange(0, k));
        lemma_dir_names_none(ps, k + 1);
    } else {
        assert(ps.subrange(0, k) =~= ps);
    }
}

/// The share covered is at most a hundred percent where no more lines are
/// covered than there are.
pub proof fn law_percent_at_most_whole(x: nat, y: nat)
    requires
        x <= y,
    ensures
        hundredths(x, y) <= 10000,
{
    if y > 0 {
        assert((20000 * x + y) / (2 * y) <= 10000) by (nonlinear_arith)
            requires
                x <= y,
                y > 0,
        ;
    }
}

/// In the counts of a coverage list, covered lines are among the lines.
pub proof fn law_covered_among_lines(c: Seq<i64>)
    ensures
        counted(c).1 <= counted(c).0 <= c.len(),
{
    lemma_counted_bound(c);
}

}
