use vstd::prelude::*;
use std::collections::BTreeMap;
use crate::cobertura::{file_stem_of, path_file_stem};
use crate::counts::{lines_counted, lines_countable};
use crate::graph::{FunView, GcovFunction, graph_wf};
use crate::reader::{Gcno, gcno_wf, functions_view};
use crate::results::{add_fun_lines, add_lines, as_ran, lines_overflow};
use crate::text::{chars_of, decimal, opt_string_view, push_char, push_decimal};

verus! {

/// The line counts of the functions of `fs[..n]` in the file `file`, summed
/// whether the functions ran or not; `None` where a sum overflows.
pub open spec fn file_counts(fs: Seq<FunView>, n: int, file: Seq<char>) -> Option<Map<u32, u64>>
    decreases n,
{
    if n <= 0 {
        Some(Map::empty())
    } else {
        match file_counts(fs, n - 1, file) {
            None => None,
            Some(m) => if fs[n - 1].file_name != file {
                Some(m)
            } else if lines_overflow(m, as_ran(fs[n - 1], true)) {
                None
            } else {
                Some(add_fun_lines(m, as_ran(fs[n - 1], true)))
            },
        }
    }
}

/// Whether the summed line counts of every file of the functions fit.
pub open spec fn counts_fit(fs: Seq<FunView>) -> bool {
    forall|i: int| 0 <= i < fs.len() ==> #[trigger] file_counts(fs, fs.len() as int, fs[i].file_name) is Some
}

/// The pieces of a text cut at each `\n`.
pub open spec fn split_nl(s: Seq<char>) -> Seq<Seq<char>>
    decreases s.len(),
{
    if s.len() == 0 {
        seq![Seq::empty()]
    } else {
        let p = split_nl(s.drop_last());
        if s.last() == '\n' {
            p.push(Seq::empty())
        } else {
            p.update(p.len() - 1, p.last().push(s.last()))
        }
    }
}

/// The lines of a source text: its pieces cut at `\n`, but for a last one
/// that is empty.
pub open spec fn source_lines(s: Seq<char>) -> Seq<Seq<char>> {
    let p = split_nl(s);
    if p.last().len() == 0 { p.drop_last() } else { p }
}

/// A text right-aligned in `w` characters: spaces before it where it is
/// shorter.
pub open spec fn pad(s: Seq<char>, w: nat) -> Seq<char> {
    if s.len() >= w { s } else { Seq::new((w - s.len()) as nat, |i: int| ' ') + s }
}

/// The line of a dump for source line `n` with text `line`: its count
/// (`#####` for a count of zero, `-` for a line without one) in nine
/// characters, its number in five, and its text.
pub open spec fn dump_line(counts: Map<u32, u64>, n: u32, line: Seq<char>) -> Seq<char> {
    let c = if counts.contains_key(n) {
        if counts[n] == 0 { "#####"@ } else { decimal(counts[n] as nat) }
    } else {
        "-"@
    };
    pad(c, 9) + ":"@ + pad(decimal(n as nat), 5) + ":"@ + line + "\n"@
}

/// The lines of a dump for the first `k` source lines, numbered from 1.
pub open spec fn dump_body(lines: Seq<Seq<char>>, counts: Map<u32, u64>, k: int) -> Seq<char>
    decreases k,
{
    if k <= 0 { Seq::empty() } else { dump_body(lines, counts, k - 1) + dump_line(counts, k as u32, lines[k - 1]) }
}

/// The head of a dump: the source, graph and data files, the runs, and
/// whether there was a run.
pub open spec fn dump_head(file: Seq<char>, stem: Seq<char>, runs: u32) -> Seq<char> {
    "        -:    0:Source:"@ + file + "\n"@
        + "        -:    0:Graph:"@ + stem + ".gcno\n"@
        + (if runs != 0 { "        -:    0:Data:"@ + stem + ".gcda\n"@ } else { "        -:    0:Data:-\n"@ })
        + "        -:    0:Runs:"@ + decimal(runs as nat) + "\n"@
        + "        -:    0:Programs:"@ + (if runs != 0 { "1"@ } else { "0"@ }) + "\n"@
}

/// The dump of the source `source` of the file `file` with the line counts
/// of the functions `fs`: `None` where a sum of counts overflows, where no
/// function is in the file, or where the file's name has no stem.
pub open spec fn dumped(fs: Seq<FunView>, file: Seq<char>, source: Seq<char>, runs: u32) -> Option<Seq<char>> {
    if !counts_fit(fs) || !(exists|i: int| 0 <= i < fs.len() && #[trigger] fs[i].file_name == file) {
        None
    } else {
        match path_file_stem(file) {
            None => None,
            Some(stem) => Some(dump_head(file, stem, runs)
                + dump_body(source_lines(source), file_counts(fs, fs.len() as int, file)->0, source_lines(source).len() as int)),
        }
    }
}

/// Sums the line counts of the functions in the file `file`.
fn file_counts_of(fs: &Vec<GcovFunction>, file: &String) -> (r: Option<BTreeMap<u32, u64>>)
    ensures
        match file_counts(functions_view(fs@), fs@.len() as int, file@) {
            Some(m) => r matches Some(x) && x@ == m,
            None => r is None,
        },
{
    let ghost fv = functions_view(fs@);
    let mut m: BTreeMap<u32, u64> = BTreeMap::new();
    let mut j: usize = 0;
    while j < fs.len()
        invariant
            j <= fs@.len(),
            fv == functions_view(fs@),
            file_counts(fv, j as int, file@) == Some(m@),
        decreases fs@.len() - j,
    {
        assert(fs@[j as int]@ == fv[j as int]);
        if fs[j].file_name == *file {
            if !add_lines(&mut m, &fs[j], true) {
                proof { lemma_file_counts_none(fv, j as int + 1, fs@.len() as int, file@); }
                return None;
            }
        }
        j += 1;
    }
    Some(m)
}

proof fn lemma_file_counts_none(fs: Seq<FunView>, j: int, n: int, file: Seq<char>)
    requires
        1 <= j <= n,
        file_counts(fs, j, file) is None,
    ensures
        file_counts(fs, n, file) is None,
    decreases n - j,
{
    if j < n {
        lemma_file_counts_none(fs, j + 1, n, file);
    }
}

proof fn lemma_split_nonempty(s: Seq<char>)
    ensures
        split_nl(s).len() >= 1,
    decreases s.len(),
{
    if s.len() > 0 {
        lemma_split_nonempty(s.drop_last());
    }
}

/// The pieces of a prefix are no more than those of the whole text.
proof fn lemma_split_prefix_len(s: Seq<char>, k: int)
    requires
        0 <= k <= s.len(),
    ensures
        split_nl(s.take(k)).len() <= split_nl(s).len(),
    decreases s.len() - k,
{
    if k < s.len() {
        lemma_split_prefix_len(s, k + 1);
        assert(s.take(k + 1).drop_last() =~= s.take(k));
        lemma_split_nonempty(s.take(k));
    } else {
        assert(s.take(k) =~= s);
    }
}

/// The first `k` lines of a dump depend only on the first `k` source lines.
proof fn lemma_dump_body_prefix(a: Seq<Seq<char>>, b: Seq<Seq<char>>, counts: Map<u32, u64>, k: int)
    requires
        0 <= k <= a.len(),
        k <= b.len(),
        a.take(k) == b.take(k),
    ensures
        dump_body(a, counts, k) == dump_body(b, counts, k),
    decreases k,
{
    if k > 0 {
        assert(a.take(k - 1) =~= a.take(k).take(k - 1));
        assert(b.take(k - 1) =~= b.take(k).take(k - 1));
        assert(a[k - 1] == a.take(k)[k - 1]);
        assert(b[k - 1] == b.take(k)[k - 1]);
        lemma_dump_body_prefix(a, b, counts, k - 1);
    }
}

/// Appends the characters of a text.
fn push_text(out: &mut String, t: &str)
    ensures
        final(out)@ == old(out)@ + t@,
{
    let cs = chars_of(t);
    let mut i: usize = 0;
    while i < cs.len()
        invariant
            i <= cs@.len(),
            cs@ == t@,
            out@ == old(out)@ + t@.take(i as int),
        decreases cs@.len() - i,
    {
        push_char(out, cs[i]);
        assert(t@.take(i + 1) =~= t@.take(i as int).push(cs@[i as int]));
        i += 1;
    }
    assert(t@.take(cs@.len() as int) =~= t@);
}

/// Appends a text right-aligned in `w` characters.
fn push_padded(out: &mut String, t: &str, w: usize)
    ensures
        final(out)@ == old(out)@ + pad(t@, w as nat),
{
    let n = chars_of(t).len();
    let ghost o = out@;
    if n < w {
        let mut k: usize = 0;
        while k < w - n
            invariant
                k <= w - n,
                out@ == o + Seq::new(k as nat, |i: int| ' '),
            decreases w - n - k,
        {
            push_char(out, ' ');
            assert(Seq::new((k + 1) as nat, |i: int| ' ') =~= Seq::new(k as nat, |i: int| ' ').push(' '));
            k += 1;
        }
    }
    push_text(out, t);
    assert(out@ =~= o + pad(t@, w as nat));
}

/// Appends the line of a dump for source line `n`.
fn push_dump_line(out: &mut String, counts: &BTreeMap<u32, u64>, n: u32, line: &str)
    ensures
        final(out)@ == old(out)@ + dump_line(counts@, n, line@),
{
    let ghost o = out@;
    match counts.get(&n) {
        Some(c) => {
            if *c == 0 {
                push_padded(out, "#####", 9);
            } else {
                let mut d = String::new();
                push_decimal(&mut d, *c);
                assert(d@ =~= decimal(*c as nat));
                push_padded(out, d.as_str(), 9);
            }
        },
        None => {
            push_padded(out, "-", 9);
        },
    }
    push_text(out, ":");
    let mut d = String::new();
    push_decimal(&mut d, n as u64);
    assert(d@ =~= decimal(n as nat));
    push_padded(out, d.as_str(), 5);
    push_text(out, ":");
    push_text(out, line);
    push_text(out, "\n");
    assert(out@ =~= o + dump_line(counts@, n, line@));
}

/// Counts the lines of each function, as [`Gcno::finalize`] does first;
/// `false` where those of one cannot be counted.
fn count_all_lines(g: &mut Gcno) -> (ok: bool)
    requires
        gcno_wf(old(g)@),
    ensures
        ok == (forall|i: int| 0 <= i < old(g)@.functions.len() ==> #[trigger] lines_countable(old(g)@.functions[i])),
        ok ==> final(g)@.functions.len() == old(g)@.functions.len(),
        ok ==> forall|i: int| 0 <= i < final(g)@.functions.len() ==> lines_counted(#[trigger] old(g)@.functions[i], final(g)@.functions[i]),
        final(g)@.runcounts == old(g)@.runcounts,
{
    let ghost g0 = g@;
    let n = g.functions.len();
    let mut i: usize = 0;
    while i < n
        invariant
            i <= n,
            n == g.functions@.len(),
            n == g0.functions.len(),
            forall|k: int| 0 <= k < i ==> lines_counted(#[trigger] g0.functions[k], g@.functions[k]),
            forall|k: int| 0 <= k < i ==> #[trigger] lines_countable(g0.functions[k]),
            forall|k: int| 0 <= k < n ==> graph_wf(#[trigger] g@.functions[k]),
            forall|k: int| i <= k < n ==> #[trigger] g@.functions[k] == g0.functions[k],
            g0 == old(g)@,
            g@.runcounts == g0.runcounts,
        decreases n - i,
    {
        let ghost before = g@.functions;
        assert(g.functions@[i as int]@ == before[i as int]);
        assert(graph_wf(before[i as int]));
        let ok = g.functions[i].add_line_count();
        if !ok {
            assert(!lines_countable(g0.functions[i as int]));
            return false;
        }
        assert(g@.functions =~= before.update(i as int, g.functions@[i as int]@));
        assert(forall|k: int| 0 <= k < n && k != i ==> #[trigger] g@.functions[k] == before[k]);
        i += 1;
    }
    true
}

/// The summed line counts of the file `file`, where the sums of every file
/// fit and some function is in `file`; `None` otherwise.
fn checked_counts(fs: &Vec<GcovFunction>, file: &String) -> (r: Option<BTreeMap<u32, u64>>)
    ensures
        r is Some <==> (counts_fit(functions_view(fs@))
            && exists|i: int| 0 <= i < fs@.len() && #[trigger] functions_view(fs@)[i].file_name == file@),
        r matches Some(m) ==> file_counts(functions_view(fs@), fs@.len() as int, file@) == Some(m@),
{
    let ghost fv = functions_view(fs@);
    let ghost all = fs@.len() as int;
    let n = fs.len();
    let mut i: usize = 0;
    let mut found = false;
    while i < n
        invariant
            i <= n,
            n == fs@.len(),
            fv == functions_view(fs@),
            all == fs@.len(),
            forall|k: int| 0 <= k < i ==> #[trigger] file_counts(fv, all, fv[k].file_name) is Some,
            found <==> exists|k: int| 0 <= k < i && #[trigger] fv[k].file_name == file@,
        decreases n - i,
    {
        assert(fs@[i as int]@ == fv[i as int]);
        let c = file_counts_of(fs, &fs[i].file_name);
        if c.is_none() {
            assert(file_counts(fv, all, fv[i as int].file_name) is None);
            assert(!counts_fit(fv));
            return None;
        }
        if fs[i].file_name == *file {
            found = true;
            assert(fv[i as int].file_name == file@);
        }
        assert(forall|k: int| 0 <= k < i + 1 ==> #[trigger] file_counts(fv, all, fv[k].file_name) is Some) by {
            assert forall|k: int| 0 <= k < i + 1 implies #[trigger] file_counts(fv, all, fv[k].file_name) is Some by {
                if k == i {
                } else {
                    assert(0 <= k < i);
                }
            }
        }
        assert(found <==> exists|k: int| 0 <= k < i + 1 && #[trigger] fv[k].file_name == file@) by {
            if exists|k: int| 0 <= k < i + 1 && #[trigger] fv[k].file_name == file@ {
                let k = choose|k: int| 0 <= k < i + 1 && #[trigger] fv[k].file_name == file@;
                if k < i {
                    assert(exists|k: int| 0 <= k < i && #[trigger] fv[k].file_name == file@);
                }
            }
        }
        i += 1;
    }
    if !found {
        return None;
    }
    file_counts_of(fs, file)
}

/// The text of a dump (see [`dump_head`] and [`dump_body`]).
fn dump_text(counts: &BTreeMap<u32, u64>, file_name: &str, stem: &str, runs: u32, source: &str) -> (out: String)
    requires
        source_lines(source@).len() <= u32::MAX,
    ensures
        out@ == dump_head(file_name@, stem@, runs) + dump_body(source_lines(source@), counts@, source_lines(source@).len() as int),
{
    let mut out = String::new();
    push_text(&mut out, "        -:    0:Source:");
    push_text(&mut out, file_name);
    push_text(&mut out, "\n");
    push_text(&mut out, "        -:    0:Graph:");
    push_text(&mut out, stem);
    push_text(&mut out, ".gcno\n");
    if runs != 0 {
        push_text(&mut out, "        -:    0:Data:");
        push_text(&mut out, stem);
        push_text(&mut out, ".gcda\n");
    } else {
        push_text(&mut out, "        -:    0:Data:-\n");
    }
    push_text(&mut out, "        -:    0:Runs:");
    push_decimal(&mut out, runs as u64);
    push_text(&mut out, "\n");
    push_text(&mut out, "        -:    0:Programs:");
    if runs != 0 {
        push_text(&mut out, "1");
    } else {
        push_text(&mut out, "0");
    }
    push_text(&mut out, "\n");
    assert(out@ =~= dump_head(file_name@, stem@, runs));
    let ghost head = out@;
    let ghost lines = source_lines(source@);
    let ghost whole = split_nl(source@);
    let ghost cm = counts@;
    let cs = chars_of(source);
    let mut cur = String::new();
    let mut curn: usize = 0;
    let mut no: u32 = 0;
    let mut k: usize = 0;
    proof {
        lemma_split_nonempty(source@);
        assert(source@.take(0) =~= Seq::<char>::empty());
        assert(split_nl(source@.take(0)) =~= seq![Seq::<char>::empty()]);
        assert(cur@ =~= Seq::<char>::empty());
    }
    while k < cs.len()
        invariant
            k <= cs@.len(),
            cs@ == source@,
            lines == source_lines(source@),
            whole == split_nl(source@),
            lines.len() <= u32::MAX,
            cm == counts@,
            curn == cur@.len(),
            curn <= k,
            split_nl(source@.take(k as int)).len() == no + 1,
            split_nl(source@.take(k as int)).last() == cur@,
            out@ == head + dump_body(split_nl(source@.take(k as int)), cm, no as int),
        decreases cs@.len() - k,
    {
        let ghost pk = split_nl(source@.take(k as int));
        let c = cs[k];
        proof {
            assert(source@.take(k + 1).drop_last() =~= source@.take(k as int));
            assert(source@.take(k + 1).last() == c);
            lemma_split_prefix_len(source@, k as int + 1);
            lemma_split_nonempty(source@.take(k + 1));
        }
        if c == '\n' {
            let ghost p1 = pk.push(Seq::<char>::empty());
            proof {
                assert(pk.take(no as int) =~= p1.take(no as int));
                lemma_dump_body_prefix(pk, p1, cm, no as int);
            }
            push_dump_line(&mut out, &counts, no + 1, cur.as_str());
            proof {
                assert(p1[no as int] == cur@);
            }
            no = no + 1;
            cur = String::new();
            curn = 0;
            assert(cur@ =~= Seq::<char>::empty());
        } else {
            let ghost p1 = pk.update(pk.len() - 1, pk.last().push(c));
            proof {
                assert(pk.take(no as int) =~= p1.take(no as int));
                lemma_dump_body_prefix(pk, p1, cm, no as int);
            }
            push_char(&mut cur, c);
            curn = curn + 1;
        }
        k += 1;
    }
    proof {
        assert(source@.take(cs@.len() as int) =~= source@);
    }
    if curn == 0 {
        proof {
            assert(whole.take(no as int) =~= lines.take(no as int));
            lemma_dump_body_prefix(whole, lines, cm, no as int);
        }
    } else {
        push_dump_line(&mut out, &counts, no + 1, cur.as_str());
        proof {
            assert(whole =~= lines);
        }
    }
    out
}

impl Gcno {
    /// Counts the lines of every function, then dumps the source `source`
    /// of the file `file_name` with the summed line counts of its functions
    /// (see [`dumped`]). `None` where the lines of a function cannot be
    /// counted, and where [`dumped`] is `None`.
    pub fn dump(&mut self, file_name: &str, source: &str) -> (r: Option<String>)
        requires
            gcno_wf(old(self)@),
            source_lines(source@).len() <= u32::MAX,
        ensures
            (forall|i: int| 0 <= i < old(self)@.functions.len()
                ==> #[trigger] lines_countable(old(self)@.functions[i])) ==> ({
                let fs = final(self)@.functions;
                &&& fs.len() == old(self)@.functions.len()
                &&& forall|i: int| 0 <= i < fs.len() ==> lines_counted(#[trigger] old(self)@.functions[i], fs[i])
                &&& opt_string_view(r) == dumped(fs, file_name@, source@, old(self)@.runcounts)
            }),
            !(forall|i: int| 0 <= i < old(self)@.functions.len()
                ==> #[trigger] lines_countable(old(self)@.functions[i])) ==> r is None,
    {
        if !count_all_lines(self) {
            return None;
        }
        let file = file_name.to_string();
        let counts = match checked_counts(&self.functions, &file) {
            Some(c) => c,
            None => return None,
        };
        let stem = match file_stem_of(file_name) {
            Some(s) => s,
            None => return None,
        };
        Some(dump_text(&counts, file_name, stem.as_str(), self.runcounts, source))
    }
}

}
