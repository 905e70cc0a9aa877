use vstd::prelude::*;
use vstd::string::StringExecFns;
use crate::text::{chars_of, push_char};
use crate::gcov::str_same;
use crate::paths::{join_paths, path_join};

verus! {

/// Whether a character is white space: it has Unicode's White_Space
/// property.
pub open spec fn white_space(c: char) -> bool {
    let n = c as u32;
    ||| (0x9 <= n && n <= 0xD)
    ||| n == 0x20
    ||| n == 0x85
    ||| n == 0xA0
    ||| n == 0x1680
    ||| (0x2000 <= n && n <= 0x200A)
    ||| n == 0x2028
    ||| n == 0x2029
    ||| n == 0x202F
    ||| n == 0x205F
    ||| n == 0x3000
}

/// Whether a character is white space (see [`white_space`]).
pub fn is_white_space(c: char) -> (b: bool)
    ensures
        b == white_space(c),
{
    let n = c as u32;
    (0x9 <= n && n <= 0xD) || n == 0x20 || n == 0x85 || n == 0xA0 || n == 0x1680
        || (0x2000 <= n && n <= 0x200A) || n == 0x2028 || n == 0x2029 || n == 0x202F
        || n == 0x205F || n == 0x3000
}

/// The words of a text: its maximal runs of characters that are not white
/// space, in order.
pub open spec fn words(s: Seq<char>) -> Seq<Seq<char>>
    decreases s.len(),
{
    if s.len() == 0 {
        Seq::empty()
    } else {
        let w = words(s.drop_last());
        let c = s.last();
        if white_space(c) {
            w
        } else if s.len() > 1 && !white_space(s[s.len() - 2]) {
            w.update(w.len() - 1, w.last().push(c))
        } else {
            w.push(seq![c])
        }
    }
}

/// Strings as spec values.
pub open spec fn texts(v: Seq<String>) -> Seq<Seq<char>> {
    v.map_values(|f: String| f@)
}

/// Splits compiler flags at white space.
pub fn parse_flags(flags: &str) -> (r: Vec<String>)
    ensures
        texts(r@) == words(flags@),
{
    let cs = chars_of(flags);
    let mut out: Vec<String> = Vec::new();
    let mut cur = String::new();
    let mut open = false;
    let mut k: usize = 0;
    while k < cs.len()
        invariant
            k <= cs@.len(),
            cs@ == flags@,
            !open ==> cur@ == Seq::<char>::empty() && texts(out@) == words(cs@.subrange(0, k as int))
                && (k == 0 || white_space(cs@[k - 1])),
            open ==> k > 0 && !white_space(cs@[k - 1])
                && words(cs@.subrange(0, k as int)) == texts(out@).push(cur@),
        decreases cs@.len() - k,
    {
        let c = cs[k];
        let ghost pre = cs@.subrange(0, k as int);
        let ghost now = cs@.subrange(0, k + 1);
        assert(now.drop_last() =~= pre);
        assert(now.last() == c);
        assert(k > 0 ==> now[now.len() - 2] == cs@[k - 1]);
        if is_white_space(c) {
            if open {
                let ghost o = out@;
                out.push(cur);
                assert(texts(out@) =~= texts(o).push(out@.last()@));
                cur = String::new();
                open = false;
            }
        } else {
            let ghost before = cur@;
            push_char(&mut cur, c);
            if open {
                assert(texts(out@).push(before).update(texts(out@).len() as int, before.push(c)) =~= texts(out@).push(cur@));
            } else {
                assert(cur@ =~= seq![c]);
            }
            open = true;
        }
        k += 1;
    }
    assert(cs@.subrange(0, cs@.len() as int) =~= cs@);
    if open {
        let ghost o = out@;
        out.push(cur);
        assert(texts(out@) =~= texts(o).push(out@.last()@));
    }
    out
}


/// Whether a text starts with another.
pub fn starts_with_text(s: &str, p: &str) -> (b: bool)
    ensures
        b == p@.is_prefix_of(s@),
{
    let x = chars_of(s);
    let y = chars_of(p);
    if y.len() > x.len() {
        return false;
    }
    let mut k: usize = 0;
    while k < y.len()
        invariant
            x@ == s@,
            y@ == p@,
            y@.len() <= x@.len(),
            k <= y@.len(),
            forall|j: int| 0 <= j < k ==> x@[j] == y@[j],
        decreases y@.len() - k,
    {
        if x[k] != y[k] {
            assert(x@.subrange(0, y@.len() as int)[k as int] != y@[k as int]);
            return false;
        }
        k += 1;
    }
    assert(y@ =~= x@.subrange(0, y@.len() as int));
    true
}

/// A flag with its value: `key=value`, or the key alone.
pub open spec fn flag_entry(key: Seq<char>, value: Option<Seq<char>>) -> Seq<char> {
    match value {
        Some(v) => key + "="@ + v,
        None => key,
    }
}

/// Whether `i` is the first flag that starts with `key`.
pub open spec fn first_with_key(fs: Seq<Seq<char>>, key: Seq<char>, i: int) -> bool {
    &&& 0 <= i < fs.len()
    &&& key.is_prefix_of(fs[i])
    &&& forall|j: int| 0 <= j < i ==> !key.is_prefix_of(#[trigger] fs[j])
}

/// Flags with one set: the first flag that starts with the key is
/// replaced by the key and its value, where a value is given, and kept
/// where none is; where no flag starts with it, the key (and value) is
/// added at the end.
pub open spec fn flag_added(fs: Seq<Seq<char>>, key: Seq<char>, value: Option<Seq<char>>) -> Seq<Seq<char>> {
    if exists|i: int| first_with_key(fs, key, i) {
        let i = choose|i: int| first_with_key(fs, key, i);
        if value is Some { fs.update(i, flag_entry(key, value)) } else { fs }
    } else {
        fs.push(flag_entry(key, value))
    }
}

/// A text as a spec value, where there is one.
pub open spec fn opt_text(o: Option<&str>) -> Option<Seq<char>> {
    match o {
        Some(v) => Some(v@),
        None => None,
    }
}

/// Sets a flag (see [`flag_added`]).
pub fn add_flag(flags: &mut Vec<String>, key: &str, value: Option<&str>)
    ensures
        texts(final(flags)@) == flag_added(texts(old(flags)@), key@, opt_text(value)),
{
    let ghost fs = texts(flags@);
    let mut entry = key.to_string();
    match value {
        Some(v) => {
            entry.append("=");
            entry.append(v);
        }
        None => {}
    }
    assert(entry@ == flag_entry(key@, opt_text(value)));
    let mut k: usize = 0;
    while k < flags.len()
        invariant
            k <= flags@.len(),
            texts(flags@) == fs,
            fs == texts(old(flags)@),
            entry@ == flag_entry(key@, opt_text(value)),
            forall|j: int| 0 <= j < k ==> !key@.is_prefix_of(#[trigger] fs[j]),
        decreases flags@.len() - k,
    {
        if starts_with_text(flags[k].as_str(), key) {
            assert(first_with_key(fs, key@, k as int));
            assert forall|i: int| first_with_key(fs, key@, i) implies i == k by {
                if i < k {
                    assert(!key@.is_prefix_of(fs[i]));
                } else if i > k {
                    assert(!key@.is_prefix_of(fs[k as int]));
                }
            }
            assert((choose|i: int| first_with_key(fs, key@, i)) == k);
            if value.is_some() {
                flags.set(k, entry);
                assert(texts(flags@) =~= fs.update(k as int, flag_entry(key@, opt_text(value))));
            }
            return;
        }
        k += 1;
    }
    assert(!exists|i: int| first_with_key(fs, key@, i)) by {
        assert forall|i: int| !first_with_key(fs, key@, i) by {
            if 0 <= i < fs.len() {
                assert(!key@.is_prefix_of(fs[i]));
            }
        }
    }
    let ghost o = flags@;
    flags.push(entry);
    assert(texts(flags@) =~= texts(o).push(flag_entry(key@, opt_text(value))));
}


/// The flags of the compiler for coverage: those given, with profiling on,
/// one codegen unit, no optimisation, dead code linked and overflow checks
/// off.
pub open spec fn coverage_flag_list(rustflags: Seq<char>) -> Seq<Seq<char>> {
    let f0 = words(rustflags);
    let f1 = flag_added(f0, "-Zprofile"@, None);
    let f2 = flag_added(f1, "-Ccodegen-units"@, Some("1"@));
    let f3 = flag_added(f2, "-Copt-level"@, Some("0"@));
    let f4 = flag_added(f3, "-Clink-dead-code"@, None);
    flag_added(f4, "-Coverflow-checks"@, Some("off"@))
}

/// Flags as one text, each followed by a space.
pub open spec fn spaced(fs: Seq<Seq<char>>) -> Seq<char>
    decreases fs.len(),
{
    if fs.len() == 0 { Seq::empty() } else { spaced(fs.drop_last()) + fs.last() + " "@ }
}

/// The `RUSTFLAGS` of a coverage build, from those already set (see
/// [`coverage_flag_list`]).
pub fn coverage_rustflags(rustflags: &str) -> (r: String)
    ensures
        r@ == spaced(coverage_flag_list(rustflags@)),
{
    let mut flags = parse_flags(rustflags);
    add_flag(&mut flags, "-Zprofile", None);
    add_flag(&mut flags, "-Ccodegen-units", Some("1"));
    add_flag(&mut flags, "-Copt-level", Some("0"));
    add_flag(&mut flags, "-Clink-dead-code", None);
    add_flag(&mut flags, "-Coverflow-checks", Some("off"));
    let ghost fs = texts(flags@);
    let mut out = String::new();
    let mut k: usize = 0;
    while k < flags.len()
        invariant
            k <= flags@.len(),
            fs == texts(flags@),
            out@ == spaced(fs.subrange(0, k as int)),
        decreases flags@.len() - k,
    {
        assert(fs.subrange(0, k + 1).drop_last() =~= fs.subrange(0, k as int));
        out.append(flags[k].as_str());
        out.append(" ");
        k += 1;
    }
    assert(fs.subrange(0, fs.len() as int) =~= fs);
    out
}

/// The target directory of a coverage build: `coverage` under the target
/// directory that is set, or under `target`.
pub open spec fn coverage_target_dir(cargo_target_dir: Option<Seq<char>>) -> Seq<char> {
    match cargo_target_dir {
        Some(d) => path_join(d, "coverage"@),
        None => path_join("target"@, "coverage"@),
    }
}

/// The target directory of a coverage build (see [`coverage_target_dir`]).
pub fn get_target_dir(cargo_target_dir: Option<&str>) -> (r: String)
    ensures
        r@ == coverage_target_dir(opt_text(cargo_target_dir)),
{
    match cargo_target_dir {
        Some(d) => join_paths(d, "coverage"),
        None => join_paths("target", "coverage"),
    }
}

/// Where the raw profiles go: the directory that is set, else the
/// profile's directory under the target directory.
pub fn profdata_dir(llvm_profdata_dir: Option<&str>, target_dir: &str, profile: &str) -> (r: String)
    ensures
        r@ == (match llvm_profdata_dir {
            Some(d) => d@,
            None => path_join(target_dir@, profile@),
        }),
{
    match llvm_profdata_dir {
        Some(d) => d.to_string(),
        None => join_paths(target_dir, profile),
    }
}

/// The environment of a coverage build: its `RUSTFLAGS` (see
/// [`coverage_rustflags`]), no incremental build, the target directory,
/// `-Cpanic=abort` for doctests, and the raw profile file in the profile
/// directory.
pub fn get_coverage_env_vars(rustflags: Option<&str>, target_dir: &str, prof_data_dir: &str) -> (r: Vec<(String, String)>)
    ensures
        r@.len() == 5,
        r@[0].0@ == "RUSTFLAGS"@,
        r@[0].1@ == spaced(coverage_flag_list(match rustflags { Some(f) => f@, None => Seq::empty() })),
        r@[1].0@ == "CARGO_INCREMENTAL"@,
        r@[1].1@ == "0"@,
        r@[2].0@ == "CARGO_TARGET_DIR"@,
        r@[2].1@ == target_dir@,
        r@[3].0@ == "RUSTDOCFLAGS"@,
        r@[3].1@ == "-Cpanic=abort"@,
        r@[4].0@ == "LLVM_PROFILE_FILE"@,
        r@[4].1@ == path_join(prof_data_dir@, "default.profraw"@),
{
    let flags = match rustflags {
        Some(f) => coverage_rustflags(f),
        None => coverage_rustflags(""),
    };
    proof {
        reveal_strlit("");
    }
    let mut r: Vec<(String, String)> = Vec::new();
    r.push(("RUSTFLAGS".to_string(), flags));
    r.push(("CARGO_INCREMENTAL".to_string(), "0".to_string()));
    r.push(("CARGO_TARGET_DIR".to_string(), target_dir.to_string()));
    r.push(("RUSTDOCFLAGS".to_string(), "-Cpanic=abort".to_string()));
    r.push(("LLVM_PROFILE_FILE".to_string(), join_paths(prof_data_dir, "default.profraw")));
    r
}

/// Whether the arguments ask for a release build.
pub fn is_release(args: &Vec<String>) -> (b: bool)
    ensures
        b == texts(args@).contains("--release"@),
{
    let mut k: usize = 0;
    while k < args.len()
        invariant
            k <= args@.len(),
            forall|j: int| 0 <= j < k ==> texts(args@)[j] != "--release"@,
        decreases args@.len() - k,
    {
        if str_same(args[k].as_str(), "--release") {
            assert(texts(args@)[k as int] == "--release"@);
            return true;
        }
        k += 1;
    }
    false
}

/// The profile of a build: release or debug.
pub fn profile_name(release: bool) -> (r: &'static str)
    ensures
        r@ == (if release { "release"@ } else { "debug"@ }),
{
    if release { "release" } else { "debug" }
}

/// What the cargo subcommand was asked to do.
pub enum CargoCommand {
    /// Set up the environment and run a command (by default `cargo test`).
    Env(Option<Vec<String>>),
    /// Build with `cargo build` and the arguments given.
    Build(Option<Vec<String>>),
    /// Test with `cargo test` and the arguments given.
    Test(Option<Vec<String>>),
    /// Make a report, running the tests first where needed.
    Report { test_cmd: Option<Vec<String>>, output_type: Option<String>, release: Option<bool> },
}

/// A task to run: a command in the coverage environment, or a report on a
/// profile directory.
pub enum CargoAction {
    SetupEnv(Vec<String>),
    Report { path: String, output_type: String },
}

/// Strings made from literals.
fn strings(a: &str, b: &str) -> (r: Vec<String>)
    ensures
        texts(r@) == seq![a@, b@],
{
    let mut r: Vec<String> = Vec::new();
    r.push(a.to_string());
    r.push(b.to_string());
    assert(texts(r@) =~= seq![a@, b@]);
    r
}

/// `cargo` and a subcommand before the arguments given.
fn cargo_command(sub: &str, args: Option<Vec<String>>) -> (r: Vec<String>)
    ensures
        texts(r@) == seq!["cargo"@, sub@] + match args { Some(a) => texts(a@), None => Seq::empty() },
{
    let mut r = strings("cargo", sub);
    match args {
        Some(a) => {
            let ghost r0 = texts(r@);
            let mut k: usize = 0;
            while k < a.len()
                invariant
                    k <= a@.len(),
                    r0 == seq!["cargo"@, sub@],
                    texts(r@) == r0 + texts(a@).subrange(0, k as int),
                decreases a@.len() - k,
            {
                let ghost before = texts(r@);
                let item = a[k].as_str().to_string();
                assert(item@ == texts(a@)[k as int]);
                r.push(item);
                assert(texts(r@) =~= before.push(texts(a@)[k as int]));
                assert(texts(a@).subrange(0, k + 1) =~= texts(a@).subrange(0, k as int).push(texts(a@)[k as int]));
                assert(texts(r@) =~= r0 + texts(a@).subrange(0, k + 1));
                k += 1;
            }
            assert(texts(a@).subrange(0, a@.len() as int) =~= texts(a@));
        }
        None => {
            assert(texts(r@) =~= seq!["cargo"@, sub@] + Seq::<Seq<char>>::empty());
        }
    }
    r
}

/// An action as a spec value.
pub enum ActionView {
    SetupEnv(Seq<Seq<char>>),
    Report(Seq<char>, Seq<char>),
}

impl View for CargoAction {
    type V = ActionView;

    open spec fn view(&self) -> ActionView {
        match self {
            CargoAction::SetupEnv(c) => ActionView::SetupEnv(texts(c@)),
            CargoAction::Report { path, output_type } => ActionView::Report(path@, output_type@),
        }
    }
}

/// Arguments as spec values; none where none are given.
pub open spec fn args_or_none(c: Option<Vec<String>>) -> Seq<Seq<char>> {
    match c {
        Some(a) => texts(a@),
        None => Seq::empty(),
    }
}

/// The actions a command asks for (see [`plan_actions`]).
pub open spec fn planned(cmd: CargoCommand, profile_dir: Seq<char>, profraw_found: bool) -> Seq<ActionView> {
    match cmd {
        CargoCommand::Env(c) => seq![ActionView::SetupEnv(match c {
            Some(a) => texts(a@),
            None => seq!["cargo"@, "test"@],
        })],
        CargoCommand::Build(c) => seq![ActionView::SetupEnv(seq!["cargo"@, "build"@] + args_or_none(c))],
        CargoCommand::Test(c) => seq![ActionView::SetupEnv(seq!["cargo"@, "test"@] + args_or_none(c))],
        CargoCommand::Report { test_cmd, output_type, release } => {
            let report = ActionView::Report(profile_dir, match output_type {
                Some(o) => o@,
                None => "html"@,
            });
            match test_cmd {
                Some(c) => seq![ActionView::SetupEnv(texts(c@)), report],
                None => if profraw_found {
                    seq![report]
                } else {
                    seq![ActionView::SetupEnv(seq!["cargo"@, "test"@]
                        + (if release == Some(true) { seq!["--release"@] } else { Seq::empty() })), report]
                },
            }
        },
    }
}

/// The actions a command asks for. `profile_dir` is the directory of the
/// profile of a report, and `profraw_found` whether the tests already left
/// a raw profile there: a report runs its test command first where one is
/// given, else `cargo test` (in release where asked) where no raw profile
/// was found.
pub fn plan_actions(cmd: CargoCommand, profile_dir: String, profraw_found: bool) -> (r: Vec<CargoAction>)
    ensures
        r@.map_values(|a: CargoAction| a@) == planned(cmd, profile_dir@, profraw_found),
{
    match cmd {
        CargoCommand::Env(c) => {
            let command = match c {
                Some(a) => a,
                None => strings("cargo", "test"),
            };
            let mut r: Vec<CargoAction> = Vec::new();
            r.push(CargoAction::SetupEnv(command));
            r
        }
        CargoCommand::Build(c) => {
            let mut r: Vec<CargoAction> = Vec::new();
            r.push(CargoAction::SetupEnv(cargo_command("build", c)));
            r
        }
        CargoCommand::Test(c) => {
            let mut r: Vec<CargoAction> = Vec::new();
            r.push(CargoAction::SetupEnv(cargo_command("test", c)));
            r
        }
        CargoCommand::Report { test_cmd, output_type, release } => {
            let t = match output_type {
                Some(o) => o,
                None => "html".to_string(),
            };
            let report = CargoAction::Report { path: profile_dir, output_type: t };
            let mut r: Vec<CargoAction> = Vec::new();
            match test_cmd {
                Some(c) => {
                    r.push(CargoAction::SetupEnv(c));
                }
                None => {
                    if !profraw_found {
                        let mut c = strings("cargo", "test");
                        let rel = match release {
                            Some(b) => b,
                            None => false,
                        };
                        if rel {
                            let ghost c0 = texts(c@);
                            c.push("--release".to_string());
                            assert(texts(c@) =~= c0 + seq!["--release"@]);
                        } else {
                            assert(texts(c@) =~= texts(c@) + Seq::<Seq<char>>::empty());
                        }
                        r.push(CargoAction::SetupEnv(c));
                    }
                }
            }
            r.push(report);
            r
        }
    }
}

}
