use vstd::prelude::*;
use vstd::string::StringExecFns;
use crate::paths::{join_paths, path_join};

verus! {

/// The text that `llvm-profdata merge` reads on its standard input: each
/// profile's path on a line of its own.
pub open spec fn profile_list(ps: Seq<Seq<char>>) -> Seq<char>
    decreases ps.len(),
{
    if ps.len() == 0 { Seq::empty() } else { profile_list(ps.drop_last()) + ps.last() + "\n"@ }
}

/// The paths of the raw profiles, one per line.
pub fn profile_list_text(paths: &Vec<String>) -> (r: String)
    ensures
        r@ == profile_list(paths@.map_values(|p: String| p@)),
{
    let ghost ps = paths@.map_values(|p: String| p@);
    let mut r = String::new();
    let mut k: usize = 0;
    while k < paths.len()
        invariant
            k <= paths@.len(),
            ps == paths@.map_values(|p: String| p@),
            r@ == profile_list(ps.subrange(0, k as int)),
        decreases paths@.len() - k,
    {
        assert(ps.subrange(0, k + 1).drop_last() =~= ps.subrange(0, k as int));
        r.append(paths[k].as_str());
        r.append("\n");
        k += 1;
    }
    assert(ps.subrange(0, ps.len() as int) =~= ps);
    r
}

/// The outputs that succeeded, in order.
pub open spec fn successes(rs: Seq<Result<Vec<u8>, String>>) -> Seq<Seq<u8>>
    decreases rs.len(),
{
    if rs.len() == 0 {
        Seq::empty()
    } else {
        match rs.last() {
            Ok(b) => successes(rs.drop_last()).push(b@),
            Err(_) => successes(rs.drop_last()),
        }
    }
}

/// The lcov data of the binaries once the raw profiles are merged: the
/// error of the merge, or of finding `llvm-cov`; else what `llvm-cov export`
/// gave for each binary on which it succeeded, in order (a binary on which
/// it failed is left out).
pub fn llvm_profiles_to_lcov(merged: Result<(), String>, cov_tool: Result<(), String>, exports: Vec<Result<Vec<u8>, String>>) -> (r: Result<Vec<Vec<u8>>, String>)
    ensures
        match (merged, cov_tool) {
            (Err(e), _) => r == Err::<Vec<Vec<u8>>, String>(e),
            (Ok(()), Err(e)) => r == Err::<Vec<Vec<u8>>, String>(e),
            (Ok(()), Ok(())) => r matches Ok(v) && v@.map_values(|b: Vec<u8>| b@) == successes(exports@),
        },
{
    if let Err(e) = merged {
        return Err(e);
    }
    if let Err(e) = cov_tool {
        return Err(e);
    }
    let ghost all = exports@;
    let mut rest = exports;
    let mut out: Vec<Vec<u8>> = Vec::new();
    let n = rest.len();
    let mut k: usize = 0;
    while k < n
        invariant
            k <= n,
            n == all.len(),
            rest@.len() == n,
            forall|j: int| k <= j < n ==> #[trigger] rest@[j] == all[j],
            out@.map_values(|b: Vec<u8>| b@) == successes(all.subrange(0, k as int)),
        decreases n - k,
    {
        assert(all.subrange(0, k + 1).drop_last() =~= all.subrange(0, k as int));
        let mut item: Result<Vec<u8>, String> = Err(String::new());
        std::mem::swap(&mut item, &mut rest[k]);
        match item {
            Ok(b) => {
                let ghost ov = out@.map_values(|b: Vec<u8>| b@);
                let ghost bv = b@;
                out.push(b);
                assert(out@.map_values(|b: Vec<u8>| b@) =~= ov.push(bv));
            }
            Err(_) => {}
        }
        k += 1;
    }
    assert(all.subrange(0, n as int) =~= all);
    Ok(out)
}

/// The texts of a list of strings.
pub open spec fn texts(v: Seq<String>) -> Seq<Seq<char>> {
    v.map_values(|x: String| x@)
}

/// The arguments of `llvm-profdata merge`: read the list of profiles from
/// standard input, write a sparse profile to `profdata`.
pub open spec fn merge_args(profdata: Seq<char>) -> Seq<Seq<char>> {
    seq!["merge"@, "-f"@, "-"@, "-sparse"@, "-o"@, profdata]
}

/// The arguments of `llvm-cov export` for a binary: its coverage under the
/// merged profile `profdata`, as lcov.
pub open spec fn export_args(binary: Seq<char>, profdata: Seq<char>) -> Seq<Seq<char>> {
    seq!["export"@, binary, "--instr-profile"@, profdata, "--format"@, "lcov"@]
}

/// How the raw profiles are merged: where the merged profile goes, the
/// arguments of `llvm-profdata` and what it reads on standard input.
pub struct MergePlan {
    pub profdata: String,
    pub args: Vec<String>,
    pub stdin: String,
}

/// The merge of the raw profiles `profile_paths`, which runs first: the
/// merged profile is `grcov.profdata` in `working_dir`, `llvm-profdata` gets
/// [`merge_args`] and reads the profiles' paths, one per line.
pub fn merge_plan(profile_paths: &Vec<String>, working_dir: &str) -> (r: MergePlan)
    ensures
        r.profdata@ == path_join(working_dir@, "grcov.profdata"@),
        texts(r.args@) == merge_args(r.profdata@),
        r.stdin@ == profile_list(texts(profile_paths@)),
{
    let profdata = join_paths(working_dir, "grcov.profdata");
    let mut args: Vec<String> = Vec::new();
    args.push("merge".to_string());
    args.push("-f".to_string());
    args.push("-".to_string());
    args.push("-sparse".to_string());
    args.push("-o".to_string());
    args.push(profdata.clone());
    proof {
        reveal_strlit("merge");
        reveal_strlit("-f");
        reveal_strlit("-");
        reveal_strlit("-sparse");
        reveal_strlit("-o");
    }
    assert(texts(args@) =~= merge_args(profdata@));
    let stdin = profile_list_text(profile_paths);
    MergePlan { profdata, args, stdin }
}

/// The runs of `llvm-cov export` once the merge is done: none where the
/// merge failed or `llvm-cov` cannot be found (the error of the first of
/// these), else one per binary, in order, with [`export_args`].
pub fn export_plan(merged: &Result<(), String>, cov_tool: &Result<(), String>, binaries: &Vec<String>, profdata: &str)
    -> (r: Result<Vec<Vec<String>>, String>)
    ensures
        match (*merged, *cov_tool) {
            (Err(e), _) => r == Err::<Vec<Vec<String>>, String>(e),
            (Ok(()), Err(e)) => r == Err::<Vec<Vec<String>>, String>(e),
            (Ok(()), Ok(())) => r matches Ok(v) && v@.len() == binaries@.len()
                && forall|i: int| 0 <= i < v@.len() ==> texts(#[trigger] v@[i]@) == export_args(binaries@[i]@, profdata@),
        },
{
    match merged {
        Err(e) => return Err(e.clone()),
        Ok(()) => {},
    }
    match cov_tool {
        Err(e) => return Err(e.clone()),
        Ok(()) => {},
    }
    proof {
        reveal_strlit("export");
        reveal_strlit("--instr-profile");
        reveal_strlit("--format");
        reveal_strlit("lcov");
    }
    let mut out: Vec<Vec<String>> = Vec::new();
    let mut k: usize = 0;
    while k < binaries.len()
        invariant
            k <= binaries@.len(),
            out@.len() == k,
            forall|i: int| 0 <= i < k ==> texts(#[trigger] out@[i]@) == export_args(binaries@[i]@, profdata@),
        decreases binaries@.len() - k,
    {
        let mut a: Vec<String> = Vec::new();
        a.push("export".to_string());
        a.push(binaries[k].clone());
        a.push("--instr-profile".to_string());
        a.push(profdata.to_string());
        a.push("--format".to_string());
        a.push("lcov".to_string());
        assert(texts(a@) =~= export_args(binaries@[k as int]@, profdata@));
        out.push(a);
        k += 1;
    }
    Ok(out)
}

}
