use vstd::prelude::*;
use vstd::string::StringExecFns;
use crate::text::{chars_of, string_of};

verus! {

/// Why running gcov failed: it could not be started, or it failed on a file
/// (the file, then what it wrote to stdout and to stderr).
pub enum GcovToolError {
    ProcessFailure,
    Failure((String, String, String)),
}

impl GcovToolError {
    /// The message of the error.
    pub fn message(&self) -> (m: String)
        ensures
            m@ == (match self {
                GcovToolError::ProcessFailure => "Failed to execute gcov process"@,
                GcovToolError::Failure((p, o, e)) => "gcov execution failed on "@ + p@ + "\n"@
                    + "gcov stdout: "@ + o@ + "\n"@ + "gcov stderr: "@ + e@ + "\n"@,
            }),
    {
        match self {
            GcovToolError::ProcessFailure => "Failed to execute gcov process".to_owned(),
            GcovToolError::Failure((p, o, e)) => {
                let mut m = "gcov execution failed on ".to_owned();
                m.append(p.as_str());
                m.append("\n");
                m.append("gcov stdout: ");
                m.append(o.as_str());
                m.append("\n");
                m.append("gcov stderr: ");
                m.append(e.as_str());
                m.append("\n");
                m
            }
        }
    }
}

/// A text without its leading white space.
pub open spec fn trim_start(s: Seq<char>) -> Seq<char>
    decreases s.len(),
{
    if s.len() > 0 && crate::cargo_env::white_space(s[0]) { trim_start(s.drop_first()) } else { s }
}

/// A text without its trailing white space.
pub open spec fn trim_end(s: Seq<char>) -> Seq<char>
    decreases s.len(),
{
    if s.len() > 0 && crate::cargo_env::white_space(s.last()) { trim_end(s.drop_last()) } else { s }
}

/// What `str::trim` gives: the text without its leading and trailing white
/// space (Unicode's White_Space).
pub open spec fn trimmed(s: Seq<char>) -> Seq<char> {
    trim_end(trim_start(s))
}

/// What `semver::Version::parse` makes of a text: the major, minor and patch
/// numbers and the pre-release and build parts, where it is a version.
pub uninterp spec fn semver_fields(s: Seq<char>) -> Option<(u64, u64, u64, Seq<char>, Seq<char>)>;

/// The text without its leading and trailing white space (see [`trimmed`]).
fn trim_text(s: &str) -> (r: String)
    ensures
        r@ == trimmed(s@),
{
    let cs = chars_of(s);
    let n = cs.len();
    let mut i: usize = 0;
    assert(cs@.subrange(0, n as int) =~= cs@);
    while i < n && crate::cargo_env::is_white_space(cs[i])
        invariant
            cs@ == s@,
            n == cs@.len(),
            i <= n,
            trim_start(s@) == trim_start(cs@.subrange(i as int, n as int)),
        decreases n - i,
    {
        assert(cs@.subrange(i as int, n as int).drop_first() =~= cs@.subrange(i + 1, n as int));
        i += 1;
    }
    let ghost t = cs@.subrange(i as int, n as int);
    assert(trim_start(s@) == t);
    let mut j: usize = n;
    assert(cs@.subrange(i as int, j as int) =~= t);
    while j > i && crate::cargo_env::is_white_space(cs[j - 1])
        invariant
            cs@ == s@,
            n == cs@.len(),
            i <= j <= n,
            t == cs@.subrange(i as int, n as int),
            trim_end(t) == trim_end(cs@.subrange(i as int, j as int)),
        decreases j - i,
    {
        assert(cs@.subrange(i as int, j as int).drop_last() =~= cs@.subrange(i as int, j - 1));
        j -= 1;
    }
    string_of(vstd::slice::slice_subrange(cs.as_slice(), i, j))
}

/// A version: major, minor and patch numbers, pre-release and build parts.
pub struct GcovVersion {
    pub major: u64,
    pub minor: u64,
    pub patch: u64,
    pub pre: String,
    pub build: String,
}

/// A version as a spec value.
pub open spec fn version_view(v: GcovVersion) -> (u64, u64, u64, Seq<char>, Seq<char>) {
    (v.major, v.minor, v.patch, v.pre@, v.build@)
}

/// Calls `semver::Version::parse` and takes its fields out.
#[verifier::external_body]
fn parse_semver(s: &str) -> (r: Option<GcovVersion>)
    ensures
        match r {
            Some(v) => semver_fields(s@) == Some(version_view(v)),
            None => semver_fields(s@) is None,
        },
{
    match semver::Version::parse(s) {
        Ok(v) => Some(GcovVersion { major: v.major, minor: v.minor, patch: v.patch, pre: v.pre.as_str().to_string(), build: v.build.as_str().to_string() }),
        Err(_) => None,
    }
}

/// The pieces of a text between its spaces and newlines.
pub open spec fn pieces(cs: Seq<char>) -> Seq<Seq<char>>
    decreases cs.len(),
{
    if cs.len() == 0 {
        seq![Seq::empty()]
    } else {
        let p = pieces(cs.drop_last());
        if cs.last() == ' ' || cs.last() == '\n' {
            p.push(Seq::empty())
        } else {
            p.update(p.len() - 1, p.last().push(cs.last()))
        }
    }
}

proof fn lemma_pieces_nonempty(cs: Seq<char>)
    ensures
        pieces(cs).len() >= 1,
    decreases cs.len(),
{
    if cs.len() > 0 {
        lemma_pieces_nonempty(cs.drop_last());
    }
}

/// The version of the last piece that reads as one, trimmed.
pub open spec fn last_version(ps: Seq<Seq<char>>) -> Option<(u64, u64, u64, Seq<char>, Seq<char>)>
    decreases ps.len(),
{
    if ps.len() == 0 {
        None
    } else {
        match semver_fields(trimmed(ps.last())) {
            Some(v) => Some(v),
            None => last_version(ps.drop_last()),
        }
    }
}

/// The version that `gcov --version` prints: that of the last word of its
/// output that reads as a version, if any.
pub fn parse_version(gcov_output: &str) -> (r: Option<GcovVersion>)
    ensures
        match r {
            Some(v) => last_version(pieces(gcov_output@)) == Some(version_view(v)),
            None => last_version(pieces(gcov_output@)) is None,
        },
{
    let cs = chars_of(gcov_output);
    let mut ps: Vec<String> = Vec::new();
    let mut cur: Vec<char> = Vec::new();
    let mut k: usize = 0;
    while k < cs.len()
        invariant
            k <= cs@.len(),
            cs@ == gcov_output@,
            ps@.map_values(|p: String| p@).push(cur@) == pieces(cs@.subrange(0, k as int)),
        decreases cs@.len() - k,
    {
        let ghost pre = cs@.subrange(0, k as int);
        assert(cs@.subrange(0, k + 1).drop_last() =~= pre);
        proof {
            lemma_pieces_nonempty(pre);
        }
        if cs[k] == ' ' || cs[k] == '\n' {
            let piece = string_of(cur.as_slice());
            let ghost pv = ps@.map_values(|p: String| p@);
            ps.push(piece);
            assert(ps@.map_values(|p: String| p@) =~= pv.push(piece@));
            cur = Vec::new();
            assert(ps@.map_values(|p: String| p@).push(cur@) =~= pieces(cs@.subrange(0, k + 1)));
        } else {
            cur.push(cs[k]);
            assert(ps@.map_values(|p: String| p@).push(cur@) =~= pieces(cs@.subrange(0, k + 1)));
        }
        k += 1;
    }
    let piece = string_of(cur.as_slice());
    let ghost pv = ps@.map_values(|p: String| p@);
    ps.push(piece);
    assert(ps@.map_values(|p: String| p@) =~= pv.push(piece@));
    assert(cs@.subrange(0, cs@.len() as int) =~= cs@);
    let ghost all = ps@.map_values(|p: String| p@);
    assert(all == pieces(gcov_output@));
    assert(all.subrange(0, all.len() as int) =~= all);
    let mut i = ps.len();
    while i > 0
        invariant
            all == pieces(gcov_output@),
            i <= ps@.len(),
            all == ps@.map_values(|p: String| p@),
            last_version(all) == last_version(all.subrange(0, i as int)),
        decreases i,
    {
        assert(all.subrange(0, i as int).drop_last() =~= all.subrange(0, i - 1));
        assert(all.subrange(0, i as int).last() == ps@[i - 1]@);
        let t = trim_text(ps[i - 1].as_str());
        match parse_semver(t.as_str()) {
            Some(v) => { return Some(v); }
            None => {}
        }
        i -= 1;
    }
    None
}

/// Whether two strings hold the same characters.
pub fn str_same(a: &str, b: &str) -> (r: bool)
    ensures
        r == (a@ == b@),
{
    let x = chars_of(a);
    let y = chars_of(b);
    if x.len() != y.len() {
        return false;
    }
    let mut k: usize = 0;
    while k < x.len()
        invariant
            x@ == a@,
            y@ == b@,
            x@.len() == y@.len(),
            k <= x@.len(),
            forall|j: int| 0 <= j < k ==> x@[j] == y@[j],
        decreases x@.len() - k,
    {
        if x[k] != y[k] {
            return false;
        }
        k += 1;
    }
    assert(x@ =~= y@);
    true
}

}
