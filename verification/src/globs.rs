use vstd::prelude::*;
use globset::{Glob, GlobSet, GlobSetBuilder};
use crate::cargo_env::texts;

verus! {

#[verifier::external_type_specification]
#[verifier::external_body]
pub struct ExGlobSet(GlobSet);

#[verifier::external_type_specification]
#[verifier::external_body]
pub struct ExGlobSetBuilder(GlobSetBuilder);

/// Whether `Glob::new` accepts a pattern.
pub uninterp spec fn glob_valid(pattern: Seq<char>) -> bool;

/// What `GlobSet::is_match` says of a path for a set built from the given
/// patterns (with the default options).
pub uninterp spec fn glob_match(patterns: Seq<Seq<char>>, path: Seq<char>) -> bool;

/// The patterns added to a builder, in order.
pub uninterp spec fn builder_patterns(b: GlobSetBuilder) -> Seq<Seq<char>>;

/// The patterns a set was built from, in order.
pub uninterp spec fn set_patterns(s: GlobSet) -> Seq<Seq<char>>;

/// Calls `GlobSetBuilder::new`: no pattern yet.
#[verifier::external_body]
fn builder_new() -> (b: GlobSetBuilder)
    ensures
        builder_patterns(b) == Seq::<Seq<char>>::empty(),
{
    GlobSetBuilder::new()
}

/// Calls `Glob::new` on a pattern and, where it is accepted,
/// `GlobSetBuilder::add`: the pattern is added; `false` and nothing added
/// where `Glob::new` refuses it.
#[verifier::external_body]
fn builder_add(b: &mut GlobSetBuilder, pattern: &str) -> (ok: bool)
    ensures
        ok == glob_valid(pattern@),
        ok ==> builder_patterns(*final(b)) == builder_patterns(*old(b)).push(pattern@),
        !ok ==> builder_patterns(*final(b)) == builder_patterns(*old(b)),
{
    match Glob::new(pattern) {
        Ok(g) => {
            b.add(g);
            true
        }
        Err(_) => false,
    }
}

/// Calls `GlobSetBuilder::build`: a set of the builder's patterns, `None`
/// where building fails.
#[verifier::external_body]
fn builder_build(b: &GlobSetBuilder) -> (r: Option<GlobSet>)
    ensures
        r matches Some(s) ==> set_patterns(s) == builder_patterns(*b),
{
    b.build().ok()
}

/// Calls `GlobSet::is_match` on a path given as a string.
#[verifier::external_body]
fn set_is_match(s: &GlobSet, path: &str) -> (m: bool)
    ensures
        m == glob_match(set_patterns(*s), path@),
{
    s.is_match(path)
}

/// A set of glob patterns, kept with the patterns it was built from.
pub struct PathGlobs {
    set: GlobSet,
    patterns: Vec<String>,
}

impl PathGlobs {
    #[verifier::type_invariant]
    spec fn built_from_patterns(self) -> bool {
        set_patterns(self.set) == texts(self.patterns@)
    }

    /// The patterns of the set.
    pub closed spec fn patterns(&self) -> Seq<Seq<char>> {
        texts(self.patterns@)
    }

    /// A set of the given patterns; `Err` with the first pattern that
    /// `Glob::new` refuses, or with an empty text where every pattern is
    /// accepted but the set cannot be built.
    pub fn build(patterns: Vec<String>) -> (r: Result<PathGlobs, String>)
        ensures
            match r {
                Ok(g) => g.patterns() == texts(patterns@)
                    && forall|i: int| 0 <= i < patterns@.len() ==> glob_valid(#[trigger] patterns@[i]@),
                Err(p) => (exists|i: int| 0 <= i < patterns@.len() && !glob_valid(#[trigger] patterns@[i]@)
                        && p@ == patterns@[i]@ && forall|j: int| 0 <= j < i ==> glob_valid(#[trigger] patterns@[j]@))
                    || ((forall|i: int| 0 <= i < patterns@.len() ==> glob_valid(#[trigger] patterns@[i]@))
                        && p@ == Seq::<char>::empty()),
            },
    {
        let mut b = builder_new();
        let mut k: usize = 0;
        while k < patterns.len()
            invariant
                k <= patterns@.len(),
                builder_patterns(b) == texts(patterns@.subrange(0, k as int)),
                forall|j: int| 0 <= j < k ==> glob_valid(#[trigger] patterns@[j]@),
            decreases patterns@.len() - k,
        {
            if !builder_add(&mut b, patterns[k].as_str()) {
                let p = patterns[k].as_str().to_string();
                assert(!glob_valid(patterns@[k as int]@));
                return Err(p);
            }
            assert(texts(patterns@.subrange(0, k + 1)) =~= texts(patterns@.subrange(0, k as int)).push(patterns@[k as int]@));
            k += 1;
        }
        assert(patterns@.subrange(0, patterns@.len() as int) =~= patterns@);
        match builder_build(&b) {
            Some(set) => Ok(PathGlobs { set, patterns }),
            None => Err(String::new()),
        }
    }

    /// Whether a path matches one of the patterns.
    pub fn is_match(&self, path: &str) -> (b: bool)
        ensures
            b == glob_match(self.patterns(), path@),
    {
        proof {
            use_type_invariant(self);
        }
        set_is_match(&self.set, path)
    }

    /// Whether the set has no pattern.
    pub fn is_empty(&self) -> (b: bool)
        ensures
            b == (self.patterns().len() == 0),
    {
        self.patterns.len() == 0
    }
}

/// Whether a relative path stays: it matches no pattern to ignore, and a
/// pattern to keep where there are any.
pub fn keep_rel_path(ignore: &PathGlobs, keep: &PathGlobs, rel: &str) -> (b: bool)
    ensures
        b == (!glob_match(ignore.patterns(), rel@)
            && (keep.patterns().len() == 0 || glob_match(keep.patterns(), rel@))),
{
    !ignore.is_match(rel) && (keep.is_empty() || keep.is_match(rel))
}

}
