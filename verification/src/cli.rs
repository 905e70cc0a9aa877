use vstd::prelude::*;
use vstd::string::StringExecFns;
use crate::gcov::str_same;
use crate::paths::{join_paths, path_join};

verus! {

/// The kinds of report that can be written.
#[derive(Clone, Copy, Debug, PartialEq, Eq, Structural)]
pub enum OutputType {
    Ade,
    Lcov,
    Coveralls,
    CoverallsPlus,
    Files,
    Covdir,
    Html,
    Cobertura,
    CoberturaPretty,
    Markdown,
}

/// The name of each kind of report on the command line.
pub open spec fn output_type_name(t: OutputType) -> Seq<char> {
    match t {
        OutputType::Ade => "ade"@,
        OutputType::Lcov => "lcov"@,
        OutputType::Coveralls => "coveralls"@,
        OutputType::CoverallsPlus => "coveralls+"@,
        OutputType::Files => "files"@,
        OutputType::Covdir => "covdir"@,
        OutputType::Html => "html"@,
        OutputType::Cobertura => "cobertura"@,
        OutputType::CoberturaPretty => "cobertura-pretty"@,
        OutputType::Markdown => "markdown"@,
    }
}

/// The file a report of each kind is written to, in an output directory.
pub open spec fn default_file_name(t: OutputType) -> Seq<char> {
    match t {
        OutputType::Ade => "activedata"@,
        OutputType::Lcov => "lcov"@,
        OutputType::Coveralls => "coveralls"@,
        OutputType::CoverallsPlus => "coveralls+"@,
        OutputType::Files => "files"@,
        OutputType::Covdir => "covdir"@,
        OutputType::Html => "html"@,
        OutputType::Cobertura => "cobertura.xml"@,
        OutputType::CoberturaPretty => "cobertura.xml"@,
        OutputType::Markdown => "markdown.md"@,
    }
}

/// The kind of report a command line name stands for, or the message that
/// it stands for none.
pub fn parse_output_type(s: &str) -> (r: Result<OutputType, String>)
    ensures
        match r {
            Ok(t) => output_type_name(t) == s@,
            Err(m) => (forall|t: OutputType| output_type_name(t) != s@) && m@ == s@ + " is not a supported output type"@,
        },
{
    if str_same(s, "ade") { return Ok(OutputType::Ade); }
    if str_same(s, "lcov") { return Ok(OutputType::Lcov); }
    if str_same(s, "coveralls") { return Ok(OutputType::Coveralls); }
    if str_same(s, "coveralls+") { return Ok(OutputType::CoverallsPlus); }
    if str_same(s, "files") { return Ok(OutputType::Files); }
    if str_same(s, "covdir") { return Ok(OutputType::Covdir); }
    if str_same(s, "html") { return Ok(OutputType::Html); }
    if str_same(s, "cobertura") { return Ok(OutputType::Cobertura); }
    if str_same(s, "cobertura-pretty") { return Ok(OutputType::CoberturaPretty); }
    if str_same(s, "markdown") { return Ok(OutputType::Markdown); }
    let mut m = s.to_owned();
    m.append(" is not a supported output type");
    Err(m)
}

impl OutputType {
    /// The file a report of this kind is written to, in an output directory.
    pub fn default_file_name(&self) -> (r: &'static str)
        ensures
            r@ == default_file_name(*self),
    {
        match self {
            OutputType::Ade => "activedata",
            OutputType::Lcov => "lcov",
            OutputType::Coveralls => "coveralls",
            OutputType::CoverallsPlus => "coveralls+",
            OutputType::Files => "files",
            OutputType::Covdir => "covdir",
            OutputType::Html => "html",
            OutputType::Cobertura => "cobertura.xml",
            OutputType::CoberturaPretty => "cobertura.xml",
            OutputType::Markdown => "markdown.md",
        }
    }

    /// Where a report of this kind goes: into the output path's directory
    /// under the kind's file name, or to the output path itself where it is
    /// not a directory; nowhere given where no output path is.
    pub fn to_file_name(&self, output_path: Option<&str>, is_dir: bool) -> (r: Option<String>)
        ensures
            match output_path {
                None => r is None,
                Some(p) => r is Some && r->0@ == (if is_dir { path_join(p@, default_file_name(*self)) } else { p@ }),
            },
    {
        match output_path {
            None => None,
            Some(p) => {
                if is_dir {
                    Some(join_paths(p, self.default_file_name()))
                } else {
                    Some(p.to_owned())
                }
            }
        }
    }
}

/// Which files a report keeps by coverage.
#[derive(Clone, Copy, Debug, PartialEq, Eq, Structural)]
pub enum Filter {
    Covered,
    Uncovered,
}

/// The filter a command line name stands for, or the message that it stands
/// for none.
pub fn parse_filter(s: &str) -> (r: Result<Filter, String>)
    ensures
        match r {
            Ok(Filter::Covered) => s@ == "covered"@,
            Ok(Filter::Uncovered) => s@ == "uncovered"@,
            Err(m) => s@ != "covered"@ && s@ != "uncovered"@ && m@ == s@ + " is not a supported filter"@,
        },
{
    if str_same(s, "covered") { return Ok(Filter::Covered); }
    if str_same(s, "uncovered") { return Ok(Filter::Uncovered); }
    let mut m = s.to_owned();
    m.append(" is not a supported filter");
    Err(m)
}

/// The coverage filter of a filter choice: `Some(true)` for covered files
/// only, `Some(false)` for uncovered ones.
pub fn filter_option(f: Option<Filter>) -> (r: Option<bool>)
    ensures
        r == (match f { Some(Filter::Covered) => Some(true), Some(Filter::Uncovered) => Some(false), None => None::<bool> }),
{
    match f {
        Some(Filter::Covered) => Some(true),
        Some(Filter::Uncovered) => Some(false),
        None => None,
    }
}

}
