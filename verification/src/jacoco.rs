use vstd::prelude::*;
use vstd::string::StringExecFns;
use std::collections::BTreeMap;
use crate::defs::{CovResultMap, cov_map_contents, cov_map_new, cov_map_remove, cov_map_insert, cov_map_entries, CovResult, CovView, Function, FunctionMap, function_map_new, function_map_insert, function_map_extend, fmap, function_map_entries, function_map_contents, entry_names, branches_view};
use crate::parser::{ParserError, ParserErrorView, results_view};
use crate::text::{chars_of, string_of};
use crate::results::{result_names, results_views};

verus! {

#[verifier::external_type_specification]
#[verifier::external_body]
pub struct ExXmlAttribute<'a>(quick_xml::events::attributes::Attribute<'a>);

#[verifier::external_type_specification]
#[verifier::external_body]
pub struct ExXmlAttrError(quick_xml::events::attributes::AttrError);

#[verifier::external_type_specification]
#[verifier::external_body]
pub struct ExXmlEvent<'a>(quick_xml::events::Event<'a>);

#[verifier::external_type_specification]
#[verifier::external_body]
pub struct ExXmlError(quick_xml::Error);

#[verifier::external_type_specification]
#[verifier::external_body]
pub struct ExXmlDecoder(quick_xml::encoding::Decoder);

/// An attribute of an XML start tag: its key, its value decoded, and its
/// value decoded and unescaped; or the error met reading it.
pub enum XmlAttr {
    Attr { key: Vec<u8>, value: Result<String, String>, unescaped: Result<String, String> },
    Bad(String),
}

/// An event of an XML reader: a start tag (local name, attributes), an end
/// tag (local name), the end of the input, anything else, or an error.
pub enum XmlEvent {
    Start(Vec<u8>, Vec<XmlAttr>),
    End(Vec<u8>),
    Eof,
    Other,
    Error(String),
}

/// A string or an error message, as a spec value.
pub open spec fn res_view(r: Result<String, String>) -> Result<Seq<char>, Seq<char>> {
    match r {
        Ok(s) => Ok(s@),
        Err(m) => Err(m@),
    }
}

/// An attribute as a spec value.
pub enum XmlAttrView {
    Attr { key: Seq<u8>, value: Result<Seq<char>, Seq<char>>, unescaped: Result<Seq<char>, Seq<char>> },
    Bad(Seq<char>),
}

impl View for XmlAttr {
    type V = XmlAttrView;

    open spec fn view(&self) -> XmlAttrView {
        match self {
            XmlAttr::Attr { key, value, unescaped } => XmlAttrView::Attr { key: key@, value: res_view(*value), unescaped: res_view(*unescaped) },
            XmlAttr::Bad(m) => XmlAttrView::Bad(m@),
        }
    }
}

/// An event as a spec value.
pub enum XmlEventView {
    Start(Seq<u8>, Seq<XmlAttrView>),
    End(Seq<u8>),
    Eof,
    Other,
    Error(Seq<char>),
}

impl View for XmlEvent {
    type V = XmlEventView;

    open spec fn view(&self) -> XmlEventView {
        match self {
            XmlEvent::Start(n, a) => XmlEventView::Start(n@, a@.map_values(|x: XmlAttr| x@)),
            XmlEvent::End(n) => XmlEventView::End(n@),
            XmlEvent::Eof => XmlEventView::Eof,
            XmlEvent::Other => XmlEventView::Other,
            XmlEvent::Error(m) => XmlEventView::Error(m@),
        }
    }
}

/// The events of a sequence, as spec values.
pub open spec fn events_view(v: Seq<XmlEvent>) -> Seq<XmlEventView> {
    v.map_values(|e: XmlEvent| e@)
}

/// The events that quick-xml reads from a document, up to the end of the
/// input or the first error, with empty elements expanded and text kept.
pub uninterp spec fn xml_tokens(b: Seq<u8>) -> Seq<XmlEventView>;

/// Converts one attribute read by quick-xml.
#[verifier::external_body]
fn xml_attr(d: quick_xml::encoding::Decoder, a: Result<quick_xml::events::attributes::Attribute<'_>, quick_xml::events::attributes::AttrError>) -> XmlAttr {
    match a {
        Ok(a) => XmlAttr::Attr {
            key: a.key.as_ref().to_vec(),
            value: d.decode(&a.value).map(|v| v.into_owned()).map_err(|e| format!("{:?}", e)),
            unescaped: a.decode_and_unescape_value(d).map(|v| v.into_owned()).map_err(|e| format!("{:?}", e)),
        },
        Err(e) => XmlAttr::Bad(format!("{:?}", quick_xml::Error::InvalidAttr(e))),
    }
}

/// Converts one event read by quick-xml.
#[verifier::external_body]
fn xml_event(d: quick_xml::encoding::Decoder, e: quick_xml::Result<quick_xml::events::Event<'_>>) -> XmlEvent {
    match e {
        Ok(quick_xml::events::Event::Start(s)) => XmlEvent::Start(s.local_name().as_ref().to_vec(), s.attributes().map(|a| xml_attr(d, a)).collect()),
        Ok(quick_xml::events::Event::End(s)) => XmlEvent::End(s.local_name().as_ref().to_vec()),
        Ok(quick_xml::events::Event::Eof) => XmlEvent::Eof,
        Ok(_) => XmlEvent::Other,
        Err(e) => XmlEvent::Error(e.to_string()),
    }
}

/// Reads a document with quick-xml (`Reader::from_reader`, empty elements
/// expanded, text not trimmed, `read_event` up to the end or an error): the
/// events are [`xml_tokens`] of the bytes.
#[verifier::external_body]
fn xml_events(content: &[u8]) -> (r: Vec<XmlEvent>)
    ensures
        events_view(r@) == xml_tokens(content@),
{
    let mut reader = quick_xml::Reader::from_reader(content);
    reader.config_mut().expand_empty_elements = true;
    reader.config_mut().trim_text(false);
    let mut out = Vec::new();
    loop {
        let ev = reader.read_event();
        let ev = xml_event(reader.decoder(), ev);
        let last = matches!(ev, XmlEvent::Eof | XmlEvent::Error(_));
        out.push(ev);
        if last {
            return out;
        }
    }
}

pub open spec fn msg_empty() -> Seq<char> { "cannot parse integer from empty string"@ }
pub open spec fn msg_invalid() -> Seq<char> { "invalid digit found in string"@ }
pub open spec fn msg_overflow() -> Seq<char> { "number too large to fit in target type"@ }

/// The value of the decimal digits `s[k..]` after `acc`, failing on the first
/// character that is not a digit, or once the value exceeds `max`.
pub open spec fn fold_digits(s: Seq<char>, k: int, acc: int, max: int) -> Result<int, Seq<char>>
    decreases s.len() - k,
{
    if k >= s.len() {
        Ok(acc)
    } else if !('0' <= s[k] && s[k] <= '9') {
        Err(msg_invalid())
    } else {
        let v = acc * 10 + (s[k] as int - '0' as int);
        if v > max { Err(msg_overflow()) } else { fold_digits(s, k + 1, v, max) }
    }
}

/// What `str::parse` makes of a string for an unsigned type whose greatest
/// value is `max`: an optional `+`, then decimal digits; or the message of
/// its error.
pub open spec fn parse_unsigned(s: Seq<char>, max: int) -> Result<int, Seq<char>> {
    if s.len() == 0 {
        Err(msg_empty())
    } else if s[0] == '+' {
        if s.len() == 1 { Err(msg_invalid()) } else { fold_digits(s, 1, 0, max) }
    } else {
        fold_digits(s, 0, 0, max)
    }
}

proof fn lemma_fold_digits_bound(s: Seq<char>, k: int, acc: int, max: int)
    requires
        0 <= acc <= max,
    ensures
        fold_digits(s, k, acc, max) is Ok ==> 0 <= fold_digits(s, k, acc, max)->Ok_0 <= max,
    decreases s.len() - k,
{
    if k < s.len() && '0' <= s[k] && s[k] <= '9' {
        let v = acc * 10 + (s[k] as int - '0' as int);
        if v <= max {
            lemma_fold_digits_bound(s, k + 1, v, max);
        }
    }
}

/// A value that `str::parse` gives is at most the type's greatest value.
pub proof fn lemma_parse_unsigned_bound(s: Seq<char>, max: int)
    requires
        0 <= max,
    ensures
        parse_unsigned(s, max) is Ok ==> 0 <= parse_unsigned(s, max)->Ok_0 <= max,
{
    lemma_fold_digits_bound(s, 0, 0, max);
    lemma_fold_digits_bound(s, 1, 0, max);
}

/// Parses an unsigned integer no larger than `max` as `str::parse` does (see
/// [`parse_unsigned`]), an error as its message.
fn parse_unsigned_exec(s: &str, max: u64) -> (r: Result<u64, String>)
    ensures
        match parse_unsigned(s@, max as int) {
            Ok(v) => r == Ok::<u64, String>(v as u64),
            Err(m) => r is Err && r->Err_0@ == m,
        },
{
    let cs = crate::text::chars_of(s);
    if cs.len() == 0 {
        return Err("cannot parse integer from empty string".to_string());
    }
    let start: usize = if cs[0] == '+' { 1 } else { 0 };
    if start == 1 && cs.len() == 1 {
        return Err("invalid digit found in string".to_string());
    }
    let mut acc: u64 = 0;
    let mut k: usize = start;
    while k < cs.len()
        invariant
            cs@ == s@,
            start <= k <= cs@.len(),
            acc <= max,
            parse_unsigned(s@, max as int) == fold_digits(s@, k as int, acc as int, max as int),
        decreases cs@.len() - k,
    {
        let c = cs[k];
        if !('0' <= c && c <= '9') {
            return Err("invalid digit found in string".to_string());
        }
        let d: u64 = (c as u32 - '0' as u32) as u64;
        let v: u128 = acc as u128 * 10 + d as u128;
        if v > max as u128 {
            return Err("number too large to fit in target type".to_string());
        }
        acc = v as u64;
        k += 1;
    }
    Ok(acc)
}

/// Parses a `u64` as `str::parse::<u64>` does, an error as its message.
fn parse_u64(s: &str) -> (r: Result<u64, String>)
    ensures
        match parse_unsigned(s@, u64::MAX as int) {
            Ok(v) => r == Ok::<u64, String>(v as u64),
            Err(m) => r is Err && r->Err_0@ == m,
        },
{
    parse_unsigned_exec(s, u64::MAX)
}

/// Parses a `u32` as `str::parse::<u32>` does, an error as its message.
fn parse_u32(s: &str) -> (r: Result<u32, String>)
    ensures
        match parse_unsigned(s@, u32::MAX as int) {
            Ok(v) => r == Ok::<u32, String>(v as u32),
            Err(m) => r is Err && r->Err_0@ == m,
        },
{
    match parse_unsigned_exec(s, u32::MAX as u64) {
        Ok(v) => {
            proof {
                lemma_parse_unsigned_bound(s@, u32::MAX as int);
            }
            Ok(v as u32)
        },
        Err(m) => Err(m),
    }
}

/// How reading a part of a report ends: with a value and the position after
/// it, an error, a loop that never ends (reading on at the end of the
/// input), or a stop on input that cannot be read.
pub enum JStep<T> {
    Done(T, int),
    Fail(ParserErrorView),
    Hang,
    Panic,
}

pub open spec fn b_package() -> Seq<u8> { seq![112u8, 97, 99, 107, 97, 103, 101] }
pub open spec fn b_class() -> Seq<u8> { seq![99u8, 108, 97, 115, 115] }
pub open spec fn b_sourcefile() -> Seq<u8> { seq![115u8, 111, 117, 114, 99, 101, 102, 105, 108, 101] }
pub open spec fn b_method() -> Seq<u8> { seq![109u8, 101, 116, 104, 111, 100] }
pub open spec fn b_counter() -> Seq<u8> { seq![99u8, 111, 117, 110, 116, 101, 114] }
pub open spec fn b_line() -> Seq<u8> { seq![108u8, 105, 110, 101] }
pub open spec fn b_name() -> Seq<u8> { seq![110u8, 97, 109, 101] }
pub open spec fn b_type() -> Seq<u8> { seq![116u8, 121, 112, 101] }
pub open spec fn b_covered() -> Seq<u8> { seq![99u8, 111, 118, 101, 114, 101, 100] }
pub open spec fn b_ci() -> Seq<u8> { seq![99u8, 105] }
pub open spec fn b_cb() -> Seq<u8> { seq![99u8, 98] }
pub open spec fn b_mb() -> Seq<u8> { seq![109u8, 98] }
pub open spec fn b_nr() -> Seq<u8> { seq![110u8, 114] }

/// The error for a missing attribute.
pub open spec fn missing(name: Seq<char>) -> ParserErrorView {
    ParserErrorView::InvalidRecord("Attribute "@ + name + " not found"@)
}

/// The unescaped value of the first attribute with key `key`, reading the
/// attributes from `k` on; an attribute that cannot be read is an error.
pub open spec fn find_attr(attrs: Seq<XmlAttrView>, key: Seq<u8>, name: Seq<char>, k: int) -> Result<Seq<char>, ParserErrorView>
    decreases attrs.len() - k,
{
    if k >= attrs.len() {
        Err(missing(name))
    } else {
        match attrs[k] {
            XmlAttrView::Bad(m) => Err(ParserErrorView::Parse(m)),
            XmlAttrView::Attr { key: k2, value: _, unescaped } => {
                if k2 == key {
                    match unescaped {
                        Ok(v) => Ok(v),
                        Err(m) => Err(ParserErrorView::Parse(m)),
                    }
                } else {
                    find_attr(attrs, key, name, k + 1)
                }
            },
        }
    }
}

/// The counts of a `line` element: covered instructions, covered and missed
/// branches, and the line number, from its attributes `k..`.
pub struct LineAttrs {
    pub ci: Option<u64>,
    pub cb: Option<u64>,
    pub mb: Option<u64>,
    pub nr: Option<u32>,
}

/// Reading the counts of a `line` element from its attributes `k..`; a later
/// attribute with the same key wins.
pub open spec fn line_attrs(attrs: Seq<XmlAttrView>, k: int, acc: LineAttrs) -> Result<LineAttrs, ParserErrorView>
    decreases attrs.len() - k,
{
    if k >= attrs.len() {
        Ok(acc)
    } else {
        match attrs[k] {
            XmlAttrView::Bad(m) => Err(ParserErrorView::Parse(m)),
            XmlAttrView::Attr { key, value, unescaped: _ } => {
                if key == b_ci() || key == b_cb() || key == b_mb() || key == b_nr() {
                    match value {
                        Err(m) => Err(ParserErrorView::Parse(m)),
                        Ok(v) => match parse_unsigned(v, if key == b_nr() { u32::MAX as int } else { u64::MAX as int }) {
                            Err(m) => Err(ParserErrorView::Parse(m)),
                            Ok(x) => line_attrs(attrs, k + 1,
                                if key == b_ci() { LineAttrs { ci: Some(x as u64), ..acc } }
                                else if key == b_cb() { LineAttrs { cb: Some(x as u64), ..acc } }
                                else if key == b_mb() { LineAttrs { mb: Some(x as u64), ..acc } }
                                else { LineAttrs { nr: Some(x as u32), ..acc } }),
                        },
                    }
                } else {
                    line_attrs(attrs, k + 1, acc)
                }
            },
        }
    }
}

/// The branches of a line with `cb` covered and `mb` missed branches.
pub open spec fn line_branches(cb: u64, mb: u64) -> Seq<bool> {
    Seq::new((cb as usize) as nat + (mb as usize) as nat, |k: int| k < (cb as usize) as int)
}

/// Reading the lines of a `sourcefile` element from event `i` on: a line
/// with branches gets them, another gets count 1 if covered, 0 if not.
pub open spec fn source_lines(evs: Seq<XmlEventView>, i: int, lines: Map<u32, u64>, branches: Map<u32, Seq<bool>>) -> JStep<(Map<u32, u64>, Map<u32, Seq<bool>>)>
    decreases evs.len() - i,
{
    if i < 0 || i >= evs.len() {
        JStep::Hang
    } else {
        match evs[i] {
            XmlEventView::Start(n, attrs) => {
                if n == b_line() {
                    match line_attrs(attrs, 0, LineAttrs { ci: None, cb: None, mb: None, nr: None }) {
                        Err(e) => JStep::Fail(e),
                        Ok(a) => {
                            if a.ci is None { JStep::Fail(missing("ci"@)) }
                            else if a.cb is None { JStep::Fail(missing("cb"@)) }
                            else if a.mb is None { JStep::Fail(missing("mb"@)) }
                            else if a.nr is None { JStep::Fail(missing("nr"@)) }
                            else {
                                let (ci, cb, mb, nr) = (a.ci->0, a.cb->0, a.mb->0, a.nr->0);
                                if mb > 0 || cb > 0 {
                                    if (cb as usize) + (mb as usize) > isize::MAX {
                                        JStep::Panic
                                    } else {
                                        source_lines(evs, i + 1, lines, branches.insert(nr, line_branches(cb, mb)))
                                    }
                                } else {
                                    source_lines(evs, i + 1, lines.insert(nr, if ci > 0 { 1u64 } else { 0u64 }), branches)
                                }
                            }
                        },
                    }
                } else {
                    source_lines(evs, i + 1, lines, branches)
                }
            },
            XmlEventView::End(n) => {
                if n == b_sourcefile() { JStep::Done((lines, branches), i + 1) } else { source_lines(evs, i + 1, lines, branches) }
            },
            XmlEventView::Eof => JStep::Hang,
            XmlEventView::Error(m) => JStep::Fail(ParserErrorView::Parse(m)),
            XmlEventView::Other => source_lines(evs, i + 1, lines, branches),
        }
    }
}

/// Reading a `method` element from event `i` on: whether its `METHOD`
/// counter says it was covered.
pub open spec fn method_run(evs: Seq<XmlEventView>, i: int, executed: bool) -> JStep<bool>
    decreases evs.len() - i,
{
    if i < 0 || i >= evs.len() {
        JStep::Hang
    } else {
        match evs[i] {
            XmlEventView::Start(n, attrs) => {
                if n == b_counter() {
                    match find_attr(attrs, b_type(), "type"@, 0) {
                        Err(e) => JStep::Fail(e),
                        Ok(t) => {
                            if t == "METHOD"@ {
                                match find_attr(attrs, b_covered(), "covered"@, 0) {
                                    Err(e) => JStep::Fail(e),
                                    Ok(c) => match parse_unsigned(c, u32::MAX as int) {
                                        Err(m) => JStep::Fail(ParserErrorView::Parse(m)),
                                        Ok(v) => method_run(evs, i + 1, v > 0),
                                    },
                                }
                            } else {
                                method_run(evs, i + 1, executed)
                            }
                        },
                    }
                } else {
                    method_run(evs, i + 1, executed)
                }
            },
            XmlEventView::End(n) => {
                if n == b_method() { JStep::Done(executed, i + 1) } else { method_run(evs, i + 1, executed) }
            },
            XmlEventView::Eof => JStep::Hang,
            XmlEventView::Error(m) => JStep::Fail(ParserErrorView::Parse(m)),
            XmlEventView::Other => method_run(evs, i + 1, executed),
        }
    }
}

/// Reading a `class` element from event `i` on: its methods, each named
/// `class#method` with its first line and whether it ran.
pub open spec fn class_methods(evs: Seq<XmlEventView>, i: int, cls: Seq<char>, fns: Map<Seq<char>, Function>) -> JStep<Map<Seq<char>, Function>>
    decreases evs.len() - i,
{
    if i < 0 || i >= evs.len() {
        JStep::Hang
    } else {
        match evs[i] {
            XmlEventView::Start(n, attrs) => {
                if n == b_method() {
                    match find_attr(attrs, b_name(), "name"@, 0) {
                        Err(e) => JStep::Fail(e),
                        Ok(nm) => match find_attr(attrs, b_line(), "line"@, 0) {
                            Err(e) => JStep::Fail(e),
                            Ok(ls) => match parse_unsigned(ls, u32::MAX as int) {
                                Err(m) => JStep::Fail(ParserErrorView::Parse(m)),
                                Ok(start) => match method_run(evs, i + 1, false) {
                                    JStep::Done(ex, j) => {
                                        if i < j <= evs.len() {
                                            class_methods(evs, j, cls, fns.insert(cls + "#"@ + nm, Function { start: start as u32, executed: ex }))
                                        } else {
                                            JStep::Hang
                                        }
                                    },
                                    JStep::Fail(e) => JStep::Fail(e),
                                    JStep::Hang => JStep::Hang,
                                    JStep::Panic => JStep::Panic,
                                },
                            },
                        },
                    }
                } else {
                    class_methods(evs, i + 1, cls, fns)
                }
            },
            XmlEventView::End(n) => {
                if n == b_class() { JStep::Done(fns, i + 1) } else { class_methods(evs, i + 1, cls, fns) }
            },
            XmlEventView::Eof => JStep::Hang,
            XmlEventView::Error(m) => JStep::Fail(ParserErrorView::Parse(m)),
            XmlEventView::Other => class_methods(evs, i + 1, cls, fns),
        }
    }
}

/// The largest index below `k` that holds `c`, or -1.
pub open spec fn rindex(s: Seq<char>, c: char, k: int) -> int
    decreases k,
{
    if k <= 0 { -1 } else if s[k - 1] == c { k - 1 } else { rindex(s, c, k - 1) }
}

/// The first index from `k` on that holds `c`, or the length.
pub open spec fn findex(s: Seq<char>, c: char, k: int) -> int
    decreases s.len() - k,
{
    if k >= s.len() { s.len() as int } else if s[k] == c { k } else { findex(s, c, k + 1) }
}

/// What follows the last `/` of a name (the whole name if it has none).
pub open spec fn last_segment(s: Seq<char>) -> Seq<char> {
    s.subrange(rindex(s, '/', s.len() as int) + 1, s.len() as int)
}

/// What stands before the first `$` of a name (the whole name if it has none).
pub open spec fn top_class(s: Seq<char>) -> Seq<char> {
    s.subrange(0, findex(s, '$', 0))
}

/// A name with every trailing `.java` taken off.
pub open spec fn trim_java(s: Seq<char>) -> Seq<char>
    decreases s.len(),
{
    if s.len() >= 5 && s.subrange(s.len() - 5, s.len() as int) == ".java"@ {
        trim_java(s.subrange(0, s.len() - 5))
    } else {
        s
    }
}

/// A path with every leading `/` taken off.
pub open spec fn trim_slashes(s: Seq<char>) -> Seq<char>
    decreases s.len(),
{
    if s.len() > 0 && s[0] == '/' { trim_slashes(s.drop_first()) } else { s }
}

/// The coverage of a package after a class with the given methods: they join
/// those already known under its top class.
pub open spec fn add_class(m: Map<Seq<char>, CovView>, top: Seq<char>, fns: Map<Seq<char>, Function>) -> Map<Seq<char>, CovView> {
    if m.contains_key(top) {
        m.insert(top, CovView { functions: m[top].functions.union_prefer_right(fns), ..m[top] })
    } else {
        m.insert(top, CovView { lines: Map::empty(), branches: Map::empty(), functions: fns })
    }
}

/// The coverage of a package after a source file: its lines and branches
/// replace those known under its class.
pub open spec fn add_source(m: Map<Seq<char>, CovView>, cls: Seq<char>, lines: Map<u32, u64>, branches: Map<u32, Seq<bool>>) -> Map<Seq<char>, CovView> {
    if m.contains_key(cls) {
        m.insert(cls, CovView { lines: lines, branches: branches, ..m[cls] })
    } else {
        m.insert(cls, CovView { lines: lines, branches: branches, functions: Map::empty() })
    }
}

/// Reading a `package` element from event `i` on: the coverage of each of
/// its classes, by class name.
pub open spec fn package_classes(evs: Seq<XmlEventView>, i: int, m: Map<Seq<char>, CovView>) -> JStep<Map<Seq<char>, CovView>>
    decreases evs.len() - i,
{
    if i < 0 || i >= evs.len() {
        JStep::Hang
    } else {
        match evs[i] {
            XmlEventView::Start(n, attrs) => {
                if n == b_class() {
                    match find_attr(attrs, b_name(), "name"@, 0) {
                        Err(e) => JStep::Fail(e),
                        Ok(fq) => {
                            let cls = last_segment(fq);
                            match class_methods(evs, i + 1, cls, Map::empty()) {
                                JStep::Done(fns, j) => {
                                    if i < j <= evs.len() {
                                        package_classes(evs, j, add_class(m, top_class(cls), fns))
                                    } else {
                                        JStep::Hang
                                    }
                                },
                                JStep::Fail(e) => JStep::Fail(e),
                                JStep::Hang => JStep::Hang,
                                JStep::Panic => JStep::Panic,
                            }
                        },
                    }
                } else if n == b_sourcefile() {
                    match find_attr(attrs, b_name(), "name"@, 0) {
                        Err(e) => JStep::Fail(e),
                        Ok(sf) => match source_lines(evs, i + 1, Map::empty(), Map::empty()) {
                            JStep::Done(lb, j) => {
                                if i < j <= evs.len() {
                                    package_classes(evs, j, add_source(m, trim_java(sf), lb.0, lb.1))
                                } else {
                                    JStep::Hang
                                }
                            },
                            JStep::Fail(e) => JStep::Fail(e),
                            JStep::Hang => JStep::Hang,
                            JStep::Panic => JStep::Panic,
                        },
                    }
                } else {
                    package_classes(evs, i + 1, m)
                }
            },
            XmlEventView::End(n) => {
                if n == b_package() { JStep::Done(m, i + 1) } else { package_classes(evs, i + 1, m) }
            },
            XmlEventView::Eof => JStep::Hang,
            XmlEventView::Error(e) => JStep::Fail(ParserErrorView::Parse(e)),
            XmlEventView::Other => package_classes(evs, i + 1, m),
        }
    }
}

/// A class with neither lines nor branches: it has no source file of its own.
pub open spec fn orphan(m: Map<Seq<char>, CovView>, c: Seq<char>) -> bool {
    m.contains_key(c) && m[c].lines.dom().is_empty() && m[c].branches.dom().is_empty()
}

/// The error for a class that has no source file of its own.
pub open spec fn orphan_error(package: Seq<char>, c: Seq<char>) -> ParserErrorView {
    ParserErrorView::InvalidData("Class "@ + package + "/"@ + c + " is not the top class in its file."@)
}

/// The file of a class of a package.
pub open spec fn class_file(package: Seq<char>, c: Seq<char>) -> Seq<char> {
    trim_slashes(package + "/"@ + c + ".java"@)
}

/// How reading a whole report ends: the packages read, each with its name
/// and classes; an error; a package with a class that has no source file of
/// its own; a loop that never ends; or a panic.
pub enum JReport {
    Done(Seq<(Seq<char>, Map<Seq<char>, CovView>)>),
    Fail(ParserErrorView),
    Orphan(Seq<char>, Map<Seq<char>, CovView>),
    Hang,
    Panic,
}

/// Reading a report from event `i` on, after the packages `acc`.
pub open spec fn report_packages(evs: Seq<XmlEventView>, i: int, acc: Seq<(Seq<char>, Map<Seq<char>, CovView>)>) -> JReport
    decreases evs.len() - i,
{
    if i < 0 || i >= evs.len() {
        JReport::Hang
    } else {
        match evs[i] {
            XmlEventView::Start(n, attrs) => {
                if n == b_package() {
                    match find_attr(attrs, b_name(), "name"@, 0) {
                        Err(e) => JReport::Fail(e),
                        Ok(p) => match package_classes(evs, i + 1, Map::empty()) {
                            JStep::Done(m, j) => {
                                if exists|c: Seq<char>| orphan(m, c) {
                                    JReport::Orphan(p, m)
                                } else if i < j <= evs.len() {
                                    report_packages(evs, j, acc.push((p, m)))
                                } else {
                                    JReport::Hang
                                }
                            },
                            JStep::Fail(e) => JReport::Fail(e),
                            JStep::Hang => JReport::Hang,
                            JStep::Panic => JReport::Panic,
                        },
                    }
                } else {
                    report_packages(evs, i + 1, acc)
                }
            },
            XmlEventView::Eof => JReport::Done(acc),
            XmlEventView::Error(e) => JReport::Fail(ParserErrorView::Parse(e)),
            _ => report_packages(evs, i + 1, acc),
        }
    }
}

/// The attributes of a start tag, as spec values.
pub open spec fn attrs_view(v: Seq<XmlAttr>) -> Seq<XmlAttrView> {
    v.map_values(|a: XmlAttr| a@)
}

/// Why reading stopped short of a value: an error, a loop that never ends,
/// or input that cannot be read.
pub enum Halt {
    Fail(ParserError),
    Hang,
    Panic,
}

/// A stop that agrees with how the spec says reading ends.
pub open spec fn halts_as<T>(h: Halt, s: JStep<T>) -> bool {
    match h {
        Halt::Fail(e) => s == JStep::<T>::Fail(e@),
        Halt::Hang => s is Hang,
        Halt::Panic => s is Panic,
    }
}

fn key_of(a: &[u8]) -> (r: Vec<u8>)
    ensures
        r@ == a@,
{
    let mut r: Vec<u8> = Vec::new();
    let mut i: usize = 0;
    while i < a.len()
        invariant
            i <= a@.len(),
            r@ == a@.subrange(0, i as int),
        decreases a@.len() - i,
    {
        r.push(a[i]);
        assert(a@.subrange(0, i + 1) =~= a@.subrange(0, i as int).push(a@[i as int]));
        i += 1;
    }
    assert(a@.subrange(0, a@.len() as int) =~= a@);
    r
}

/// The tag and attribute names that a report is read by.
pub struct Keys {
    pub package: Vec<u8>,
    pub class: Vec<u8>,
    pub sourcefile: Vec<u8>,
    pub method: Vec<u8>,
    pub counter: Vec<u8>,
    pub line: Vec<u8>,
    pub name: Vec<u8>,
    pub typ: Vec<u8>,
    pub covered: Vec<u8>,
    pub ci: Vec<u8>,
    pub cb: Vec<u8>,
    pub mb: Vec<u8>,
    pub nr: Vec<u8>,
}

/// Each name as its bytes.
pub open spec fn keys_ok(k: Keys) -> bool {
    &&& k.package@ == b_package()
    &&& k.class@ == b_class()
    &&& k.sourcefile@ == b_sourcefile()
    &&& k.method@ == b_method()
    &&& k.counter@ == b_counter()
    &&& k.line@ == b_line()
    &&& k.name@ == b_name()
    &&& k.typ@ == b_type()
    &&& k.covered@ == b_covered()
    &&& k.ci@ == b_ci()
    &&& k.cb@ == b_cb()
    &&& k.mb@ == b_mb()
    &&& k.nr@ == b_nr()
}

fn keys() -> (k: Keys)
    ensures
        keys_ok(k),
{
    let k = Keys {
        package: key_of(&[112u8, 97, 99, 107, 97, 103, 101]),
        class: key_of(&[99u8, 108, 97, 115, 115]),
        sourcefile: key_of(&[115u8, 111, 117, 114, 99, 101, 102, 105, 108, 101]),
        method: key_of(&[109u8, 101, 116, 104, 111, 100]),
        counter: key_of(&[99u8, 111, 117, 110, 116, 101, 114]),
        line: key_of(&[108u8, 105, 110, 101]),
        name: key_of(&[110u8, 97, 109, 101]),
        typ: key_of(&[116u8, 121, 112, 101]),
        covered: key_of(&[99u8, 111, 118, 101, 114, 101, 100]),
        ci: key_of(&[99u8, 105]),
        cb: key_of(&[99u8, 98]),
        mb: key_of(&[109u8, 98]),
        nr: key_of(&[110u8, 114]),
    };
    assert(k.package@ =~= b_package());
    assert(k.class@ =~= b_class());
    assert(k.sourcefile@ =~= b_sourcefile());
    assert(k.method@ =~= b_method());
    assert(k.counter@ =~= b_counter());
    assert(k.line@ =~= b_line());
    assert(k.name@ =~= b_name());
    assert(k.typ@ =~= b_type());
    assert(k.covered@ =~= b_covered());
    assert(k.ci@ =~= b_ci());
    assert(k.cb@ =~= b_cb());
    assert(k.mb@ =~= b_mb());
    assert(k.nr@ =~= b_nr());
    k
}

/// The message for a missing attribute.
fn missing_msg(name: &str) -> (m: String)
    ensures
        ParserErrorView::InvalidRecord(m@) == missing(name@),
{
    let mut m = "Attribute ".to_owned();
    m.append(name);
    m.append(" not found");
    m
}

/// The unescaped value of the attribute `key` of a start tag.
fn attr_value(attrs: &Vec<XmlAttr>, key: &Vec<u8>, name: &str) -> (r: Result<String, ParserError>)
    ensures
        match find_attr(attrs_view(attrs@), key@, name@, 0) {
            Ok(v) => r is Ok && r->Ok_0@ == v,
            Err(e) => r is Err && r->Err_0@ == e,
        },
{
    let ghost av = attrs_view(attrs@);
    let mut k: usize = 0;
    while k < attrs.len()
        invariant
            av == attrs_view(attrs@),
            k <= attrs@.len(),
            find_attr(av, key@, name@, 0) == find_attr(av, key@, name@, k as int),
        decreases attrs@.len() - k,
    {
        match &attrs[k] {
            XmlAttr::Bad(m) => {
                return Err(ParserError::Parse(m.clone()));
            }
            XmlAttr::Attr { key: k2, value: _, unescaped } => {
                if crate::text::bytes_eq(k2.as_slice(), key.as_slice()) {
                    match unescaped {
                        Ok(v) => { return Ok(v.clone()); }
                        Err(m) => { return Err(ParserError::Parse(m.clone())); }
                    }
                }
            }
        }
        k += 1;
    }
    Err(ParserError::InvalidRecord(missing_msg(name)))
}

/// Reads the counts of a `line` element from its attributes.
fn line_attrs_exec(attrs: &Vec<XmlAttr>, ks: &Keys) -> (r: Result<LineAttrs, ParserError>)
    requires
        keys_ok(*ks),
    ensures
        match line_attrs(attrs_view(attrs@), 0, LineAttrs { ci: None, cb: None, mb: None, nr: None }) {
            Ok(a) => r == Ok::<LineAttrs, ParserError>(a),
            Err(e) => r is Err && r->Err_0@ == e,
        },
{
    let ghost av = attrs_view(attrs@);
    let mut acc = LineAttrs { ci: None, cb: None, mb: None, nr: None };
    let mut k: usize = 0;
    while k < attrs.len()
        invariant
            keys_ok(*ks),
            av == attrs_view(attrs@),
            k <= attrs@.len(),
            line_attrs(av, 0, LineAttrs { ci: None, cb: None, mb: None, nr: None }) == line_attrs(av, k as int, acc),
        decreases attrs@.len() - k,
    {
        match &attrs[k] {
            XmlAttr::Bad(m) => {
                return Err(ParserError::Parse(m.clone()));
            }
            XmlAttr::Attr { key, value, unescaped: _ } => {
                let is_ci = crate::text::bytes_eq(key.as_slice(), ks.ci.as_slice());
                let is_cb = crate::text::bytes_eq(key.as_slice(), ks.cb.as_slice());
                let is_mb = crate::text::bytes_eq(key.as_slice(), ks.mb.as_slice());
                let is_nr = crate::text::bytes_eq(key.as_slice(), ks.nr.as_slice());
                if is_ci || is_cb || is_mb || is_nr {
                    let v = match value {
                        Ok(v) => v,
                        Err(m) => { return Err(ParserError::Parse(m.clone())); }
                    };
                    if is_nr {
                        match parse_u32(v.as_str()) {
                            Ok(x) => { acc = LineAttrs { nr: Some(x), ..acc }; }
                            Err(m) => { return Err(ParserError::Parse(m)); }
                        }
                    } else {
                        match parse_u64(v.as_str()) {
                            Ok(x) => {
                                if is_ci {
                                    acc = LineAttrs { ci: Some(x), ..acc };
                                } else if is_cb {
                                    acc = LineAttrs { cb: Some(x), ..acc };
                                } else {
                                    acc = LineAttrs { mb: Some(x), ..acc };
                                }
                            }
                            Err(m) => { return Err(ParserError::Parse(m)); }
                        }
                    }
                }
            }
        }
        k += 1;
    }
    Ok(acc)
}

/// The branches of a line with `cb` covered and `mb` missed branches, built
/// where their number fits in a `Vec`.
fn line_branches_exec(cb: u64, mb: u64) -> (r: Option<Vec<bool>>)
    ensures
        match r {
            Some(v) => (cb as usize) + (mb as usize) <= isize::MAX && v@ == line_branches(cb, mb),
            None => (cb as usize) + (mb as usize) > isize::MAX,
        },
{
    #[verifier::truncate]
    let a: usize = cb as usize;
    #[verifier::truncate]
    let b: usize = mb as usize;
    if a > usize::MAX - b || a + b > isize::MAX as usize {
        return None;
    }
    let n: usize = a + b;
    let mut v: Vec<bool> = Vec::new();
    let mut k: usize = 0;
    while k < n
        invariant
            k <= n,
            n == (cb as usize) + (mb as usize),
            a == cb as usize,
            v@.len() == k,
            forall|j: int| 0 <= j < k ==> v@[j] == (j < a),
        decreases n - k,
    {
        v.push(k < a);
        k += 1;
    }
    assert(v@ =~= line_branches(cb, mb));
    Some(v)
}

/// The events of a report, as spec values.
pub open spec fn evs_of(evs: &Vec<XmlEvent>) -> Seq<XmlEventView> {
    events_view(evs@)
}

/// Reads the lines of a `sourcefile` element from event `i` on.
fn source_lines_exec(evs: &Vec<XmlEvent>, i: usize, ks: &Keys) -> (r: Result<(BTreeMap<u32, u64>, BTreeMap<u32, Vec<bool>>, usize), Halt>)
    requires
        keys_ok(*ks),
    ensures
        match r {
            Ok((l, b, j)) => source_lines(evs_of(evs), i as int, Map::empty(), Map::empty()) == JStep::Done((l@, branches_view(b)), j as int) && i < j <= evs@.len(),
            Err(h) => halts_as(h, source_lines(evs_of(evs), i as int, Map::empty(), Map::empty())),
        },
{
    let ghost ev = evs_of(evs);
    let mut lines: BTreeMap<u32, u64> = BTreeMap::new();
    let mut branches: BTreeMap<u32, Vec<bool>> = BTreeMap::new();
    assert(branches_view(branches) =~= Map::empty());
    let mut p = i;
    while p < evs.len()
        invariant
            keys_ok(*ks),
            ev == evs_of(evs),
            i <= p,
            source_lines(ev, i as int, Map::empty(), Map::empty()) == source_lines(ev, p as int, lines@, branches_view(branches)),
        decreases evs@.len() - p,
    {
        match &evs[p] {
            XmlEvent::Start(n, attrs) => {
                assert(ev[p as int] == XmlEventView::Start(n@, attrs_view(attrs@)));
                if crate::text::bytes_eq(n.as_slice(), ks.line.as_slice()) {
                    let a = match line_attrs_exec(attrs, ks) {
                        Ok(a) => a,
                        Err(e) => { return Err(Halt::Fail(e)); }
                    };
                    let ci = match a.ci {
                        Some(x) => x,
                        None => { return Err(Halt::Fail(ParserError::InvalidRecord(missing_msg("ci")))); }
                    };
                    let cb = match a.cb {
                        Some(x) => x,
                        None => { return Err(Halt::Fail(ParserError::InvalidRecord(missing_msg("cb")))); }
                    };
                    let mb = match a.mb {
                        Some(x) => x,
                        None => { return Err(Halt::Fail(ParserError::InvalidRecord(missing_msg("mb")))); }
                    };
                    let nr = match a.nr {
                        Some(x) => x,
                        None => { return Err(Halt::Fail(ParserError::InvalidRecord(missing_msg("nr")))); }
                    };
                    if mb > 0 || cb > 0 {
                        match line_branches_exec(cb, mb) {
                            Some(v) => {
                                let ghost old_b = branches_view(branches);
                                let ghost vv = v@;
                                branches.insert(nr, v);
                                assert(branches_view(branches) =~= old_b.insert(nr, vv));
                            }
                            None => { return Err(Halt::Panic); }
                        }
                    } else {
                        lines.insert(nr, if ci > 0 { 1u64 } else { 0u64 });
                    }
                }
            }
            XmlEvent::End(n) => {
                if crate::text::bytes_eq(n.as_slice(), ks.sourcefile.as_slice()) {
                    return Ok((lines, branches, p + 1));
                }
            }
            XmlEvent::Eof => { return Err(Halt::Hang); }
            XmlEvent::Error(m) => { return Err(Halt::Fail(ParserError::Parse(m.clone()))); }
            XmlEvent::Other => {}
        }
        p += 1;
    }
    Err(Halt::Hang)
}

/// Whether two strings hold the same characters.
pub(crate) fn str_eq(a: &str, b: &str) -> (r: bool)
    ensures
        r == (a@ == b@),
{
    let x = chars_of(a);
    let y = chars_of(b);
    if x.len() != y.len() {
        return false;
    }
    let mut k: usize = 0;
    while k < x.len()
        invariant
            x@ == a@,
            y@ == b@,
            x@.len() == y@.len(),
            k <= x@.len(),
            forall|j: int| 0 <= j < k ==> x@[j] == y@[j],
        decreases x@.len() - k,
    {
        if x[k] != y[k] {
            return false;
        }
        k += 1;
    }
    assert(x@ =~= y@);
    true
}

/// Reads a `method` element from event `i` on: whether it ran.
fn method_run_exec(evs: &Vec<XmlEvent>, i: usize, ks: &Keys) -> (r: Result<(bool, usize), Halt>)
    requires
        keys_ok(*ks),
    ensures
        match r {
            Ok((ex, j)) => method_run(evs_of(evs), i as int, false) == JStep::Done(ex, j as int) && i < j <= evs@.len(),
            Err(h) => halts_as(h, method_run(evs_of(evs), i as int, false)),
        },
{
    let ghost ev = evs_of(evs);
    let mut executed = false;
    let mut p = i;
    while p < evs.len()
        invariant
            keys_ok(*ks),
            ev == evs_of(evs),
            i <= p,
            method_run(ev, i as int, false) == method_run(ev, p as int, executed),
        decreases evs@.len() - p,
    {
        match &evs[p] {
            XmlEvent::Start(n, attrs) => {
                assert(ev[p as int] == XmlEventView::Start(n@, attrs_view(attrs@)));
                if crate::text::bytes_eq(n.as_slice(), ks.counter.as_slice()) {
                    let t = match attr_value(attrs, &ks.typ, "type") {
                        Ok(t) => t,
                        Err(e) => { return Err(Halt::Fail(e)); }
                    };
                    if str_eq(t.as_str(), "METHOD") {
                        let c = match attr_value(attrs, &ks.covered, "covered") {
                            Ok(c) => c,
                            Err(e) => { return Err(Halt::Fail(e)); }
                        };
                        proof {
                            lemma_parse_unsigned_bound(c@, u32::MAX as int);
                        }
                        match parse_u32(c.as_str()) {
                            Ok(v) => { executed = v > 0; }
                            Err(m) => { return Err(Halt::Fail(ParserError::Parse(m))); }
                        }
                    }
                }
            }
            XmlEvent::End(n) => {
                if crate::text::bytes_eq(n.as_slice(), ks.method.as_slice()) {
                    return Ok((executed, p + 1));
                }
            }
            XmlEvent::Eof => { return Err(Halt::Hang); }
            XmlEvent::Error(m) => { return Err(Halt::Fail(ParserError::Parse(m.clone()))); }
            XmlEvent::Other => {}
        }
        p += 1;
    }
    Err(Halt::Hang)
}

/// Reads a `class` element from event `i` on: its methods, by full name.
fn class_methods_exec(evs: &Vec<XmlEvent>, i: usize, cls: &str, ks: &Keys) -> (r: Result<(FunctionMap, usize), Halt>)
    requires
        keys_ok(*ks),
    ensures
        match r {
            Ok((fns, j)) => class_methods(evs_of(evs), i as int, cls@, Map::empty()) == JStep::Done(function_map_contents(fns), j as int) && i < j <= evs@.len(),
            Err(h) => halts_as(h, class_methods(evs_of(evs), i as int, cls@, Map::empty())),
        },
{
    let ghost ev = evs_of(evs);
    let mut fns = function_map_new();
    let mut p = i;
    while p < evs.len()
        invariant
            keys_ok(*ks),
            ev == evs_of(evs),
            i <= p,
            class_methods(ev, i as int, cls@, Map::empty()) == class_methods(ev, p as int, cls@, function_map_contents(fns)),
        decreases evs@.len() - p,
    {
        match &evs[p] {
            XmlEvent::Start(n, attrs) => {
                assert(ev[p as int] == XmlEventView::Start(n@, attrs_view(attrs@)));
                if crate::text::bytes_eq(n.as_slice(), ks.method.as_slice()) {
                    let nm = match attr_value(attrs, &ks.name, "name") {
                        Ok(v) => v,
                        Err(e) => { return Err(Halt::Fail(e)); }
                    };
                    let ls = match attr_value(attrs, &ks.line, "line") {
                        Ok(v) => v,
                        Err(e) => { return Err(Halt::Fail(e)); }
                    };
                    let start = match parse_u32(ls.as_str()) {
                        Ok(v) => v,
                        Err(m) => { return Err(Halt::Fail(ParserError::Parse(m))); }
                    };
                    match method_run_exec(evs, p + 1, ks) {
                        Ok((ex, j)) => {
                            let mut full = cls.to_owned();
                            full.append("#");
                            full.append(nm.as_str());
                            function_map_insert(&mut fns, full, Function { start: start, executed: ex });
                            p = j;
                            continue;
                        }
                        Err(h) => { return Err(h); }
                    }
                }
            }
            XmlEvent::End(n) => {
                if crate::text::bytes_eq(n.as_slice(), ks.class.as_slice()) {
                    return Ok((fns, p + 1));
                }
            }
            XmlEvent::Eof => { return Err(Halt::Hang); }
            XmlEvent::Error(m) => { return Err(Halt::Fail(ParserError::Parse(m.clone()))); }
            XmlEvent::Other => {}
        }
        p += 1;
    }
    Err(Halt::Hang)
}

/// A string of the characters `cs[a..b]`.
fn chars_range(cs: &Vec<char>, a: usize, b: usize) -> (r: String)
    requires
        a <= b <= cs@.len(),
    ensures
        r@ == cs@.subrange(a as int, b as int),
{
    let mut r = String::new();
    let mut k = a;
    while k < b
        invariant
            a <= k <= b,
            b <= cs@.len(),
            r@ == cs@.subrange(a as int, k as int),
        decreases b - k,
    {
        crate::text::push_char(&mut r, cs[k]);
        assert(cs@.subrange(a as int, k + 1) =~= cs@.subrange(a as int, k as int).push(cs@[k as int]));
        k += 1;
    }
    r
}

/// What follows the last `/` of a name.
fn last_segment_exec(s: &str) -> (r: String)
    ensures
        r@ == last_segment(s@),
{
    let cs = chars_of(s);
    let mut k = cs.len();
    while k > 0 && cs[k - 1] != '/'
        invariant
            cs@ == s@,
            k <= cs@.len(),
            rindex(s@, '/', s@.len() as int) == rindex(s@, '/', k as int),
        decreases k,
    {
        k -= 1;
    }
    chars_range(&cs, k, cs.len())
}

/// What stands before the first `$` of a name.
fn top_class_exec(s: &str) -> (r: String)
    ensures
        r@ == top_class(s@),
{
    let cs = chars_of(s);
    let mut k: usize = 0;
    while k < cs.len() && cs[k] != '$'
        invariant
            cs@ == s@,
            k <= cs@.len(),
            findex(s@, '$', 0) == findex(s@, '$', k as int),
        decreases cs@.len() - k,
    {
        k += 1;
    }
    chars_range(&cs, 0, k)
}

/// A name with every trailing `.java` taken off.
fn trim_java_exec(s: &str) -> (r: String)
    ensures
        r@ == trim_java(s@),
{
    let cs = chars_of(s);
    let suffix = chars_of(".java");
    proof {
        reveal_strlit(".java");
    }
    let mut n = cs.len();
    assert(cs@.subrange(0, n as int) =~= cs@);
    loop
        invariant
            cs@ == s@,
            suffix@ == ".java"@,
            suffix@.len() == 5,
            n <= cs@.len(),
            trim_java(s@) == trim_java(cs@.subrange(0, n as int)),
        ensures
            n <= cs@.len(),
            trim_java(s@) == cs@.subrange(0, n as int),
        decreases n,
    {
        let ghost w = cs@.subrange(0, n as int);
        if n < 5 {
            break;
        }
        let mut same = true;
        let mut j: usize = 0;
        while j < 5
            invariant
                n >= 5,
                n <= cs@.len(),
                suffix@.len() == 5,
                j <= 5,
                same == (forall|t: int| 0 <= t < j ==> #[trigger] cs@[n - 5 + t] == suffix@[t]),
            decreases 5 - j,
        {
            same = same && cs[n - 5 + j] == suffix[j];
            j += 1;
        }
        if !same {
            assert(w.subrange(w.len() - 5, w.len() as int) != ".java"@) by {
                let t = choose|t: int| !(0 <= t < 5 ==> #[trigger] cs@[n - 5 + t] == suffix@[t]);
                assert(w.subrange(w.len() - 5, w.len() as int)[t] == cs@[n - 5 + t]);
            }
            break;
        }
        assert(w.subrange(w.len() - 5, w.len() as int) =~= ".java"@) by {
            assert forall|t: int| 0 <= t < 5 implies w.subrange(w.len() - 5, w.len() as int)[t] == ".java"@[t] by {
                assert(cs@[n - 5 + t] == suffix@[t]);
            }
        }
        assert(w.subrange(0, w.len() - 5) =~= cs@.subrange(0, n - 5));
        n -= 5;
    }
    chars_range(&cs, 0, n)
}

/// A path with every leading `/` taken off.
fn trim_slashes_exec(s: &str) -> (r: String)
    ensures
        r@ == trim_slashes(s@),
{
    let cs = chars_of(s);
    let mut k: usize = 0;
    assert(cs@.subrange(0, cs@.len() as int) =~= cs@);
    while k < cs.len() && cs[k] == '/'
        invariant
            cs@ == s@,
            k <= cs@.len(),
            trim_slashes(s@) == trim_slashes(cs@.subrange(k as int, cs@.len() as int)),
        decreases cs@.len() - k,
    {
        assert(cs@.subrange(k as int, cs@.len() as int).drop_first() =~= cs@.subrange(k + 1, cs@.len() as int));
        k += 1;
    }
    chars_range(&cs, k, cs.len())
}

/// Reads a `package` element from event `i` on: the results of its
/// classes, by class name.
fn package_classes_exec(evs: &Vec<XmlEvent>, i: usize, ks: &Keys) -> (r: Result<(CovResultMap, usize), Halt>)
    requires
        keys_ok(*ks),
    ensures
        match r {
            Ok((m, j)) => package_classes(evs_of(evs), i as int, Map::empty()) == JStep::Done(results_views(cov_map_contents(m)), j as int) && i < j <= evs@.len(),
            Err(h) => halts_as(h, package_classes(evs_of(evs), i as int, Map::empty())),
        },
{
    let ghost ev = evs_of(evs);
    let mut m = cov_map_new();
    assert(results_views(cov_map_contents(m)) =~= Map::empty());
    let mut p = i;
    while p < evs.len()
        invariant
            keys_ok(*ks),
            ev == evs_of(evs),
            i <= p,
            package_classes(ev, i as int, Map::empty()) == package_classes(ev, p as int, results_views(cov_map_contents(m))),
        decreases evs@.len() - p,
    {
        let ghost before = results_views(cov_map_contents(m));
        match &evs[p] {
            XmlEvent::Start(n, attrs) => {
                assert(ev[p as int] == XmlEventView::Start(n@, attrs_view(attrs@)));
                if crate::text::bytes_eq(n.as_slice(), ks.class.as_slice()) {
                    let fq = match attr_value(attrs, &ks.name, "name") {
                        Ok(v) => v,
                        Err(e) => { return Err(Halt::Fail(e)); }
                    };
                    let cls = last_segment_exec(fq.as_str());
                    match class_methods_exec(evs, p + 1, cls.as_str(), ks) {
                        Ok((fns, j)) => {
                            let top = top_class_exec(cls.as_str());
                            let ghost fv = function_map_contents(fns);
                            match cov_map_remove(&mut m, top.as_str()) {
                                Some(mut res) => {
                                    let ghost rv = res@;
                                    function_map_extend(&mut res.functions, fns);
                                    cov_map_insert(&mut m, top, res);
                                    assert(results_views(cov_map_contents(m)) =~= add_class(before, top@, fv)) by {
                                        assert(before.contains_key(top@));
                                        assert(before[top@] == rv);
                                    }
                                }
                                None => {
                                    let res = CovResult { lines: BTreeMap::new(), branches: BTreeMap::new(), functions: fns };
                                    assert(branches_view(res.branches) =~= Map::empty());
                                    cov_map_insert(&mut m, top, res);
                                    assert(results_views(cov_map_contents(m)) =~= add_class(before, top@, fv));
                                }
                            }
                            p = j;
                            continue;
                        }
                        Err(h) => { return Err(h); }
                    }
                } else if crate::text::bytes_eq(n.as_slice(), ks.sourcefile.as_slice()) {
                    let sf = match attr_value(attrs, &ks.name, "name") {
                        Ok(v) => v,
                        Err(e) => { return Err(Halt::Fail(e)); }
                    };
                    let cls = trim_java_exec(sf.as_str());
                    match source_lines_exec(evs, p + 1, ks) {
                        Ok((lines, branches, j)) => {
                            let ghost lv = lines@;
                            let ghost bv = branches_view(branches);
                            match cov_map_remove(&mut m, cls.as_str()) {
                                Some(mut res) => {
                                    let ghost rv = res@;
                                    res.lines = lines;
                                    res.branches = branches;
                                    cov_map_insert(&mut m, cls, res);
                                    assert(results_views(cov_map_contents(m)) =~= add_source(before, cls@, lv, bv)) by {
                                        assert(before.contains_key(cls@));
                                        assert(before[cls@] == rv);
                                    }
                                }
                                None => {
                                    let res = CovResult { lines: lines, branches: branches, functions: function_map_new() };
                                    cov_map_insert(&mut m, cls, res);
                                    assert(results_views(cov_map_contents(m)) =~= add_source(before, cls@, lv, bv));
                                }
                            }
                            p = j;
                            continue;
                        }
                        Err(h) => { return Err(h); }
                    }
                }
            }
            XmlEvent::End(n) => {
                if crate::text::bytes_eq(n.as_slice(), ks.package.as_slice()) {
                    return Ok((m, p + 1));
                }
            }
            XmlEvent::Eof => { return Err(Halt::Hang); }
            XmlEvent::Error(e) => { return Err(Halt::Fail(ParserError::Parse(e.clone()))); }
            XmlEvent::Other => {}
        }
        p += 1;
    }
    Err(Halt::Hang)
}

/// The files of a package in some order: each class once, under its file
/// name, with its result.
pub open spec fn package_files(c: Seq<(Seq<char>, CovView)>, package: Seq<char>, m: Map<Seq<char>, CovView>) -> bool {
    exists|cls: Seq<Seq<char>>|
        #![trigger cls.to_set()]
        cls.len() == c.len() && cls.no_duplicates() && cls.to_set() == m.dom()
            && forall|k: int| 0 <= k < c.len() ==> #[trigger] c[k] == (class_file(package, cls[k]), m[cls[k]])
}

/// Where the files of each package start and end in the results of a report.
pub open spec fn cuts_fit(v: Seq<(Seq<char>, CovView)>, ps: Seq<(Seq<char>, Map<Seq<char>, CovView>)>, cuts: Seq<int>) -> bool {
    &&& cuts.len() == ps.len() + 1
    &&& cuts[0] == 0
    &&& cuts[ps.len() as int] == v.len()
    &&& forall|i: int| 0 <= i < ps.len() ==> #[trigger] fits_at(v, ps, cuts, i)
}

/// The files of package `i` stand between its cuts.
pub open spec fn fits_at(v: Seq<(Seq<char>, CovView)>, ps: Seq<(Seq<char>, Map<Seq<char>, CovView>)>, cuts: Seq<int>, i: int) -> bool {
    &&& 0 <= cuts[i]
    &&& cuts[i] <= cuts[i + 1]
    &&& cuts[i + 1] <= v.len()
    &&& package_files(v.subrange(cuts[i], cuts[i + 1]), ps[i].0, ps[i].1)
}

/// The results of a report, package after package, each package's files in
/// some order.
pub open spec fn report_files(v: Seq<(Seq<char>, CovView)>, ps: Seq<(Seq<char>, Map<Seq<char>, CovView>)>) -> bool {
    exists|cuts: Seq<int>| #[trigger] cuts_fit(v, ps, cuts)
}

proof fn lemma_report_files_push(v: Seq<(Seq<char>, CovView)>, ps: Seq<(Seq<char>, Map<Seq<char>, CovView>)>, k: int, p: Seq<char>, m: Map<Seq<char>, CovView>)
    requires
        0 <= k <= v.len(),
        report_files(v.subrange(0, k), ps),
        package_files(v.subrange(k, v.len() as int), p, m),
    ensures
        report_files(v, ps.push((p, m))),
{
    let w = v.subrange(0, k);
    let cuts = choose|cuts: Seq<int>| cuts_fit(w, ps, cuts);
    let ps2 = ps.push((p, m));
    let c2 = cuts.push(v.len() as int);
    assert forall|i: int| 0 <= i < ps2.len() implies #[trigger] fits_at(v, ps2, c2, i) by {
        if i < ps.len() {
            assert(fits_at(w, ps, cuts, i));
            assert(ps2[i] == ps[i]);
            assert(w.subrange(cuts[i], cuts[i + 1]) =~= v.subrange(c2[i], c2[i + 1]));
        } else {
            assert(i == ps.len());
            assert(c2[i] == k);
            assert(c2[i + 1] == v.len());
            assert(ps2[i] == (p, m));
        }
    }
    assert(cuts_fit(v, ps2, c2));
}

/// The results of no package.
proof fn lemma_report_files_empty(v: Seq<(Seq<char>, CovView)>)
    requires
        v.len() == 0,
    ensures
        report_files(v, Seq::empty()),
{
    assert(cuts_fit(v, Seq::empty(), seq![0int]));
}

/// The error for some class of the package that has no source file of its own.
pub open spec fn names_orphan(e: ParserErrorView, package: Seq<char>, m: Map<Seq<char>, CovView>) -> bool {
    exists|c: Seq<char>| #[trigger] orphan(m, c) && e == orphan_error(package, c)
}

/// What reading a report gives, against how the spec says it ends: the
/// files of its packages; the error met; for a class with no source file of
/// its own, an error naming one such class; nothing where reading
/// never ends or stops short.
pub open spec fn report_outcome(r: Option<Result<Vec<(String, CovResult)>, ParserError>>, s: JReport) -> bool {
    match s {
        JReport::Done(ps) => match r {
            Some(Ok(v)) => report_files(results_view(v@), ps),
            _ => false,
        },
        JReport::Fail(e) => match r {
            Some(Err(x)) => x@ == e,
            _ => false,
        },
        JReport::Orphan(p, m) => match r {
            Some(Err(x)) => names_orphan(x@, p, m),
            _ => false,
        },
        JReport::Hang => r is None,
        JReport::Panic => r is None,
    }
}

/// An empty result, to take another's place.
fn empty_result() -> (r: CovResult)
    ensures
        r@ == (CovView { lines: Map::empty(), branches: Map::empty(), functions: Map::empty() }),
{
    let r = CovResult { lines: BTreeMap::new(), branches: BTreeMap::new(), functions: function_map_new() };
    assert(r@.lines =~= Map::empty());
    assert(r@.branches =~= Map::empty());
    assert(r@.functions =~= Map::empty());
    r
}

/// Reads the coverage of a JaCoCo XML report from its events.
pub fn jacoco_from_events(evs: &Vec<XmlEvent>) -> (r: Option<Result<Vec<(String, CovResult)>, ParserError>>)
    ensures
        report_outcome(r, report_packages(evs_of(evs), 0, Seq::empty())),
{
    let ghost ev = evs_of(evs);
    let ks = keys();
    let mut out: Vec<(String, CovResult)> = Vec::new();
    let ghost mut ps: Seq<(Seq<char>, Map<Seq<char>, CovView>)> = Seq::empty();
    proof {
        lemma_report_files_empty(results_view(out@));
    }
    let mut p: usize = 0;
    while p < evs.len()
        invariant
            keys_ok(ks),
            ev == evs_of(evs),
            report_packages(ev, 0, Seq::empty()) == report_packages(ev, p as int, ps),
            report_files(results_view(out@), ps),
        decreases evs@.len() - p,
    {
        match &evs[p] {
            XmlEvent::Start(n, attrs) => {
                assert(ev[p as int] == XmlEventView::Start(n@, attrs_view(attrs@)));
                if crate::text::bytes_eq(n.as_slice(), ks.package.as_slice()) {
                    let pkg = match attr_value(attrs, &ks.name, "name") {
                        Ok(v) => v,
                        Err(e) => { return Some(Err(e)); }
                    };
                    let (m, j) = match package_classes_exec(evs, p + 1, &ks) {
                        Ok(x) => x,
                        Err(Halt::Fail(e)) => { return Some(Err(e)); }
                        Err(_) => { return None; }
                    };
                    let ghost mv = results_views(cov_map_contents(m));
                    let ghost cm = cov_map_contents(m);
                    let mut entries = cov_map_entries(m);
                    let ghost names = result_names(entries@);
                    let ghost orig = entries@;
                    assert(names.no_duplicates());
                    assert((exists|c: Seq<char>| orphan(mv, c)) ==> report_packages(ev, 0, Seq::empty()) == JReport::Orphan(pkg@, mv));
                    let mut k: usize = 0;
                    while k < entries.len()
                        invariant
                            (exists|c: Seq<char>| orphan(mv, c)) ==> report_packages(ev, 0, Seq::empty()) == JReport::Orphan(pkg@, mv),
                            ev == evs_of(evs),
                            entries@ == orig,
                            names == result_names(orig),
                            k <= orig.len(),
                            forall|t: int| 0 <= t < orig.len() ==> cm[#[trigger] orig[t].0@] == orig[t].1,
                            forall|t: int| 0 <= t < k ==> !orphan(mv, #[trigger] names[t]),
                            mv == results_views(cm),
                            names.to_set() == cm.dom(),
                        decreases orig.len() - k,
                    {
                        let ghost c = names[k as int];
                        assert(names[k as int] == orig[k as int].0@);
                        assert(names.to_set().contains(c));
                        assert(branches_view(orig[k as int].1.branches).dom() =~= orig[k as int].1.branches@.dom());
                        if entries[k].1.lines.is_empty() && entries[k].1.branches.is_empty() {
                            let mut msg = "Class ".to_owned();
                            msg.append(pkg.as_str());
                            msg.append("/");
                            msg.append(entries[k].0.as_str());
                            msg.append(" is not the top class in its file.");
                            assert(orphan(mv, c));
                            assert(msg@ =~= orphan_error(pkg@, c)->InvalidData_0);
                            assert(report_packages(ev, 0, Seq::empty()) == JReport::Orphan(pkg@, mv));
                            assert(ParserError::InvalidData(msg)@ == orphan_error(pkg@, c));
                            let err = ParserError::InvalidData(msg);
                            assert(orphan(mv, c) && err@ == orphan_error(pkg@, c));
                            assert(names_orphan(err@, pkg@, mv));
                            let r = Some(Err(err));
                            assert(evs_of(evs) == ev);
                            return r;
                            return Some(Err(ParserError::InvalidData(msg)));
                        }
                        k += 1;
                    }
                    assert forall|c: Seq<char>| !orphan(mv, c) by {
                        if mv.contains_key(c) {
                            assert(names.to_set().contains(c));
                            let t = choose|t: int| 0 <= t < names.len() && names[t] == c;
                            assert(!orphan(mv, names[t]));
                        }
                    }
                    let ghost base = out@.len();
                    let ghost prev = results_view(out@);
                    let mut k: usize = 0;
                    while k < entries.len()
                        invariant
                            names.to_set() == cm.dom(),
                            names.no_duplicates(),
                            report_files(prev, ps),
                            entries@.len() == orig.len(),
                            forall|t: int| k <= t < orig.len() ==> entries@[t] == orig[t],
                            names == result_names(orig),
                            k <= orig.len(),
                            forall|t: int| 0 <= t < orig.len() ==> cm[#[trigger] orig[t].0@] == orig[t].1,
                            mv == results_views(cm),
                            out@.len() == base + k,
                            results_view(out@).subrange(0, base as int) == prev,
                            forall|t: int| 0 <= t < k ==> #[trigger] results_view(out@)[base + t] == (class_file(pkg@, names[t]), mv[names[t]]),
                        decreases orig.len() - k,
                    {
                        let mut e = (String::new(), empty_result());
                        std::mem::swap(&mut e, &mut entries[k]);
                        let (cls, res) = e;
                        let mut path = pkg.clone();
                        path.append("/");
                        path.append(cls.as_str());
                        path.append(".java");
                        let name = trim_slashes_exec(path.as_str());
                        proof {
                            assert(names[k as int] == cls@);
                            assert(names.contains(cls@));
                            assert(cm.contains_key(cls@)) by {
                                assert(names.to_set().contains(cls@));
                            }
                        }
                        let ghost before = out@;
                        out.push((name, res));
                        proof {
                            assert(results_view(out@) =~= results_view(before).push((name@, res@)));
                        }
                        k += 1;
                    }
                    proof {
                        let chunk = results_view(out@).subrange(base as int, results_view(out@).len() as int);
                        assert(chunk.len() == names.len());
                        assert forall|t: int| 0 <= t < chunk.len() implies #[trigger] chunk[t] == (class_file(pkg@, names[t]), mv[names[t]]) by {
                            assert(chunk[t] == results_view(out@)[base + t]);
                        }
                        assert(names.to_set() == mv.dom());
                        assert(package_files(chunk, pkg@, mv));
                        let v = results_view(out@);
                        assert(chunk =~= v.subrange(base as int, v.len() as int));
                        lemma_report_files_push(v, ps, base as int, pkg@, mv);
                        let ps2 = ps.push((pkg@, mv));
                        ps = ps2;
                    }
                    p = j;
                    continue;
                }
            }
            XmlEvent::Eof => { return Some(Ok(out)); }
            XmlEvent::Error(e) => { return Some(Err(ParserError::Parse(e.clone()))); }
            _ => {}
        }
        p += 1;
    }
    None
}

/// Reads the coverage of a JaCoCo XML report: for each package, in the
/// order of the report, the file of each of its classes with its lines,
/// branches and methods.
pub fn parse_jacoco_xml_report(content: &[u8]) -> (r: Option<Result<Vec<(String, CovResult)>, ParserError>>)
    ensures
        report_outcome(r, report_packages(xml_tokens(content@), 0, Seq::empty())),
{
    let evs = xml_events(content);
    jacoco_from_events(&evs)
}

proof fn lemma_trim_slashes_suffix(s: Seq<char>, k: int)
    requires
        0 <= k <= s.len(),
        forall|i: int| 0 <= i < k ==> s[i] == '/',
        k < s.len() ==> s[k] != '/',
    ensures
        trim_slashes(s) == s.subrange(k, s.len() as int),
    decreases s.len(),
{
    if k == 0 {
        assert(s.subrange(0, s.len() as int) =~= s);
    } else {
        assert(s.drop_first() =~= s.subrange(1, s.len() as int));
        lemma_trim_slashes_suffix(s.drop_first(), k - 1);
        assert(s.drop_first().subrange(k - 1, s.drop_first().len() as int) =~= s.subrange(k, s.len() as int));
    }
}

/// The file of a class always ends in `.java`.
pub proof fn law_class_file_is_java(package: Seq<char>, c: Seq<char>)
    ensures
        class_file(package, c).len() >= 5,
        class_file(package, c).subrange(class_file(package, c).len() - 5, class_file(package, c).len() as int) == ".java"@,
{
    reveal_strlit(".java");
    reveal_strlit("/");
    let s = package + "/"@ + c + ".java"@;
    let k = findex_not_slash(s, 0);
    lemma_findex_not_slash(s, 0);
    lemma_trim_slashes_suffix(s, k);
    assert(s.subrange(s.len() - 5, s.len() as int) =~= ".java"@);
    assert(k <= s.len() - 5) by {
        assert(s[s.len() - 5] == '.');
    }
    let t = s.subrange(k, s.len() as int);
    assert(t.subrange(t.len() - 5, t.len() as int) =~= ".java"@);
}

/// The first index from `k` on that holds no `/`, or the length.
pub open spec fn findex_not_slash(s: Seq<char>, k: int) -> int
    decreases s.len() - k,
{
    if k >= s.len() { s.len() as int } else if s[k] != '/' { k } else { findex_not_slash(s, k + 1) }
}

proof fn lemma_findex_not_slash(s: Seq<char>, k: int)
    requires
        0 <= k <= s.len(),
        forall|i: int| 0 <= i < k ==> s[i] == '/',
    ensures
        k <= findex_not_slash(s, k) <= s.len(),
        forall|i: int| 0 <= i < findex_not_slash(s, k) ==> s[i] == '/',
        findex_not_slash(s, k) < s.len() ==> s[findex_not_slash(s, k)] != '/',
    decreases s.len() - k,
{
    if k < s.len() && s[k] == '/' {
        lemma_findex_not_slash(s, k + 1);
    }
}


/// A `line` element of a source file gives branches exactly where it has
/// some: reading a `line` element whose attributes give `ci` covered
/// instructions, `cb` covered and `mb` missed branches at line `nr`, then the
/// end of the source file, adds to the branches at `nr` `cb` taken outcomes
/// followed by `mb` missed ones where `cb + mb > 0`, and leaves the line
/// counts alone; where the line has no branches it gets count 1 if an
/// instruction was covered, 0 if none was, and the branches are left alone.
pub proof fn law_jacoco_line_branches(attrs: Seq<XmlAttrView>, ci: u64, cb: u64, mb: u64, nr: u32,
    lines: Map<u32, u64>, branches: Map<u32, Seq<bool>>)
    requires
        line_attrs(attrs, 0, LineAttrs { ci: None, cb: None, mb: None, nr: None })
            == Ok::<LineAttrs, ParserErrorView>(LineAttrs { ci: Some(ci), cb: Some(cb), mb: Some(mb), nr: Some(nr) }),
        cb + mb <= isize::MAX,
    ensures
        source_lines(seq![XmlEventView::Start(b_line(), attrs), XmlEventView::End(b_sourcefile())], 0, lines, branches)
            == JStep::Done(
                if cb + mb > 0 {
                    (lines, branches.insert(nr, Seq::new((cb + mb) as nat, |k: int| k < cb)))
                } else {
                    (lines.insert(nr, if ci > 0 { 1u64 } else { 0u64 }), branches)
                },
                2,
            ),
{
    let evs = seq![XmlEventView::Start(b_line(), attrs), XmlEventView::End(b_sourcefile())];
    assert((cb as usize) as int == cb as int);
    assert((mb as usize) as int == mb as int);
    assert(line_branches(cb, mb) =~= Seq::new((cb + mb) as nat, |k: int| k < cb));
    if cb + mb > 0 {
        assert(source_lines(evs, 0, lines, branches) == source_lines(evs, 1, lines, branches.insert(nr, line_branches(cb, mb))));
    } else {
        assert(source_lines(evs, 0, lines, branches) == source_lines(evs, 1, lines.insert(nr, if ci > 0 { 1u64 } else { 0u64 }), branches));
    }
}

}
