use vstd::prelude::*;
use std::io::Read;
use std::collections::BTreeMap;
use crate::defs::{CovResult, CovView, Function, FunctionMap};


verus! {

/// Whether a byte ends a line.
pub open spec fn is_newline_byte(b: u8) -> bool {
    b == 10u8 || b == 13u8
}

/// A line with every trailing `\n` and `\r` removed.
pub open spec fn strip_newlines(s: Seq<u8>) -> Seq<u8>
    decreases s.len(),
{
    if s.len() > 0 && is_newline_byte(s.last()) {
        strip_newlines(s.drop_last())
    } else {
        s
    }
}

/// Removes every trailing `\n` and `\r` from a line.
pub fn remove_newline(l: &mut Vec<u8>)
    ensures
        final(l)@ == strip_newlines(old(l)@),
{
    loop
        invariant
            strip_newlines(l@) == strip_newlines(old(l)@),
        ensures
            l@ == strip_newlines(old(l)@),
        decreases l@.len(),
    {
        let n = l.len();
        if n == 0 {
            break;
        }
        let last = l[n - 1];
        if last != 10u8 && last != 13u8 {
            break;
        }
        l.pop();
        assert(l@ == old(l)@.drop_last() || true);
    }
}

/// The outcomes of a line's branches after branch `no` is recorded as `taken`.
/// A line seen for the first time gets the one outcome, whatever its number;
/// a number past the end pads the outcomes with untaken branches; a number
/// already there is taken if it was or now is.
pub open spec fn added_branch(branches: Map<u32, Seq<bool>>, line_no: u32, no: u32, taken: bool) -> Map<u32, Seq<bool>> {
    if branches.contains_key(line_no) {
        let v = branches[line_no];
        if no < v.len() {
            branches.insert(line_no, v.update(no as int, v[no as int] || taken))
        } else {
            branches.insert(line_no, v + Seq::new((no - v.len()) as nat, |i: int| false) + seq![taken])
        }
    } else {
        branches.insert(line_no, seq![taken])
    }
}

/// Records the outcome of branch `no` of line `line_no`.
pub fn add_branch(branches: &mut BTreeMap<u32, Vec<bool>>, line_no: u32, no: u32, taken: bool)
    ensures
        crate::defs::branches_view(*final(branches)) == added_branch(crate::defs::branches_view(*old(branches)), line_no, no, taken),
{
    let ghost before = crate::defs::branches_view(*branches);
    let cur = branches.get(&line_no);
    match cur {
        Some(c) => {
            assert(crate::defs::branches_view(*branches).contains_key(line_no));
            assert(c@ == before[line_no]);
            let mut v = c.clone();
            assert(v@ =~= c@);
            let l = v.len();
            let no = no as usize;
            if no < l {
                let x = v[no] || taken;
                v.set(no, x);
                assert(v@ =~= before[line_no].update(no as int, before[line_no][no as int] || taken));
            } else {
                let ghost v0 = v@;
                let mut j = l;
                while j < no
                    invariant
                        l <= j <= no,
                        v@ =~= v0 + Seq::new((j - l) as nat, |i: int| false),
                    decreases no - j,
                {
                    v.push(false);
                    j += 1;
                }
                v.push(taken);
                assert(v@ =~= before[line_no] + Seq::new((no - l) as nat, |i: int| false) + seq![taken]);
            }
            let ghost nv = v@;
            branches.insert(line_no, v);
            assert(crate::defs::branches_view(*branches) =~= before.insert(line_no, nv));
        }
        None => {
            let mut v = Vec::new();
            v.push(taken);
            let ghost nv = v@;
            branches.insert(line_no, v);
            assert(crate::defs::branches_view(*branches) =~= before.insert(line_no, nv));
            assert(nv =~= seq![taken]);
        }
    }
}


#[verifier::external_type_specification]
#[verifier::external_body]
pub struct ExIoError(std::io::Error);

/// Why a coverage file could not be parsed.
#[derive(Debug)]
pub enum ParserError {
    Io(std::io::Error),
    Parse(String),
    InvalidRecord(String),
    InvalidData(String),
}

/// A parse error as a spec value; an I/O error is known only by its kind.
pub enum ParserErrorView {
    Io,
    Parse(Seq<char>),
    InvalidRecord(Seq<char>),
    InvalidData(Seq<char>),
}

impl View for ParserError {
    type V = ParserErrorView;

    open spec fn view(&self) -> ParserErrorView {
        match self {
            ParserError::Io(_) => ParserErrorView::Io,
            ParserError::Parse(s) => ParserErrorView::Parse(s@),
            ParserError::InvalidRecord(s) => ParserErrorView::InvalidRecord(s@),
            ParserError::InvalidData(s) => ParserErrorView::InvalidData(s@),
        }
    }
}

/// Results of a parser as spec values: each file name with its coverage.
pub open spec fn results_view(v: Seq<(String, CovResult)>) -> Seq<(Seq<char>, CovView)> {
    v.map_values(|r: (String, CovResult)| (r.0@, r.1@))
}

/// The first index from `p` on that holds `a`, or the length if none does.
pub open spec fn find_byte(s: Seq<u8>, p: int, a: u8) -> int
    decreases s.len() - p,
{
    if p >= s.len() {
        s.len() as int
    } else if s[p] == a {
        p
    } else {
        find_byte(s, p + 1, a)
    }
}

/// The first index from `p` on that holds `\n` or `\r`, or the length if none does.
pub open spec fn find_eol(s: Seq<u8>, p: int) -> int
    decreases s.len() - p,
{
    if p >= s.len() {
        s.len() as int
    } else if is_newline_byte(s[p]) {
        p
    } else {
        find_eol(s, p + 1)
    }
}

/// The position after the byte at `k` has been read, if there is one.
pub open spec fn past(s: Seq<u8>, k: int) -> int {
    if k < s.len() { k + 1 } else { s.len() as int }
}

/// The bytes of `s[p..q]` folded base 256 onto `acc`; `None` where a step
/// leaves `u32`.
pub open spec fn fold_key(s: Seq<u8>, p: int, q: int, acc: int) -> Option<u32>
    decreases q - p,
{
    if p >= q {
        if 0 <= acc <= u32::MAX { Some(acc as u32) } else { None }
    } else if acc * 256 + s[p] > u32::MAX {
        None
    } else {
        fold_key(s, p + 1, q, acc * 256 + s[p])
    }
}

/// The bytes of `s[p..q]` read as decimal digits onto `acc`; `None` where a
/// byte lies below `0` or a step goes past `max`.
pub open spec fn fold_dec(s: Seq<u8>, p: int, q: int, acc: int, max: int) -> Option<int>
    decreases q - p,
{
    if p >= q {
        Some(acc)
    } else if s[p] < 48 || acc * 10 + (s[p] - 48) > max {
        None
    } else {
        fold_dec(s, p + 1, q, acc * 10 + (s[p] - 48), max)
    }
}

/// The first index in `p..q` whose byte is not `-`, or `q` if there is none.
pub open spec fn first_not_dash(s: Seq<u8>, p: int, q: int) -> int
    decreases q - p,
{
    if p >= q {
        q
    } else if s[p] != 45 {
        p
    } else {
        first_not_dash(s, p + 1, q)
    }
}

/// The record keys of an lcov file, as their bytes folded base 256.
pub open spec fn key_sf() -> u32 { 21318 }
pub open spec fn key_da() -> u32 { 17473 }
pub open spec fn key_fn() -> u32 { 17998 }
pub open spec fn key_fnda() -> u32 { 1179534401 }
pub open spec fn key_brda() -> u32 { 1112687681 }

/// What an lcov parse has gathered so far.
pub struct LcovState {
    pub file: Option<Seq<char>>,
    pub lines: Map<u32, u64>,
    pub branches: Map<u32, Seq<bool>>,
    pub functions: Map<Seq<char>, Function>,
    pub results: Seq<(Seq<char>, CovView)>,
    pub count: int,
}

/// What reading one record does.
pub enum LcovStep {
    Next(int, LcovState),
    Fail(ParserErrorView),
    Panic,
}

/// How a parse ends.
pub enum LcovOutcome {
    Done(Seq<(Seq<char>, CovView)>),
    Failed(ParserErrorView),
    Panics,
}

/// The error for a record cut short, at the given record count.
pub open spec fn record_error(kind: Seq<char>, count: int) -> ParserErrorView {
    ParserErrorView::InvalidRecord(kind + crate::text::decimal(count as nat))
}

pub open spec fn da_at_line() -> Seq<char> { "DA at line "@ }
pub open spec fn fn_at_line() -> Seq<char> { "FN at line "@ }
pub open spec fn fnda_at_line() -> Seq<char> { "FNDA at line "@ }
pub open spec fn brda_at_line() -> Seq<char> { "BRDA at line "@ }
pub open spec fn fn_missing() -> Seq<char> { "FN record missing for function "@ }

/// The state after a record has been read: same coverage, next count.
pub open spec fn counted(st: LcovState) -> LcovState {
    LcovState { count: st.count + 1, ..st }
}

/// Reading a `DA` record (execution count of a line) whose fields start at `r`.
pub open spec fn lcov_da(s: Seq<u8>, r: int, st: LcovState) -> LcovStep {
    let q2 = find_byte(s, r, 44);
    match fold_dec(s, r, q2, 0, u32::MAX as int) {
        None => LcovStep::Panic,
        Some(line_no) => {
            let r2 = past(s, q2);
            if r2 >= s.len() {
                LcovStep::Fail(record_error(da_at_line(), st.count))
            } else {
                let c2 = s[r2];
                let parsed: Option<(int, int)> = if c2 == 45 {
                    Some((0int, past(s, find_byte(s, r2 + 1, 10))))
                } else if c2 < 48 {
                    None
                } else {
                    let e = find_eol(s, r2 + 1);
                    match fold_dec(s, r2 + 1, e, c2 - 48, u64::MAX as int) {
                        None => None,
                        Some(cnt) => Some((cnt, past(s, e))),
                    }
                };
                match parsed {
                    None => LcovStep::Panic,
                    Some((cnt, next)) => {
                        let ln = line_no as u32;
                        let prev: int = if st.lines.contains_key(ln) { st.lines[ln] as int } else { 0 };
                        if prev + cnt > u64::MAX {
                            LcovStep::Panic
                        } else {
                            LcovStep::Next(next, LcovState { lines: st.lines.insert(ln, (prev + cnt) as u64), ..st })
                        }
                    }
                }
            }
        }
    }
}

/// Reading an `FN` record (a function and its start line) whose fields start at `r`.
pub open spec fn lcov_fn(s: Seq<u8>, r: int, st: LcovState) -> LcovStep {
    let q2 = find_byte(s, r, 44);
    match fold_dec(s, r, q2, 0, u32::MAX as int) {
        None => LcovStep::Panic,
        Some(start) => {
            let r2 = past(s, q2);
            if r2 >= s.len() {
                LcovStep::Fail(record_error(fn_at_line(), st.count))
            } else {
                let e = find_eol(s, r2);
                let name = crate::text::latin1(s.subrange(r2, e));
                LcovStep::Next(past(s, e), LcovState {
                    functions: st.functions.insert(name, Function { start: start as u32, executed: false }),
                    ..st
                })
            }
        }
    }
}

/// Reading an `FNDA` record (whether a function ran) whose fields start at `r`.
pub open spec fn lcov_fnda(s: Seq<u8>, r: int, st: LcovState) -> LcovStep {
    let q2 = find_byte(s, r, 44);
    match fold_dec(s, r, q2, 0, u64::MAX as int) {
        None => LcovStep::Panic,
        Some(ex) => {
            let r2 = past(s, q2);
            if r2 >= s.len() {
                LcovStep::Fail(record_error(fnda_at_line(), st.count))
            } else {
                let e = find_eol(s, r2);
                let name = crate::text::latin1(s.subrange(r2, e));
                if st.functions.contains_key(name) {
                    let f = st.functions[name];
                    LcovStep::Next(past(s, e), LcovState {
                        functions: st.functions.insert(name, Function { start: f.start, executed: f.executed || ex != 0 }),
                        ..st
                    })
                } else {
                    LcovStep::Fail(ParserErrorView::Parse(fn_missing() + name))
                }
            }
        }
    }
}

/// Reading a `BRDA` record (outcome of a branch) whose fields start at `r`.
/// The outcome is taken at its first byte other than `-`, and reading stops there.
pub open spec fn lcov_brda(s: Seq<u8>, r: int, st: LcovState) -> LcovStep {
    let q2 = find_byte(s, r, 44);
    match fold_dec(s, r, q2, 0, u32::MAX as int) {
        None => LcovStep::Panic,
        Some(line_no) => {
            let r2 = past(s, q2);
            if r2 >= s.len() {
                LcovStep::Fail(record_error(brda_at_line(), st.count))
            } else {
                let q3 = find_byte(s, r2, 44);
                match fold_dec(s, r2, q3, 0, u64::MAX as int) {
                    None => LcovStep::Panic,
                    Some(_block) => {
                        let r3 = past(s, q3);
                        if r3 >= s.len() {
                            LcovStep::Fail(record_error(brda_at_line(), st.count))
                        } else {
                            let q4 = find_byte(s, r3, 44);
                            match fold_dec(s, r3, q4, 0, u32::MAX as int) {
                                None => LcovStep::Panic,
                                Some(no) => {
                                    let r4 = past(s, q4);
                                    if r4 >= s.len() {
                                        LcovStep::Fail(record_error(brda_at_line(), st.count))
                                    } else {
                                        let e = find_eol(s, r4);
                                        let t = first_not_dash(s, r4, e);
                                        let next = if t < e { t + 1 } else { past(s, e) };
                                        LcovStep::Next(next, LcovState {
                                            branches: added_branch(st.branches, line_no as u32, no as u32, t < e),
                                            ..st
                                        })
                                    }
                                }
                            }
                        }
                    }
                }
            }
        }
    }
}

/// Reading the record that starts at `p` (with the record count already raised).
pub open spec fn lcov_record(s: Seq<u8>, p: int, st: LcovState, branch_enabled: bool) -> LcovStep {
    let c = s[p];
    if c == 101 {
        match st.file {
            None => LcovStep::Panic,
            Some(f) => LcovStep::Next(past(s, find_byte(s, p + 1, 10)), LcovState {
                file: None,
                lines: Map::empty(),
                branches: Map::empty(),
                functions: Map::empty(),
                results: st.results.push((f, CovView { lines: st.lines, branches: st.branches, functions: st.functions })),
                count: st.count,
            }),
        }
    } else if c == 10 {
        LcovStep::Next(p + 1, st)
    } else if c != 83 && c != 68 && c != 70 && c != 66 {
        LcovStep::Next(past(s, find_byte(s, p + 1, 10)), st)
    } else {
        let q = find_byte(s, p + 1, 58);
        let r = past(s, q);
        match fold_key(s, p + 1, q, c as int) {
            None => LcovStep::Panic,
            Some(key) => {
                if key == key_sf() {
                    let e = find_eol(s, r);
                    LcovStep::Next(past(s, e), LcovState { file: Some(crate::text::latin1(s.subrange(r, e))), ..st })
                } else if key == key_da() {
                    lcov_da(s, r, st)
                } else if key == key_fn() {
                    lcov_fn(s, r, st)
                } else if key == key_fnda() {
                    lcov_fnda(s, r, st)
                } else if key == key_brda() && branch_enabled {
                    lcov_brda(s, r, st)
                } else {
                    LcovStep::Next(past(s, find_byte(s, r, 10)), st)
                }
            }
        }
    }
}

/// Reading the record that starts at `p`: the record count goes up by one,
/// which it may not do past `i32::MAX`.
pub open spec fn lcov_step(s: Seq<u8>, p: int, st: LcovState, branch_enabled: bool) -> LcovStep {
    if st.count + 1 > i32::MAX {
        LcovStep::Panic
    } else {
        lcov_record(s, p, counted(st), branch_enabled)
    }
}

/// Parsing an lcov buffer from position `p` on.
pub open spec fn lcov_run(s: Seq<u8>, p: int, st: LcovState, branch_enabled: bool) -> LcovOutcome
    decreases s.len() - p,
{
    if p >= s.len() {
        LcovOutcome::Done(st.results)
    } else {
        match lcov_step(s, p, st, branch_enabled) {
            LcovStep::Next(p2, st2) => if p < p2 && p2 <= s.len() { lcov_run(s, p2, st2, branch_enabled) } else { LcovOutcome::Panics },
            LcovStep::Fail(e) => LcovOutcome::Failed(e),
            LcovStep::Panic => LcovOutcome::Panics,
        }
    }
}

/// The state a parse starts from.
pub open spec fn lcov_initial() -> LcovState {
    LcovState { file: None, lines: Map::empty(), branches: Map::empty(), functions: Map::empty(), results: Seq::empty(), count: 0 }
}

/// How parsing a whole lcov buffer ends.
pub open spec fn lcov_parse(s: Seq<u8>, branch_enabled: bool) -> LcovOutcome {
    lcov_run(s, 0, lcov_initial(), branch_enabled)
}


fn find_byte_exec(buf: &Vec<u8>, p: usize, a: u8) -> (k: usize)
    requires
        p <= buf@.len(),
    ensures
        k == find_byte(buf@, p as int, a),
        p <= k <= buf@.len(),
{
    let mut i = p;
    while i < buf.len() && buf[i] != a
        invariant
            p <= i <= buf@.len(),
            find_byte(buf@, i as int, a) == find_byte(buf@, p as int, a),
        decreases buf@.len() - i,
    {
        i += 1;
    }
    i
}

fn find_eol_exec(buf: &Vec<u8>, p: usize) -> (k: usize)
    requires
        p <= buf@.len(),
    ensures
        k == find_eol(buf@, p as int),
        p <= k <= buf@.len(),
{
    let mut i = p;
    while i < buf.len() && buf[i] != 10u8 && buf[i] != 13u8
        invariant
            p <= i <= buf@.len(),
            find_eol(buf@, i as int) == find_eol(buf@, p as int),
        decreases buf@.len() - i,
    {
        i += 1;
    }
    i
}

fn past_exec(buf: &Vec<u8>, k: usize) -> (r: usize)
    requires
        k <= buf@.len(),
    ensures
        r == past(buf@, k as int),
{
    if k < buf.len() { k + 1 } else { buf.len() }
}

fn first_not_dash_exec(buf: &Vec<u8>, p: usize, q: usize) -> (k: usize)
    requires
        p <= q <= buf@.len(),
    ensures
        k == first_not_dash(buf@, p as int, q as int),
        p <= k <= q,
{
    let mut i = p;
    while i < q && buf[i] == 45u8
        invariant
            p <= i <= q <= buf@.len(),
            first_not_dash(buf@, i as int, q as int) == first_not_dash(buf@, p as int, q as int),
        decreases q - i,
    {
        i += 1;
    }
    i
}

fn fold_key_exec(buf: &Vec<u8>, p: usize, q: usize, c: u8) -> (res: Option<u32>)
    requires
        p <= q <= buf@.len(),
    ensures
        res == fold_key(buf@, p as int, q as int, c as int),
{
    let mut acc: u32 = c as u32;
    let mut i = p;
    while i < q
        invariant
            p <= i <= q <= buf@.len(),
            fold_key(buf@, i as int, q as int, acc as int) == fold_key(buf@, p as int, q as int, c as int),
        decreases q - i,
    {
        let r: u64 = (acc as u64) * 256 + (buf[i] as u64);
        if r > 4294967295u64 {
            return None;
        }
        acc = r as u32;
        i += 1;
    }
    Some(acc)
}

fn fold_dec_exec(buf: &Vec<u8>, p: usize, q: usize, start: u64, max: u64) -> (res: Option<u64>)
    requires
        p <= q <= buf@.len(),
        start <= max,
    ensures
        res matches Some(v) ==> fold_dec(buf@, p as int, q as int, start as int, max as int) == Some(v as int) && v <= max,
        res is None ==> fold_dec(buf@, p as int, q as int, start as int, max as int) is None,
{
    let mut acc: u64 = start;
    let mut i = p;
    while i < q
        invariant
            p <= i <= q <= buf@.len(),
            acc <= max,
            fold_dec(buf@, i as int, q as int, acc as int, max as int) == fold_dec(buf@, p as int, q as int, start as int, max as int),
        decreases q - i,
    {
        let b = buf[i];
        if b < 48u8 {
            return None;
        }
        let r: u128 = (acc as u128) * 10 + ((b - 48u8) as u128);
        if r > max as u128 {
            return None;
        }
        acc = r as u64;
        i += 1;
    }
    Some(acc)
}


/// The state of an lcov parse while it runs.
struct LcovParser {
    file: Option<String>,
    lines: BTreeMap<u32, u64>,
    branches: BTreeMap<u32, Vec<bool>>,
    functions: FunctionMap,
    results: Vec<(String, CovResult)>,
    count: u32,
}

impl LcovParser {
    spec fn state(&self) -> LcovState {
        LcovState {
            file: match self.file { Some(f) => Some(f@), None => None },
            lines: self.lines@,
            branches: crate::defs::branches_view(self.branches),
            functions: crate::defs::fmap(self.functions),
            results: results_view(self.results@),
            count: self.count as int,
        }
    }
}

enum StepExec {
    Next(usize),
    Fail(ParserError),
    Panic,
}

spec fn step_matches(r: StepExec, spec_step: LcovStep, st: LcovState) -> bool {
    match spec_step {
        LcovStep::Next(p2, st2) => r == StepExec::Next(p2 as usize) && st == st2,
        LcovStep::Fail(e) => r matches StepExec::Fail(x) && x@ == e,
        LcovStep::Panic => r is Panic,
    }
}

fn record_error_exec(kind: &str, count: u32) -> (e: ParserError)
    ensures
        e@ == record_error(kind@, count as int),
{
    let mut m = kind.to_owned();
    crate::text::push_decimal(&mut m, count as u64);
    ParserError::InvalidRecord(m)
}

fn lcov_da_exec(buf: &Vec<u8>, r: usize, st: &mut LcovParser) -> (res: StepExec)
    requires
        r <= buf@.len(),
    ensures
        step_matches(res, lcov_da(buf@, r as int, old(st).state()), final(st).state()),
{
    let q2 = find_byte_exec(buf, r, 44u8);
    let line_no = match fold_dec_exec(buf, r, q2, 0, 4294967295u64) {
        None => { return StepExec::Panic; }
        Some(v) => v as u32,
    };
    let r2 = past_exec(buf, q2);
    if r2 >= buf.len() {
        return StepExec::Fail(record_error_exec("DA at line ", st.count));
    }
    let c2 = buf[r2];
    let cnt: u64;
    let next: usize;
    if c2 == 45u8 {
        cnt = 0;
        let e = find_byte_exec(buf, r2 + 1, 10u8);
        next = past_exec(buf, e);
    } else if c2 < 48u8 {
        return StepExec::Panic;
    } else {
        let e = find_eol_exec(buf, r2 + 1);
        match fold_dec_exec(buf, r2 + 1, e, (c2 - 48u8) as u64, 18446744073709551615u64) {
            None => { return StepExec::Panic; }
            Some(v) => { cnt = v; }
        }
        next = past_exec(buf, e);
    }
    let prev: u64 = match st.lines.get(&line_no) {
        Some(x) => *x,
        None => 0,
    };
    match prev.checked_add(cnt) {
        None => StepExec::Panic,
        Some(total) => {
            st.lines.insert(line_no, total);
            StepExec::Next(next)
        }
    }
}


fn lcov_fn_exec(buf: &Vec<u8>, r: usize, st: &mut LcovParser) -> (res: StepExec)
    requires
        r <= buf@.len(),
    ensures
        step_matches(res, lcov_fn(buf@, r as int, old(st).state()), final(st).state()),
{
    let q2 = find_byte_exec(buf, r, 44u8);
    let start = match fold_dec_exec(buf, r, q2, 0, 4294967295u64) {
        None => { return StepExec::Panic; }
        Some(v) => v as u32,
    };
    let r2 = past_exec(buf, q2);
    if r2 >= buf.len() {
        return StepExec::Fail(record_error_exec("FN at line ", st.count));
    }
    let e = find_eol_exec(buf, r2);
    let name = crate::text::latin1_string(buf.as_slice(), r2, e);
    crate::defs::function_map_insert(&mut st.functions, name, Function { start, executed: false });
    StepExec::Next(past_exec(buf, e))
}

fn lcov_fnda_exec(buf: &Vec<u8>, r: usize, st: &mut LcovParser) -> (res: StepExec)
    requires
        r <= buf@.len(),
    ensures
        step_matches(res, lcov_fnda(buf@, r as int, old(st).state()), final(st).state()),
{
    let q2 = find_byte_exec(buf, r, 44u8);
    let ex = match fold_dec_exec(buf, r, q2, 0, 18446744073709551615u64) {
        None => { return StepExec::Panic; }
        Some(v) => v,
    };
    let r2 = past_exec(buf, q2);
    if r2 >= buf.len() {
        return StepExec::Fail(record_error_exec("FNDA at line ", st.count));
    }
    let e = find_eol_exec(buf, r2);
    let name = crate::text::latin1_string(buf.as_slice(), r2, e);
    match crate::defs::function_map_get(&st.functions, name.as_str()) {
        Some(f) => {
            crate::defs::function_map_insert(&mut st.functions, name, Function { start: f.start, executed: f.executed || ex != 0 });
            StepExec::Next(past_exec(buf, e))
        }
        None => {
            let mut m = "FN record missing for function ".to_owned();
            m.append(name.as_str());
            StepExec::Fail(ParserError::Parse(m))
        }
    }
}

fn lcov_brda_exec(buf: &Vec<u8>, r: usize, st: &mut LcovParser) -> (res: StepExec)
    requires
        r <= buf@.len(),
    ensures
        step_matches(res, lcov_brda(buf@, r as int, old(st).state()), final(st).state()),
{
    let q2 = find_byte_exec(buf, r, 44u8);
    let line_no = match fold_dec_exec(buf, r, q2, 0, 4294967295u64) {
        None => { return StepExec::Panic; }
        Some(v) => v as u32,
    };
    let r2 = past_exec(buf, q2);
    if r2 >= buf.len() {
        return StepExec::Fail(record_error_exec("BRDA at line ", st.count));
    }
    let q3 = find_byte_exec(buf, r2, 44u8);
    match fold_dec_exec(buf, r2, q3, 0, 18446744073709551615u64) {
        None => { return StepExec::Panic; }
        Some(_) => {}
    }
    let r3 = past_exec(buf, q3);
    if r3 >= buf.len() {
        return StepExec::Fail(record_error_exec("BRDA at line ", st.count));
    }
    let q4 = find_byte_exec(buf, r3, 44u8);
    let no = match fold_dec_exec(buf, r3, q4, 0, 4294967295u64) {
        None => { return StepExec::Panic; }
        Some(v) => v as u32,
    };
    let r4 = past_exec(buf, q4);
    if r4 >= buf.len() {
        return StepExec::Fail(record_error_exec("BRDA at line ", st.count));
    }
    let e = find_eol_exec(buf, r4);
    let t = first_not_dash_exec(buf, r4, e);
    let next = if t < e { t + 1 } else { past_exec(buf, e) };
    add_branch(&mut st.branches, line_no, no, t < e);
    StepExec::Next(next)
}


fn lcov_record_exec(buf: &Vec<u8>, p: usize, st: &mut LcovParser, branch_enabled: bool) -> (res: StepExec)
    requires
        p < buf@.len(),
    ensures
        step_matches(res, lcov_record(buf@, p as int, old(st).state(), branch_enabled), final(st).state()),
{
    let c = buf[p];
    let n = buf.len();
    assert(p < n);
    let p1 = p + 1;
    if c == 101u8 {
        let file = st.file.take();
        match file {
            None => StepExec::Panic,
            Some(f) => {
                let mut lines = BTreeMap::new();
                std::mem::swap(&mut lines, &mut st.lines);
                let mut branches = BTreeMap::new();
                std::mem::swap(&mut branches, &mut st.branches);
                let mut functions = crate::defs::function_map_new();
                std::mem::swap(&mut functions, &mut st.functions);
                assert(crate::defs::branches_view(st.branches) =~= Map::empty());
                let ghost before = results_view(st.results@);
                st.results.push((f, CovResult { lines, branches, functions }));
                assert(results_view(st.results@) =~= before.push((f@, CovView { lines: lines@, branches: crate::defs::branches_view(branches), functions: crate::defs::fmap(functions) })));
                let e = find_byte_exec(buf, p1, 10u8);
                StepExec::Next(past_exec(buf, e))
            }
        }
    } else if c == 10u8 {
        StepExec::Next(p + 1)
    } else if c != 83u8 && c != 68u8 && c != 70u8 && c != 66u8 {
        let e = find_byte_exec(buf, p1, 10u8);
        StepExec::Next(past_exec(buf, e))
    } else {
        let q = find_byte_exec(buf, p + 1, 58u8);
        let r = past_exec(buf, q);
        match fold_key_exec(buf, p + 1, q, c) {
            None => StepExec::Panic,
            Some(key) => {
                if key == 21318u32 {
                    let e = find_eol_exec(buf, r);
                    st.file = Some(crate::text::latin1_string(buf.as_slice(), r, e));
                    StepExec::Next(past_exec(buf, e))
                } else if key == 17473u32 {
                    lcov_da_exec(buf, r, st)
                } else if key == 17998u32 {
                    lcov_fn_exec(buf, r, st)
                } else if key == 1179534401u32 {
                    lcov_fnda_exec(buf, r, st)
                } else if key == 1112687681u32 && branch_enabled {
                    lcov_brda_exec(buf, r, st)
                } else {
                    let e = find_byte_exec(buf, r, 10u8);
                    StepExec::Next(past_exec(buf, e))
                }
            }
        }
    }
}

/// Reading one record advances the position and never past the end.
proof fn lemma_lcov_step_advances(s: Seq<u8>, p: int, st: LcovState, branch_enabled: bool)
    requires
        0 <= p < s.len(),
    ensures
        lcov_step(s, p, st, branch_enabled) matches LcovStep::Next(p2, _) ==> p < p2 <= s.len(),
{
    lemma_find_byte_bounds(s, p + 1, 10);
    lemma_find_byte_bounds(s, p + 1, 58);
    let q = find_byte(s, p + 1, 58);
    let r = past(s, q);
    lemma_find_byte_bounds(s, r, 10);
    lemma_find_byte_bounds(s, r, 44);
    lemma_find_eol_bounds(s, r);
    let q2 = find_byte(s, r, 44);
    let r2 = past(s, q2);
    lemma_find_byte_bounds(s, r2, 44);
    lemma_find_byte_bounds(s, r2 + 1, 10);
    lemma_find_eol_bounds(s, r2);
    lemma_find_eol_bounds(s, r2 + 1);
    let q3 = find_byte(s, r2, 44);
    let r3 = past(s, q3);
    lemma_find_byte_bounds(s, r3, 44);
    let q4 = find_byte(s, r3, 44);
    let r4 = past(s, q4);
    lemma_find_eol_bounds(s, r4);
    lemma_first_not_dash_bounds(s, r4, find_eol(s, r4));
}

proof fn lemma_find_byte_bounds(s: Seq<u8>, p: int, a: u8)
    ensures
        p <= s.len() ==> p <= find_byte(s, p, a) <= s.len(),
        p > s.len() ==> find_byte(s, p, a) == s.len(),
    decreases s.len() - p,
{
    if p < s.len() && s[p] != a {
        lemma_find_byte_bounds(s, p + 1, a);
    }
}

proof fn lemma_find_eol_bounds(s: Seq<u8>, p: int)
    ensures
        p <= s.len() ==> p <= find_eol(s, p) <= s.len(),
        p > s.len() ==> find_eol(s, p) == s.len(),
    decreases s.len() - p,
{
    if p < s.len() && !is_newline_byte(s[p]) {
        lemma_find_eol_bounds(s, p + 1);
    }
}

proof fn lemma_first_not_dash_bounds(s: Seq<u8>, p: int, q: int)
    ensures
        p <= q ==> p <= first_not_dash(s, p, q) <= q,
    decreases q - p,
{
    if p < q && s[p] == 45 {
        lemma_first_not_dash_bounds(s, p + 1, q);
    }
}

/// Whether a byte starts a record that an lcov parse reads (`end_of_record`,
/// `SF`, `DA`, `FN`, `FNDA`, `BRDA`).
pub open spec fn starts_record(c: u8) -> bool {
    c == 101 || c == 83 || c == 68 || c == 70 || c == 66
}

/// Whether the record that starts at `p` reads as a `BRDA` record.
pub open spec fn reads_as_brda(s: Seq<u8>, p: int) -> bool {
    let c = s[p];
    &&& c == 83 || c == 68 || c == 70 || c == 66
    &&& fold_key(s, p + 1, find_byte(s, p + 1, 58), c as int) == Some(key_brda())
}

/// Whether a parse reading branches, from `p` on with state `st`, comes to
/// `q0` without reading anything that changes its file, lines, functions or
/// results, and without passing `q0`. A step that fails or breaks down ends
/// the parse and counts as such.
pub open spec fn reaches_unchanged(s: Seq<u8>, p: int, st: LcovState, q0: int) -> bool
    decreases q0 - p,
{
    if p >= q0 {
        p == q0
    } else {
        match lcov_step(s, p, st, true) {
            LcovStep::Next(p2, st2) => p < p2 ==> {
                &&& p2 <= q0
                &&& st2.file == st.file
                &&& st2.lines == st.lines
                &&& st2.functions == st.functions
                &&& st2.results == st.results
                &&& reaches_unchanged(s, p2, st2, q0)
            },
            _ => true,
        }
    }
}

/// The position past the end of the line of the record that starts at `p`
/// (past the first `\n` after its key), where a parse that does not read
/// branches goes on after a `BRDA` record.
pub open spec fn line_end_after(s: Seq<u8>, p: int) -> int {
    past(s, find_byte(s, past(s, find_byte(s, p + 1, 58)), 10))
}

/// Whether each `BRDA` record that a parse reading branches comes to, from
/// `p` on with state `st`, is followed on its line by nothing that the parse
/// reads as a change to its file, lines, functions or results (see
/// [`reaches_unchanged`]): the parse then goes on where one that does not
/// read branches goes on, past the end of the line. Only the records the
/// parse reads count: text inside a name or a skipped line does not.
pub open spec fn brda_records_end(s: Seq<u8>, p: int, st: LcovState) -> bool
    decreases s.len() - p,
{
    if p < 0 || p >= s.len() {
        true
    } else {
        match lcov_step(s, p, st, true) {
            LcovStep::Next(p2, st2) => {
                &&& reads_as_brda(s, p) ==> reaches_unchanged(s, p2, st2, line_end_after(s, p))
                &&& (p < p2 <= s.len() ==> brda_records_end(s, p2, st2))
            },
            _ => true,
        }
    }
}

/// Parse results with the branches of every file left out.
pub open spec fn without_branches(rs: Seq<(Seq<char>, CovView)>) -> Seq<(Seq<char>, CovView)> {
    rs.map_values(|r: (Seq<char>, CovView)| (r.0, CovView { branches: Map::empty(), ..r.1 }))
}

proof fn lemma_fold_dec_digits(s: Seq<u8>, p: int, q: int, acc: int, max: int)
    requires
        fold_dec(s, p, q, acc, max) is Some,
    ensures
        forall|i: int| p <= i < q ==> #[trigger] s[i] >= 48,
    decreases q - p,
{
    if p < q {
        lemma_fold_dec_digits(s, p + 1, q, acc * 10 + (s[p] - 48), max);
    }
}

proof fn lemma_find_byte_first(s: Seq<u8>, p: int, a: u8)
    requires
        0 <= p <= s.len(),
    ensures
        forall|i: int| p <= i < find_byte(s, p, a) ==> #[trigger] s[i] != a,
        find_byte(s, p, a) < s.len() ==> s[find_byte(s, p, a)] == a,
        p <= find_byte(s, p, a) <= s.len(),
    decreases s.len() - p,
{
    if p < s.len() && s[p] != a {
        lemma_find_byte_first(s, p + 1, a);
    }
}

proof fn lemma_find_eol_first(s: Seq<u8>, p: int)
    requires
        0 <= p <= s.len(),
    ensures
        forall|i: int| p <= i < find_eol(s, p) ==> !is_newline_byte(#[trigger] s[i]),
        find_eol(s, p) < s.len() ==> is_newline_byte(s[find_eol(s, p)]),
        p <= find_eol(s, p) <= s.len(),
    decreases s.len() - p,
{
    if p < s.len() && !is_newline_byte(s[p]) {
        lemma_find_eol_first(s, p + 1);
    }
}

/// Looking for `a` from `p` or from a later `x` comes to the same where
/// `s[p..x]` does not hold it.
proof fn lemma_find_byte_skip(s: Seq<u8>, p: int, x: int, a: u8)
    requires
        0 <= p <= x <= s.len(),
        forall|i: int| p <= i < x ==> #[trigger] s[i] != a,
    ensures
        find_byte(s, p, a) == find_byte(s, x, a),
    decreases x - p,
{
    if p < x {
        lemma_find_byte_skip(s, p + 1, x, a);
    }
}

/// A branch record leaves off where its line ends, or where looking for the
/// end of its line comes to the same.
proof fn lemma_brda_next(s: Seq<u8>, r: int, st: LcovState)
    requires
        0 <= r <= s.len(),
    ensures
        lcov_brda(s, r, st) matches LcovStep::Next(next, _) ==> next <= s.len()
            && (next == past(s, find_byte(s, r, 10)) || find_byte(s, next, 10) == find_byte(s, r, 10)),
{
    if lcov_brda(s, r, st) is Next {
        let q2 = find_byte(s, r, 44);
        lemma_find_byte_first(s, r, 44);
        lemma_fold_dec_digits(s, r, q2, 0, u32::MAX as int);
        let r2 = past(s, q2);
        let q3 = find_byte(s, r2, 44);
        lemma_find_byte_first(s, r2, 44);
        lemma_fold_dec_digits(s, r2, q3, 0, u64::MAX as int);
        let r3 = past(s, q3);
        let q4 = find_byte(s, r3, 44);
        lemma_find_byte_first(s, r3, 44);
        lemma_fold_dec_digits(s, r3, q4, 0, u32::MAX as int);
        let r4 = past(s, q4);
        assert(forall|i: int| r <= i < r4 ==> #[trigger] s[i] != 10) by {
            assert forall|i: int| r <= i < r4 implies #[trigger] s[i] != 10 by {
                if i < q2 {
                    assert(s[i] >= 48);
                } else if i == q2 {
                } else if i < q3 {
                    assert(s[i] >= 48);
                } else if i == q3 {
                } else if i < q4 {
                    assert(s[i] >= 48);
                }
            }
        }
        lemma_find_byte_skip(s, r, r4, 10);
        let e = find_eol(s, r4);
        lemma_find_eol_first(s, r4);
        lemma_first_not_dash_bounds(s, r4, e);
        let t = first_not_dash(s, r4, e);
        lemma_find_byte_first(s, r4, 10);
        if t < e {
            assert(forall|i: int| r4 <= i < t + 1 ==> #[trigger] s[i] != 10) by {
                assert forall|i: int| r4 <= i < t + 1 implies #[trigger] s[i] != 10 by {
                    assert(!is_newline_byte(s[i]));
                }
            }
            lemma_find_byte_skip(s, r4, t + 1, 10);
        } else if e < s.len() {
            if s[e] == 13 {
                assert(forall|i: int| r4 <= i < e + 1 ==> #[trigger] s[i] != 10) by {
                    assert forall|i: int| r4 <= i < e + 1 implies #[trigger] s[i] != 10 by {
                        if i < e {
                            assert(!is_newline_byte(s[i]));
                        }
                    }
                }
                lemma_find_byte_skip(s, r4, e + 1, 10);
            } else {
                assert(forall|i: int| r4 <= i < e ==> #[trigger] s[i] != 10) by {
                    assert forall|i: int| r4 <= i < e implies #[trigger] s[i] != 10 by {
                        assert(!is_newline_byte(s[i]));
                    }
                }
                lemma_find_byte_skip(s, r4, e, 10);
            }
        } else {
            assert(forall|i: int| r4 <= i < e ==> #[trigger] s[i] != 10) by {
                assert forall|i: int| r4 <= i < e implies #[trigger] s[i] != 10 by {
                    assert(!is_newline_byte(s[i]));
                }
            }
            lemma_find_byte_skip(s, r4, e, 10);
        }
    }
}

/// A parse that reads branches (`a`) and one that does not (`b`) have read
/// the same files, lines and functions, the second has no branches, and it
/// has read no more records.
spec fn flag_rel(a: LcovState, b: LcovState) -> bool {
    &&& a.file == b.file
    &&& a.lines == b.lines
    &&& a.functions == b.functions
    &&& b.branches == Map::<u32, Seq<bool>>::empty()
    &&& b.results == without_branches(a.results)
    &&& b.count <= a.count
}

proof fn lemma_step_count(s: Seq<u8>, p: int, st: LcovState)
    ensures
        lcov_step(s, p, st, true) matches LcovStep::Next(_, st2) ==> st2.count == st.count + 1,
{
}

/// A parse that reads branches and comes to `q0` unchanged (see
/// [`reaches_unchanged`]) goes on from `q0` with a state that differs from
/// the one at `p` only in its branches and its record count.
proof fn lemma_rest_of_line(s: Seq<u8>, p: int, st: LcovState, q0: int) -> (a3: LcovState)
    requires
        0 <= p <= q0 <= s.len(),
        reaches_unchanged(s, p, st, q0),
        brda_records_end(s, p, st),
        lcov_run(s, p, st, true) is Done,
    ensures
        lcov_run(s, p, st, true) == lcov_run(s, q0, a3, true),
        a3.file == st.file,
        a3.lines == st.lines,
        a3.functions == st.functions,
        a3.results == st.results,
        a3.count >= st.count,
        brda_records_end(s, q0, a3),
    decreases q0 - p,
{
    if p >= q0 {
        st
    } else {
        lemma_lcov_step_advances(s, p, st, true);
        lemma_step_count(s, p, st);
        let sa = lcov_step(s, p, st, true);
        let p2 = sa->Next_0;
        let st2 = sa->Next_1;
        assert(lcov_run(s, p, st, true) == lcov_run(s, p2, st2, true));
        lemma_rest_of_line(s, p2, st2, q0)
    }
}

proof fn lemma_flag_run(s: Seq<u8>, p: int, a: LcovState, b: LcovState)
    requires
        0 <= p <= s.len(),
        brda_records_end(s, p, a),
        flag_rel(a, b),
    ensures
        lcov_run(s, p, a, true) matches LcovOutcome::Done(ra) ==> lcov_run(s, p, b, false) == LcovOutcome::Done(without_branches(ra)),
    decreases s.len() - p,
{
    if p < s.len() && lcov_run(s, p, a, true) is Done {
        lemma_lcov_step_advances(s, p, a, true);
        let sa = lcov_step(s, p, a, true);
        let big_a = counted(a);
        let big_b = counted(b);
        assert(a.count + 1 <= i32::MAX);
        let c = s[p];
        let p2 = sa->Next_0;
        let a2 = sa->Next_1;
        assert(lcov_run(s, p, a, true) == lcov_run(s, p2, a2, true));
        if c == 101 {
            let f = big_a.file->0;
            let b2 = LcovState {
                file: None,
                lines: Map::empty(),
                branches: Map::empty(),
                functions: Map::empty(),
                results: big_b.results.push((f, CovView { lines: big_b.lines, branches: big_b.branches, functions: big_b.functions })),
                count: big_b.count,
            };
            assert(lcov_step(s, p, b, false) == LcovStep::Next(p2, b2));
            assert(b2.results =~= without_branches(a2.results));
            lemma_flag_run(s, p2, a2, b2);
        } else if c == 10 || (c != 83 && c != 68 && c != 70 && c != 66) {
            assert(lcov_step(s, p, b, false) == LcovStep::Next(p2, big_b));
            lemma_flag_run(s, p2, a2, big_b);
        } else {
            let q = find_byte(s, p + 1, 58);
            let r = past(s, q);
            let key = fold_key(s, p + 1, q, c as int)->0;
            lemma_find_byte_bounds(s, p + 1, 58);
            if key == key_sf() {
                let e = find_eol(s, r);
                let b2 = LcovState { file: Some(crate::text::latin1(s.subrange(r, e))), ..big_b };
                assert(lcov_step(s, p, b, false) == LcovStep::Next(p2, b2));
                lemma_flag_run(s, p2, a2, b2);
            } else if key == key_da() {
                let b2 = LcovState { lines: a2.lines, ..big_b };
                assert(lcov_step(s, p, b, false) == LcovStep::Next(p2, b2));
                lemma_flag_run(s, p2, a2, b2);
            } else if key == key_fn() {
                let b2 = LcovState { functions: a2.functions, ..big_b };
                assert(lcov_step(s, p, b, false) == LcovStep::Next(p2, b2));
                lemma_flag_run(s, p2, a2, b2);
            } else if key == key_fnda() {
                let b2 = LcovState { functions: a2.functions, ..big_b };
                assert(lcov_step(s, p, b, false) == LcovStep::Next(p2, b2));
                lemma_flag_run(s, p2, a2, b2);
            } else if key == key_brda() {
                let n0 = find_byte(s, r, 10);
                let q0 = past(s, n0);
                assert(lcov_step(s, p, b, false) == LcovStep::Next(q0, big_b));
                lemma_brda_next(s, r, big_a);
                assert(lcov_brda(s, past(s, find_byte(s, p + 1, 58)), big_a) == sa);
                assert(reads_as_brda(s, p));
                lemma_find_byte_first(s, r, 10);
                if p2 == q0 {
                    lemma_flag_run(s, q0, a2, big_b);
                } else {
                    assert(p2 < q0 ==> find_byte(s, p2, 10) == n0);
                    assert(line_end_after(s, p) == q0);
                    assert(reaches_unchanged(s, p2, a2, q0));
                    let a3 = lemma_rest_of_line(s, p2, a2, q0);
                    lemma_flag_run(s, q0, a3, big_b);
                }
            } else {
                assert(lcov_step(s, p, b, false) == LcovStep::Next(p2, big_b));
                lemma_flag_run(s, p2, a2, big_b);
            }
        }
    }
}

/// Whether branches are read decides only whether they are filled: on a
/// buffer where nothing that follows a branch record on its line is read as
/// another record that changes files, lines or functions (see
/// [`brda_records_end`]), where a parse that reads branches ends with
/// results, one that does not read them ends with the same files, lines and
/// functions, and no branches.
pub proof fn lemma_branch_flag(s: Seq<u8>)
    requires
        brda_records_end(s, 0, lcov_initial()),
    ensures
        lcov_parse(s, true) matches LcovOutcome::Done(ra) ==> lcov_parse(s, false) == LcovOutcome::Done(without_branches(ra)),
{
    assert(without_branches(Seq::empty()) =~= Seq::empty());
    lemma_flag_run(s, 0, lcov_initial(), lcov_initial());
}

/// Parses an lcov buffer, or returns `None` where parsing would break down
/// (a record ending a file before naming it, a number that does not fit, a
/// digit below `0`). Records are read as in `lcov_parse`: `SF` names the file,
/// `DA` adds to a line's count, `FN` and `FNDA` record functions, `BRDA`
/// records a branch where branches are enabled, and `end_of_record` closes the file.
pub fn try_parse_lcov(buffer: &Vec<u8>, branch_enabled: bool) -> (res: Option<Result<Vec<(String, CovResult)>, ParserError>>)
    ensures
        match lcov_parse(buffer@, branch_enabled) {
            LcovOutcome::Done(rs) => res matches Some(Ok(v)) && results_view(v@) == rs,
            LcovOutcome::Failed(e) => res matches Some(Err(x)) && x@ == e,
            LcovOutcome::Panics => res is None,
        },
{
    let mut st = LcovParser {
        file: None,
        lines: BTreeMap::new(),
        branches: BTreeMap::new(),
        functions: crate::defs::function_map_new(),
        results: Vec::new(),
        count: 0,
    };
    assert(st.state() == lcov_initial()) by {
        assert(crate::defs::branches_view(st.branches) =~= Map::empty());
        assert(results_view(st.results@) =~= Seq::empty());
    }
    let mut p: usize = 0;
    while p < buffer.len()
        invariant
            p <= buffer@.len(),
            st.count <= i32::MAX,
            lcov_run(buffer@, p as int, st.state(), branch_enabled) == lcov_parse(buffer@, branch_enabled),
        decreases buffer@.len() - p,
    {
        proof { lemma_lcov_step_advances(buffer@, p as int, st.state(), branch_enabled); }
        if st.count >= 2147483647u32 {
            return None;
        }
        st.count = st.count + 1;
        let r = lcov_record_exec(buffer, p, &mut st, branch_enabled);
        match r {
            StepExec::Next(p2) => { p = p2; }
            StepExec::Fail(e) => { return Some(Err(e)); }
            StepExec::Panic => { return None; }
        }
    }
    Some(Ok(st.results))
}

/// Parses an lcov buffer into one result per file, on the inputs on which
/// parsing does not break down (see `try_parse_lcov`).
pub fn parse_lcov(buffer: Vec<u8>, branch_enabled: bool) -> (res: Result<Vec<(String, CovResult)>, ParserError>)
    requires
        !(lcov_parse(buffer@, branch_enabled) is Panics),
    ensures
        match lcov_parse(buffer@, branch_enabled) {
            LcovOutcome::Done(rs) => res matches Ok(v) && results_view(v@) == rs,
            LcovOutcome::Failed(e) => res matches Err(x) && x@ == e,
            LcovOutcome::Panics => false,
        },
{
    match try_parse_lcov(&buffer, branch_enabled) {
        Some(r) => r,
        None => Ok(Vec::new()),
    }
}


/// A line split at the first `a`: what comes before, and what comes after if
/// there is such a byte.
pub open spec fn split_once(l: Seq<u8>, a: u8) -> (Seq<u8>, Option<Seq<u8>>) {
    let k = find_byte(l, 0, a);
    if k < l.len() {
        (l.subrange(0, k), Some(l.subrange(k + 1, l.len() as int)))
    } else {
        (l, None)
    }
}

pub open spec fn bytes_file() -> Seq<u8> { seq![102u8, 105, 108, 101] }
pub open spec fn bytes_function() -> Seq<u8> { seq![102u8, 117, 110, 99, 116, 105, 111, 110] }
pub open spec fn bytes_lcount() -> Seq<u8> { seq![108u8, 99, 111, 117, 110, 116] }
pub open spec fn bytes_branch() -> Seq<u8> { seq![98u8, 114, 97, 110, 99, 104] }
pub open spec fn bytes_taken() -> Seq<u8> { seq![116u8, 97, 107, 101, 110] }
pub open spec fn bytes_zero() -> Seq<u8> { seq![48u8] }

/// What a parse of a gcov file has gathered so far.
pub struct GcovState {
    pub file: Option<Seq<char>>,
    pub lines: Map<u32, u64>,
    pub branches: Map<u32, Seq<bool>>,
    pub functions: Map<Seq<char>, Function>,
    pub results: Seq<(Seq<char>, CovView)>,
}

/// The results once the file at hand is closed: it is kept if it has lines.
pub open spec fn gcov_closed(st: GcovState) -> Seq<(Seq<char>, CovView)> {
    match st.file {
        Some(f) => if !st.lines.is_empty() {
            st.results.push((f, CovView { lines: st.lines, branches: st.branches, functions: st.functions }))
        } else {
            st.results
        },
        None => st.results,
    }
}

/// Reading one line (without its line end) of a gcov intermediate file.
pub open spec fn gcov_line(st: GcovState, l: Seq<u8>) -> Result<GcovState, ParserErrorView> {
    let whole = crate::text::utf8_lossy(l);
    let (key, value) = split_once(l, 58);
    match value {
        None => Err(ParserErrorView::InvalidRecord(whole)),
        Some(v) => {
            if key == bytes_file() {
                Ok(GcovState {
                    file: Some(crate::text::utf8_lossy(v)),
                    lines: Map::empty(),
                    branches: Map::empty(),
                    functions: Map::empty(),
                    results: gcov_closed(st),
                })
            } else if key == bytes_function() {
                let (p1, r1) = split_once(v, 44);
                match crate::text::parse_uint(p1, u32::MAX as int) {
                    None => Err(ParserErrorView::Parse(whole)),
                    Some(start) => match r1 {
                        None => Err(ParserErrorView::InvalidRecord(whole)),
                        Some(r) => {
                            let (p2, r2) = split_once(r, 44);
                            match r2 {
                                None => Err(ParserErrorView::InvalidRecord(whole)),
                                Some(name) => Ok(GcovState {
                                    functions: st.functions.insert(
                                        crate::text::utf8_lossy(name),
                                        Function { start: start as u32, executed: p2 != bytes_zero() },
                                    ),
                                    ..st
                                }),
                            }
                        }
                    },
                }
            } else if key == bytes_lcount() {
                let (p1, r1) = split_once(v, 44);
                match crate::text::parse_uint(p1, u32::MAX as int) {
                    None => Err(ParserErrorView::Parse(whole)),
                    Some(line_no) => match r1 {
                        None => Err(ParserErrorView::InvalidRecord(whole)),
                        Some(ec) => {
                            if ec == bytes_zero() || (ec.len() > 0 && ec[0] == 45) {
                                Ok(GcovState { lines: st.lines.insert(line_no as u32, 0), ..st })
                            } else {
                                match crate::text::parse_uint(ec, u64::MAX as int) {
                                    None => Err(ParserErrorView::Parse(whole)),
                                    Some(c) => Ok(GcovState { lines: st.lines.insert(line_no as u32, c as u64), ..st }),
                                }
                            }
                        }
                    },
                }
            } else if key == bytes_branch() {
                let (p1, r1) = split_once(v, 44);
                match crate::text::parse_uint(p1, u32::MAX as int) {
                    None => Err(ParserErrorView::Parse(whole)),
                    Some(line_no) => match r1 {
                        None => Err(ParserErrorView::InvalidRecord(whole)),
                        Some(t) => {
                            let ln = line_no as u32;
                            let taken = t == bytes_taken();
                            let outcomes = if st.branches.contains_key(ln) { st.branches[ln].push(taken) } else { seq![taken] };
                            Ok(GcovState { branches: st.branches.insert(ln, outcomes), ..st })
                        }
                    },
                }
            } else {
                Ok(st)
            }
        }
    }
}

/// How a parse of a gcov file ends.
pub enum GcovOutcome {
    Done(Seq<(Seq<char>, CovView)>),
    Failed(ParserErrorView),
    Panics,
}

/// Parsing a gcov intermediate file from position `p` on, line by line.
pub open spec fn gcov_run(s: Seq<u8>, p: int, st: GcovState) -> GcovOutcome
    decreases s.len() - p,
{
    if p >= s.len() || p < 0 {
        if !st.lines.is_empty() && st.file is None {
            GcovOutcome::Panics
        } else {
            GcovOutcome::Done(gcov_closed(st))
        }
    } else {
        let nx = past(s, find_byte(s, p, 10));
        let l = strip_newlines(s.subrange(p, nx));
        match gcov_line(st, l) {
            Ok(st2) => if p < nx <= s.len() { gcov_run(s, nx, st2) } else { GcovOutcome::Panics },
            Err(e) => GcovOutcome::Failed(e),
        }
    }
}

/// How parsing a whole gcov intermediate file ends.
pub open spec fn gcov_parse(s: Seq<u8>) -> GcovOutcome {
    gcov_run(s, 0, GcovState { file: None, lines: Map::empty(), branches: Map::empty(), functions: Map::empty(), results: Seq::empty() })
}


fn find_in_slice(l: &[u8], a: u8) -> (k: usize)
    ensures
        k == find_byte(l@, 0, a),
        k <= l@.len(),
{
    let mut i: usize = 0;
    while i < l.len() && l[i] != a
        invariant
            i <= l@.len(),
            find_byte(l@, i as int, a) == find_byte(l@, 0, a),
        decreases l@.len() - i,
    {
        i += 1;
    }
    i
}

/// The parts of a line around the first `a`, as the exec side sees them.
fn split_once_exec(l: &[u8], a: u8) -> (res: (&[u8], Option<&[u8]>))
    ensures
        res.0@ == split_once(l@, a).0,
        match split_once(l@, a).1 {
            Some(v) => res.1 matches Some(x) && x@ == v,
            None => res.1 is None,
        },
{
    let k = find_in_slice(l, a);
    let n = l.len();
    if k < n {
        let before = &l[0..k];
        let after = &l[k + 1..n];
        assert(before@ =~= l@.subrange(0, k as int));
        assert(after@ =~= l@.subrange(k + 1, n as int));
        (before, Some(after))
    } else {
        assert(l@.subrange(0, n as int) =~= l@);
        (&l[0..n], None)
    }
}

/// The state of a gcov parse while it runs.
struct GcovParser {
    file: Option<String>,
    lines: BTreeMap<u32, u64>,
    branches: BTreeMap<u32, Vec<bool>>,
    functions: FunctionMap,
    results: Vec<(String, CovResult)>,
}

impl GcovParser {
    spec fn state(&self) -> GcovState {
        GcovState {
            file: match self.file { Some(f) => Some(f@), None => None },
            lines: self.lines@,
            branches: crate::defs::branches_view(self.branches),
            functions: crate::defs::fmap(self.functions),
            results: results_view(self.results@),
        }
    }

    /// Closes the file at hand, keeping it if it has lines.
    fn close(&mut self)
        ensures
            results_view(final(self).results@) == gcov_closed(old(self).state()),
    {
        if !self.lines.is_empty() {
            if let Some(f) = self.file.take() {
                let mut lines = BTreeMap::new();
                std::mem::swap(&mut lines, &mut self.lines);
                let mut branches = BTreeMap::new();
                std::mem::swap(&mut branches, &mut self.branches);
                let mut functions = crate::defs::function_map_new();
                std::mem::swap(&mut functions, &mut self.functions);
                let ghost before = results_view(self.results@);
                self.results.push((f, CovResult { lines, branches, functions }));
                assert(results_view(self.results@) =~= before.push((f@, CovView { lines: lines@, branches: crate::defs::branches_view(branches), functions: crate::defs::fmap(functions) })));
            }
        }
    }
}

fn gcov_line_exec(st: &mut GcovParser, l: &[u8]) -> (res: Option<ParserError>)
    ensures
        match gcov_line(old(st).state(), l@) {
            Ok(st2) => res is None && final(st).state() == st2,
            Err(e) => res matches Some(x) && x@ == e,
        },
{
    let (key, value) = split_once_exec(l, 58u8);
    let v = match value {
        None => { return Some(ParserError::InvalidRecord(crate::text::utf8_string(l))); }
        Some(v) => v,
    };
    let k_file: [u8; 4] = [102u8, 105, 108, 101];
    let k_function: [u8; 8] = [102u8, 117, 110, 99, 116, 105, 111, 110];
    let k_lcount: [u8; 6] = [108u8, 99, 111, 117, 110, 116];
    let k_branch: [u8; 6] = [98u8, 114, 97, 110, 99, 104];
    let k_taken: [u8; 5] = [116u8, 97, 107, 101, 110];
    let k_zero: [u8; 1] = [48u8];
    assert(k_file@ =~= bytes_file());
    assert(k_function@ =~= bytes_function());
    assert(k_lcount@ =~= bytes_lcount());
    assert(k_branch@ =~= bytes_branch());
    assert(k_taken@ =~= bytes_taken());
    assert(k_zero@ =~= bytes_zero());
    if crate::text::bytes_eq(key, k_file.as_slice()) {
        st.close();
        st.file = Some(crate::text::utf8_string(v));
        st.lines = BTreeMap::new();
        st.branches = BTreeMap::new();
        st.functions = crate::defs::function_map_new();
        assert(crate::defs::branches_view(st.branches) =~= Map::empty());
        None
    } else if crate::text::bytes_eq(key, k_function.as_slice()) {
        let (p1, r1) = split_once_exec(v, 44u8);
        let start = match crate::text::parse_uint_exec(p1, 4294967295u64) {
            None => { return Some(ParserError::Parse(crate::text::utf8_string(l))); }
            Some(x) => x as u32,
        };
        let r = match r1 {
            None => { return Some(ParserError::InvalidRecord(crate::text::utf8_string(l))); }
            Some(r) => r,
        };
        let (p2, r2) = split_once_exec(r, 44u8);
        let name = match r2 {
            None => { return Some(ParserError::InvalidRecord(crate::text::utf8_string(l))); }
            Some(name) => name,
        };
        let executed = !crate::text::bytes_eq(p2, k_zero.as_slice());
        crate::defs::function_map_insert(&mut st.functions, crate::text::utf8_string(name), Function { start, executed });
        None
    } else if crate::text::bytes_eq(key, k_lcount.as_slice()) {
        let (p1, r1) = split_once_exec(v, 44u8);
        let line_no = match crate::text::parse_uint_exec(p1, 4294967295u64) {
            None => { return Some(ParserError::Parse(crate::text::utf8_string(l))); }
            Some(x) => x as u32,
        };
        let ec = match r1 {
            None => { return Some(ParserError::InvalidRecord(crate::text::utf8_string(l))); }
            Some(ec) => ec,
        };
        if crate::text::bytes_eq(ec, k_zero.as_slice()) || (ec.len() > 0 && ec[0] == 45u8) {
            st.lines.insert(line_no, 0);
        } else {
            match crate::text::parse_uint_exec(ec, 18446744073709551615u64) {
                None => { return Some(ParserError::Parse(crate::text::utf8_string(l))); }
                Some(c) => { st.lines.insert(line_no, c); }
            }
        }
        None
    } else if crate::text::bytes_eq(key, k_branch.as_slice()) {
        let (p1, r1) = split_once_exec(v, 44u8);
        let line_no = match crate::text::parse_uint_exec(p1, 4294967295u64) {
            None => { return Some(ParserError::Parse(crate::text::utf8_string(l))); }
            Some(x) => x as u32,
        };
        let t = match r1 {
            None => { return Some(ParserError::InvalidRecord(crate::text::utf8_string(l))); }
            Some(t) => t,
        };
        let taken = crate::text::bytes_eq(t, k_taken.as_slice());
        let ghost before = crate::defs::branches_view(st.branches);
        let cur = st.branches.get(&line_no);
        let nv = match cur {
            Some(c) => {
                assert(before.contains_key(line_no) && before[line_no] == c@);
                let mut nv = c.clone();
                assert(nv@ =~= c@);
                nv.push(taken);
                nv
            }
            None => {
                let mut nv = Vec::new();
                nv.push(taken);
                assert(nv@ =~= seq![taken]);
                nv
            }
        };
        let ghost nvv = nv@;
        st.branches.insert(line_no, nv);
        assert(crate::defs::branches_view(st.branches) =~= before.insert(line_no, nvv));
        None
    } else {
        None
    }
}


fn copy_range(buf: &Vec<u8>, p: usize, q: usize) -> (res: Vec<u8>)
    requires
        p <= q <= buf@.len(),
    ensures
        res@ == buf@.subrange(p as int, q as int),
{
    let mut res = Vec::new();
    let mut i = p;
    while i < q
        invariant
            p <= i <= q <= buf@.len(),
            res@ == buf@.subrange(p as int, i as int),
        decreases q - i,
    {
        res.push(buf[i]);
        assert(buf@.subrange(p as int, i + 1) =~= buf@.subrange(p as int, i as int).push(buf@[i as int]));
        i += 1;
    }
    res
}

/// Parses the content of a gcov intermediate file (records `file:`,
/// `function:`, `lcount:` and `branch:`, one per line), or returns `None` where
/// the parse would break down: line counts given before any `file:` record.
pub fn try_parse_gcov_content(buffer: &Vec<u8>) -> (res: Option<Result<Vec<(String, CovResult)>, ParserError>>)
    ensures
        match gcov_parse(buffer@) {
            GcovOutcome::Done(rs) => res matches Some(Ok(v)) && results_view(v@) == rs,
            GcovOutcome::Failed(e) => res matches Some(Err(x)) && x@ == e,
            GcovOutcome::Panics => res is None,
        },
{
    let mut st = GcovParser {
        file: None,
        lines: BTreeMap::new(),
        branches: BTreeMap::new(),
        functions: crate::defs::function_map_new(),
        results: Vec::new(),
    };
    assert(crate::defs::branches_view(st.branches) =~= Map::empty());
    assert(results_view(st.results@) =~= Seq::empty());
    let mut p: usize = 0;
    while p < buffer.len()
        invariant
            p <= buffer@.len(),
            gcov_run(buffer@, p as int, st.state()) == gcov_parse(buffer@),
        decreases buffer@.len() - p,
    {
        let e = find_byte_exec(buffer, p, 10u8);
        let nx = past_exec(buffer, e);
        let mut l = copy_range(buffer, p, nx);
        remove_newline(&mut l);
        match gcov_line_exec(&mut st, l.as_slice()) {
            Some(err) => { return Some(Err(err)); }
            None => {}
        }
        p = nx;
    }
    if !st.lines.is_empty() && st.file.is_none() {
        return None;
    }
    st.close();
    Some(Ok(st.results))
}

/// Parses the content of a gcov intermediate file, on the inputs on which the
/// parse does not break down (see `try_parse_gcov_content`).
pub fn parse_gcov_content(buffer: &Vec<u8>) -> (res: Result<Vec<(String, CovResult)>, ParserError>)
    requires
        !(gcov_parse(buffer@) is Panics),
    ensures
        match gcov_parse(buffer@) {
            GcovOutcome::Done(rs) => res matches Ok(v) && results_view(v@) == rs,
            GcovOutcome::Failed(e) => res matches Err(x) && x@ == e,
            GcovOutcome::Panics => false,
        },
{
    match try_parse_gcov_content(buffer) {
        Some(r) => r,
        None => Ok(Vec::new()),
    }
}


/// A gcov JSON report (`gcov --json-format`).
pub struct GcovJson {
    pub format_version: String,
    pub gcc_version: String,
    pub current_working_directory: Option<String>,
    pub data_file: String,
    pub files: Vec<GcovFile>,
}

/// A source file of a gcov JSON report.
pub struct GcovFile {
    pub file: String,
    pub functions: Vec<GcovFunction>,
    pub lines: Vec<GcovLine>,
}

/// A line of a gcov JSON report.
pub struct GcovLine {
    pub line_number: u32,
    pub function_name: Option<String>,
    pub count: u64,
    pub unexecuted_block: bool,
    pub branches: Vec<GcovBr>,
}

/// A branch of a gcov JSON report.
pub struct GcovBr {
    pub count: u64,
    pub throw: bool,
    pub fallthrough: bool,
}

/// A function of a gcov JSON report.
pub struct GcovFunction {
    pub name: String,
    pub demangled_name: String,
    pub start_line: u32,
    pub start_column: u32,
    pub end_line: u32,
    pub end_column: u32,
    pub blocks: u32,
    pub blocks_executed: u32,
    pub execution_count: u64,
}

/// The execution counts of a file's lines; a later entry for a line wins.
pub open spec fn json_lines(ls: Seq<GcovLine>) -> Map<u32, u64>
    decreases ls.len(),
{
    if ls.len() == 0 {
        Map::empty()
    } else {
        json_lines(ls.drop_last()).insert(ls.last().line_number, ls.last().count)
    }
}

/// The branches of a file's lines: a branch is taken if it was counted.
pub open spec fn json_branches(ls: Seq<GcovLine>) -> Map<u32, Seq<bool>>
    decreases ls.len(),
{
    if ls.len() == 0 {
        Map::empty()
    } else if ls.last().branches@.len() == 0 {
        json_branches(ls.drop_last())
    } else {
        json_branches(ls.drop_last()).insert(ls.last().line_number, ls.last().branches@.map_values(|b: GcovBr| b.count > 0))
    }
}

/// The functions of a file, by demangled name: a function ran if it was counted.
pub open spec fn json_functions(fs: Seq<GcovFunction>) -> Map<Seq<char>, Function>
    decreases fs.len(),
{
    if fs.len() == 0 {
        Map::empty()
    } else {
        json_functions(fs.drop_last()).insert(
            fs.last().demangled_name@,
            Function { start: fs.last().start_line, executed: fs.last().execution_count > 0 },
        )
    }
}

/// The results of a report: one per file that has lines, in order.
pub open spec fn json_results(files: Seq<GcovFile>) -> Seq<(Seq<char>, CovView)>
    decreases files.len(),
{
    if files.len() == 0 {
        Seq::empty()
    } else {
        let f = files.last();
        let rest = json_results(files.drop_last());
        if json_lines(f.lines@).is_empty() {
            rest
        } else {
            rest.push((f.file@, CovView {
                lines: json_lines(f.lines@),
                branches: json_branches(f.lines@),
                functions: json_functions(f.functions@),
            }))
        }
    }
}

fn json_file_result(f: &GcovFile) -> (res: CovResult)
    ensures
        res@ == (CovView { lines: json_lines(f.lines@), branches: json_branches(f.lines@), functions: json_functions(f.functions@) }),
{
    let mut lines: BTreeMap<u32, u64> = BTreeMap::new();
    let mut branches: BTreeMap<u32, Vec<bool>> = BTreeMap::new();
    let mut i: usize = 0;
    assert(crate::defs::branches_view(branches) =~= Map::empty());
    while i < f.lines.len()
        invariant
            i <= f.lines@.len(),
            lines@ == json_lines(f.lines@.take(i as int)),
            crate::defs::branches_view(branches) == json_branches(f.lines@.take(i as int)),
        decreases f.lines@.len() - i,
    {
        let line = &f.lines[i];
        assert(f.lines@.take(i + 1).drop_last() =~= f.lines@.take(i as int));
        lines.insert(line.line_number, line.count);
        if line.branches.len() > 0 {
            let mut taken: Vec<bool> = Vec::new();
            let mut j: usize = 0;
            while j < line.branches.len()
                invariant
                    j <= line.branches@.len(),
                    taken@ =~= line.branches@.take(j as int).map_values(|b: GcovBr| b.count > 0),
                decreases line.branches@.len() - j,
            {
                taken.push(line.branches[j].count > 0);
                j += 1;
            }
            assert(line.branches@.take(j as int) =~= line.branches@);
            let ghost before = crate::defs::branches_view(branches);
            let ghost tv = taken@;
            branches.insert(line.line_number, taken);
            assert(crate::defs::branches_view(branches) =~= before.insert(line.line_number, tv));
        }
        i += 1;
    }
    assert(f.lines@.take(i as int) =~= f.lines@);
    let mut functions = crate::defs::function_map_new();
    let mut k: usize = 0;
    while k < f.functions.len()
        invariant
            k <= f.functions@.len(),
            crate::defs::fmap(functions) == json_functions(f.functions@.take(k as int)),
        decreases f.functions@.len() - k,
    {
        let fun = &f.functions[k];
        assert(f.functions@.take(k + 1).drop_last() =~= f.functions@.take(k as int));
        crate::defs::function_map_insert(&mut functions, fun.demangled_name.clone(), Function { start: fun.start_line, executed: fun.execution_count > 0 });
        k += 1;
    }
    assert(f.functions@.take(k as int) =~= f.functions@);
    CovResult { lines, branches, functions }
}

/// The results of a gcov JSON report: one per file that has lines, with the
/// count of each line, the branches of each line that has any (taken where
/// counted), and the functions by demangled name (run where counted).
pub fn gcov_json_results(gcov: &GcovJson) -> (res: Vec<(String, CovResult)>)
    ensures
        results_view(res@) == json_results(gcov.files@),
{
    let mut results: Vec<(String, CovResult)> = Vec::new();
    let mut i: usize = 0;
    assert(results_view(results@) =~= Seq::empty());
    while i < gcov.files.len()
        invariant
            i <= gcov.files@.len(),
            results_view(results@) == json_results(gcov.files@.take(i as int)),
        decreases gcov.files@.len() - i,
    {
        let f = &gcov.files[i];
        assert(gcov.files@.take(i + 1).drop_last() =~= gcov.files@.take(i as int));
        let r = json_file_result(f);
        if !r.lines.is_empty() {
            let ghost before = results_view(results@);
            let ghost rv = r@;
            results.push((f.file.clone(), r));
            assert(results_view(results@) =~= before.push((f.file@, rv)));
        }
        i += 1;
    }
    assert(gcov.files@.take(i as int) =~= gcov.files@);
    results
}


/// What `flate2::read::GzDecoder` reads out of gzip-compressed bytes: the
/// decompressed bytes, or `None` where reading fails.
pub uninterp spec fn gunzipped(bytes: Seq<u8>) -> Option<Seq<u8>>;

/// Calls `GzDecoder::new` and `Read::read_to_end` (crate `flate2`): the
/// decompressed bytes, `None` on a read error.
#[verifier::external_body]
fn gunzip(bytes: &[u8]) -> (r: Option<Vec<u8>>)
    ensures
        (r is Some) == (gunzipped(bytes@) is Some),
        r matches Some(v) ==> v@ == gunzipped(bytes@)->0,
{
    let mut v = Vec::new();
    match flate2::read::GzDecoder::new(bytes).read_to_end(&mut v) {
        Ok(_) => Some(v),
        Err(_) => None,
    }
}

/// The JSON text of a gzip-compressed gcov report: its bytes decompressed,
/// `None` where they cannot be.
pub fn gcov_gz_json(bytes: &[u8]) -> (r: Option<Vec<u8>>)
    ensures
        match r {
            Some(v) => gunzipped(bytes@) == Some(v@),
            None => gunzipped(bytes@) is None,
        },
{
    gunzip(bytes)
}

}
