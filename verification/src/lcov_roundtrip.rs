use vstd::prelude::*;
use crate::text::{decimal, digit_char};
use crate::parser::{find_byte, find_eol, fold_dec, fold_key, past, is_newline_byte, LcovState, LcovStep, LcovOutcome, lcov_step, lcov_run, lcov_parse, counted, key_sf, key_da, key_fn, key_fnda, key_brda, first_not_dash, added_branch};
use crate::defs::{CovView, Function, entry_names};
use crate::output::{fn_records, fnda_records, brda_records, branch_records, da_records, lcov_record, executed_count, branch_totals, hit_lines, walks_functions};
use crate::cobertura::{numbers_of, shown_name};

verus! {

/// The bytes of a text, one per character (its UTF-8 form where every
/// character is below 128).
pub open spec fn ascii(t: Seq<char>) -> Seq<u8> {
    t.map_values(|c: char| (c as u32) as u8)
}

proof fn lemma_ascii_add(a: Seq<char>, b: Seq<char>)
    ensures
        ascii(a + b) == ascii(a) + ascii(b),
{
    assert(ascii(a + b) =~= ascii(a) + ascii(b));
}

pub(crate) proof fn lemma_digit_byte(d: nat)
    requires
        d < 10,
    ensures
        (digit_char(d) as u32) as u8 == 48 + d,
{
}

/// The decimal digits of a number are bytes from `0` to `9`.
pub(crate) proof fn lemma_decimal_digits(n: nat)
    ensures
        forall|i: int| 0 <= i < ascii(decimal(n)).len() ==> 48 <= #[trigger] ascii(decimal(n))[i] <= 57,
        ascii(decimal(n)).len() >= 1,
    decreases n,
{
    if n < 10 {
        lemma_digit_byte(n);
    } else {
        lemma_decimal_digits(n / 10);
        lemma_digit_byte(n % 10);
        assert(ascii(decimal(n)) =~= ascii(decimal(n / 10)).push((48 + n % 10) as u8));
    }
}

proof fn lemma_fold_dec_extend(s: Seq<u8>, p: int, q: int, acc: int, max: int, v: int)
    requires
        p <= q < s.len(),
        fold_dec(s, p, q, acc, max) == Some(v),
        48 <= s[q],
        v * 10 + (s[q] - 48) <= max,
    ensures
        fold_dec(s, p, q + 1, acc, max) == Some(v * 10 + (s[q] - 48)),
    decreases q - p,
{
    if p < q {
        assert(fold_dec(s, p, q, acc, max) == fold_dec(s, p + 1, q, acc * 10 + (s[p] - 48), max));
        lemma_fold_dec_extend(s, p + 1, q, acc * 10 + (s[p] - 48), max, v);
        assert(fold_dec(s, p, q + 1, acc, max) == fold_dec(s, p + 1, q + 1, acc * 10 + (s[p] - 48), max));
    } else {
        assert(v == acc);
        assert(fold_dec(s, p + 1, q + 1, acc * 10 + (s[p] - 48), max) == Some(acc * 10 + (s[p] - 48)));
    }
}

/// Reading the decimal digits of `n` at `p` gives `n`.
proof fn lemma_fold_decimal(s: Seq<u8>, p: int, n: nat, max: int)
    requires
        0 <= p,
        p + ascii(decimal(n)).len() <= s.len(),
        s.subrange(p, p + ascii(decimal(n)).len()) == ascii(decimal(n)),
        n <= max,
    ensures
        fold_dec(s, p, p + ascii(decimal(n)).len(), 0, max) == Some(n as int),
        forall|i: int| p <= i < p + ascii(decimal(n)).len() ==> 48 <= #[trigger] s[i] <= 57,
    decreases n,
{
    lemma_decimal_digits(n);
    let d = ascii(decimal(n));
    assert forall|i: int| p <= i < p + d.len() implies 48 <= #[trigger] s[i] <= 57 by {
        assert(s[i] == d[i - p]);
    }
    if n < 10 {
        lemma_digit_byte(n);
        assert(d[0] == (digit_char(n) as u32) as u8);
        assert(s[p] == d[0]);
        assert(fold_dec(s, p + 1, p + 1, 0 * 10 + (s[p] - 48), max) == Some(n as int));
    } else {
        let d1 = ascii(decimal(n / 10));
        lemma_digit_byte(n % 10);
        assert(d =~= d1.push((48 + n % 10) as u8));
        assert(s.subrange(p, p + d1.len()) =~= d1);
        lemma_fold_decimal(s, p, n / 10, max);
        assert(d[d1.len() as int] == 48 + n % 10);
        assert(s[p + d1.len()] == d[d1.len() as int]);
        assert((n / 10) * 10 + n % 10 == n);
        lemma_fold_dec_extend(s, p, p + d1.len(), 0, max, (n / 10) as int);
    }
}

/// Where `s[x]` is `a` and no byte from `p` up to it is, looking for `a`
/// from `p` finds it at `x`.
pub(crate) proof fn lemma_find_at(s: Seq<u8>, p: int, x: int, a: u8)
    requires
        0 <= p <= x < s.len(),
        s[x] == a,
        forall|i: int| p <= i < x ==> #[trigger] s[i] != a,
    ensures
        find_byte(s, p, a) == x,
    decreases x - p,
{
    if p < x {
        lemma_find_at(s, p + 1, x, a);
    }
}

/// Where `s[x]` ends a line and no byte from `p` up to it does, looking for
/// the end of the line from `p` finds it at `x`.
proof fn lemma_eol_at(s: Seq<u8>, p: int, x: int)
    requires
        0 <= p <= x < s.len(),
        is_newline_byte(s[x]),
        forall|i: int| p <= i < x ==> !is_newline_byte(#[trigger] s[i]),
    ensures
        find_eol(s, p) == x,
    decreases x - p,
{
    if p < x {
        lemma_eol_at(s, p + 1, x);
    }
}


/// Whether the bytes `x` stand in `s` from `p` on.
pub open spec fn holds_at(s: Seq<u8>, p: int, x: Seq<u8>) -> bool {
    0 <= p && p + x.len() <= s.len() && s.subrange(p, p + x.len()) == x
}

pub(crate) proof fn lemma_holds_at(s: Seq<u8>, p: int, x: Seq<u8>)
    requires
        holds_at(s, p, x),
    ensures
        forall|i: int| 0 <= i < x.len() ==> s[p + i] == #[trigger] x[i],
{
    assert forall|i: int| 0 <= i < x.len() implies s[p + i] == #[trigger] x[i] by {
        assert(s.subrange(p, p + x.len())[i] == s[p + i]);
    }
}

pub(crate) proof fn lemma_holds_split(s: Seq<u8>, p: int, x: Seq<u8>, y: Seq<u8>)
    requires
        holds_at(s, p, x + y),
    ensures
        holds_at(s, p, x),
        holds_at(s, p + x.len(), y),
{
    assert(s.subrange(p, p + x.len()) =~= (x + y).subrange(0, x.len() as int));
    assert(s.subrange(p + x.len(), p + x.len() + y.len()) =~= (x + y).subrange(x.len() as int, (x + y).len() as int));
    assert((x + y).subrange(0, x.len() as int) =~= x);
    assert((x + y).subrange(x.len() as int, (x + y).len() as int) =~= y);
}

/// Text that a record may hold as a name: characters below 128, none of
/// them ending a line.
pub open spec fn plain(t: Seq<char>) -> bool {
    forall|i: int| 0 <= i < t.len() ==> 0 <= (#[trigger] t[i] as int) < 128 && t[i] != '\n' && t[i] != '\r'
}

proof fn lemma_plain_bytes(t: Seq<char>)
    requires
        plain(t),
    ensures
        crate::text::latin1(ascii(t)) == t,
        forall|i: int| 0 <= i < t.len() ==> !is_newline_byte(#[trigger] ascii(t)[i]),
{
    assert forall|i: int| 0 <= i < t.len() implies (((t[i] as u32) as u8) as char) == t[i] by {
        let c = t[i];
        let x = c as u32;
        assert((c as int) < 128);
        assert(0 <= c as int);
        assert(x as int == c as int);
        assert(x < 128);
        assert((x as u8) as int == x as int) by (bit_vector)
            requires
                x < 128,
        ;
        assert(((x as u8) as char) as int == c as int);
    }
    assert(crate::text::latin1(ascii(t)) =~= t);
}


/// Where the step from `p` reads a record and goes on within the buffer,
/// parsing from `p` is parsing from where it goes on.
proof fn lemma_run_step(s: Seq<u8>, p: int, st: LcovState, p2: int, st2: LcovState)
    requires
        0 <= p < p2 <= s.len(),
        lcov_step(s, p, st, true) == LcovStep::Next(p2, st2),
    ensures
        lcov_run(s, p, st, true) == lcov_run(s, p2, st2, true),
{
}

/// Where the step from `p` reads a record and goes on within the buffer,
/// parsing from `p` is parsing from where it goes on, whether branches are
/// read or not.
proof fn lemma_run_step_be(s: Seq<u8>, p: int, st: LcovState, p2: int, st2: LcovState, be: bool)
    requires
        0 <= p < p2 <= s.len(),
        lcov_step(s, p, st, be) == LcovStep::Next(p2, st2),
    ensures
        lcov_run(s, p, st, be) == lcov_run(s, p2, st2, be),
{
}

/// The count of a line before a record adds to it: 0 where it has none.
pub open spec fn prior_count(lines: Map<u32, u64>, line: u32) -> int {
    if lines.contains_key(line) { lines[line] as int } else { 0 }
}

/// The bytes of a `DA` record.
pub open spec fn da_bytes(line: u32, count: u64) -> Seq<u8> {
    ascii("DA:"@) + ascii(decimal(line as nat)) + ascii(","@) + ascii(decimal(count as nat)) + ascii("\n"@)
}

proof fn lemma_da_step(s: Seq<u8>, p: int, st: LcovState, line: u32, count: u64, be: bool)
    requires
        holds_at(s, p, da_bytes(line, count)),
        st.count + 1 <= i32::MAX,
        prior_count(st.lines, line) + count <= u64::MAX,
    ensures
        lcov_run(s, p, st, be) == lcov_run(s, p + da_bytes(line, count).len(),
            LcovState { lines: st.lines.insert(line, (prior_count(st.lines, line) + count) as u64), count: st.count + 1, ..st }, be),
{
    reveal_strlit("DA:");
    reveal_strlit(",");
    reveal_strlit("\n");
    let x = da_bytes(line, count);
    let dl = ascii(decimal(line as nat));
    let dc = ascii(decimal(count as nat));
    let k0 = ascii("DA:"@);
    assert(k0 =~= seq![68u8, 65u8, 58u8]);
    assert(ascii(","@) =~= seq![44u8]);
    assert(ascii("\n"@) =~= seq![10u8]);
    lemma_holds_split(s, p, k0 + dl + ascii(","@) + dc, ascii("\n"@));
    lemma_holds_split(s, p, k0 + dl + ascii(","@), dc);
    lemma_holds_split(s, p, k0 + dl, ascii(","@));
    lemma_holds_split(s, p, k0, dl);
    lemma_holds_at(s, p, k0);
    let r = p + 3;
    let q2 = r + dl.len();
    let r2 = q2 + 1;
    let e = r2 + dc.len();
    lemma_holds_at(s, q2, ascii(","@));
    lemma_holds_at(s, e, ascii("\n"@));
    assert(s[p] == 68 && s[p + 1] == 65 && s[p + 2] == 58);
    assert(ascii(","@)[0] == 44u8);
    assert(s[q2] == 44);
    assert(ascii("\n"@)[0] == 10u8);
    assert(s[e] == 10);
    lemma_fold_decimal(s, r, line as nat, u32::MAX as int);
    lemma_fold_decimal(s, r2, count as nat, u64::MAX as int);
    lemma_find_at(s, p + 1, p + 2, 58);
    lemma_find_at(s, r, q2, 44);
    lemma_eol_at(s, r2 + 1, e);
    let big = counted(st);
    assert(fold_key(s, p + 2, p + 2, 17473) == Some(17473u32));
    assert(fold_key(s, p + 1, p + 2, 68) == Some(key_da()));
    assert(fold_dec(s, r2, e, 0, u64::MAX as int) == fold_dec(s, r2 + 1, e, s[r2] - 48, u64::MAX as int));
    assert(x.len() == e + 1 - p);
    let st2 = LcovState { lines: st.lines.insert(line, (prior_count(st.lines, line) + count) as u64), count: st.count + 1, ..st };
    assert(lcov_step(s, p, st, be) == LcovStep::Next(e + 1, st2));
    lemma_run_step_be(s, p, st, e + 1, st2, be);
}


/// The bytes of an `SF` record.
pub open spec fn sf_bytes(name: Seq<char>) -> Seq<u8> {
    ascii("SF:"@) + ascii(name) + ascii("\n"@)
}

proof fn lemma_sf_step(s: Seq<u8>, p: int, st: LcovState, name: Seq<char>, be: bool)
    requires
        holds_at(s, p, sf_bytes(name)),
        plain(name),
        st.count + 1 <= i32::MAX,
    ensures
        lcov_run(s, p, st, be) == lcov_run(s, p + sf_bytes(name).len(),
            LcovState { file: Some(name), count: st.count + 1, ..st }, be),
{
    reveal_strlit("SF:");
    reveal_strlit("\n");
    let k0 = ascii("SF:"@);
    let nb = ascii(name);
    assert(k0 =~= seq![83u8, 70u8, 58u8]);
    assert(ascii("\n"@) =~= seq![10u8]);
    lemma_holds_split(s, p, k0 + nb, ascii("\n"@));
    lemma_holds_split(s, p, k0, nb);
    lemma_holds_at(s, p, k0);
    lemma_plain_bytes(name);
    let r = p + 3;
    let e = r + nb.len();
    lemma_holds_at(s, e, ascii("\n"@));
    assert(ascii("\n"@)[0] == 10u8);
    assert(s[e] == 10);
    lemma_holds_at(s, r, nb);
    assert forall|i: int| r <= i < e implies !is_newline_byte(#[trigger] s[i]) by {
        assert(s[r + (i - r)] == nb[i - r]);
    }
    lemma_eol_at(s, r, e);
    lemma_find_at(s, p + 1, p + 2, 58);
    assert(fold_key(s, p + 2, p + 2, 21318) == Some(21318u32));
    assert(fold_key(s, p + 1, p + 2, 83) == Some(key_sf()));
    assert(s.subrange(r, e) == nb);
    let st2 = LcovState { file: Some(name), count: st.count + 1, ..st };
    assert(lcov_step(s, p, st, be) == LcovStep::Next(e + 1, st2));
    lemma_run_step_be(s, p, st, e + 1, st2, be);
}

/// The bytes of an `FN` record.
pub open spec fn fn_bytes(name: Seq<char>, start: u32) -> Seq<u8> {
    ascii("FN:"@) + ascii(decimal(start as nat)) + ascii(","@) + ascii(name) + ascii("\n"@)
}

proof fn lemma_fn_step(s: Seq<u8>, p: int, st: LcovState, name: Seq<char>, start: u32)
    requires
        holds_at(s, p, fn_bytes(name, start)),
        plain(name),
        st.count + 1 <= i32::MAX,
    ensures
        lcov_run(s, p, st, true) == lcov_run(s, p + fn_bytes(name, start).len(),
            LcovState { functions: st.functions.insert(name, Function { start, executed: false }), count: st.count + 1, ..st }, true),
{
    reveal_strlit("FN:");
    reveal_strlit(",");
    reveal_strlit("\n");
    let k0 = ascii("FN:"@);
    let ds = ascii(decimal(start as nat));
    let nb = ascii(name);
    assert(k0 =~= seq![70u8, 78u8, 58u8]);
    assert(ascii(","@) =~= seq![44u8]);
    assert(ascii("\n"@) =~= seq![10u8]);
    lemma_holds_split(s, p, k0 + ds + ascii(","@) + nb, ascii("\n"@));
    lemma_holds_split(s, p, k0 + ds + ascii(","@), nb);
    lemma_holds_split(s, p, k0 + ds, ascii(","@));
    lemma_holds_split(s, p, k0, ds);
    lemma_holds_at(s, p, k0);
    lemma_plain_bytes(name);
    let r = p + 3;
    let q2 = r + ds.len();
    let r2 = q2 + 1;
    let e = r2 + nb.len();
    lemma_holds_at(s, q2, ascii(","@));
    assert(ascii(","@)[0] == 44u8);
    assert(s[q2] == 44);
    lemma_holds_at(s, e, ascii("\n"@));
    assert(ascii("\n"@)[0] == 10u8);
    assert(s[e] == 10);
    lemma_holds_at(s, r2, nb);
    assert forall|i: int| r2 <= i < e implies !is_newline_byte(#[trigger] s[i]) by {
        assert(s[r2 + (i - r2)] == nb[i - r2]);
    }
    lemma_eol_at(s, r2, e);
    lemma_fold_decimal(s, r, start as nat, u32::MAX as int);
    lemma_find_at(s, p + 1, p + 2, 58);
    lemma_find_at(s, r, q2, 44);
    assert(fold_key(s, p + 2, p + 2, 17998) == Some(17998u32));
    assert(fold_key(s, p + 1, p + 2, 70) == Some(key_fn()));
    assert(s.subrange(r2, e) == nb);
    let st2 = LcovState { functions: st.functions.insert(name, Function { start, executed: false }), count: st.count + 1, ..st };
    assert(lcov_step(s, p, st, true) == LcovStep::Next(e + 1, st2));
    lemma_run_step(s, p, st, e + 1, st2);
}

/// The bytes of an `FNDA` record.
pub open spec fn fnda_bytes(name: Seq<char>, executed: bool) -> Seq<u8> {
    ascii("FNDA:"@) + ascii(if executed { "1"@ } else { "0"@ }) + ascii(","@) + ascii(name) + ascii("\n"@)
}

proof fn lemma_fnda_step(s: Seq<u8>, p: int, st: LcovState, name: Seq<char>, executed: bool)
    requires
        holds_at(s, p, fnda_bytes(name, executed)),
        plain(name),
        st.count + 1 <= i32::MAX,
        st.functions.contains_key(name),
    ensures
        lcov_run(s, p, st, true) == lcov_run(s, p + fnda_bytes(name, executed).len(),
            LcovState { functions: st.functions.insert(name, Function {
                start: st.functions[name].start, executed: st.functions[name].executed || executed }),
                count: st.count + 1, ..st }, true),
{
    reveal_strlit("FNDA:");
    reveal_strlit("1");
    reveal_strlit("0");
    reveal_strlit(",");
    reveal_strlit("\n");
    let k0 = ascii("FNDA:"@);
    let ds = ascii(if executed { "1"@ } else { "0"@ });
    let nb = ascii(name);
    assert(k0 =~= seq![70u8, 78u8, 68u8, 65u8, 58u8]);
    assert(ds =~= seq![if executed { 49u8 } else { 48u8 }]);
    assert(ascii(","@) =~= seq![44u8]);
    assert(ascii("\n"@) =~= seq![10u8]);
    lemma_holds_split(s, p, k0 + ds + ascii(","@) + nb, ascii("\n"@));
    lemma_holds_split(s, p, k0 + ds + ascii(","@), nb);
    lemma_holds_split(s, p, k0 + ds, ascii(","@));
    lemma_holds_split(s, p, k0, ds);
    lemma_holds_at(s, p, k0);
    lemma_holds_at(s, p + 5, ds);
    lemma_plain_bytes(name);
    let r = p + 5;
    let q2 = r + 1;
    let r2 = q2 + 1;
    let e = r2 + nb.len();
    assert(ds[0] == (if executed { 49u8 } else { 48u8 }));
    assert(s[r] == (if executed { 49u8 } else { 48u8 }));
    lemma_holds_at(s, q2, ascii(","@));
    assert(ascii(","@)[0] == 44u8);
    assert(s[q2] == 44);
    lemma_holds_at(s, e, ascii("\n"@));
    assert(ascii("\n"@)[0] == 10u8);
    assert(s[e] == 10);
    lemma_holds_at(s, r2, nb);
    assert forall|i: int| r2 <= i < e implies !is_newline_byte(#[trigger] s[i]) by {
        assert(s[r2 + (i - r2)] == nb[i - r2]);
    }
    lemma_eol_at(s, r2, e);
    lemma_find_at(s, p + 1, p + 4, 58);
    lemma_find_at(s, r, q2, 44);
    assert(fold_key(s, p + 4, p + 4, 1179534401) == Some(1179534401u32));
    assert(fold_key(s, p + 3, p + 4, 4607556) == Some(1179534401u32));
    assert(fold_key(s, p + 2, p + 4, 17998) == Some(1179534401u32));
    assert(fold_key(s, p + 1, p + 4, 70) == Some(key_fnda()));
    let ex: int = if executed { 1 } else { 0 };
    assert(fold_dec(s, q2, q2, ex, u64::MAX as int) == Some(ex));
    assert(fold_dec(s, r, q2, 0, u64::MAX as int) == Some(ex));
    assert(s.subrange(r2, e) == nb);
    let f = st.functions[name];
    let st2 = LcovState { functions: st.functions.insert(name, Function { start: f.start, executed: f.executed || executed }),
        count: st.count + 1, ..st };
    assert(lcov_step(s, p, st, true) == LcovStep::Next(e + 1, st2));
    lemma_run_step(s, p, st, e + 1, st2);
}


/// The bytes of a record that a parse skips: a key, a number and the end of
/// the line.
pub open spec fn count_bytes(key: Seq<char>, n: nat) -> Seq<u8> {
    ascii(key) + ascii(decimal(n)) + ascii("\n"@)
}

/// The keys of the records of counts that a parse skips.
pub open spec fn skipped_key(key: Seq<char>) -> bool {
    key == "FNF:"@ || key == "FNH:"@ || key == "BRF:"@ || key == "BRH:"@ || key == "LF:"@ || key == "LH:"@
}

proof fn lemma_skip_step(s: Seq<u8>, p: int, st: LcovState, key: Seq<char>, n: nat)
    requires
        holds_at(s, p, count_bytes(key, n)),
        skipped_key(key),
        st.count + 1 <= i32::MAX,
    ensures
        lcov_run(s, p, st, true) == lcov_run(s, p + count_bytes(key, n).len(), counted(st), true),
{
    reveal_strlit("FNF:");
    reveal_strlit("FNH:");
    reveal_strlit("BRF:");
    reveal_strlit("BRH:");
    reveal_strlit("LF:");
    reveal_strlit("LH:");
    reveal_strlit("\n");
    let kb = ascii(key);
    let ds = ascii(decimal(n));
    assert(ascii("\n"@) =~= seq![10u8]);
    lemma_holds_split(s, p, kb + ds, ascii("\n"@));
    lemma_holds_split(s, p, kb, ds);
    lemma_holds_at(s, p, kb);
    let r = p + kb.len();
    let e = r + ds.len();
    lemma_holds_at(s, e, ascii("\n"@));
    assert(ascii("\n"@)[0] == 10u8);
    assert(s[e] == 10);
    lemma_fold_decimal(s, r, n, n as int);
    lemma_find_at(s, r, e, 10);
    let st2 = counted(st);
    if key == "LF:"@ || key == "LH:"@ {
        if key == "LF:"@ {
            assert(kb =~= seq![76u8, 70u8, 58u8]);
        } else {
            assert(kb =~= seq![76u8, 72u8, 58u8]);
        }
        assert(s[p] == 76);
        assert(s[p + 1] != 10 && s[p + 2] != 10);
        lemma_find_at(s, p + 1, e, 10);
    } else {
        if key == "FNF:"@ {
            assert(kb =~= seq![70u8, 78u8, 70u8, 58u8]);
            assert(fold_key(s, p + 3, p + 3, 4607558) == Some(4607558u32));
            assert(fold_key(s, p + 2, p + 3, 17998) == Some(4607558u32));
            assert(fold_key(s, p + 1, p + 3, 70) == Some(4607558u32));
        } else if key == "FNH:"@ {
            assert(kb =~= seq![70u8, 78u8, 72u8, 58u8]);
            assert(fold_key(s, p + 3, p + 3, 4607560) == Some(4607560u32));
            assert(fold_key(s, p + 2, p + 3, 17998) == Some(4607560u32));
            assert(fold_key(s, p + 1, p + 3, 70) == Some(4607560u32));
        } else if key == "BRF:"@ {
            assert(kb =~= seq![66u8, 82u8, 70u8, 58u8]);
            assert(fold_key(s, p + 3, p + 3, 4346438) == Some(4346438u32));
            assert(fold_key(s, p + 2, p + 3, 16978) == Some(4346438u32));
            assert(fold_key(s, p + 1, p + 3, 66) == Some(4346438u32));
        } else {
            assert(kb =~= seq![66u8, 82u8, 72u8, 58u8]);
            assert(fold_key(s, p + 3, p + 3, 4346440) == Some(4346440u32));
            assert(fold_key(s, p + 2, p + 3, 16978) == Some(4346440u32));
            assert(fold_key(s, p + 1, p + 3, 66) == Some(4346440u32));
        }
        lemma_find_at(s, p + 1, p + 3, 58);
    }
    assert(lcov_step(s, p, st, true) == LcovStep::Next(e + 1, st2));
    lemma_run_step(s, p, st, e + 1, st2);
}

/// The bytes of the record that ends a file.
pub open spec fn eor_bytes() -> Seq<u8> {
    ascii("end_of_record\n"@)
}

proof fn lemma_eor_step(s: Seq<u8>, p: int, st: LcovState, name: Seq<char>, be: bool)
    requires
        holds_at(s, p, eor_bytes()),
        st.file == Some(name),
        st.count + 1 <= i32::MAX,
    ensures
        lcov_run(s, p, st, be) == lcov_run(s, p + eor_bytes().len(), LcovState {
            file: None,
            lines: Map::empty(),
            branches: Map::empty(),
            functions: Map::empty(),
            results: st.results.push((name, CovView { lines: st.lines, branches: st.branches, functions: st.functions })),
            count: st.count + 1,
        }, be),
{
    reveal_strlit("end_of_record\n");
    let x = eor_bytes();
    assert(x =~= seq![101u8, 110, 100, 95, 111, 102, 95, 114, 101, 99, 111, 114, 100, 10]);
    lemma_holds_at(s, p, x);
    assert(x[0] == 101u8);
    assert(s[p] == 101);
    assert(x[13] == 10u8);
    assert(s[p + 13] == 10);
    assert forall|i: int| p + 1 <= i < p + 13 implies #[trigger] s[i] != 10 by {
        assert(s[p + (i - p)] == x[i - p]);
    }
    lemma_find_at(s, p + 1, p + 13, 10);
    let st2 = LcovState {
        file: None,
        lines: Map::empty(),
        branches: Map::empty(),
        functions: Map::empty(),
        results: st.results.push((name, CovView { lines: st.lines, branches: st.branches, functions: st.functions })),
        count: st.count + 1,
    };
    assert(lcov_step(s, p, st, be) == LcovStep::Next(p + 14, st2));
    lemma_run_step_be(s, p, st, p + 14, st2, be);
}


/// The bytes of a `BRDA` record: branch `i` of line `line`, taken or not.
pub open spec fn brda_bytes(line: u32, i: nat, taken: bool) -> Seq<u8> {
    ascii("BRDA:"@) + ascii(decimal(line as nat)) + ascii(",0,"@) + ascii(decimal(i)) + ascii(","@)
        + ascii(if taken { "1"@ } else { "-"@ }) + ascii("\n"@)
}

/// The records read for a branch: one, and one more for the end of its
/// line where the branch was taken.
pub open spec fn brda_reads(taken: bool) -> int {
    if taken { 2 } else { 1 }
}

proof fn lemma_brda_step(s: Seq<u8>, p: int, st: LcovState, line: u32, i: nat, taken: bool)
    requires
        holds_at(s, p, brda_bytes(line, i, taken)),
        i <= u32::MAX,
        st.count + brda_reads(taken) <= i32::MAX,
    ensures
        lcov_run(s, p, st, true) == lcov_run(s, p + brda_bytes(line, i, taken).len(), LcovState {
            branches: added_branch(st.branches, line, i as u32, taken),
            count: st.count + brda_reads(taken),
            ..st
        }, true),
{
    reveal_strlit("BRDA:");
    reveal_strlit(",0,");
    reveal_strlit(",");
    reveal_strlit("1");
    reveal_strlit("-");
    reveal_strlit("\n");
    let k0 = ascii("BRDA:"@);
    let dl = ascii(decimal(line as nat));
    let z = ascii(",0,"@);
    let di = ascii(decimal(i));
    let c1 = ascii(","@);
    let tb = ascii(if taken { "1"@ } else { "-"@ });
    let nl = ascii("\n"@);
    assert(k0 =~= seq![66u8, 82u8, 68u8, 65u8, 58u8]);
    assert(z =~= seq![44u8, 48u8, 44u8]);
    assert(c1 =~= seq![44u8]);
    assert(tb =~= seq![if taken { 49u8 } else { 45u8 }]);
    assert(nl =~= seq![10u8]);
    lemma_holds_split(s, p, k0 + dl + z + di + c1 + tb, nl);
    lemma_holds_split(s, p, k0 + dl + z + di + c1, tb);
    lemma_holds_split(s, p, k0 + dl + z + di, c1);
    lemma_holds_split(s, p, k0 + dl + z, di);
    lemma_holds_split(s, p, k0 + dl, z);
    lemma_holds_split(s, p, k0, dl);
    lemma_holds_at(s, p, k0);
    let r = p + 5;
    let q2 = r + dl.len();
    let r2 = q2 + 1;
    let r3 = r2 + 2;
    let q4 = r3 + di.len();
    let r4 = q4 + 1;
    let e = r4 + 1;
    lemma_holds_at(s, q2, z);
    assert(z[0] == 44u8 && z[1] == 48u8 && z[2] == 44u8);
    assert(s[q2] == 44 && s[q2 + 1] == 48 && s[q2 + 2] == 44);
    lemma_holds_at(s, q4, c1);
    assert(c1[0] == 44u8);
    assert(s[q4] == 44);
    lemma_holds_at(s, r4, tb);
    assert(tb[0] == (if taken { 49u8 } else { 45u8 }));
    assert(s[r4] == (if taken { 49u8 } else { 45u8 }));
    lemma_holds_at(s, e, nl);
    assert(nl[0] == 10u8);
    assert(s[e] == 10);
    lemma_fold_decimal(s, r, line as nat, u32::MAX as int);
    lemma_fold_decimal(s, r3, i, u32::MAX as int);
    lemma_find_at(s, p + 1, p + 4, 58);
    lemma_find_at(s, r, q2, 44);
    lemma_find_at(s, r2, r2 + 1, 44);
    lemma_find_at(s, r3, q4, 44);
    lemma_eol_at(s, r4, e);
    assert(fold_key(s, p + 4, p + 4, 1112687681) == Some(1112687681u32));
    assert(fold_key(s, p + 3, p + 4, 4346436) == Some(1112687681u32));
    assert(fold_key(s, p + 2, p + 4, 16978) == Some(1112687681u32));
    assert(fold_key(s, p + 1, p + 4, 66) == Some(key_brda()));
    assert(fold_dec(s, r2 + 1, r2 + 1, 0, u64::MAX as int) == Some(0int));
    assert(fold_dec(s, r2, r2 + 1, 0, u64::MAX as int) == Some(0int));
    let b2 = added_branch(st.branches, line, i as u32, taken);
    if taken {
        assert(first_not_dash(s, r4, e) == r4);
        let st2 = LcovState { branches: b2, count: st.count + 1, ..st };
        assert(lcov_step(s, p, st, true) == LcovStep::Next(e, st2));
        lemma_run_step(s, p, st, e, st2);
        let st3 = LcovState { branches: b2, count: st.count + 2, ..st };
        assert(lcov_step(s, e, st2, true) == LcovStep::Next(e + 1, st3));
        lemma_run_step(s, e, st2, e + 1, st3);
    } else {
        assert(first_not_dash(s, r4 + 1, e) == e);
        assert(first_not_dash(s, r4, e) == e);
        let st2 = LcovState { branches: b2, count: st.count + 1, ..st };
        assert(lcov_step(s, p, st, true) == LcovStep::Next(e + 1, st2));
        lemma_run_step(s, p, st, e + 1, st2);
    }
}


/// The functions once `FN` records for `es` are read into `m`, in order.
pub open spec fn fns_read(m: Map<Seq<char>, Function>, es: Seq<(String, Function)>) -> Map<Seq<char>, Function>
    decreases es.len(),
{
    if es.len() == 0 {
        m
    } else {
        fns_read(m, es.drop_last()).insert(es.last().0@, Function { start: es.last().1.start, executed: false })
    }
}

/// The functions once `FNDA` records for `es` are read into `m`, in order.
pub open spec fn fndas_read(m: Map<Seq<char>, Function>, es: Seq<(String, Function)>) -> Map<Seq<char>, Function>
    decreases es.len(),
{
    if es.len() == 0 {
        m
    } else {
        let m2 = fndas_read(m, es.drop_last());
        let n = es.last().0@;
        m2.insert(n, Function { start: m2[n].start, executed: m2[n].executed || es.last().1.executed })
    }
}

/// Whether every function name of `es` may stand in a record.
pub open spec fn plain_names(es: Seq<(String, Function)>) -> bool {
    forall|k: int| 0 <= k < es.len() ==> plain(#[trigger] es[k].0@)
}

proof fn lemma_fns_run(s: Seq<u8>, p: int, st: LcovState, es: Seq<(String, Function)>)
    requires
        holds_at(s, p, ascii(fn_records(es, false))),
        plain_names(es),
        st.count + es.len() <= i32::MAX,
    ensures
        lcov_run(s, p, st, true) == lcov_run(s, p + ascii(fn_records(es, false)).len(),
            LcovState { functions: fns_read(st.functions, es), count: st.count + es.len(), ..st }, true),
    decreases es.len(),
{
    if es.len() > 0 {
        let pre = es.drop_last();
        let (name, f) = es.last();
        let line = "FN:"@ + decimal(f.start as nat) + ","@ + shown_name(name@, false) + "\n"@;
        assert(fn_records(es, false) == fn_records(pre, false) + line);
        lemma_ascii_add(fn_records(pre, false), line);
        assert(ascii(line) =~= fn_bytes(name@, f.start));
        lemma_holds_split(s, p, ascii(fn_records(pre, false)), fn_bytes(name@, f.start));
        assert(plain_names(pre)) by {
            assert forall|k: int| 0 <= k < pre.len() implies plain(#[trigger] pre[k].0@) by {
                assert(pre[k] == es[k]);
            }
        }
        lemma_fns_run(s, p, st, pre);
        let p1 = p + ascii(fn_records(pre, false)).len();
        let st1 = LcovState { functions: fns_read(st.functions, pre), count: st.count + pre.len(), ..st };
        assert(plain(es[es.len() - 1].0@));
        lemma_fn_step(s, p1, st1, name@, f.start);
    } else {
        assert(ascii(fn_records(es, false)) =~= Seq::<u8>::empty());
        assert(LcovState { functions: fns_read(st.functions, es), count: st.count + es.len(), ..st } == st);
    }
}

proof fn lemma_fndas_run(s: Seq<u8>, p: int, st: LcovState, es: Seq<(String, Function)>)
    requires
        holds_at(s, p, ascii(fnda_records(es, false))),
        plain_names(es),
        st.count + es.len() <= i32::MAX,
        forall|k: int| 0 <= k < es.len() ==> st.functions.contains_key(#[trigger] es[k].0@),
    ensures
        lcov_run(s, p, st, true) == lcov_run(s, p + ascii(fnda_records(es, false)).len(),
            LcovState { functions: fndas_read(st.functions, es), count: st.count + es.len(), ..st }, true),
        fndas_read(st.functions, es).dom() == st.functions.dom(),
    decreases es.len(),
{
    if es.len() > 0 {
        let pre = es.drop_last();
        let (name, f) = es.last();
        let line = "FNDA:"@ + (if f.executed { "1"@ } else { "0"@ }) + ","@ + shown_name(name@, false) + "\n"@;
        assert(fnda_records(es, false) == fnda_records(pre, false) + line);
        lemma_ascii_add(fnda_records(pre, false), line);
        assert(ascii(line) =~= fnda_bytes(name@, f.executed));
        lemma_holds_split(s, p, ascii(fnda_records(pre, false)), fnda_bytes(name@, f.executed));
        assert(plain_names(pre)) by {
            assert forall|k: int| 0 <= k < pre.len() implies plain(#[trigger] pre[k].0@) by {
                assert(pre[k] == es[k]);
            }
        }
        assert forall|k: int| 0 <= k < pre.len() implies st.functions.contains_key(#[trigger] pre[k].0@) by {
            assert(pre[k] == es[k]);
        }
        lemma_fndas_run(s, p, st, pre);
        let p1 = p + ascii(fnda_records(pre, false)).len();
        let st1 = LcovState { functions: fndas_read(st.functions, pre), count: st.count + pre.len(), ..st };
        assert(plain(es[es.len() - 1].0@));
        assert(st.functions.contains_key(es[es.len() - 1].0@));
        lemma_fnda_step(s, p1, st1, name@, f.executed);
        assert(fndas_read(st.functions, es).dom() =~= st.functions.dom());
    } else {
        assert(ascii(fnda_records(es, false)) =~= Seq::<u8>::empty());
        assert(LcovState { functions: fndas_read(st.functions, es), count: st.count + es.len(), ..st } == st);
    }
}


/// The line counts once `DA` records for the lines `ks` are read into `m`.
pub open spec fn das_read(m: Map<u32, u64>, ks: Seq<u32>, lines: Map<u32, u64>) -> Map<u32, u64>
    decreases ks.len(),
{
    if ks.len() == 0 { m } else { das_read(m, ks.drop_last(), lines).insert(ks.last(), lines[ks.last()]) }
}

proof fn lemma_das_run(s: Seq<u8>, p: int, st: LcovState, ks: Seq<u32>, lines: Map<u32, u64>)
    requires
        holds_at(s, p, ascii(da_records(ks, lines))),
        forall|i: int, j: int| 0 <= i < j < ks.len() ==> ks[i] < ks[j],
        forall|k: int| 0 <= k < ks.len() ==> !st.lines.contains_key(#[trigger] ks[k]),
        st.count + ks.len() <= i32::MAX,
    ensures
        lcov_run(s, p, st, true) == lcov_run(s, p + ascii(da_records(ks, lines)).len(),
            LcovState { lines: das_read(st.lines, ks, lines), count: st.count + ks.len(), ..st }, true),
        forall|x: u32| #[trigger] das_read(st.lines, ks, lines).contains_key(x) <==> (st.lines.contains_key(x) || ks.contains(x)),
        forall|k: int| 0 <= k < ks.len() ==> das_read(st.lines, ks, lines)[#[trigger] ks[k]] == lines[ks[k]],
        forall|x: u32| st.lines.contains_key(x) ==> #[trigger] das_read(st.lines, ks, lines)[x] == st.lines[x],
    decreases ks.len(),
{
    if ks.len() > 0 {
        let pre = ks.drop_last();
        let l = ks.last();
        let line = "DA:"@ + decimal(l as nat) + ","@ + decimal(lines[l] as nat) + "\n"@;
        assert(da_records(ks, lines) == da_records(pre, lines) + line);
        lemma_ascii_add(da_records(pre, lines), line);
        assert(ascii(line) =~= da_bytes(l, lines[l]));
        lemma_holds_split(s, p, ascii(da_records(pre, lines)), da_bytes(l, lines[l]));
        assert forall|k: int| 0 <= k < pre.len() implies !st.lines.contains_key(#[trigger] pre[k]) by {
            assert(pre[k] == ks[k]);
        }
        lemma_das_run(s, p, st, pre, lines);
        let p1 = p + ascii(da_records(pre, lines)).len();
        let st1 = LcovState { lines: das_read(st.lines, pre, lines), count: st.count + pre.len(), ..st };
        assert(!st.lines.contains_key(ks[ks.len() - 1]));
        assert(!pre.contains(l)) by {
            if pre.contains(l) {
                let k = choose|k: int| 0 <= k < pre.len() && pre[k] == l;
                assert(ks[k] < ks[ks.len() - 1]);
            }
        }
        lemma_da_step(s, p1, st1, l, lines[l], true);
        assert(prior_count(st1.lines, l) == 0);
        assert(((prior_count(st1.lines, l) + lines[l]) as u64) == lines[l]);
        let m = das_read(st.lines, ks, lines);
        assert forall|x: u32| #[trigger] m.contains_key(x) <==> (st.lines.contains_key(x) || ks.contains(x)) by {
            if ks.contains(x) && x != l {
                let k = choose|k: int| 0 <= k < ks.len() && ks[k] == x;
                assert(pre[k] == x);
            }
            if pre.contains(x) {
                let k = choose|k: int| 0 <= k < pre.len() && pre[k] == x;
                assert(ks[k] == x);
            }
            if x == l {
                assert(ks[ks.len() - 1] == x);
            }
        }
        assert forall|k: int| 0 <= k < ks.len() implies m[#[trigger] ks[k]] == lines[ks[k]] by {
            if k < ks.len() - 1 {
                assert(pre[k] == ks[k]);
                assert(ks[k] < ks[ks.len() - 1]);
            }
        }
        assert forall|x: u32| st.lines.contains_key(x) implies #[trigger] m[x] == st.lines[x] by {
            assert(x != l);
        }
    } else {
        assert(ascii(da_records(ks, lines)) =~= Seq::<u8>::empty());
        assert(LcovState { lines: das_read(st.lines, ks, lines), count: st.count + ks.len(), ..st } == st);
    }
}

/// The records read for the branches `taken` of a line.
pub open spec fn brdas_reads(taken: Seq<bool>) -> int
    decreases taken.len(),
{
    if taken.len() == 0 { 0 } else { brdas_reads(taken.drop_last()) + brda_reads(taken.last()) }
}

proof fn lemma_brdas_reads(taken: Seq<bool>)
    ensures
        taken.len() <= brdas_reads(taken) <= 2 * taken.len(),
    decreases taken.len(),
{
    if taken.len() > 0 {
        lemma_brdas_reads(taken.drop_last());
    }
}

proof fn lemma_brdas_run(s: Seq<u8>, p: int, st: LcovState, line: u32, taken: Seq<bool>)
    requires
        holds_at(s, p, ascii(brda_records(line, taken))),
        !st.branches.contains_key(line),
        taken.len() <= u32::MAX + 1,
        st.count + 2 * taken.len() <= i32::MAX,
    ensures
        lcov_run(s, p, st, true) == lcov_run(s, p + ascii(brda_records(line, taken)).len(), LcovState {
            branches: if taken.len() == 0 { st.branches } else { st.branches.insert(line, taken) },
            count: st.count + brdas_reads(taken),
            ..st
        }, true),
    decreases taken.len(),
{
    lemma_brdas_reads(taken);
    if taken.len() > 0 {
        let pre = taken.drop_last();
        let t = taken.last();
        let i = (taken.len() - 1) as nat;
        let rec = "BRDA:"@ + decimal(line as nat) + ",0,"@ + decimal(i) + ","@ + (if t { "1"@ } else { "-"@ }) + "\n"@;
        assert(brda_records(line, taken) == brda_records(line, pre) + rec);
        lemma_ascii_add(brda_records(line, pre), rec);
        assert(ascii(rec) =~= brda_bytes(line, i, t));
        lemma_holds_split(s, p, ascii(brda_records(line, pre)), brda_bytes(line, i, t));
        lemma_brdas_reads(pre);
        lemma_brdas_run(s, p, st, line, pre);
        let p1 = p + ascii(brda_records(line, pre)).len();
        let b1 = if pre.len() == 0 { st.branches } else { st.branches.insert(line, pre) };
        let st1 = LcovState { branches: b1, count: st.count + brdas_reads(pre), ..st };
        lemma_brda_step(s, p1, st1, line, i, t);
        if pre.len() == 0 {
            assert(seq![t] =~= taken);
        } else {
            assert(pre + Seq::new(0nat, |j: int| false) + seq![t] =~= taken);
        }
        assert(added_branch(b1, line, i as u32, t) == st.branches.insert(line, taken));
    } else {
        assert(ascii(brda_records(line, taken)) =~= Seq::<u8>::empty());
        assert(LcovState { branches: st.branches, count: st.count + brdas_reads(taken), ..st } == st);
    }
}


/// The branches once the `BRDA` records of the lines `ks` are read into `m`.
pub open spec fn branches_read(m: Map<u32, Seq<bool>>, ks: Seq<u32>, br: Map<u32, Seq<bool>>) -> Map<u32, Seq<bool>>
    decreases ks.len(),
{
    if ks.len() == 0 { m } else { branches_read(m, ks.drop_last(), br).insert(ks.last(), br[ks.last()]) }
}

/// The records read for the branches of the lines `ks`.
pub open spec fn lines_reads(ks: Seq<u32>, br: Map<u32, Seq<bool>>) -> int
    decreases ks.len(),
{
    if ks.len() == 0 { 0 } else { lines_reads(ks.drop_last(), br) + brdas_reads(br[ks.last()]) }
}

proof fn lemma_branches_run(s: Seq<u8>, p: int, st: LcovState, ks: Seq<u32>, br: Map<u32, Seq<bool>>)
    requires
        holds_at(s, p, ascii(branch_records(ks, br))),
        forall|i: int, j: int| 0 <= i < j < ks.len() ==> ks[i] < ks[j],
        forall|k: int| 0 <= k < ks.len() ==> !st.branches.contains_key(#[trigger] ks[k]),
        forall|k: int| 0 <= k < ks.len() ==> 0 < #[trigger] br[ks[k]].len() <= u32::MAX + 1,
        st.count + 2 * branch_totals(ks, br).0 <= i32::MAX,
    ensures
        lcov_run(s, p, st, true) == lcov_run(s, p + ascii(branch_records(ks, br)).len(),
            LcovState { branches: branches_read(st.branches, ks, br), count: st.count + lines_reads(ks, br), ..st }, true),
        lines_reads(ks, br) <= 2 * branch_totals(ks, br).0,
        forall|x: u32| #[trigger] branches_read(st.branches, ks, br).contains_key(x) <==> (st.branches.contains_key(x) || ks.contains(x)),
        forall|k: int| 0 <= k < ks.len() ==> branches_read(st.branches, ks, br)[#[trigger] ks[k]] == br[ks[k]],
    decreases ks.len(),
{
    if ks.len() > 0 {
        let pre = ks.drop_last();
        let l = ks.last();
        assert(branch_records(ks, br) == branch_records(pre, br) + brda_records(l, br[l]));
        lemma_ascii_add(branch_records(pre, br), brda_records(l, br[l]));
        lemma_holds_split(s, p, ascii(branch_records(pre, br)), ascii(brda_records(l, br[l])));
        assert forall|k: int| 0 <= k < pre.len() implies !st.branches.contains_key(#[trigger] pre[k]) by {
            assert(pre[k] == ks[k]);
        }
        assert forall|k: int| 0 <= k < pre.len() implies 0 < #[trigger] br[pre[k]].len() <= u32::MAX + 1 by {
            assert(pre[k] == ks[k]);
        }
        assert(0 < br[ks[ks.len() - 1]].len() <= u32::MAX + 1);
        lemma_branches_run(s, p, st, pre, br);
        lemma_brdas_reads(br[l]);
        let p1 = p + ascii(branch_records(pre, br)).len();
        let st1 = LcovState { branches: branches_read(st.branches, pre, br), count: st.count + lines_reads(pre, br), ..st };
        assert(!st.branches.contains_key(ks[ks.len() - 1]));
        assert(!pre.contains(l)) by {
            if pre.contains(l) {
                let k = choose|k: int| 0 <= k < pre.len() && pre[k] == l;
                assert(ks[k] < ks[ks.len() - 1]);
            }
        }
        lemma_brdas_run(s, p1, st1, l, br[l]);
        let m = branches_read(st.branches, ks, br);
        assert forall|x: u32| #[trigger] m.contains_key(x) <==> (st.branches.contains_key(x) || ks.contains(x)) by {
            if ks.contains(x) && x != l {
                let k = choose|k: int| 0 <= k < ks.len() && ks[k] == x;
                assert(pre[k] == x);
            }
            if pre.contains(x) {
                let k = choose|k: int| 0 <= k < pre.len() && pre[k] == x;
                assert(ks[k] == x);
            }
            if x == l {
                assert(ks[ks.len() - 1] == x);
            }
        }
        assert forall|k: int| 0 <= k < ks.len() implies m[#[trigger] ks[k]] == br[ks[k]] by {
            if k < ks.len() - 1 {
                assert(pre[k] == ks[k]);
                assert(ks[k] < ks[ks.len() - 1]);
            }
        }
    } else {
        assert(ascii(branch_records(ks, br)) =~= Seq::<u8>::empty());
        assert(LcovState { branches: branches_read(st.branches, ks, br), count: st.count + lines_reads(ks, br), ..st } == st);
    }
}


proof fn lemma_tn_step(s: Seq<u8>, p: int, st: LcovState)
    requires
        holds_at(s, p, ascii("TN:\n"@)),
        st.count + 1 <= i32::MAX,
    ensures
        lcov_run(s, p, st, true) == lcov_run(s, p + 4, counted(st), true),
{
    reveal_strlit("TN:\n");
    let x = ascii("TN:\n"@);
    assert(x =~= seq![84u8, 78u8, 58u8, 10u8]);
    lemma_holds_at(s, p, x);
    assert(x[0] == 84u8 && x[1] == 78u8 && x[2] == 58u8 && x[3] == 10u8);
    assert(s[p] == 84 && s[p + 1] == 78 && s[p + 2] == 58 && s[p + 3] == 10);
    lemma_find_at(s, p + 1, p + 3, 10);
    assert(lcov_step(s, p, st, true) == LcovStep::Next(p + 4, counted(st)));
    lemma_run_step(s, p, st, p + 4, counted(st));
}

proof fn lemma_fns_read(es: Seq<(String, Function)>)
    requires
        entry_names(es).no_duplicates(),
    ensures
        forall|x: Seq<char>| #[trigger] fns_read(Map::empty(), es).contains_key(x) <==> entry_names(es).contains(x),
        forall|k: int| 0 <= k < es.len() ==> fns_read(Map::empty(), es)[#[trigger] es[k].0@]
            == (Function { start: es[k].1.start, executed: false }),
    decreases es.len(),
{
    if es.len() > 0 {
        let pre = es.drop_last();
        assert(entry_names(pre) =~= entry_names(es).drop_last());
        lemma_fns_read(pre);
        let m = fns_read(Map::empty(), es);
        let n = es.last().0@;
        assert forall|x: Seq<char>| #[trigger] m.contains_key(x) <==> entry_names(es).contains(x) by {
            assert(fns_read(Map::empty(), pre).contains_key(x) == entry_names(pre).contains(x));
            assert(m.contains_key(x) == (fns_read(Map::empty(), pre).contains_key(x) || x == n));
            if entry_names(es).contains(x) {
                let k = choose|k: int| 0 <= k < entry_names(es).len() && entry_names(es)[k] == x;
                if k < es.len() - 1 {
                    assert(entry_names(pre)[k] == x);
                }
            }
            if entry_names(pre).contains(x) {
                let k = choose|k: int| 0 <= k < entry_names(pre).len() && entry_names(pre)[k] == x;
                assert(entry_names(es)[k] == x);
            }
            if x == n {
                assert(entry_names(es)[es.len() - 1] == x);
            }
        }
        assert forall|k: int| 0 <= k < es.len() implies m[#[trigger] es[k].0@] == (Function { start: es[k].1.start, executed: false }) by {
            if k < es.len() - 1 {
                assert(pre[k] == es[k]);
                assert(entry_names(es)[k] != entry_names(es)[es.len() - 1]);
            }
        }
    }
}

proof fn lemma_fndas_read(m: Map<Seq<char>, Function>, es: Seq<(String, Function)>)
    requires
        entry_names(es).no_duplicates(),
        forall|k: int| 0 <= k < es.len() ==> m.contains_key(#[trigger] es[k].0@),
    ensures
        fndas_read(m, es).dom() == m.dom(),
        forall|x: Seq<char>| m.contains_key(x) && !entry_names(es).contains(x) ==> #[trigger] fndas_read(m, es)[x] == m[x],
        forall|k: int| 0 <= k < es.len() ==> fndas_read(m, es)[#[trigger] es[k].0@]
            == (Function { start: m[es[k].0@].start, executed: m[es[k].0@].executed || es[k].1.executed }),
    decreases es.len(),
{
    if es.len() > 0 {
        let pre = es.drop_last();
        assert(entry_names(pre) =~= entry_names(es).drop_last());
        assert forall|k: int| 0 <= k < pre.len() implies m.contains_key(#[trigger] pre[k].0@) by {
            assert(pre[k] == es[k]);
        }
        lemma_fndas_read(m, pre);
        let n = es.last().0@;
        let m2 = fndas_read(m, pre);
        assert(!entry_names(pre).contains(n)) by {
            if entry_names(pre).contains(n) {
                let k = choose|k: int| 0 <= k < entry_names(pre).len() && entry_names(pre)[k] == n;
                assert(entry_names(es)[k] == entry_names(es)[es.len() - 1]);
            }
        }
        assert(m.contains_key(es[es.len() - 1].0@));
        assert(m2[n] == m[n]);
        assert(fndas_read(m, es).dom() =~= m.dom());
        assert forall|x: Seq<char>| m.contains_key(x) && !entry_names(es).contains(x) implies #[trigger] fndas_read(m, es)[x] == m[x] by {
            assert(entry_names(es)[es.len() - 1] == n);
            if entry_names(pre).contains(x) {
                let k = choose|k: int| 0 <= k < entry_names(pre).len() && entry_names(pre)[k] == x;
                assert(entry_names(es)[k] == x);
            }
        }
        assert forall|k: int| 0 <= k < es.len() implies fndas_read(m, es)[#[trigger] es[k].0@]
            == (Function { start: m[es[k].0@].start, executed: m[es[k].0@].executed || es[k].1.executed }) by {
            if k < es.len() - 1 {
                assert(pre[k] == es[k]);
                assert(entry_names(es)[k] != entry_names(es)[es.len() - 1]);
            }
        }
    }
}


proof fn lemma_count_text(key: Seq<char>, n: nat)
    ensures
        ascii(key + decimal(n) + "\n"@) == count_bytes(key, n),
{
    lemma_ascii_add(key + decimal(n), "\n"@);
    lemma_ascii_add(key, decimal(n));
}

proof fn lemma_map_back<V>(m: Map<u32, V>, ks: Seq<u32>, target: Map<u32, V>)
    requires
        forall|x: u32| #[trigger] m.contains_key(x) <==> ks.contains(x),
        forall|k: int| 0 <= k < ks.len() ==> m[#[trigger] ks[k]] == target[ks[k]],
        ks.to_set() == target.dom(),
    ensures
        m == target,
{
    assert forall|x: u32| #[trigger] m.contains_key(x) <==> target.contains_key(x) by {
        assert(ks.to_set().contains(x) == ks.contains(x));
    }
    assert forall|x: u32| m.contains_key(x) implies #[trigger] m[x] == target[x] by {
        let k = choose|k: int| 0 <= k < ks.len() && ks[k] == x;
    }
    assert(m =~= target);
}

proof fn lemma_functions_back(es: Seq<(String, Function)>, fns: Map<Seq<char>, Function>)
    requires
        walks_functions(es, fns),
    ensures
        fndas_read(fns_read(Map::empty(), es), es) == fns,
        forall|k: int| 0 <= k < es.len() ==> fns_read(Map::empty(), es).contains_key(#[trigger] es[k].0@),
{
    let f3 = fns_read(Map::<Seq<char>, Function>::empty(), es);
    lemma_fns_read(es);
    assert forall|k: int| 0 <= k < es.len() implies f3.contains_key(#[trigger] es[k].0@) by {
        assert(entry_names(es)[k] == es[k].0@);
    }
    lemma_fndas_read(f3, es);
    let m = fndas_read(f3, es);
    assert forall|x: Seq<char>| #[trigger] m.contains_key(x) <==> fns.contains_key(x) by {
        assert(f3.contains_key(x) == entry_names(es).contains(x));
        assert(entry_names(es).to_set().contains(x) == entry_names(es).contains(x));
    }
    assert forall|x: Seq<char>| m.contains_key(x) implies #[trigger] m[x] == fns[x] by {
        assert(f3.contains_key(x));
        let k = choose|k: int| 0 <= k < entry_names(es).len() && entry_names(es)[k] == x;
        assert(es[k].0@ == x);
        assert(fns[es[k].0@] == es[k].1);
    }
    assert(m =~= fns);
}

/// The pieces of the text grcov writes for a file, `TN:` first, in order.
spec fn record_items(rel: Seq<char>, r: CovView, es: Seq<(String, Function)>, bks: Seq<u32>, lks: Seq<u32>) -> Seq<Seq<char>> {
    let bt = branch_totals(bks, r.branches);
    seq![
        "TN:\n"@,
        "SF:"@, rel, "\n"@,
        fn_records(es, false),
        fnda_records(es, false),
        if es.len() > 0 { "FNF:"@ + decimal(es.len()) + "\n"@ + "FNH:"@ + decimal(executed_count(es)) + "\n"@ } else { Seq::empty() },
        branch_records(bks, r.branches),
        "BRF:"@, decimal(bt.0), "\n"@,
        "BRH:"@, decimal(bt.1), "\n"@,
        da_records(lks, r.lines),
        "LF:"@, decimal(lks.len()), "\n"@,
        "LH:"@, decimal(hit_lines(lks, r.lines)), "\n"@,
        "end_of_record\n"@
    ]
}

/// The text of the pieces `ps[..k]`, one after the other.
spec fn joined(ps: Seq<Seq<char>>, k: int) -> Seq<char>
    decreases k,
{
    if k <= 0 { Seq::empty() } else { joined(ps, k - 1) + ps[k - 1] }
}

proof fn lemma_prefix_at(s: Seq<u8>, ps: Seq<Seq<char>>, k: int)
    requires
        0 <= k <= ps.len(),
        holds_at(s, 0, ascii(joined(ps, ps.len() as int))),
    ensures
        holds_at(s, 0, ascii(joined(ps, k))),
    decreases ps.len() - k,
{
    if k < ps.len() {
        lemma_prefix_at(s, ps, k + 1);
        lemma_ascii_add(joined(ps, k), ps[k]);
        lemma_holds_split(s, 0, ascii(joined(ps, k)), ascii(ps[k]));
    }
}

proof fn lemma_item_at(s: Seq<u8>, ps: Seq<Seq<char>>, j: int)
    requires
        0 <= j < ps.len(),
        holds_at(s, 0, ascii(joined(ps, ps.len() as int))),
    ensures
        holds_at(s, ascii(joined(ps, j)).len() as int, ascii(ps[j])),
        ascii(joined(ps, j + 1)).len() == ascii(joined(ps, j)).len() + ascii(ps[j]).len(),
{
    lemma_prefix_at(s, ps, j + 1);
    lemma_ascii_add(joined(ps, j), ps[j]);
    lemma_holds_split(s, 0, ascii(joined(ps, j)), ascii(ps[j]));
}

proof fn lemma_holds_join(s: Seq<u8>, p: int, x: Seq<u8>, y: Seq<u8>)
    requires
        holds_at(s, p, x),
        holds_at(s, p + x.len(), y),
    ensures
        holds_at(s, p, x + y),
{
    assert(s.subrange(p, p + x.len() + y.len()) =~= x + y) by {
        assert forall|i: int| 0 <= i < x.len() + y.len() implies s.subrange(p, p + x.len() + y.len())[i] == (x + y)[i] by {
            if i < x.len() {
                assert(s.subrange(p, p + x.len())[i] == x[i]);
            } else {
                assert(s.subrange(p + x.len(), p + x.len() + y.len())[i - x.len()] == y[i - x.len()]);
            }
        }
    }
}

proof fn lemma_items_joined(rel: Seq<char>, r: CovView, es: Seq<(String, Function)>, bks: Seq<u32>, lks: Seq<u32>)
    ensures
        joined(record_items(rel, r, es, bks, lks), 22) == "TN:\n"@ + lcov_record(rel, r, es, bks, lks, false),
{
    let ps = record_items(rel, r, es, bks, lks);
    let rest = ps.drop_first();
    reveal_with_fuel(joined, 23);
    assert(joined(rest, 21) == lcov_record(rel, r, es, bks, lks, false));
    lemma_joined_first(ps, 22);
}

proof fn lemma_joined_first(ps: Seq<Seq<char>>, k: int)
    requires
        1 <= k <= ps.len(),
    ensures
        joined(ps, k) == ps[0] + joined(ps.drop_first(), k - 1),
    decreases k,
{
    if k == 1 {
        assert(joined(ps, 1) == joined(ps, 0) + ps[0]);
        assert(joined(ps, 0) + ps[0] =~= ps[0] + joined(ps.drop_first(), 0));
    } else {
        lemma_joined_first(ps, k - 1);
        assert(ps.drop_first()[k - 2] == ps[k - 1]);
        assert(joined(ps, k) =~= ps[0] + joined(ps.drop_first(), k - 1));
    }
}


/// Where the parse of the pieces stands before piece `j`.
spec fn item_pos(ps: Seq<Seq<char>>, j: int) -> int {
    ascii(joined(ps, j)).len() as int
}

proof fn lemma_count_items(s: Seq<u8>, ps: Seq<Seq<char>>, j: int, key: Seq<char>, n: nat)
    requires
        0 <= j && j + 3 <= ps.len(),
        holds_at(s, 0, ascii(joined(ps, ps.len() as int))),
        ps[j] == key,
        ps[j + 1] == decimal(n),
        ps[j + 2] == "\n"@,
    ensures
        holds_at(s, item_pos(ps, j), count_bytes(key, n)),
        item_pos(ps, j + 3) == item_pos(ps, j) + count_bytes(key, n).len(),
{
    lemma_item_at(s, ps, j);
    lemma_item_at(s, ps, j + 1);
    lemma_item_at(s, ps, j + 2);
    lemma_holds_join(s, item_pos(ps, j), ascii(key), ascii(decimal(n)));
    lemma_holds_join(s, item_pos(ps, j), ascii(key) + ascii(decimal(n)), ascii("\n"@));
}

proof fn lemma_sf_items(s: Seq<u8>, ps: Seq<Seq<char>>, j: int, rel: Seq<char>)
    requires
        0 <= j && j + 3 <= ps.len(),
        holds_at(s, 0, ascii(joined(ps, ps.len() as int))),
        ps[j] == "SF:"@,
        ps[j + 1] == rel,
        ps[j + 2] == "\n"@,
    ensures
        holds_at(s, item_pos(ps, j), sf_bytes(rel)),
        item_pos(ps, j + 3) == item_pos(ps, j) + sf_bytes(rel).len(),
{
    lemma_item_at(s, ps, j);
    lemma_item_at(s, ps, j + 1);
    lemma_item_at(s, ps, j + 2);
    lemma_holds_join(s, item_pos(ps, j), ascii("SF:"@), ascii(rel));
    lemma_holds_join(s, item_pos(ps, j), ascii("SF:"@) + ascii(rel), ascii("\n"@));
}


/// The state of the parse once the functions of the record are read.
spec fn after_functions(rel: Seq<char>, es: Seq<(String, Function)>) -> LcovState {
    LcovState {
        file: Some(rel),
        lines: Map::empty(),
        branches: Map::empty(),
        functions: fndas_read(fns_read(Map::empty(), es), es),
        results: Seq::empty(),
        count: 2 + 2 * es.len() + if es.len() > 0 { 2int } else { 0int },
    }
}

#[verifier::rlimit(100)]
#[verifier::spinoff_prover]
proof fn lemma_first_half(rel: Seq<char>, r: CovView, es: Seq<(String, Function)>, bks: Seq<u32>, lks: Seq<u32>)
    requires
        plain(rel),
        plain_names(es),
        walks_functions(es, r.functions),
        2 * es.len() + 9 <= i32::MAX,
    ensures
        ({
            let ps = record_items(rel, r, es, bks, lks);
            let s = ascii(joined(ps, 22));
            lcov_run(s, 0, crate::parser::lcov_initial(), true) == lcov_run(s, item_pos(ps, 7), after_functions(rel, es), true)
        }),
{
    let ps = record_items(rel, r, es, bks, lks);
    let s = ascii(joined(ps, 22));
    assert(holds_at(s, 0, s)) by {
        assert(s.subrange(0, s.len() as int) =~= s);
    }
    assert(ps.len() == 22);
    lemma_item_at(s, ps, 0);
    assert(joined(ps, 0) == Seq::<char>::empty());
    assert(item_pos(ps, 0) == 0);
    let st0 = crate::parser::lcov_initial();
    lemma_tn_step(s, 0, st0);
    reveal_strlit("TN:\n");
    assert(item_pos(ps, 1) == 4);
    let st1 = counted(st0);
    lemma_sf_items(s, ps, 1, rel);
    lemma_sf_step(s, item_pos(ps, 1), st1, rel, true);
    let st2 = LcovState { file: Some(rel), count: st1.count + 1, ..st1 };
    lemma_item_at(s, ps, 4);
    lemma_fns_run(s, item_pos(ps, 4), st2, es);
    let st3 = LcovState { functions: fns_read(st2.functions, es), count: st2.count + es.len(), ..st2 };
    lemma_functions_back(es, r.functions);
    lemma_item_at(s, ps, 5);
    lemma_fndas_run(s, item_pos(ps, 5), st3, es);
    let st4 = LcovState { functions: fndas_read(st3.functions, es), count: st3.count + es.len(), ..st3 };
    lemma_item_at(s, ps, 6);
    let st5 = after_functions(rel, es);
    if es.len() > 0 {
        let t4f = "FNF:"@ + decimal(es.len()) + "\n"@;
        let t4h = "FNH:"@ + decimal(executed_count(es)) + "\n"@;
        assert(ps[6] == t4f + t4h);
        lemma_ascii_add(t4f, t4h);
        lemma_count_text("FNF:"@, es.len());
        lemma_count_text("FNH:"@, executed_count(es));
        lemma_holds_split(s, item_pos(ps, 6), ascii(t4f), ascii(t4h));
        lemma_skip_step(s, item_pos(ps, 6), st4, "FNF:"@, es.len());
        lemma_skip_step(s, item_pos(ps, 6) + ascii(t4f).len(), counted(st4), "FNH:"@, executed_count(es));
        assert(counted(counted(st4)) == st5);
    } else {
        assert(ascii(ps[6]) =~= Seq::<u8>::empty());
        assert(st4 == st5);
    }
}


/// The state of the parse once the branches of the record and their counts
/// are read.
spec fn after_branches(rel: Seq<char>, r: CovView, es: Seq<(String, Function)>, bks: Seq<u32>) -> LcovState {
    LcovState {
        branches: branches_read(Map::empty(), bks, r.branches),
        count: after_functions(rel, es).count + lines_reads(bks, r.branches) + 2,
        ..after_functions(rel, es)
    }
}

#[verifier::rlimit(100)]
#[verifier::spinoff_prover]
proof fn lemma_middle(rel: Seq<char>, r: CovView, es: Seq<(String, Function)>, bks: Seq<u32>, lks: Seq<u32>)
    requires
        forall|i: int, j: int| 0 <= i < j < bks.len() ==> bks[i] < bks[j],
        bks.to_set() == r.branches.dom(),
        forall|l: u32| #[trigger] r.branches.contains_key(l) ==> 0 < r.branches[l].len() <= u32::MAX + 1,
        2 * es.len() + 2 * branch_totals(bks, r.branches).0 + lks.len() + 9 <= i32::MAX,
    ensures
        ({
            let ps = record_items(rel, r, es, bks, lks);
            let s = ascii(joined(ps, 22));
            &&& lcov_run(s, item_pos(ps, 7), after_functions(rel, es), true)
                == lcov_run(s, item_pos(ps, 14), after_branches(rel, r, es, bks), true)
            &&& lines_reads(bks, r.branches) <= 2 * branch_totals(bks, r.branches).0
            &&& forall|x: u32| #[trigger] branches_read(Map::empty(), bks, r.branches).contains_key(x) <==> bks.contains(x)
            &&& forall|k: int| 0 <= k < bks.len() ==> branches_read(Map::empty(), bks, r.branches)[#[trigger] bks[k]] == r.branches[bks[k]]
        }),
{
    let ps = record_items(rel, r, es, bks, lks);
    let s = ascii(joined(ps, 22));
    let bt = branch_totals(bks, r.branches);
    assert(holds_at(s, 0, s)) by {
        assert(s.subrange(0, s.len() as int) =~= s);
    }
    assert(ps.len() == 22);
    let st5 = after_functions(rel, es);
    lemma_item_at(s, ps, 7);
    assert forall|k: int| 0 <= k < bks.len() implies 0 < #[trigger] r.branches[bks[k]].len() <= u32::MAX + 1 by {
        assert(bks.to_set().contains(bks[k]));
    }
    lemma_branches_run(s, item_pos(ps, 7), st5, bks, r.branches);
    let st6 = LcovState { branches: branches_read(st5.branches, bks, r.branches), count: st5.count + lines_reads(bks, r.branches), ..st5 };
    lemma_count_items(s, ps, 8, "BRF:"@, bt.0);
    lemma_skip_step(s, item_pos(ps, 8), st6, "BRF:"@, bt.0);
    lemma_count_items(s, ps, 11, "BRH:"@, bt.1);
    lemma_skip_step(s, item_pos(ps, 11), counted(st6), "BRH:"@, bt.1);
    assert(counted(counted(st6)) == after_branches(rel, r, es, bks));
}

#[verifier::rlimit(100)]
#[verifier::spinoff_prover]
proof fn lemma_last(rel: Seq<char>, r: CovView, es: Seq<(String, Function)>, bks: Seq<u32>, lks: Seq<u32>)
    requires
        numbers_of(lks, r),
        after_branches(rel, r, es, bks).count + lks.len() + 3 <= i32::MAX,
    ensures
        ({
            let ps = record_items(rel, r, es, bks, lks);
            let s = ascii(joined(ps, 22));
            let st = after_branches(rel, r, es, bks);
            &&& lcov_run(s, item_pos(ps, 14), st, true) == LcovOutcome::Done(seq![(rel, CovView {
                lines: das_read(Map::empty(), lks, r.lines), branches: st.branches, functions: st.functions })])
            &&& forall|x: u32| #[trigger] das_read(Map::empty(), lks, r.lines).contains_key(x) <==> lks.contains(x)
            &&& forall|k: int| 0 <= k < lks.len() ==> das_read(Map::empty(), lks, r.lines)[#[trigger] lks[k]] == r.lines[lks[k]]
        }),
{
    let ps = record_items(rel, r, es, bks, lks);
    let s = ascii(joined(ps, 22));
    assert(holds_at(s, 0, s)) by {
        assert(s.subrange(0, s.len() as int) =~= s);
    }
    assert(ps.len() == 22);
    let st7 = after_branches(rel, r, es, bks);
    lemma_item_at(s, ps, 14);
    lemma_das_run(s, item_pos(ps, 14), st7, lks, r.lines);
    let st8 = LcovState { lines: das_read(st7.lines, lks, r.lines), count: st7.count + lks.len(), ..st7 };
    lemma_count_items(s, ps, 15, "LF:"@, lks.len());
    lemma_skip_step(s, item_pos(ps, 15), st8, "LF:"@, lks.len());
    lemma_count_items(s, ps, 18, "LH:"@, hit_lines(lks, r.lines));
    lemma_skip_step(s, item_pos(ps, 18), counted(st8), "LH:"@, hit_lines(lks, r.lines));
    let st9 = counted(counted(st8));
    lemma_item_at(s, ps, 21);
    assert(ascii(ps[21]) == eor_bytes());
    lemma_eor_step(s, item_pos(ps, 21), st9, rel, true);
    assert(item_pos(ps, 22) == s.len());
    let cv = CovView { lines: st9.lines, branches: st9.branches, functions: st9.functions };
    assert(st9.results.push((rel, cv)) =~= seq![(rel, cv)]);
}


/// The lcov text that grcov writes for a file, after the `TN:` line, parses
/// back to the file's coverage: where the file name and the function names
/// are plain text (characters below 128, none ending a line), each line with
/// branches has at least one and no more than a parse can number, and the
/// records are few enough to be counted, parsing the bytes of `TN:` and the
/// file's record (reading branches) gives that one file with the lines,
/// branches and functions it was written from. The functions, branch lines
/// and lines are walked as `lcov_record_text` walks them.
pub proof fn law_lcov_roundtrip(rel: Seq<char>, r: CovView, es: Seq<(String, Function)>, bks: Seq<u32>, lks: Seq<u32>)
    requires
        plain(rel),
        plain_names(es),
        walks_functions(es, r.functions),
        numbers_of(lks, r),
        forall|i: int, j: int| 0 <= i < j < bks.len() ==> bks[i] < bks[j],
        bks.to_set() == r.branches.dom(),
        forall|l: u32| #[trigger] r.branches.contains_key(l) ==> 0 < r.branches[l].len() <= u32::MAX + 1,
        2 * es.len() + 2 * branch_totals(bks, r.branches).0 + lks.len() + 9 <= i32::MAX,
    ensures
        lcov_parse(ascii("TN:\n"@ + lcov_record(rel, r, es, bks, lks, false)), true) == LcovOutcome::Done(seq![(rel, r)]),
{
    let ps = record_items(rel, r, es, bks, lks);
    lemma_items_joined(rel, r, es, bks, lks);
    lemma_first_half(rel, r, es, bks, lks);
    lemma_middle(rel, r, es, bks, lks);
    lemma_last(rel, r, es, bks, lks);
    let st = after_branches(rel, r, es, bks);
    lemma_map_back(das_read(Map::empty(), lks, r.lines), lks, r.lines);
    lemma_map_back(branches_read(Map::empty(), bks, r.branches), bks, r.branches);
    lemma_functions_back(es, r.functions);
    assert((CovView { lines: das_read(Map::empty(), lks, r.lines), branches: st.branches, functions: st.functions }) == r);
}


/// The bytes of `DA` records for the pairs of line and count `recs`, in order.
pub open spec fn da_list_bytes(recs: Seq<(u32, u64)>) -> Seq<u8>
    decreases recs.len(),
{
    if recs.len() == 0 { Seq::empty() } else { da_list_bytes(recs.drop_last()) + da_bytes(recs.last().0, recs.last().1) }
}

/// The sum of the counts that the pairs `recs` give the line `l`.
pub open spec fn count_sum(recs: Seq<(u32, u64)>, l: u32) -> int
    decreases recs.len(),
{
    if recs.len() == 0 { 0 } else { count_sum(recs.drop_last(), l) + if recs.last().0 == l { recs.last().1 as int } else { 0 } }
}

/// Each line of the pairs `recs` with the sum of its counts.
pub open spec fn summed(recs: Seq<(u32, u64)>) -> Map<u32, u64> {
    Map::new(|l: u32| exists|i: int| 0 <= i < recs.len() && #[trigger] recs[i].0 == l, |l: u32| count_sum(recs, l) as u64)
}

proof fn lemma_count_sum_prefix(recs: Seq<(u32, u64)>, l: u32)
    ensures
        0 <= count_sum(recs.drop_last(), l) <= count_sum(recs, l) || recs.len() == 0,
        0 <= count_sum(recs, l),
        (forall|i: int| 0 <= i < recs.len() ==> #[trigger] recs[i].0 != l) ==> count_sum(recs, l) == 0,
    decreases recs.len(),
{
    if recs.len() > 0 {
        lemma_count_sum_prefix(recs.drop_last(), l);
        if forall|i: int| 0 <= i < recs.len() ==> #[trigger] recs[i].0 != l {
            assert forall|i: int| 0 <= i < recs.drop_last().len() implies #[trigger] recs.drop_last()[i].0 != l by {
                assert(recs[i].0 != l);
            }
            assert(recs[recs.len() - 1].0 != l);
        }
    }
}

proof fn lemma_da_list_run(s: Seq<u8>, p: int, st: LcovState, recs: Seq<(u32, u64)>, be: bool)
    requires
        holds_at(s, p, da_list_bytes(recs)),
        st.lines == Map::<u32, u64>::empty(),
        st.count + recs.len() <= i32::MAX,
        forall|l: u32| count_sum(recs, l) <= u64::MAX,
    ensures
        lcov_run(s, p, st, be) == lcov_run(s, p + da_list_bytes(recs).len(),
            LcovState { lines: summed(recs), count: st.count + recs.len(), ..st }, be),
    decreases recs.len(),
{
    if recs.len() == 0 {
        assert(summed(recs) =~= Map::<u32, u64>::empty());
        assert(LcovState { lines: summed(recs), count: st.count + recs.len(), ..st } == st);
    } else {
        let pre = recs.drop_last();
        let (l, c) = recs.last();
        assert forall|x: u32| count_sum(pre, x) <= u64::MAX by {
            lemma_count_sum_prefix(recs, x);
        }
        lemma_holds_split(s, p, da_list_bytes(pre), da_bytes(l, c));
        lemma_da_list_run(s, p, st, pre, be);
        let p1 = p + da_list_bytes(pre).len();
        let st1 = LcovState { lines: summed(pre), count: st.count + pre.len(), ..st };
        lemma_count_sum_prefix(pre, l);
        lemma_count_sum_prefix(recs, l);
        assert(prior_count(st1.lines, l) == count_sum(pre, l)) by {
            if !summed(pre).contains_key(l) {
                assert forall|i: int| 0 <= i < pre.len() implies #[trigger] pre[i].0 != l by {
                    if pre[i].0 == l {
                        assert(summed(pre).contains_key(l));
                    }
                }
            }
        }
        assert(count_sum(recs, l) == count_sum(pre, l) + c);
        lemma_da_step(s, p1, st1, l, c, be);
        let m = summed(pre).insert(l, (prior_count(summed(pre), l) + c) as u64);
        assert(m =~= summed(recs)) by {
            assert forall|x: u32| #[trigger] m.contains_key(x) <==> summed(recs).contains_key(x) by {
                if summed(recs).contains_key(x) && x != l {
                    let i = choose|i: int| 0 <= i < recs.len() && #[trigger] recs[i].0 == x;
                    assert(i < recs.len() - 1);
                    assert(pre[i].0 == x);
                }
                if summed(pre).contains_key(x) {
                    let i = choose|i: int| 0 <= i < pre.len() && #[trigger] pre[i].0 == x;
                    assert(recs[i].0 == x);
                }
                if x == l {
                    assert(recs[recs.len() - 1].0 == x);
                }
            }
            assert forall|x: u32| #[trigger] m.contains_key(x) implies m[x] == summed(recs)[x] by {
                if x != l {
                    assert(count_sum(recs, x) == count_sum(pre, x));
                }
            }
        }
        assert(da_list_bytes(recs).len() == da_list_bytes(pre).len() + da_bytes(l, c).len());
    }
}

/// Repeated `DA` records of a line add up: parsing a file's record made of
/// its name and `DA` records for the pairs of line and count `recs` (whether
/// branches are read or not) gives that one file, with each line of the
/// records and, for each, the sum of the counts its records give it.
pub proof fn law_lcov_da_counts_add(name: Seq<char>, recs: Seq<(u32, u64)>, branch_enabled: bool)
    requires
        plain(name),
        recs.len() + 2 <= i32::MAX,
        forall|l: u32| count_sum(recs, l) <= u64::MAX,
    ensures
        lcov_parse(sf_bytes(name) + da_list_bytes(recs) + eor_bytes(), branch_enabled) matches LcovOutcome::Done(rs)
            && rs.len() == 1
            && rs[0].0 == name
            && (forall|l: u32| #[trigger] rs[0].1.lines.contains_key(l) <==> exists|i: int| 0 <= i < recs.len() && #[trigger] recs[i].0 == l)
            && (forall|l: u32| #[trigger] rs[0].1.lines.contains_key(l) ==> rs[0].1.lines[l] == count_sum(recs, l)),
{
    let s = sf_bytes(name) + da_list_bytes(recs) + eor_bytes();
    let be = branch_enabled;
    assert(holds_at(s, 0, s)) by {
        assert(s.subrange(0, s.len() as int) =~= s);
    }
    lemma_holds_split(s, 0, sf_bytes(name) + da_list_bytes(recs), eor_bytes());
    lemma_holds_split(s, 0, sf_bytes(name), da_list_bytes(recs));
    let st0 = crate::parser::lcov_initial();
    lemma_sf_step(s, 0, st0, name, be);
    let p1 = sf_bytes(name).len() as int;
    let st1 = LcovState { file: Some(name), count: st0.count + 1, ..st0 };
    lemma_da_list_run(s, p1, st1, recs, be);
    let p2 = p1 + da_list_bytes(recs).len();
    let st2 = LcovState { lines: summed(recs), count: st1.count + recs.len(), ..st1 };
    lemma_eor_step(s, p2, st2, name, be);
    let res = seq![(name, CovView { lines: summed(recs), branches: Map::empty(), functions: Map::empty() })];
    assert(st2.results.push((name, CovView { lines: st2.lines, branches: st2.branches, functions: st2.functions })) =~= res);
    assert(p2 + eor_bytes().len() == s.len());
    assert(lcov_parse(s, be) == LcovOutcome::Done(res));
    assert forall|l: u32| #[trigger] summed(recs).contains_key(l) implies summed(recs)[l] == count_sum(recs, l) by {
        lemma_count_sum_prefix(recs, l);
    }
}

}
