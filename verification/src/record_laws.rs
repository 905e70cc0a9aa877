use vstd::prelude::*;
use crate::text::{decimal, digits_value, all_digits, parse_uint, utf8_lossy};
use crate::parser::{find_byte, past, split_once, strip_newlines, is_newline_byte, bytes_file, bytes_function, bytes_lcount,
    bytes_branch, GcovState, GcovOutcome, gcov_line, gcov_run, gcov_parse};
use crate::defs::{CovView, Function};
use crate::lcov_roundtrip::{ascii, holds_at, lemma_find_at, lemma_holds_at, lemma_holds_split, lemma_decimal_digits, lemma_digit_byte};

verus! {

/// Whether no byte of `x` is `b`.
pub open spec fn lacks(x: Seq<u8>, b: u8) -> bool {
    forall|i: int| 0 <= i < x.len() ==> #[trigger] x[i] != b
}

/// Whether `x` holds no line end (`\n` or `\r`).
pub open spec fn one_line(x: Seq<u8>) -> bool {
    lacks(x, 10) && lacks(x, 13)
}

proof fn lemma_split_once_at(a: Seq<u8>, c: Seq<u8>, x: u8)
    requires
        lacks(a, x),
    ensures
        split_once(a + seq![x] + c, x) == (a, Some(c)),
{
    let l = a + seq![x] + c;
    assert(l[a.len() as int] == x);
    assert forall|i: int| 0 <= i < a.len() implies #[trigger] l[i] != x by {
        assert(l[i] == a[i]);
    }
    lemma_find_at(l, 0, a.len() as int, x);
    assert(l.subrange(0, a.len() as int) =~= a);
    assert(l.subrange(a.len() as int + 1, l.len() as int) =~= c);
}

proof fn lemma_decimal_value(n: nat)
    ensures
        all_digits(ascii(decimal(n))),
        digits_value(ascii(decimal(n))) == n,
        ascii(decimal(n)).len() >= 1,
        lacks(ascii(decimal(n)), 44),
        one_line(ascii(decimal(n))),
        ascii(decimal(n))[0] != 43,
        ascii(decimal(n))[0] != 45,
    decreases n,
{
    lemma_decimal_digits(n);
    let d = ascii(decimal(n));
    assert(48 <= d[0] <= 57);
    if n < 10 {
        lemma_digit_byte(n);
        assert(d.len() == 1);
        assert(d.last() == 48 + n);
        assert(d.drop_last() =~= Seq::<u8>::empty());
        assert(digits_value(d) == digits_value(d.drop_last()) * 10 + (d.last() - 48) as nat);
    } else {
        lemma_decimal_value(n / 10);
        lemma_digit_byte(n % 10);
        assert(d =~= ascii(decimal(n / 10)).push((48 + n % 10) as u8));
        assert(d.drop_last() =~= ascii(decimal(n / 10)));
        assert(d.last() == 48 + n % 10);
        assert(digits_value(d) == digits_value(d.drop_last()) * 10 + (d.last() - 48) as nat);
        assert((n / 10) * 10 + n % 10 == n);
    }
    assert forall|i: int| 0 <= i < d.len() implies #[trigger] d[i] != 44 && d[i] != 10 && d[i] != 13 by {
        assert(48 <= d[i] <= 57);
    }
}

proof fn lemma_parse_decimal(n: nat, max: int)
    requires
        n <= max,
    ensures
        parse_uint(ascii(decimal(n)), max) == Some(n as int),
{
    lemma_decimal_value(n);
}

/// Reading one line `x`, followed by `\n` at `p`, then going on past it.
proof fn lemma_gcov_line_run(s: Seq<u8>, p: int, x: Seq<u8>, st: GcovState, st2: GcovState)
    requires
        holds_at(s, p, x + seq![10u8]),
        one_line(x),
        gcov_line(st, x) == Ok::<GcovState, crate::parser::ParserErrorView>(st2),
    ensures
        gcov_run(s, p, st) == gcov_run(s, p + x.len() + 1, st2),
{
    lemma_holds_at(s, p, x + seq![10u8]);
    let e = p + x.len();
    assert((x + seq![10u8])[x.len() as int] == 10u8);
    assert(s[e] == 10);
    assert forall|i: int| p <= i < e implies #[trigger] s[i] != 10 by {
        assert((x + seq![10u8])[i - p] == x[i - p]);
        assert(s[p + (i - p)] == (x + seq![10u8])[i - p]);
    }
    lemma_find_at(s, p, e, 10);
    let nx = past(s, find_byte(s, p, 10));
    assert(nx == e + 1);
    assert(s.subrange(p, nx) =~= x + seq![10u8]);
    assert((x + seq![10u8]).drop_last() =~= x);
    assert(strip_newlines(x + seq![10u8]) == strip_newlines(x));
    if x.len() > 0 {
        assert(!is_newline_byte(x.last()));
    }
    assert(strip_newlines(x) == x);
}

proof fn lemma_keys_differ()
    ensures
        lacks(bytes_file(), 58),
        lacks(bytes_function(), 58),
        lacks(bytes_lcount(), 58),
        bytes_function() != bytes_file(),
        bytes_lcount() != bytes_file(),
        bytes_lcount() != bytes_function(),
{
    assert(bytes_function().len() != bytes_file().len());
    assert(bytes_lcount().len() != bytes_file().len());
    assert(bytes_lcount().len() != bytes_function().len());
}

proof fn lemma_file_line(f: Seq<u8>, st0: GcovState)
    requires
        one_line(f),
        st0.file is None,
        st0.results == Seq::<(Seq<char>, CovView)>::empty(),
    ensures
        one_line(gcov_file_line(f)),
        gcov_line(st0, gcov_file_line(f)) == Ok::<GcovState, crate::parser::ParserErrorView>(
            GcovState { file: Some(utf8_lossy(f)), lines: Map::empty(), branches: Map::empty(), functions: Map::empty(), results: Seq::empty() }),
{
    let l1 = gcov_file_line(f);
    lemma_keys_differ();
    lemma_split_once_at(bytes_file(), f, 58);
    assert forall|i: int| 0 <= i < l1.len() implies #[trigger] l1[i] != 10 && l1[i] != 13 by {
        if i >= 5 { assert(l1[i] == f[i - 5]); }
    }
}

proof fn lemma_function_line(start: u32, count: Seq<u8>, name: Seq<u8>, st1: GcovState)
    requires
        one_line(count),
        lacks(count, 44),
        one_line(name),
    ensures
        one_line(gcov_function_line(start, count, name)),
        gcov_line(st1, gcov_function_line(start, count, name)) == Ok::<GcovState, crate::parser::ParserErrorView>(
            GcovState { functions: st1.functions.insert(utf8_lossy(name), Function { start, executed: count != seq![48u8] }), ..st1 }),
{
    let l2 = gcov_function_line(start, count, name);
    let d = ascii(decimal(start as nat));
    lemma_keys_differ();
    lemma_decimal_value(start as nat);
    let v2 = d + seq![44u8] + count + seq![44u8] + name;
    lemma_split_once_at(bytes_function(), v2, 58);
    assert(v2 =~= d + seq![44u8] + (count + seq![44u8] + name));
    lemma_split_once_at(d, count + seq![44u8] + name, 44);
    lemma_split_once_at(count, name, 44);
    lemma_parse_decimal(start as nat, u32::MAX as int);
    assert forall|i: int| 0 <= i < l2.len() implies #[trigger] l2[i] != 10 && l2[i] != 13 by {
        if i >= 9 {
            let j = i - 9;
            assert(l2[i] == v2[j]);
            if j < d.len() {
                assert(v2[j] == d[j]);
            } else if j == d.len() {
            } else if j < d.len() + 1 + count.len() {
                assert(v2[j] == count[j - d.len() - 1]);
            } else if j == d.len() + 1 + count.len() {
            } else {
                assert(v2[j] == name[j - d.len() - 2 - count.len()]);
            }
        }
    }
}

proof fn lemma_lcount_line(line: u32, c: u64, st2: GcovState)
    ensures
        one_line(gcov_lcount_line(line, c)),
        gcov_line(st2, gcov_lcount_line(line, c)) == Ok::<GcovState, crate::parser::ParserErrorView>(
            GcovState { lines: st2.lines.insert(line, c), ..st2 }),
{
    let l3 = gcov_lcount_line(line, c);
    let d = ascii(decimal(line as nat));
    let e = ascii(decimal(c as nat));
    lemma_keys_differ();
    lemma_decimal_value(line as nat);
    lemma_decimal_value(c as nat);
    let v3 = d + seq![44u8] + e;
    lemma_split_once_at(bytes_lcount(), v3, 58);
    lemma_split_once_at(d, e, 44);
    lemma_parse_decimal(line as nat, u32::MAX as int);
    lemma_parse_decimal(c as nat, u64::MAX as int);
    if c == 0 {
        lemma_digit_byte(0);
        assert(e =~= seq![48u8]);
    } else {
        if e == seq![48u8] {
            assert(seq![48u8].drop_last() =~= Seq::<u8>::empty());
            assert(digits_value(seq![48u8]) == digits_value(seq![48u8].drop_last()) * 10 + (seq![48u8].last() - 48) as nat);
            assert(false);
        }
    }
    assert forall|i: int| 0 <= i < l3.len() implies #[trigger] l3[i] != 10 && l3[i] != 13 by {
        if i >= 7 {
            let j = i - 7;
            assert(l3[i] == v3[j]);
            if j < d.len() {
                assert(v3[j] == d[j]);
            } else if j > d.len() {
                assert(v3[j] == e[j - d.len() - 1]);
            }
        }
    }
}

/// The line of a gcov intermediate file that names a source file.
pub open spec fn gcov_file_line(f: Seq<u8>) -> Seq<u8> {
    bytes_file() + seq![58u8] + f
}

/// The line of a gcov intermediate file for a function: its start line, its
/// execution count as written, and its name.
pub open spec fn gcov_function_line(start: u32, count: Seq<u8>, name: Seq<u8>) -> Seq<u8> {
    bytes_function() + seq![58u8] + (ascii(decimal(start as nat)) + seq![44u8] + count + seq![44u8] + name)
}

/// The line of a gcov intermediate file for the count of a line.
pub open spec fn gcov_lcount_line(line: u32, c: u64) -> Seq<u8> {
    bytes_lcount() + seq![58u8] + (ascii(decimal(line as nat)) + seq![44u8] + ascii(decimal(c as nat)))
}

/// A function counts as run exactly when its count is not the text `0`:
/// parsing a gcov intermediate file that names a source file, then gives a
/// function of it with start line `start`, execution count `count` (any text
/// without a comma) and name `name`, then the count `c` of a line, gives that
/// one file, with the line's count and the function at its start, marked as
/// run exactly where `count` is other than `0`.
pub proof fn law_gcov_function_ran(f: Seq<u8>, start: u32, count: Seq<u8>, name: Seq<u8>, line: u32, c: u64)
    requires
        one_line(f),
        one_line(count),
        lacks(count, 44),
        one_line(name),
    ensures
        gcov_parse(gcov_file_line(f) + seq![10u8] + gcov_function_line(start, count, name) + seq![10u8]
            + gcov_lcount_line(line, c) + seq![10u8])
        == GcovOutcome::Done(seq![(utf8_lossy(f), CovView {
            lines: Map::empty().insert(line, c),
            branches: Map::empty(),
            functions: Map::empty().insert(utf8_lossy(name), Function { start, executed: count != seq![48u8] }),
        })]),
{
    let l1 = gcov_file_line(f);
    let l2 = gcov_function_line(start, count, name);
    let l3 = gcov_lcount_line(line, c);
    let nl = seq![10u8];
    let s = l1 + nl + l2 + nl + l3 + nl;
    assert(holds_at(s, 0, s)) by {
        assert(s.subrange(0, s.len() as int) =~= s);
    }
    assert(s =~= (l1 + nl) + (l2 + nl) + (l3 + nl));
    lemma_holds_split(s, 0, (l1 + nl) + (l2 + nl), l3 + nl);
    lemma_holds_split(s, 0, l1 + nl, l2 + nl);
    let p2 = l1.len() as int + 1;
    let p3 = p2 + l2.len() as int + 1;
    let st0 = GcovState { file: None, lines: Map::empty(), branches: Map::empty(), functions: Map::empty(), results: Seq::empty() };

    let st1 = GcovState { file: Some(utf8_lossy(f)), lines: Map::empty(), branches: Map::empty(), functions: Map::empty(), results: Seq::empty() };
    lemma_file_line(f, st0);
    lemma_gcov_line_run(s, 0, l1, st0, st1);
    let fun = Function { start, executed: count != seq![48u8] };
    let st2 = GcovState { functions: st1.functions.insert(utf8_lossy(name), fun), ..st1 };
    lemma_function_line(start, count, name, st1);
    lemma_gcov_line_run(s, p2, l2, st1, st2);
    let st3 = GcovState { lines: st2.lines.insert(line, c), ..st2 };
    lemma_lcount_line(line, c, st2);
    lemma_gcov_line_run(s, p3, l3, st2, st3);
    assert(p3 + l3.len() + 1 == s.len());
    assert(!st3.lines.is_empty()) by {
        assert(st3.lines.contains_key(line));
    }
    assert(gcov_run(s, s.len() as int, st3) == GcovOutcome::Done(seq![(utf8_lossy(f), CovView {
        lines: st3.lines, branches: st3.branches, functions: st3.functions })]));
    assert(st3.lines =~= Map::empty().insert(line, c));
    assert(st3.functions =~= Map::empty().insert(utf8_lossy(name), fun));
}

}
