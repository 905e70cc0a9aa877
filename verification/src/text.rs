use vstd::prelude::*;
use vstd::std_specs::iter::IteratorSpec;

verus! {

/// Calls `String::push`: the character is appended.
#[verifier::external_body]
pub fn push_char(s: &mut String, c: char)
    ensures
        final(s)@ == old(s)@.push(c),
{
    s.push(c);
}

/// Each byte read as the character of the same code point.
pub open spec fn latin1(s: Seq<u8>) -> Seq<char> {
    s.map_values(|b: u8| b as char)
}

/// The bytes `buf[p..q]`, each taken as the character of the same code point.
pub fn latin1_string(buf: &[u8], p: usize, q: usize) -> (res: String)
    requires
        p <= q <= buf@.len(),
    ensures
        res@ == latin1(buf@.subrange(p as int, q as int)),
{
    let mut res = String::new();
    let mut i = p;
    while i < q
        invariant
            p <= i <= q <= buf@.len(),
            res@ == latin1(buf@.subrange(p as int, i as int)),
        decreases q - i,
    {
        push_char(&mut res, buf[i] as char);
        assert(buf@.subrange(p as int, i + 1) =~= buf@.subrange(p as int, i as int).push(buf@[i as int]));
        i += 1;
    }
    res
}

/// The decimal digits of a number, most significant first.
pub open spec fn decimal(n: nat) -> Seq<char>
    decreases n,
{
    if n < 10 {
        seq![digit_char(n)]
    } else {
        decimal(n / 10).push(digit_char(n % 10))
    }
}

/// The character of a digit.
pub open spec fn digit_char(d: nat) -> char {
    if d == 0 { '0' } else if d == 1 { '1' } else if d == 2 { '2' } else if d == 3 { '3' }
    else if d == 4 { '4' } else if d == 5 { '5' } else if d == 6 { '6' } else if d == 7 { '7' }
    else if d == 8 { '8' } else { '9' }
}

fn digit(d: u64) -> (c: char)
    requires
        d < 10,
    ensures
        c == digit_char(d as nat),
{
    if d == 0 { '0' } else if d == 1 { '1' } else if d == 2 { '2' } else if d == 3 { '3' }
    else if d == 4 { '4' } else if d == 5 { '5' } else if d == 6 { '6' } else if d == 7 { '7' }
    else if d == 8 { '8' } else { '9' }
}

/// Appends the decimal digits of `n` to `s`.
pub fn push_decimal(s: &mut String, n: u64)
    ensures
        final(s)@ == old(s)@ + decimal(n as nat),
    decreases n,
{
    if n < 10 {
        push_char(s, digit(n));
        assert(old(s)@.push(digit_char(n as nat)) =~= old(s)@ + decimal(n as nat));
    } else {
        push_decimal(s, n / 10);
        push_char(s, digit(n % 10));
        assert(old(s)@ + decimal((n / 10) as nat) + seq![digit_char((n % 10) as nat)] =~= old(s)@ + decimal(n as nat));
    }
}

/// The decimal digits of a 128-bit number as a string.
pub fn decimal_string_wide(n: u128) -> (res: String)
    ensures
        res@ == decimal(n as nat),
    decreases n,
{
    if n < 10 {
        let mut s = String::new();
        push_char(&mut s, digit(n as u64));
        assert(Seq::<char>::empty().push(digit_char(n as nat)) =~= decimal(n as nat));
        s
    } else {
        let mut s = decimal_string_wide(n / 10);
        push_char(&mut s, digit((n % 10) as u64));
        assert(decimal((n / 10) as nat).push(digit_char((n % 10) as nat)) =~= decimal(n as nat));
        s
    }
}

/// The decimal digits of `n` as a string.
pub fn decimal_string(n: u64) -> (res: String)
    ensures
        res@ == decimal(n as nat),
{
    let mut s = String::new();
    push_decimal(&mut s, n);
    assert(Seq::<char>::empty() + decimal(n as nat) =~= decimal(n as nat));
    s
}


/// The value of a sequence of decimal digits.
pub open spec fn digits_value(d: Seq<u8>) -> nat
    decreases d.len(),
{
    if d.len() == 0 {
        0
    } else {
        digits_value(d.drop_last()) * 10 + (d.last() - 48) as nat
    }
}

/// Whether every byte is a decimal digit.
pub open spec fn all_digits(d: Seq<u8>) -> bool {
    forall|i: int| 0 <= i < d.len() ==> 48 <= #[trigger] d[i] <= 57
}

/// What `str::parse` gives for an unsigned integer no larger than `max`: an
/// optional `+`, then one or more decimal digits whose value fits.
pub open spec fn parse_uint(t: Seq<u8>, max: int) -> Option<int> {
    let d = if t.len() > 0 && t[0] == 43 { t.subrange(1, t.len() as int) } else { t };
    if d.len() == 0 || !all_digits(d) || digits_value(d) > max {
        None
    } else {
        Some(digits_value(d) as int)
    }
}

/// Parses the bytes `t` as `str::parse` does an unsigned integer no larger than `max`.
pub fn parse_uint_exec(t: &[u8], max: u64) -> (res: Option<u64>)
    ensures
        res matches Some(v) ==> parse_uint(t@, max as int) == Some(v as int),
        res is None ==> parse_uint(t@, max as int) is None,
{
    let n = t.len();
    let start: usize = if n > 0 && t[0] == 43u8 { 1 } else { 0 };
    let ghost d = if t@.len() > 0 && t@[0] == 43 { t@.subrange(1, t@.len() as int) } else { t@ };
    assert(d =~= t@.subrange(start as int, n as int));
    if start >= n {
        return None;
    }
    let mut acc: u64 = 0;
    let mut i = start;
    while i < n
        invariant
            start <= i <= n == t@.len(),
            d =~= t@.subrange(start as int, n as int),
            d == (if t@.len() > 0 && t@[0] == 43 { t@.subrange(1, t@.len() as int) } else { t@ }),
            all_digits(t@.subrange(start as int, i as int)),
            acc as nat == digits_value(t@.subrange(start as int, i as int)),
            acc <= max,
        decreases n - i,
    {
        let b = t[i];
        if b < 48u8 || b > 57u8 {
            assert(d[(i - start) as int] == b);
            assert(!(48 <= d[(i - start) as int] <= 57));
            assert(!all_digits(d));
            assert(d.len() == 0 || !all_digits(d) || digits_value(d) > max);
            return None;
        }
        let r: u128 = (acc as u128) * 10 + ((b - 48u8) as u128);
        assert(t@.subrange(start as int, i + 1).drop_last() =~= t@.subrange(start as int, i as int));
        if r > max as u128 {
            assert(d.subrange(0, (i + 1 - start) as int) =~= t@.subrange(start as int, i + 1));
            proof {
                if all_digits(d) {
                    lemma_digits_value_prefix(d, (i + 1 - start) as int);
                }
            }
            return None;
        }
        acc = r as u64;
        i += 1;
    }
    assert(t@.subrange(start as int, n as int) =~= d);
    Some(acc)
}

/// The value of all the digits is at least that of any prefix.
pub proof fn lemma_digits_value_prefix(d: Seq<u8>, k: int)
    requires
        0 <= k <= d.len(),
        all_digits(d),
    ensures
        digits_value(d) >= digits_value(d.subrange(0, k)),
    decreases d.len(),
{
    if k < d.len() {
        assert(d.drop_last() =~= d.subrange(0, d.len() - 1));
        assert(d.subrange(0, d.len() - 1).subrange(0, k) =~= d.subrange(0, k));
        assert(all_digits(d.drop_last()));
        lemma_digits_value_prefix(d.drop_last(), k);
        assert(d.drop_last().subrange(0, k) =~= d.subrange(0, k));
    } else {
        assert(d.subrange(0, k) =~= d);
    }
}


/// What `String::from_utf8_lossy` makes of a sequence of bytes.
pub uninterp spec fn utf8_lossy(b: Seq<u8>) -> Seq<char>;

/// Calls `String::from_utf8_lossy`: the bytes decoded as UTF-8 (an invalid
/// sequence becomes U+FFFD), as an owned string. Bytes below 128 are ASCII,
/// valid UTF-8 that decodes each byte to the character of its code.
#[verifier::external_body]
pub fn utf8_string(b: &[u8]) -> (res: String)
    ensures
        res@ == utf8_lossy(b@),
        (forall|i: int| 0 <= i < b@.len() ==> #[trigger] b@[i] < 128) ==> res@ == latin1(b@),
{
    String::from_utf8_lossy(b).into_owned()
}

/// Whether two byte sequences are equal.
pub fn bytes_eq(a: &[u8], b: &[u8]) -> (res: bool)
    ensures
        res == (a@ == b@),
{
    if a.len() != b.len() {
        return false;
    }
    let mut i: usize = 0;
    while i < a.len()
        invariant
            a@.len() == b@.len(),
            i <= a@.len(),
            forall|j: int| 0 <= j < i ==> a@[j] == b@[j],
        decreases a@.len() - i,
    {
        if a[i] != b[i] {
            return false;
        }
        i += 1;
    }
    assert(a@ =~= b@);
    true
}

/// The characters of a string, in order.
pub fn chars_of(s: &str) -> (res: Vec<char>)
    ensures
        res@ == s@,
{
    proof {
        broadcast use vstd::string::axiom_spec_iter;
    }
    let mut res: Vec<char> = Vec::new();
    for c in it: s.chars()
        invariant
            res@ == it.seq().take(it.index() as int),
    {
        res.push(c);
    }
    assert(res@ =~= s@);
    res
}

/// A string made of the given characters, in order.
pub fn string_of(cs: &[char]) -> (res: String)
    ensures
        res@ == cs@,
{
    let mut res = String::new();
    let mut i: usize = 0;
    while i < cs.len()
        invariant
            i <= cs@.len(),
            res@ == cs@.subrange(0, i as int),
        decreases cs@.len() - i,
    {
        push_char(&mut res, cs[i]);
        assert(cs@.subrange(0, i + 1) =~= cs@.subrange(0, i as int).push(cs@[i as int]));
        i += 1;
    }
    assert(cs@.subrange(0, cs@.len() as int) =~= cs@);
    res
}

/// What `std::str::from_utf8` makes of a sequence of bytes: its characters,
/// or `None` where the bytes are not UTF-8.
pub uninterp spec fn utf8_decode(b: Seq<u8>) -> Option<Seq<char>>;

/// An optional string as a spec value.
pub open spec fn opt_string_view(o: Option<String>) -> Option<Seq<char>> {
    match o {
        Some(s) => Some(s@),
        None => None,
    }
}

/// Calls `std::str::from_utf8`: the bytes as a string where they are UTF-8.
#[verifier::external_body]
pub fn decode_utf8(b: &[u8]) -> (res: Option<String>)
    ensures
        opt_string_view(res) == utf8_decode(b@),
{
    match std::str::from_utf8(b) {
        Ok(s) => Some(s.to_string()),
        Err(_) => None,
    }
}

}
