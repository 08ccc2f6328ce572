//! Number tokens: decimal integers (read and written) and the syntax of the
//! floating-point literals the readers accept.

use vstd::prelude::*;
use crate::text::first_index_of;

verus! {

pub open spec fn is_digit(c: char) -> bool {
    '0' <= c && c <= '9'
}

pub open spec fn all_digits(s: Seq<char>) -> bool {
    forall|i: int| 0 <= i < s.len() ==> is_digit(#[trigger] s[i])
}

pub open spec fn digit_value(c: char) -> int {
    c as int - '0' as int
}

/// The value of a string of decimal digits, most significant first.
pub open spec fn digits_value(s: Seq<char>) -> int
    decreases s.len(),
{
    if s.len() == 0 {
        0
    } else {
        digits_value(s.drop_last()) * 10 + digit_value(s.last())
    }
}

pub open spec fn is_sign(c: char) -> bool {
    c == '+' || c == '-'
}

/// The integer a token denotes when read as an `i64` (`str::parse::<i64>`): an
/// optional sign, at least one digit, and a value in range.
pub open spec fn spec_parse_i64(s: Seq<char>) -> Option<i64> {
    let neg = s.len() > 0 && s[0] == '-';
    let d = if s.len() > 0 && is_sign(s[0]) { s.drop_first() } else { s };
    let v = if neg { -digits_value(d) } else { digits_value(d) };
    if d.len() > 0 && all_digits(d) && i64::MIN <= v <= i64::MAX {
        Some(v as i64)
    } else {
        None
    }
}

pub proof fn lemma_digits_value_nonneg(s: Seq<char>)
    requires
        all_digits(s),
    ensures
        digits_value(s) >= 0,
    decreases s.len(),
{
    if s.len() > 0 {
        lemma_digits_value_nonneg(s.drop_last());
    }
}

/// Appending digits never makes the value smaller.
pub proof fn lemma_digits_value_prefix(s: Seq<char>, i: int)
    requires
        all_digits(s),
        0 <= i <= s.len(),
    ensures
        digits_value(s.take(i)) <= digits_value(s),
    decreases s.len() - i,
{
    if i < s.len() {
        lemma_digits_value_prefix(s, i + 1);
        assert(s.take(i + 1).drop_last() =~= s.take(i));
        lemma_digits_value_nonneg(s.take(i));
    } else {
        assert(s.take(i) =~= s);
    }
}

/// The value of the digit string `d`, when it is at most `bound`.
pub fn digits_upto(d: &[char], bound: u128) -> (r: Option<u128>)
    requires
        all_digits(d@),
        bound < 0x1_0000_0000_0000_0000_0000u128,
    ensures
        match r {
            Some(v) => v == digits_value(d@) && v <= bound,
            None => digits_value(d@) > bound,
        },
{
    let mut acc: u128 = 0;
    let mut i: usize = 0;
    while i < d.len()
        invariant
            i <= d@.len(),
            all_digits(d@),
            bound < 0x1_0000_0000_0000_0000_0000u128,
            acc == digits_value(d@.take(i as int)),
            acc <= bound,
        decreases d.len() - i,
    {
        assert(d@.take(i + 1).drop_last() =~= d@.take(i as int));
        assert(is_digit(d@[i as int]));
        let dv = (d[i] as u32 - '0' as u32) as u128;
        let next = acc * 10 + dv;
        if next > bound {
            proof {
                lemma_digits_value_prefix(d@, i + 1);
            }
            return None;
        }
        acc = next;
        i += 1;
    }
    assert(d@.take(i as int) =~= d@);
    Some(acc)
}

/// Reads a token as an `i64` (see `spec_parse_i64`).
pub fn parse_i64(s: &[char]) -> (r: Option<i64>)
    ensures
        r == spec_parse_i64(s@),
{
    let neg = s.len() > 0 && s[0] == '-';
    let start: usize = if s.len() > 0 && (s[0] == '+' || s[0] == '-') { 1 } else { 0 };
    let ghost d = if s@.len() > 0 && is_sign(s@[0]) { s@.drop_first() } else { s@ };
    assert(s@.subrange(start as int, s@.len() as int) =~= d);
    if start >= s.len() {
        return None;
    }
    let mut i = start;
    while i < s.len()
        invariant
            start <= i <= s@.len(),
            start <= 1,
            d == (if s@.len() > 0 && is_sign(s@[0]) { s@.drop_first() } else { s@ }),
            d.len() == s@.len() - start,
            forall|j: int| 0 <= j < d.len() ==> d[j] == s@[j + start],
            forall|j: int| start <= j < i ==> is_digit(#[trigger] s@[j]),
        decreases s.len() - i,
    {
        if !(s[i] >= '0' && s[i] <= '9') {
            assert(!is_digit(d[i - start]));
            assert(!all_digits(d));
            assert(d == (if s@.len() > 0 && is_sign(s@[0]) { s@.drop_first() } else { s@ }));
            assert(spec_parse_i64(s@) is None);
            return None;
        }
        i += 1;
    }
    assert(all_digits(d)) by {
        assert forall|j: int| 0 <= j < d.len() implies is_digit(#[trigger] d[j]) by {
            assert(d[j] == s@[j + start]);
        }
    }
    let tail = slice_from(s, start);
    let bound: u128 = if neg { 9223372036854775808u128 } else { 9223372036854775807u128 };
    match digits_upto(tail, bound) {
        Some(v) => {
            if neg {
                if v == 9223372036854775808u128 {
                    Some(i64::MIN)
                } else {
                    Some(-(v as i64))
                }
            } else {
                Some(v as i64)
            }
        },
        None => None,
    }
}

/// The characters of `s` from index `start` on.
pub fn slice_from(s: &[char], start: usize) -> (r: &[char])
    requires
        start <= s@.len(),
    ensures
        r@ == s@.subrange(start as int, s@.len() as int),
{
    let (_, b) = s.split_at(start);
    b
}

/// The decimal digits of `n`, without leading zeros.
pub open spec fn spec_decimal(n: nat) -> Seq<char>
    decreases n,
{
    if n < 10 {
        seq![((n + 48) as char)]
    } else {
        spec_decimal(n / 10).push(((n % 10) + 48) as char)
    }
}

/// `v` written in decimal, as `{}` formats an integer.
pub open spec fn spec_int_str(v: int) -> Seq<char> {
    if v < 0 {
        seq!['-'] + spec_decimal((-v) as nat)
    } else {
        spec_decimal(v as nat)
    }
}

fn push_decimal(n: u64, out: &mut Vec<char>)
    ensures
        final(out)@ == old(out)@ + spec_decimal(n as nat),
    decreases n,
{
    if n >= 10 {
        push_decimal(n / 10, out);
    }
    let d = (n % 10) as u8;
    let c = (d + 48u8) as char;
    assert(c == ((n % 10) + 48) as char);
    out.push(c);
    proof {
        if n >= 10 {
            assert(final(out)@ =~= old(out)@ + spec_decimal(n as nat));
        } else {
            assert(n % 10 == n);
            assert(final(out)@ =~= old(out)@ + spec_decimal(n as nat));
        }
    }
}

/// Appends `v` written in decimal to `out`.
pub fn push_int(v: i64, out: &mut Vec<char>)
    ensures
        final(out)@ == old(out)@ + spec_int_str(v as int),
{
    if v < 0 {
        out.push('-');
        let m: u64 = if v == i64::MIN { 9223372036854775808u64 } else { (-v) as u64 };
        push_decimal(m, out);
        assert(final(out)@ =~= old(out)@ + spec_int_str(v as int));
    } else {
        push_decimal(v as u64, out);
    }
}

pub proof fn lemma_decimal_digits(n: nat)
    ensures
        spec_decimal(n).len() > 0,
        all_digits(spec_decimal(n)),
        digits_value(spec_decimal(n)) == n,
        spec_decimal(n)[0] != '-' && spec_decimal(n)[0] != '+',
    decreases n,
{
    assert(((n % 10) + 48) as char as int == (n % 10) + 48);
    let s = spec_decimal(n);
    if n >= 10 {
        lemma_decimal_digits(n / 10);
        assert(s.drop_last() =~= spec_decimal(n / 10));
        assert(s[0] == spec_decimal(n / 10)[0]);
        assert(digit_value(s.last()) == n % 10);
        assert(digits_value(s) == digits_value(spec_decimal(n / 10)) * 10 + n % 10);
        assert(n == (n / 10) * 10 + n % 10) by (nonlinear_arith);
        assert(digits_value(s) == n);
    } else {
        assert(s.drop_last() =~= Seq::<char>::empty());
        assert(digits_value(s.drop_last()) == 0);
        assert(n % 10 == n);
        assert(digit_value(s.last()) == n);
        assert(digits_value(s) == n);
    }
}

/// Reading back what was written gives the same integer.
pub proof fn lemma_parse_int_str(v: i64)
    ensures
        spec_parse_i64(spec_int_str(v as int)) == Some(v),
{
    let s = spec_int_str(v as int);
    if v < 0 {
        lemma_decimal_digits((-v) as nat);
        assert(s.drop_first() =~= spec_decimal((-v) as nat));
    } else {
        lemma_decimal_digits(v as nat);
    }
}


/// `c` is the lower-case ASCII letter `lo` in either case.
pub open spec fn ci(c: char, lo: char) -> bool {
    c == lo || c as int == lo as int - 32
}

fn ci_exec(c: char, lo: char) -> (b: bool)
    requires
        'a' <= lo <= 'z',
    ensures
        b == ci(c, lo),
{
    c == lo || c as u32 == lo as u32 - 32
}

/// A token without its leading sign, if it has one.
pub open spec fn unsigned_part(s: Seq<char>) -> Seq<char> {
    if s.len() > 0 && is_sign(s[0]) {
        s.drop_first()
    } else {
        s
    }
}

pub open spec fn is_inf_or_nan(b: Seq<char>) -> bool {
    ||| b.len() == 3 && ci(b[0], 'i') && ci(b[1], 'n') && ci(b[2], 'f')
    ||| b.len() == 8 && ci(b[0], 'i') && ci(b[1], 'n') && ci(b[2], 'f') && ci(b[3], 'i')
        && ci(b[4], 'n') && ci(b[5], 'i') && ci(b[6], 't') && ci(b[7], 'y')
    ||| b.len() == 3 && ci(b[0], 'n') && ci(b[1], 'a') && ci(b[2], 'n')
}

/// Index of the first `e`/`E` in `s`, or `s.len()`.
pub open spec fn first_exp_index(s: Seq<char>) -> int
    decreases s.len(),
{
    if s.len() == 0 {
        0
    } else if ci(s[0], 'e') {
        0
    } else {
        1 + first_exp_index(s.drop_first())
    }
}

/// `Digit+ | Digit+ '.' Digit* | Digit* '.' Digit+`
pub open spec fn is_mantissa(m: Seq<char>) -> bool {
    let k = first_index_of(m, '.');
    let ip = m.take(k);
    if k == m.len() {
        ip.len() > 0 && all_digits(ip)
    } else {
        let fp = m.skip(k + 1);
        all_digits(ip) && all_digits(fp) && (ip.len() > 0 || fp.len() > 0)
    }
}

/// A decimal literal: a mantissa, then optionally `e`, an optional sign and digits.
pub open spec fn is_decimal_literal(b: Seq<char>) -> bool {
    let k = first_exp_index(b);
    if k == b.len() {
        is_mantissa(b)
    } else {
        let e = unsigned_part(b.skip(k + 1));
        is_mantissa(b.take(k)) && e.len() > 0 && all_digits(e)
    }
}

/// The tokens `str::parse::<f64>` accepts: an optional sign, then `inf`, `infinity`,
/// `nan` (any case) or a decimal literal.
pub open spec fn spec_is_number(s: Seq<char>) -> bool {
    let b = unsigned_part(s);
    is_inf_or_nan(b) || is_decimal_literal(b)
}

pub proof fn lemma_first_exp_index(s: Seq<char>)
    ensures
        0 <= first_exp_index(s) <= s.len(),
        forall|j: int| 0 <= j < first_exp_index(s) ==> !ci(s[j], 'e'),
        first_exp_index(s) < s.len() ==> ci(s[first_exp_index(s)], 'e'),
    decreases s.len(),
{
    if s.len() > 0 {
        lemma_first_exp_index(s.drop_first());
        if !ci(s[0], 'e') {
            assert forall|j: int| 0 <= j < first_exp_index(s) implies !ci(s[j], 'e') by {
                if j > 0 {
                    assert(s[j] == s.drop_first()[j - 1]);
                }
            }
        }
    }
}

fn find_exp(v: &[char]) -> (i: usize)
    ensures
        i == first_exp_index(v@),
        i <= v@.len(),
{
    proof {
        lemma_first_exp_index(v@);
    }
    let mut i: usize = 0;
    while i < v.len()
        invariant
            i <= v@.len(),
            forall|j: int| 0 <= j < i ==> !ci(v@[j], 'e'),
            0 <= first_exp_index(v@) <= v@.len(),
            forall|j: int| 0 <= j < first_exp_index(v@) ==> !ci(v@[j], 'e'),
            first_exp_index(v@) < v@.len() ==> ci(v@[first_exp_index(v@)], 'e'),
        decreases v.len() - i,
    {
        if ci_exec(v[i], 'e') {
            return i;
        }
        i += 1;
    }
    i
}

/// Whether every character of `v` is a decimal digit.
pub fn all_digits_exec(v: &[char]) -> (b: bool)
    ensures
        b == all_digits(v@),
{
    let mut i: usize = 0;
    while i < v.len()
        invariant
            i <= v@.len(),
            forall|j: int| 0 <= j < i ==> is_digit(#[trigger] v@[j]),
        decreases v.len() - i,
    {
        if !(v[i] >= '0' && v[i] <= '9') {
            assert(!is_digit(v@[i as int]));
            return false;
        }
        i += 1;
    }
    true
}

/// The characters of `s` before index `end`.
pub fn slice_to(s: &[char], end: usize) -> (r: &[char])
    requires
        end <= s@.len(),
    ensures
        r@ == s@.take(end as int),
{
    let (a, _) = s.split_at(end);
    a
}

fn is_mantissa_exec(m: &[char]) -> (b: bool)
    ensures
        b == is_mantissa(m@),
{
    let k = crate::text::find_char(m, '.');
    proof {
        crate::text::lemma_first_index_of(m@, '.');
    }
    let ip = slice_to(m, k);
    if k == m.len() {
        ip.len() > 0 && all_digits_exec(ip)
    } else {
        let fp = slice_from(m, k + 1);
        assert(fp@ =~= m@.skip(k + 1));
        all_digits_exec(ip) && all_digits_exec(fp) && (ip.len() > 0 || fp.len() > 0)
    }
}

fn unsigned_exec(s: &[char]) -> (r: &[char])
    ensures
        r@ == unsigned_part(s@),
{
    if s.len() > 0 && (s[0] == '+' || s[0] == '-') {
        let r = slice_from(s, 1);
        assert(r@ =~= s@.drop_first());
        r
    } else {
        assert(s@.subrange(0, s@.len() as int) =~= s@);
        s
    }
}

/// Whether a token is one `str::parse::<f64>` accepts (see `spec_is_number`).
pub fn is_number(s: &[char]) -> (r: bool)
    ensures
        r == spec_is_number(s@),
{
    let b = unsigned_exec(s);
    let n = b.len();
    let inf3 = n == 3 && ci_exec(b[0], 'i') && ci_exec(b[1], 'n') && ci_exec(b[2], 'f');
    let inf8 = n == 8 && ci_exec(b[0], 'i') && ci_exec(b[1], 'n') && ci_exec(b[2], 'f')
        && ci_exec(b[3], 'i') && ci_exec(b[4], 'n') && ci_exec(b[5], 'i') && ci_exec(b[6], 't')
        && ci_exec(b[7], 'y');
    let nan = n == 3 && ci_exec(b[0], 'n') && ci_exec(b[1], 'a') && ci_exec(b[2], 'n');
    if inf3 || inf8 || nan {
        return true;
    }
    let k = find_exp(b);
    if k == n {
        is_mantissa_exec(b)
    } else {
        let tail = slice_from(b, k + 1);
        assert(tail@ =~= b@.skip(k + 1));
        let e = unsigned_exec(tail);
        is_mantissa_exec(slice_to(b, k)) && e.len() > 0 && all_digits_exec(e)
    }
}

/// `digits '.' digits`, with at least one digit before the point, is a number token.
pub proof fn lemma_plain_decimal_is_number(ip: Seq<char>, fp: Seq<char>)
    requires
        ip.len() > 0,
        all_digits(ip),
        all_digits(fp),
    ensures
        spec_is_number(ip + seq!['.'] + fp),
{
    let s = ip + seq!['.'] + fp;
    let k = ip.len() as int;
    assert(s[0] == ip[0]);
    assert(unsigned_part(s) == s);
    lemma_first_exp_index(s);
    assert forall|j: int| 0 <= j < s.len() implies !ci(#[trigger] s[j], 'e') by {
        if j < k {
            assert(s[j] == ip[j]);
            assert(is_digit(ip[j]));
        } else if j > k {
            assert(s[j] == fp[j - k - 1]);
            assert(is_digit(fp[j - k - 1]));
        }
    }
    assert(first_exp_index(s) == s.len());
    crate::text::lemma_first_index_of(s, '.');
    assert(s[k] == '.');
    assert forall|j: int| 0 <= j < k implies s[j] != '.' by {
        assert(s[j] == ip[j]);
        assert(is_digit(ip[j]));
    }
    assert(crate::text::first_index_of(s, '.') == k);
    assert(s.take(k) =~= ip);
    assert(s.skip(k + 1) =~= fp);
    assert(is_digit(ip[0]));
}

} // verus!
