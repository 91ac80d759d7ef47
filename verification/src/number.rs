//! Decimal numbers in text.

use crate::text;
use vstd::arithmetic::power;
use vstd::prelude::*;

verus! {

/// An ASCII decimal digit.
pub open spec fn digit(c: char) -> bool {
    '0' <= c <= '9'
}

/// The number that a digit stands for.
pub open spec fn digit_value(c: char) -> int {
    c as u32 - '0' as u32
}

/// At least one character, and only digits.
pub open spec fn numeral(s: Seq<char>) -> bool {
    s.len() > 0 && forall|i: int| 0 <= i < s.len() ==> digit(#[trigger] s[i])
}

/// The number that digits denote in base ten.
pub open spec fn value(s: Seq<char>) -> int
    decreases s.len(),
{
    if s.len() == 0 {
        0
    } else {
        10 * value(s.drop_last()) + digit_value(s.last())
    }
}

/// `s` without one leading plus sign.
pub open spec fn without_plus(s: Seq<char>) -> Seq<char> {
    if s.len() > 0 && s[0] == '+' {
        s.skip(1)
    } else {
        s
    }
}

/// What an unsigned integer type whose greatest value is `max` reads out of `s`: digits
/// after at most one plus sign, of a number that fits.
pub open spec fn unsigned(s: Seq<char>, max: int) -> Option<int> {
    let t = without_plus(s);
    if numeral(t) && value(t) <= max {
        Some(value(t))
    } else {
        None
    }
}

/// What `u64` reads out of `s`.
pub open spec fn as_u64(s: Seq<char>) -> Option<u64> {
    match unsigned(s, u64::MAX as int) {
        Some(n) => Some(n as u64),
        None => None,
    }
}

/// What `u32` reads out of `s`.
pub open spec fn as_u32(s: Seq<char>) -> Option<u32> {
    match unsigned(s, u32::MAX as int) {
        Some(n) => Some(n as u32),
        None => None,
    }
}

/// What `u8` reads out of `s`.
pub open spec fn as_u8(s: Seq<char>) -> Option<u8> {
    match unsigned(s, u8::MAX as int) {
        Some(n) => Some(n as u8),
        None => None,
    }
}

/// What `i64` reads out of `s`: digits after at most one sign, of a number that fits.
pub open spec fn as_i64(s: Seq<char>) -> Option<i64> {
    if s.len() > 0 && s[0] == '-' {
        let t = s.skip(1);
        if numeral(t) && -value(t) >= i64::MIN {
            Some((-value(t)) as i64)
        } else {
            None
        }
    } else {
        match unsigned(s, i64::MAX as int) {
            Some(n) => Some(n as i64),
            None => None,
        }
    }
}

/// Digits never denote a negative number, and a longer numeral never denotes a smaller one.
pub proof fn lemma_value_grows(s: Seq<char>, n: int)
    requires
        0 <= n <= s.len(),
        forall|i: int| 0 <= i < s.len() ==> digit(#[trigger] s[i]),
    ensures
        0 <= value(s.take(n)) <= value(s),
    decreases s.len(),
{
    if s.len() == 0 {
        assert(s.take(n) =~= s);
    } else if n == s.len() {
        lemma_value_grows(s.drop_last(), n - 1);
        assert(s.take(n) =~= s);
    } else {
        lemma_value_grows(s.drop_last(), n);
        assert(s.take(n) =~= s.drop_last().take(n));
    }
}

/// Reads digits, up to `max`.
fn read_digits(s: &[char], max: u64) -> (r: Option<u64>)
    ensures
        match r {
            Some(n) => numeral(s@) && value(s@) <= max && n == value(s@),
            None => !(numeral(s@) && value(s@) <= max),
        },
{
    if s.len() == 0 {
        return None;
    }
    let mut n: u64 = 0;
    let mut i: usize = 0;
    while i < s.len()
        invariant
            i <= s@.len(),
            n == value(s@.take(i as int)),
            n <= max,
            forall|j: int| 0 <= j < i ==> digit(#[trigger] s@[j]),
        decreases s@.len() - i,
    {
        let c: char = s[i];
        if !('0' <= c && c <= '9') {
            assert(!digit(s@[i as int]));
            return None;
        }
        let d: u64 = (c as u32 - '0' as u32) as u64;
        proof {
            assert(s@.take(i + 1).drop_last() =~= s@.take(i as int));
            assert(s@.take(i + 1).last() == c);
            assert(value(s@.take(i + 1)) == 10 * n + d);
            if numeral(s@) {
                lemma_value_grows(s@, i + 1);
            }
        }
        if n > max / 10 {
            return None;
        }
        if d > max - 10 * n {
            return None;
        }
        n = 10 * n + d;
        i = i + 1;
    }
    assert(s@.take(i as int) =~= s@);
    Some(n)
}

/// Drops one leading plus sign.
fn skip_plus<'a>(s: &'a [char]) -> (r: &'a [char])
    ensures
        r@ == without_plus(s@),
{
    if s.len() > 0 && s[0] == '+' {
        let t = vstd::slice::slice_subrange(s, 1, s.len());
        assert(t@ =~= s@.skip(1));
        t
    } else {
        s
    }
}

/// Reads a `u64`.
pub fn parse_u64(s: &[char]) -> (r: Option<u64>)
    ensures
        r == as_u64(s@),
{
    read_digits(skip_plus(s), u64::MAX)
}

/// Reads a `u32`.
pub fn parse_u32(s: &[char]) -> (r: Option<u32>)
    ensures
        r == as_u32(s@),
{
    match read_digits(skip_plus(s), u32::MAX as u64) {
        Some(n) => Some(n as u32),
        None => None,
    }
}

/// Reads a `u8`.
pub fn parse_u8(s: &[char]) -> (r: Option<u8>)
    ensures
        r == as_u8(s@),
{
    match read_digits(skip_plus(s), u8::MAX as u64) {
        Some(n) => Some(n as u8),
        None => None,
    }
}

/// Reads an `i64`.
pub fn parse_i64(s: &[char]) -> (r: Option<i64>)
    ensures
        r == as_i64(s@),
{
    if s.len() > 0 && s[0] == '-' {
        let t = vstd::slice::slice_subrange(s, 1, s.len());
        assert(t@ =~= s@.skip(1));
        match read_digits(t, 0x8000_0000_0000_0000) {
            Some(n) => if n == 0x8000_0000_0000_0000 {
                Some(i64::MIN)
            } else {
                Some(-(n as i64))
            },
            None => None,
        }
    } else {
        match read_digits(skip_plus(s), i64::MAX as u64) {
            Some(n) => Some(n as i64),
            None => None,
        }
    }
}

/// `a - b`, but not below zero.
pub open spec fn minus(a: u64, b: u64) -> u64 {
    if a >= b {
        (a - b) as u64
    } else {
        0
    }
}

/// The digit that stands for `n`.
pub open spec fn digit_char(n: int) -> char {
    (n + '0' as u32) as char
}

/// The decimal digits of `n`, without leading zeros.
pub open spec fn decimal(n: nat) -> Seq<char>
    decreases n,
{
    if n < 10 {
        seq![digit_char(n as int)]
    } else {
        decimal(n / 10).push(digit_char((n % 10) as int))
    }
}

/// Writes `n` in decimal.
pub fn decimal_of(n: u64) -> (r: String)
    ensures
        r@ == decimal(n as nat),
    decreases n,
{
    let d: char = ((n % 10) as u8 + 48) as char;
    let mut r: String = if n < 10 {
        String::new()
    } else {
        decimal_of(n / 10)
    };
    r.push(d);
    assert(r@ =~= decimal(n as nat));
    r
}

/// Reading a number back from its decimal digits gives the number.
pub proof fn decimal_is_read_back(n: u64)
    ensures
        as_u64(decimal(n as nat)) == Some(n),
{
    lemma_decimal(n as nat);
    assert(without_plus(decimal(n as nat)) == decimal(n as nat)) by {
        assert(digit(decimal(n as nat)[0]));
    }
}

/// The decimal digits of `n` are a numeral of value `n`.
pub proof fn lemma_decimal(n: nat)
    ensures
        numeral(decimal(n)),
        value(decimal(n)) == n,
    decreases n,
{
    reveal_with_fuel(value, 2);
    if n >= 10 {
        lemma_decimal(n / 10);
        assert(decimal(n).drop_last() =~= decimal(n / 10));
    } else {
        assert(decimal(n).drop_last() =~= Seq::empty());
    }
}

/// Digits are not whitespace.
pub proof fn lemma_decimal_spaceless(n: nat)
    ensures
        text::spaceless(decimal(n)),
        decimal(n).len() > 0,
        text::trimmed(decimal(n)) == decimal(n),
{
    lemma_decimal(n);
    assert forall|i: int| 0 <= i < decimal(n).len() implies !text::space(
        #[trigger] decimal(n)[i],
    ) by {
        assert(digit(decimal(n)[i]));
    }
    text::lemma_trimmed_spaceless(decimal(n));
}

/// Only the ten ASCII digits, at least one of them, make a numeral.
pub proof fn numerals_are_digits(s: Seq<char>)
    ensures
        numeral(s) <==> s.len() > 0 && forall|i: int|
            0 <= i < s.len() ==> '0' <= #[trigger] s[i] <= '9',
{
    if numeral(s) {
        assert forall|i: int| 0 <= i < s.len() implies '0' <= #[trigger] s[i] <= '9' by {
            assert(digit(s[i]));
        }
    }
}

/// Digits denote a number by their places: in front of `t`, those of `s` weigh ten times as
/// much for each digit of `t`, and one alone stands for its distance from zero.
pub proof fn digits_weigh_by_place(s: Seq<char>, t: Seq<char>, c: char)
    ensures
        value(s + t) == value(s) * power::pow(10, t.len()) + value(t),
        value(seq![c]) == c as int - 48,
        value(Seq::empty()) == 0,
    decreases t.len(),
{
    reveal_with_fuel(value, 2);
    assert(seq![c].drop_last() =~= Seq::empty());
    if t.len() == 0 {
        assert(s + t =~= s);
        power::lemma_pow0(10);
        assert(value(s) * 1 == value(s));
    } else {
        let u = t.drop_last();
        digits_weigh_by_place(s, u, c);
        assert((s + t).drop_last() =~= s + u);
        assert((s + t).last() == t.last());
        reveal(power::pow);
        let p = power::pow(10, u.len());
        assert(power::pow(10, t.len()) == 10 * p);
        let v = value(s);
        assert(10 * (v * p) == v * (10 * p)) by (nonlinear_arith);
    }
}

/// Digits are read as the number that they denote wherever it fits the type, and are not read
/// where it does not.
pub proof fn digits_are_read(s: Seq<char>)
    requires
        s.len() > 0,
        forall|i: int| 0 <= i < s.len() ==> '0' <= #[trigger] s[i] <= '9',
    ensures
        0 <= value(s),
        as_u64(s) is Some <==> value(s) <= 0xffff_ffff_ffff_ffff,
        as_u64(s) is Some ==> as_u64(s)->0 == value(s),
        as_u32(s) is Some <==> value(s) <= 0xffff_ffff,
        as_u32(s) is Some ==> as_u32(s)->0 == value(s),
        as_u8(s) is Some <==> value(s) <= 255,
        as_u8(s) is Some ==> as_u8(s)->0 == value(s),
        as_i64(s) is Some <==> value(s) <= 0x7fff_ffff_ffff_ffff,
        as_i64(s) is Some ==> as_i64(s)->0 == value(s),
{
    numerals_are_digits(s);
    assert(s[0] != '+' && s[0] != '-') by {
        assert('0' <= s[0]);
    }
    lemma_value_grows(s, s.len() as int);
    assert(s.take(s.len() as int) =~= s);
}

/// A plus sign before digits changes nothing; a minus sign turns the number round where the
/// type has negative numbers, and is not read where it has none.
pub proof fn signs_are_read(s: Seq<char>)
    requires
        s.len() > 0,
        forall|i: int| 0 <= i < s.len() ==> '0' <= #[trigger] s[i] <= '9',
    ensures
        as_u64(seq!['+'] + s) == as_u64(s),
        as_u32(seq!['+'] + s) == as_u32(s),
        as_u8(seq!['+'] + s) == as_u8(s),
        as_i64(seq!['+'] + s) == as_i64(s),
        as_u64(seq!['-'] + s) is None,
        as_u32(seq!['-'] + s) is None,
        as_u8(seq!['-'] + s) is None,
        as_i64(seq!['-'] + s) is Some <==> value(s) <= 0x8000_0000_0000_0000,
        as_i64(seq!['-'] + s) is Some ==> as_i64(seq!['-'] + s)->0 == -value(s),
{
    numerals_are_digits(s);
    assert(s[0] != '+' && s[0] != '-') by {
        assert('0' <= s[0]);
    }
    let p = seq!['+'] + s;
    let m = seq!['-'] + s;
    assert(p[0] == '+' && m[0] == '-');
    assert(p.skip(1) =~= s);
    assert(m.skip(1) =~= s);
    assert(!digit(m[0]));
    lemma_value_grows(s, s.len() as int);
    assert(s.take(s.len() as int) =~= s);
}

/// Nothing but digits, after one sign at most, is read as a number.
pub proof fn only_digits_are_read(s: Seq<char>)
    ensures
        as_u64(s) is Some || as_u32(s) is Some || as_u8(s) is Some || as_i64(s) is Some ==> {
            let t = if s.len() > 0 && (s[0] == '+' || s[0] == '-') {
                s.skip(1)
            } else {
                s
            };
            t.len() > 0 && forall|i: int| 0 <= i < t.len() ==> '0' <= #[trigger] t[i] <= '9'
        },
{
    let t = if s.len() > 0 && (s[0] == '+' || s[0] == '-') {
        s.skip(1)
    } else {
        s
    };
    numerals_are_digits(t);
    if s.len() > 0 && s[0] == '-' {
        assert(!digit(s[0]));
    }
}

/// The decimal digits of a number are digits that denote it, do not start with a zero unless
/// it is zero, and are the only ones of that kind.
pub proof fn decimal_is_the_numeral(n: nat, s: Seq<char>)
    ensures
        decimal(n).len() > 0,
        forall|i: int| 0 <= i < decimal(n).len() ==> '0' <= #[trigger] decimal(n)[i] <= '9',
        value(decimal(n)) == n,
        decimal(n)[0] == '0' ==> n == 0 && decimal(n) == seq!['0'],
        numeral(s) && value(s) == n && (s[0] == '0' ==> s.len() == 1) ==> s == decimal(n),
    decreases n,
{
    lemma_decimal(n);
    numerals_are_digits(decimal(n));
    reveal_with_fuel(value, 2);
    if n >= 10 {
        let u = decimal(n / 10);
        decimal_is_the_numeral(n / 10, s.drop_last());
        assert(decimal(n)[0] == u[0]);
    } else {
        assert(decimal(n)[0] == digit_char(n as int));
        if n == 0 {
            assert(decimal(n) =~= seq!['0']);
        }
    }
    if numeral(s) && value(s) == n && (s[0] == '0' ==> s.len() == 1) {
        let r = s.drop_last();
        let d = s.last();
        assert(digit(s[s.len() - 1]));
        assert(value(s) == 10 * value(r) + digit_value(d));
        if s.len() == 1 {
            assert(r =~= Seq::empty());
            assert(s =~= seq![digit_char(n as int)]);
        } else {
            assert(r[0] == s[0]);
            assert forall|i: int| 0 <= i < r.len() implies digit(#[trigger] r[i]) by {
                assert(digit(s[i]));
            }
            lemma_value_grows(r, 1);
            assert(r.take(1).drop_last() =~= Seq::empty());
            assert(value(r.take(1)) == digit_value(r[0]));
            assert(digit(r[0]));
            assert(value(r) >= 1);
            assert(n >= 10 && n / 10 == value(r) && n % 10 == digit_value(d));
            assert(r == decimal(n / 10));
            assert(s =~= decimal(n));
        }
    }
}

/// The decimal digits of a number are read as the number by every type that holds it.
pub proof fn decimal_is_read(n: nat)
    ensures
        n <= 0xffff_ffff_ffff_ffff ==> as_u64(decimal(n)) is Some && as_u64(decimal(n))->0 == n,
        n > 0xffff_ffff_ffff_ffff ==> as_u64(decimal(n)) is None,
        n <= 0xffff_ffff ==> as_u32(decimal(n)) is Some && as_u32(decimal(n))->0 == n,
        n > 0xffff_ffff ==> as_u32(decimal(n)) is None,
        n <= 255 ==> as_u8(decimal(n)) is Some && as_u8(decimal(n))->0 == n,
        n > 255 ==> as_u8(decimal(n)) is None,
        n <= 0x7fff_ffff_ffff_ffff ==> as_i64(decimal(n)) is Some && as_i64(decimal(n))->0 == n,
        n > 0x7fff_ffff_ffff_ffff ==> as_i64(decimal(n)) is None,
{
    decimal_is_the_numeral(n, decimal(n));
    digits_are_read(decimal(n));
}

/// Taking away gives back what is added again, and never falls below zero.
pub proof fn minus_undoes_plus(a: u64, b: u64)
    ensures
        b <= a ==> minus(a, b) + b == a,
        a <= b ==> minus(a, b) == 0,
{
}

} // verus!
