//! Numbers as text.

use crate::text::chars_of;
use vstd::prelude::*;

verus! {

/// The character for the digit `d`.
pub open spec fn digit(d: int) -> char {
    (48 + d) as char
}

/// `n` in decimal, without leading zeros.
pub open spec fn decimal(n: nat) -> Seq<char>
    decreases n,
{
    if n < 10 {
        seq![digit(n as int)]
    } else {
        decimal(n / 10).push(digit((n % 10) as int))
    }
}

fn digit_char(d: u128) -> (c: char)
    requires
        d < 10,
    ensures
        c == digit(d as int),
{
    (48u8 + d as u8) as char
}

/// Puts `n` in decimal at the end of `s`.
pub fn push_decimal(s: &mut String, n: u128)
    ensures
        final(s)@ == old(s)@ + decimal(n as nat),
    decreases n,
{
    if n >= 10 {
        push_decimal(s, n / 10);
    }
    s.push(digit_char(n % 10));
    assert(final(s)@ == old(s)@ + decimal(n as nat)) by {
        if n < 10 {
            assert(old(s)@ + seq![digit(n as int)] == old(s)@.push(digit(n as int)));
        } else {
            assert(old(s)@ + decimal((n / 10) as nat).push(digit((n % 10) as int)) == (old(s)@
                + decimal((n / 10) as nat)).push(digit((n % 10) as int)));
        }
    }
}

/// `n` in decimal.
pub fn decimal_text(n: u64) -> (s: String)
    ensures
        s@ == decimal(n as nat),
{
    let mut s = String::new();
    push_decimal(&mut s, n as u128);
    assert(Seq::<char>::empty() + decimal(n as nat) == decimal(n as nat));
    s
}

/// Whether `c` is one of the digits 0 to 9.
pub open spec fn is_digit(c: char) -> bool {
    '0' <= c && c <= '9'
}

/// The number that the digits `s` spell.
pub open spec fn digits_value(s: Seq<char>) -> nat
    decreases s.len(),
{
    if s.len() == 0 {
        0
    } else {
        digits_value(s.drop_last()) * 10 + (s.last() as int - 48) as nat
    }
}

/// The digits of a number without the plus sign that may stand in front.
pub open spec fn unsigned_part(s: Seq<char>) -> Seq<char> {
    if s.len() > 0 && s[0] == '+' {
        s.skip(1)
    } else {
        s
    }
}

/// The number that `s` spells, if it is one and no larger than `max`: digits, with
/// or without a plus sign in front.
pub open spec fn parsed(s: Seq<char>, max: nat) -> Option<nat> {
    let d = unsigned_part(s);
    if d.len() > 0 && (forall|i: int| 0 <= i < d.len() ==> is_digit(#[trigger] d[i]))
        && digits_value(d) <= max {
        Some(digits_value(d))
    } else {
        None
    }
}

proof fn lemma_digits_grow(s: Seq<char>, i: int)
    requires
        0 <= i <= s.len(),
        forall|k: int| 0 <= k < s.len() ==> is_digit(#[trigger] s[k]),
    ensures
        digits_value(s.take(i)) <= digits_value(s),
    decreases s.len() - i,
{
    if i < s.len() {
        lemma_digits_grow(s, i + 1);
        assert(s.take(i + 1).drop_last() == s.take(i));
    } else {
        assert(s.take(i) == s);
    }
}

/// The number that `s` spells, if it is one and no larger than `max`.
pub fn parse_up_to(s: &str, max: u64) -> (r: Option<u64>)
    ensures
        match r {
            Some(n) => parsed(s@, max as nat) == Some(n as nat),
            None => parsed(s@, max as nat) is None,
        },
{
    let v = chars_of(s);
    let mut i: usize = 0;
    if v.len() > 0 && v[0] == '+' {
        i = 1;
    }
    let ghost from = i as int;
    let ghost d = unsigned_part(s@);
    proof {
        assert(d == v@.skip(from));
        assert(d.take(0) == Seq::<char>::empty());
    }
    if i == v.len() {
        return None;
    }
    let mut n: u64 = 0;
    while i < v.len()
        invariant
            0 <= from <= i <= v@.len(),
            v@ == s@,
            d == unsigned_part(s@),
            d == v@.skip(from),
            n == digits_value(d.take(i - from)),
            n <= max,
            forall|k: int| 0 <= k < i - from ==> is_digit(#[trigger] d[k]),
        decreases v@.len() - i,
    {
        let c = v[i];
        assert(c == d[i - from]);
        if !('0' <= c && c <= '9') {
            return None;
        }
        let x: u64 = (c as u32 - 48) as u64;
        proof {
            assert(d.take(i - from + 1).drop_last() == d.take(i - from));
            assert(d.take(i - from + 1).last() == c);
            assert(digits_value(d.take(i - from + 1)) == n * 10 + x);
        }
        if n > max / 10 || x > max - n * 10 {
            proof {
                if forall|k: int| 0 <= k < d.len() ==> is_digit(#[trigger] d[k]) {
                    lemma_digits_grow(d, i - from + 1);
                }
            }
            return None;
        }
        n = n * 10 + x;
        i = i + 1;
    }
    assert(d.take(d.len() as int) == d);
    Some(n)
}

proof fn lemma_decimal_digits(n: nat)
    ensures
        decimal(n).len() > 0,
        forall|i: int| 0 <= i < decimal(n).len() ==> is_digit(#[trigger] decimal(n)[i]),
        digits_value(decimal(n)) == n,
    decreases n,
{
    if n < 10 {
        assert(decimal(n).drop_last() == Seq::<char>::empty());
        reveal_with_fuel(digits_value, 2);
    } else {
        lemma_decimal_digits(n / 10);
        assert(decimal(n).drop_last() == decimal(n / 10));
    }
}

/// Reading a number back gives the number that was written.
pub proof fn decimal_reads_back(n: nat, max: nat)
    requires
        n <= max,
    ensures
        parsed(decimal(n), max) == Some(n),
{
    lemma_decimal_digits(n);
    assert(is_digit(decimal(n)[0]));
    assert(unsigned_part(decimal(n)) == decimal(n));
}

/// `n` with its last `places` digits behind a point.
pub open spec fn fixed(n: nat, places: nat) -> Seq<char> {
    if places == 0 {
        decimal(n)
    } else if places == 1 {
        decimal(n / 10) + seq!['.', digit((n % 10) as int)]
    } else {
        decimal(n / 100) + seq!['.', digit((n / 10 % 10) as int), digit((n % 10) as int)]
    }
}

/// `n` with its last `places` digits behind a point.
pub fn fixed_text(n: u128, places: u8) -> (s: String)
    requires
        places <= 2,
    ensures
        s@ == fixed(n as nat, places as nat),
{
    let mut s = String::new();
    if places == 0 {
        push_decimal(&mut s, n);
    } else if places == 1 {
        push_decimal(&mut s, n / 10);
        s.push('.');
        s.push(digit_char(n % 10));
    } else {
        push_decimal(&mut s, n / 100);
        s.push('.');
        s.push(digit_char(n / 10 % 10));
        s.push(digit_char(n % 10));
    }
    assert(s@ =~= fixed(n as nat, places as nat));
    s
}

/// Decimals are positional: ten times a number and a digit is the number with the digit
/// behind it, and a number below ten is its one digit.
pub proof fn decimal_is_positional(n: nat, d: nat)
    requires
        d < 10,
    ensures
        decimal(d) == seq![('0' as int + d) as char],
        n > 0 ==> decimal(10 * n + d) == decimal(n).push(('0' as int + d) as char),
        n > 0 ==> decimal(n)[0] != '0',
        decimal(n).len() > 0,
        forall|i: int| 0 <= i < decimal(n).len() ==> '0' <= #[trigger] decimal(n)[i] && decimal(
            n,
        )[i] <= '9',
    decreases n,
{
    lemma_decimal_digits(n);
    assert((10 * n + d) / 10 == n);
    assert((10 * n + d) % 10 == d);
    if n >= 10 {
        decimal_is_positional(n / 10, n % 10);
        assert(decimal(n)[0] == decimal(n / 10)[0]);
    }
    assert forall|i: int| 0 <= i < decimal(n).len() implies '0' <= #[trigger] decimal(n)[i]
        && decimal(n)[i] <= '9' by {
        assert(is_digit(decimal(n)[i]));
    }
}

/// How numbers are read: nothing is no number, a plus sign in front of digits changes
/// nothing, a digit more makes ten times the number and the digit, if that is not too
/// large, and with anything else behind it there is no number.
pub proof fn numbers_are_read_digit_by_digit(s: Seq<char>, c: char, max: nat)
    ensures
        parsed(Seq::empty(), max) is None,
        parsed(seq!['+'], max) is None,
        s.len() > 0 && s[0] != '+' ==> parsed(seq!['+'] + s, max) == parsed(s, max),
        '0' <= c && c <= '9' ==> parsed(seq![c], max) == if c as int - '0' as int <= max {
            Some((c as int - '0' as int) as nat)
        } else {
            None
        },
        s.len() > 0 && s != seq!['+'] && '0' <= c && c <= '9' ==> parsed(s.push(c), max)
            == match parsed(s, max) {
            Some(n) => if 10 * n + (c as int - '0' as int) <= max {
                Some((10 * n + (c as int - '0' as int)) as nat)
            } else {
                None
            },
            None => None,
        },
        s.len() > 0 && !('0' <= c && c <= '9') ==> parsed(s.push(c), max) is None,
{
    reveal_with_fuel(digits_value, 2);
    if s.len() > 0 && s[0] != '+' {
        assert((seq!['+'] + s).skip(1) == s);
        assert((seq!['+'] + s)[0] == '+');
    }
    let one = seq![c];
    assert(one.drop_last() == Seq::<char>::empty());
    if '0' <= c && c <= '9' {
        assert(unsigned_part(one) == one);
        assert(is_digit(one[0]));
        assert(digits_value(one) == c as int - '0' as int);
    }
    assert(seq!['+'].skip(1) == Seq::<char>::empty());
    if s.len() > 0 {
        let t = s.push(c);
        let d = unsigned_part(s);
        let e = unsigned_part(t);
        assert(t[0] == s[0]);
        assert(e == d.push(c));
        assert(e.drop_last() == d);
        assert(e.last() == c);
        assert(e[d.len() as int] == c);
        if s != seq!['+'] {
            if d.len() == 0 {
                assert(s == seq!['+']);
            }
            if forall|i: int| 0 <= i < e.len() ==> is_digit(#[trigger] e[i]) {
                assert forall|i: int| 0 <= i < d.len() implies is_digit(#[trigger] d[i]) by {
                    assert(e[i] == d[i]);
                }
                assert(digits_value(d) <= digits_value(e));
            }
            if forall|i: int| 0 <= i < d.len() ==> is_digit(#[trigger] d[i]) {
                assert forall|i: int| 0 <= i < e.len() && is_digit(c) implies is_digit(
                    #[trigger] e[i],
                ) by {
                    if i < d.len() {
                        assert(e[i] == d[i]);
                    }
                }
            }
        }
    }
}

/// A number with one or two places behind the point reads as the whole part, a point and
/// the digits of the rest.
pub proof fn places_stand_behind_the_point(whole: nat, tenth: nat, hundredth: nat)
    requires
        tenth < 10,
        hundredth < 10,
    ensures
        fixed(whole, 0) == decimal(whole),
        fixed(10 * whole + tenth, 1) == decimal(whole) + seq!['.'] + decimal(tenth),
        fixed(100 * whole + 10 * tenth + hundredth, 2) == decimal(whole) + seq!['.'] + decimal(
            tenth,
        ) + decimal(hundredth),
{
    let n = 100 * whole + 10 * tenth + hundredth;
    assert(n / 100 == whole);
    assert(n / 10 == 10 * whole + tenth);
    assert((10 * whole + tenth) % 10 == tenth);
    assert((10 * whole + tenth) / 10 == whole);
    assert(n % 10 == hundredth);
    assert(fixed(n, 2) =~= decimal(whole) + seq!['.'] + decimal(tenth) + decimal(hundredth));
    assert(fixed(10 * whole + tenth, 1) =~= decimal(whole) + seq!['.'] + decimal(tenth));
}

/// Numbers are written and read as what is said of them.
pub proof fn numbers_are_written_and_read(
    s: &mut String,
    n: u128,
    k: u64,
    a: String,
    t: &str,
    max: u64,
    r: Option<u64>,
    places: u8,
    b: String,
)
    requires
        places <= 2,
        call_ensures(push_decimal, (s, n), ()),
        call_ensures(decimal_text, (k,), a),
        call_ensures(parse_up_to, (t, max), r),
        call_ensures(fixed_text, (n, places), b),
    ensures
        final(s)@ == old(s)@ + decimal(n as nat),
        a@ == decimal(k as nat),
        r is Some ==> parsed(t@, max as nat) == Some(r->0 as nat),
        r is None ==> parsed(t@, max as nat) is None,
        b@ == fixed(n as nat, places as nat),
{
}

} // verus!
