//! Decimal notation of integers.
use vstd::prelude::*;

use crate::text::{chars_of, is_ascii_digit, string_of};

verus! {

/// The decimal digit for `0 <= d < 10`.
pub open spec fn digit_char(d: int) -> char {
    (48 + d) as char
}

/// `n` in decimal, without leading zeros.
pub open spec fn digits(n: nat) -> Seq<char>
    decreases n,
{
    if n < 10 {
        seq![digit_char(n as int)]
    } else {
        digits(n / 10).push(digit_char((n % 10) as int))
    }
}

/// `n` in decimal, with a leading minus sign where it is negative.
pub open spec fn decimal(n: int) -> Seq<char> {
    if n < 0 {
        seq!['-'] + digits((-n) as nat)
    } else {
        digits(n as nat)
    }
}

/// Every character is a decimal digit.
pub open spec fn all_digits(s: Seq<char>) -> bool {
    forall|i: int| 0 <= i < s.len() ==> is_ascii_digit(#[trigger] s[i])
}

/// The number that a row of decimal digits denotes.
pub open spec fn digits_value(s: Seq<char>) -> int
    decreases s.len(),
{
    if s.len() == 0 {
        0
    } else {
        10 * digits_value(s.drop_last()) + (s.last() as int - 48)
    }
}

/// The number that an optional sign and a non-empty row of digits denote, where it fits.
pub open spec fn parsed_i64(s: Seq<char>) -> Option<int> {
    let signed = s.len() > 0 && (s[0] == '-' || s[0] == '+');
    let body = if signed {
        s.skip(1)
    } else {
        s
    };
    let v = if signed && s[0] == '-' {
        -digits_value(body)
    } else {
        digits_value(body)
    };
    if body.len() > 0 && all_digits(body) && i64::MIN <= v <= i64::MAX {
        Some(v)
    } else {
        None
    }
}

proof fn lemma_digits_value_bound(s: Seq<char>, k: int)
    requires
        all_digits(s),
        0 <= k <= s.len(),
    ensures
        0 <= digits_value(s.take(k)) <= digits_value(s),
    decreases s.len(),
{
    if k == s.len() {
        assert(s.take(k) == s);
        if s.len() > 0 {
            assert(all_digits(s.drop_last()));
            lemma_digits_value_bound(s.drop_last(), s.len() - 1);
            assert(s.drop_last().take(s.len() - 1) == s.drop_last());
        }
    } else {
        assert(all_digits(s.drop_last()));
        lemma_digits_value_bound(s.drop_last(), k);
        assert(s.drop_last().take(k) == s.take(k));
    }
}

/// The decimal notation of a number is never empty.
pub proof fn lemma_digits_nonempty(n: nat)
    ensures
        digits(n).len() > 0,
        all_digits(digits(n)),
        digits_value(digits(n)) == n,
    decreases n,
{
    if n >= 10 {
        lemma_digits_nonempty(n / 10);
        assert(digits(n).drop_last() == digits(n / 10));
        let c = digit_char((n % 10) as int);
        assert(c as int == 48 + n % 10);
        assert(digits(n).last() == c);
    } else {
        let c = digit_char(n as int);
        assert(c as int == 48 + n);
        assert(digits(n).drop_last() == Seq::<char>::empty());
        assert(digits(n).last() == c);
        assert(digits_value(Seq::<char>::empty()) == 0);
    }
}

/// Reading a number back from its decimal notation gives the number.
pub proof fn decimal_round_trip(n: i64)
    ensures
        parsed_i64(decimal(n as int)) == Some(n as int),
{
    if n < 0 {
        lemma_digits_nonempty((-n) as nat);
        assert(decimal(n as int).skip(1) == digits((-n) as nat));
    } else {
        lemma_digits_nonempty(n as nat);
        let s = decimal(n as int);
        assert(is_ascii_digit(s[0]));
    }
}

/// `n` in decimal notation.
pub fn to_decimal(n: i64) -> (r: String)
    ensures
        r@ == decimal(n as int),
{
    let negative: bool = n < 0;
    let m: u64 = if negative {
        (-(n as i128)) as u64
    } else {
        n as u64
    };
    let tail: String = natural_decimal(m);
    if negative {
        let mut r: String = String::new();
        r.push('-');
        r.append(tail.as_str());
        assert(r@ == seq!['-'] + tail@);
        r
    } else {
        tail
    }
}

/// `n` in decimal notation.
pub fn natural_decimal(n: u64) -> (r: String)
    ensures
        r@ == digits(n as nat),
{
    let mut back: Vec<char> = Vec::new();
    let mut m: u64 = n;
    while m >= 10
        invariant
            digits(n as nat) == digits(m as nat) + back@.reverse(),
        decreases m,
    {
        let c: char = digit_of((m % 10) as u8);
        let ghost old_back = back@;
        back.push(c);
        assert(back@.reverse() == seq![c] + old_back.reverse());
        assert(digits(m as nat) == digits((m / 10) as nat).push(c));
        assert(digits((m / 10) as nat).push(c) + old_back.reverse() == digits((m / 10) as nat)
            + back@.reverse());
        m = m / 10;
    }
    let c: char = digit_of(m as u8);
    let ghost old_back = back@;
    back.push(c);
    assert(back@.reverse() == seq![c] + old_back.reverse());
    assert(digits(n as nat) == back@.reverse());
    let mut r: Vec<char> = Vec::new();
    let k: usize = back.len();
    let mut i: usize = 0;
    while i < k
        invariant
            k == back@.len(),
            i <= k,
            r@ == back@.reverse().take(i as int),
        decreases k - i,
    {
        r.push(back[k - 1 - i]);
        i += 1;
    }
    assert(back@.reverse().take(k as int) == back@.reverse());
    string_of(&r)
}

/// The decimal digit `d`.
fn digit_of(d: u8) -> (c: char)
    requires
        d < 10,
    ensures
        c == digit_char(d as int),
{
    (48 + d) as char
}

/// The number that `s` denotes in decimal, or `None` where it is no 64-bit number.
pub fn parse_i64(s: &str) -> (r: Option<i64>)
    ensures
        (match r {
            Some(v) => parsed_i64(s@) == Some(v as int),
            None => parsed_i64(s@) is None,
        }),
{
    let v: Vec<char> = chars_of(s);
    let n: usize = v.len();
    let signed: bool = n > 0 && (v[0] == '-' || v[0] == '+');
    let negative: bool = signed && v[0] == '-';
    let start: usize = if signed {
        1
    } else {
        0
    };
    let ghost body = if signed {
        s@.skip(1)
    } else {
        s@
    };
    if n == start {
        return None;
    }
    let mut acc: i128 = 0;
    let mut i: usize = start;
    while i < n
        invariant
            n == v@.len(),
            start <= i <= n,
            body == v@.skip(start as int),
            all_digits(body.take(i - start)),
            acc == digits_value(body.take(i - start)),
            0 <= acc <= 100_000_000_000_000_000_000i128,
            body.len() > 0,
            body == (if signed {
                s@.skip(1)
            } else {
                s@
            }),
            signed == (s@.len() > 0 && (s@[0] == '-' || s@[0] == '+')),
        decreases n - i,
    {
        let c: char = v[i];
        assert(c == body[i - start]);
        if !('0' <= c && c <= '9') {
            return None;
        }
        let ghost next = body.take(i - start + 1);
        assert(next.drop_last() == body.take(i - start));
        assert forall|j: int| 0 <= j < next.len() implies is_ascii_digit(#[trigger] next[j]) by {
            if j < i - start {
                assert(body.take(i - start)[j] == next[j]);
            }
        }
        acc = acc * 10 + (c as u8 - 48) as i128;
        if acc > 10_000_000_000_000_000_000i128 {
            proof {
                if all_digits(body) {
                    lemma_digits_value_bound(body, i - start + 1);
                }
            }
            return None;
        }
        i += 1;
    }
    assert(body.take(body.len() as int) == body);
    let value: i128 = if negative {
        -acc
    } else {
        acc
    };
    if value < i64::MIN as i128 || value > i64::MAX as i128 {
        None
    } else {
        Some(value as i64)
    }
}

/// Decimal notation is positional: a number below ten is its digit, and ten times a number plus a
/// digit is that number followed by the digit. A negative number is that of its opposite behind a
/// minus sign.
pub proof fn notation_is_positional(n: nat, d: nat)
    requires
        d < 10,
    ensures
        digits(d).len() == 1,
        digits(d)[0] as int == '0' as int + d,
        n > 0 ==> digits(10 * n + d) == digits(n) + digits(d),
        n > 0 ==> digits(n)[0] != '0',
        n > 0 ==> decimal(-(n as int)) == seq!['-'] + digits(n),
        decimal(n as int) == digits(n),
{
    let c = digit_char(d as int);
    assert(c as int == 48 + d);
    if n > 0 {
        assert((10 * n + d) / 10 == n && (10 * n + d) % 10 == d);
        assert(digits(10 * n + d) =~= digits(n) + digits(d));
        lemma_no_leading_zero(n);
    }
}

proof fn lemma_no_leading_zero(n: nat)
    requires
        n > 0,
    ensures
        digits(n).len() > 0,
        digits(n)[0] != '0',
    decreases n,
{
    if n >= 10 {
        lemma_no_leading_zero(n / 10);
        assert(digits(n)[0] == digits(n / 10)[0]);
    } else {
        let c = digit_char(n as int);
        assert(c as int == 48 + n);
    }
}

/// Reading is positional too: a digit behind others counts once and they count tenfold, a plus
/// sign changes nothing, a minus sign turns the value round, and a text that holds anything but
/// digits behind its sign is no number.
pub proof fn reading_is_positional(s: Seq<char>, c: char)
    requires
        s.len() > 0,
        all_digits(s),
    ensures
        '0' <= c <= '9' && 10 * digits_value(s) + (c as int - '0' as int) <= i64::MAX
            ==> parsed_i64(s.push(c)) == Some(10 * digits_value(s) + (c as int - '0' as int)),
        digits_value(s) <= i64::MAX ==> parsed_i64(s) == Some(digits_value(s)),
        digits_value(s) > i64::MAX ==> parsed_i64(s) is None,
        s.len() == 1 ==> digits_value(s) == s[0] as int - '0' as int,
        parsed_i64(seq!['+'] + s) == parsed_i64(s),
        digits_value(s) <= -i64::MIN ==> parsed_i64(seq!['-'] + s) == Some(-digits_value(s)),
        digits_value(s) > -i64::MIN ==> parsed_i64(seq!['-'] + s) is None,
        !('0' <= c <= '9') ==> parsed_i64(s.push(c)) is None && parsed_i64(seq!['-'] + s.push(c)) is None,
{
    reveal_with_fuel(digits_value, 2);
    assert(is_ascii_digit(s[0]));
    assert((seq!['+'] + s).skip(1) =~= s);
    assert((seq!['-'] + s).skip(1) =~= s);
    assert((seq!['-'] + s.push(c)).skip(1) =~= s.push(c));
    lemma_digits_value_bound(s, s.len() as int);
    assert(s.take(s.len() as int) == s);
    assert(s.push(c).drop_last() =~= s);
    assert(s.push(c)[0] == s[0]);
    if '0' <= c <= '9' {
        assert(all_digits(s.push(c)));
    } else {
        assert(s.push(c)[s.len() as int] == c);
        assert(!is_ascii_digit(s.push(c)[s.len() as int]));
    }
}

} // verus!
