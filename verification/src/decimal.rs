//! Decimal spelling of unsigned numbers, and its inverse for canonical
//! spellings (no sign, no leading zero).

use vstd::prelude::*;

verus! {

/// The ASCII digit for `d < 10`.
pub open spec fn digit_char(d: nat) -> char {
    if d == 0 {
        '0'
    } else if d == 1 {
        '1'
    } else if d == 2 {
        '2'
    } else if d == 3 {
        '3'
    } else if d == 4 {
        '4'
    } else if d == 5 {
        '5'
    } else if d == 6 {
        '6'
    } else if d == 7 {
        '7'
    } else if d == 8 {
        '8'
    } else {
        '9'
    }
}

/// The value of an ASCII digit, if `c` is one.
pub open spec fn digit_value(c: char) -> Option<nat> {
    if c == '0' {
        Some(0)
    } else if c == '1' {
        Some(1)
    } else if c == '2' {
        Some(2)
    } else if c == '3' {
        Some(3)
    } else if c == '4' {
        Some(4)
    } else if c == '5' {
        Some(5)
    } else if c == '6' {
        Some(6)
    } else if c == '7' {
        Some(7)
    } else if c == '8' {
        Some(8)
    } else if c == '9' {
        Some(9)
    } else {
        None
    }
}

/// `n` written in decimal, as `format!("{n}")` spells it.
pub open spec fn dec_digits(n: nat) -> Seq<char>
    decreases n,
{
    if n < 10 {
        seq![digit_char(n)]
    } else {
        dec_digits(n / 10).push(digit_char(n % 10))
    }
}

/// Whether every character is an ASCII digit.
pub open spec fn all_digits(s: Seq<char>) -> bool {
    forall|i: int| 0 <= i < s.len() ==> (#[trigger] digit_value(s[i])).is_some()
}

/// The number a digit string denotes.
pub open spec fn dec_value(s: Seq<char>) -> nat
    decreases s.len(),
{
    if s.len() == 0 {
        0
    } else {
        dec_value(s.drop_last()) * 10 + match digit_value(s.last()) {
            Some(d) => d,
            None => 0,
        }
    }
}

/// A canonical decimal spelling: digits only, and no leading zero unless
/// the number is zero itself.
pub open spec fn canonical_decimal(s: Seq<char>) -> bool {
    &&& s.len() > 0
    &&& all_digits(s)
    &&& (s[0] == '0' ==> s.len() == 1)
}

proof fn lemma_digit_roundtrip(d: nat)
    requires
        d < 10,
    ensures
        digit_value(digit_char(d)) == Some(d),
{
}

/// The spelling of a number is canonical and reads back as that number.
pub proof fn lemma_dec_digits(n: nat)
    ensures
        canonical_decimal(dec_digits(n)),
        dec_value(dec_digits(n)) == n,
        dec_digits(n).len() >= 1,
        n >= 10 ==> dec_digits(n).len() >= 2,
        dec_digits(n)[0] == '0' ==> n == 0,
    decreases n,
{
    if n < 10 {
        lemma_digit_roundtrip(n);
        assert(dec_digits(n).drop_last() =~= Seq::<char>::empty());
        assert(dec_value(Seq::<char>::empty()) == 0);
        assert(dec_value(dec_digits(n)) == n);
    } else {
        lemma_dec_digits(n / 10);
        lemma_digit_roundtrip(n % 10);
        let p = dec_digits(n / 10);
        let s = dec_digits(n);
        assert(s.drop_last() =~= p);
        assert forall|i: int| 0 <= i < s.len() implies (#[trigger] digit_value(s[i])).is_some() by {
            if i < p.len() {
                assert(s[i] == p[i]);
                assert(digit_value(p[i]).is_some());
            }
        }
        assert(s[0] == p[0]);
        assert(s.last() == digit_char(n % 10));
        assert(dec_value(s) == dec_value(p) * 10 + n % 10);
        assert(n == (n / 10) * 10 + n % 10);
    }
}

/// Different numbers are spelled differently.
pub proof fn lemma_dec_digits_injective(a: nat, b: nat)
    requires
        dec_digits(a) == dec_digits(b),
    ensures
        a == b,
{
    lemma_dec_digits(a);
    lemma_dec_digits(b);
}

fn digit_char_exec(d: u64) -> (c: char)
    requires
        d < 10,
    ensures
        c == digit_char(d as nat),
{
    if d == 0 {
        '0'
    } else if d == 1 {
        '1'
    } else if d == 2 {
        '2'
    } else if d == 3 {
        '3'
    } else if d == 4 {
        '4'
    } else if d == 5 {
        '5'
    } else if d == 6 {
        '6'
    } else if d == 7 {
        '7'
    } else if d == 8 {
        '8'
    } else {
        '9'
    }
}

/// The value of an ASCII digit, if `c` is one.
pub fn digit_value_exec(c: char) -> (r: Option<u64>)
    ensures
        match r {
            Some(d) => digit_value(c) == Some(d as nat) && d < 10,
            None => digit_value(c).is_none(),
        },
{
    if c == '0' {
        Some(0)
    } else if c == '1' {
        Some(1)
    } else if c == '2' {
        Some(2)
    } else if c == '3' {
        Some(3)
    } else if c == '4' {
        Some(4)
    } else if c == '5' {
        Some(5)
    } else if c == '6' {
        Some(6)
    } else if c == '7' {
        Some(7)
    } else if c == '8' {
        Some(8)
    } else if c == '9' {
        Some(9)
    } else {
        None
    }
}

/// `n` written in decimal.
pub fn decimal_chars(n: u64) -> (r: Vec<char>)
    ensures
        r@ == dec_digits(n as nat),
    decreases n,
{
    if n < 10 {
        let mut v: Vec<char> = Vec::new();
        v.push(digit_char_exec(n));
        v
    } else {
        let mut v = decimal_chars(n / 10);
        v.push(digit_char_exec(n % 10));
        v
    }
}

/// The number a canonical decimal spelling denotes, when it is at most
/// `limit`; `None` for anything else.
pub fn parse_canonical(s: &[char], limit: u64) -> (r: Option<u64>)
    ensures
        match r {
            Some(n) => canonical_decimal(s@) && dec_value(s@) == n && n <= limit,
            None => !canonical_decimal(s@) || dec_value(s@) > limit,
        },
{
    if s.len() == 0 {
        return None;
    }
    if s[0] == '0' && s.len() != 1 {
        return None;
    }
    let mut acc: u64 = 0;
    let mut i: usize = 0;
    while i < s.len()
        invariant
            i <= s.len(),
            s@.len() > 0,
            acc == dec_value(s@.take(i as int)),
            acc <= limit,
            forall|j: int| 0 <= j < i ==> (#[trigger] digit_value(s@[j])).is_some(),
        decreases s.len() - i,
    {
        assert(s@.take(i + 1).drop_last() =~= s@.take(i as int));
        match digit_value_exec(s[i]) {
            None => {
                return None;
            },
            Some(d) => {
                let next: u128 = acc as u128 * 10 + d as u128;
                if next > limit as u128 {
                    proof {
                        lemma_dec_value_grows(s@, i + 1);
                    }
                    return None;
                }
                acc = next as u64;
            },
        }
        i += 1;
    }
    assert(s@.take(i as int) =~= s@);
    Some(acc)
}

/// Reading more digits never makes the value smaller.
proof fn lemma_dec_value_grows(s: Seq<char>, k: int)
    requires
        0 <= k <= s.len(),
    ensures
        dec_value(s.take(k)) <= dec_value(s),
    decreases s.len() - k,
{
    if k < s.len() {
        lemma_dec_value_grows(s, k + 1);
        assert(s.take(k + 1).drop_last() =~= s.take(k));
    } else {
        assert(s.take(k) =~= s);
    }
}

} // verus!
