//! Unsigned integers in text: what `u16::from_str`, `u64::from_str` and
//! `u16::from_str_radix` accept, and the decimal form that `to_string` gives.

use vstd::prelude::*;

verus! {

/// `char::to_digit`: the value of `c` as a digit in base `radix` (at most 36).
pub open spec fn digit_value(c: char, radix: nat) -> Option<nat> {
    let n = c as u32;
    if 48 <= n <= 57 && n - 48 < radix {
        Some((n - 48) as nat)
    } else if 97 <= n <= 122 && n - 87 < radix {
        Some((n - 87) as nat)
    } else if 65 <= n <= 90 && n - 55 < radix {
        Some((n - 55) as nat)
    } else {
        None
    }
}

pub open spec fn all_digits(ds: Seq<char>, radix: nat) -> bool {
    forall|i: int| 0 <= i < ds.len() ==> (#[trigger] digit_value(ds[i], radix)) is Some
}

/// The number that a string of digits writes in base `radix`.
pub open spec fn digits_value(ds: Seq<char>, radix: nat) -> nat
    decreases ds.len(),
{
    if ds.len() == 0 {
        0
    } else {
        let d = match digit_value(ds.last(), radix) {
            Some(d) => d,
            None => 0,
        };
        digits_value(ds.drop_last(), radix) * radix + d
    }
}

/// The digits of `s` once an optional leading `+` is dropped.
pub open spec fn unsigned_digits(s: Seq<char>) -> Seq<char> {
    if s.len() > 0 && s[0] == '+' {
        s.drop_first()
    } else {
        s
    }
}

/// What an unsigned integer type with largest value `max` parses from `s`
/// in base `radix`: an optional `+`, then at least one digit, and a value
/// that fits.
pub open spec fn parse_unsigned(s: Seq<char>, radix: nat, max: nat) -> Option<nat> {
    let ds = unsigned_digits(s);
    if ds.len() > 0 && all_digits(ds, radix) && digits_value(ds, radix) <= max {
        Some(digits_value(ds, radix))
    } else {
        None
    }
}

/// Adding digits never makes the value smaller.
pub proof fn lemma_digits_value_grows(ds: Seq<char>, radix: nat, k: int)
    requires
        0 <= k <= ds.len(),
        radix >= 1,
    ensures
        digits_value(ds.take(k), radix) <= digits_value(ds, radix),
    decreases ds.len(),
{
    if k < ds.len() {
        let front = ds.drop_last();
        lemma_digits_value_grows(front, radix, k);
        assert(front.take(k) =~= ds.take(k));
        let v = digits_value(front, radix);
        assert(v <= v * radix) by (nonlinear_arith)
            requires
                radix >= 1,
        ;
    } else {
        assert(ds.take(k) =~= ds);
    }
}

pub proof fn lemma_digits_value_step(ds: Seq<char>, radix: nat, k: int)
    requires
        0 <= k < ds.len(),
    ensures
        digits_value(ds.take(k + 1), radix) == digits_value(ds.take(k), radix) * radix + match digit_value(
            ds[k],
            radix,
        ) {
            Some(d) => d,
            None => 0,
        },
{
    assert(ds.take(k + 1).drop_last() =~= ds.take(k));
}

/// `digit_value` computed.
pub fn digit_of(c: char, radix: u32) -> (r: Option<u32>)
    requires
        radix <= 36,
    ensures
        match r {
            Some(d) => digit_value(c, radix as nat) == Some(d as nat),
            None => digit_value(c, radix as nat) is None,
        },
{
    let n = c as u32;
    if 48 <= n && n <= 57 && n - 48 < radix {
        Some(n - 48)
    } else if 97 <= n && n <= 122 && n - 87 < radix {
        Some(n - 87)
    } else if 65 <= n && n <= 90 && n - 55 < radix {
        Some(n - 55)
    } else {
        None
    }
}

/// `parse_unsigned` of `v[lo..hi]`, for a largest value that fits in `u64`.
pub fn parse_unsigned_in(v: &Vec<char>, lo: usize, hi: usize, radix: u32, max: u64) -> (r: Option<
    u64,
>)
    requires
        lo <= hi <= v@.len(),
        2 <= radix <= 36,
    ensures
        match r {
            Some(x) => parse_unsigned(v@.subrange(lo as int, hi as int), radix as nat, max as nat)
                == Some(x as nat),
            None => parse_unsigned(v@.subrange(lo as int, hi as int), radix as nat, max as nat) is None,
        },
{
    let ghost s = v@.subrange(lo as int, hi as int);
    let mut start = lo;
    if lo < hi && v[lo] == '+' {
        start = lo + 1;
    }
    let ghost ds = unsigned_digits(s);
    assert(ds =~= v@.subrange(start as int, hi as int));
    if start == hi {
        return None;
    }
    let mut acc: u128 = 0;
    let mut i = start;
    assert(ds.take(0) =~= Seq::<char>::empty());
    while i < hi
        invariant
            start <= i <= hi <= v@.len(),
            2 <= radix <= 36,
            ds == v@.subrange(start as int, hi as int),
            ds == unsigned_digits(v@.subrange(lo as int, hi as int)),
            acc == digits_value(ds.take(i - start), radix as nat),
            acc <= max,
            forall|j: int| 0 <= j < i - start ==> (#[trigger] digit_value(ds[j], radix as nat)) is Some,
        decreases hi - i,
    {
        let d = match digit_of(v[i], radix) {
            Some(d) => d,
            None => {
                assert(digit_value(ds[i - start], radix as nat) is None);
                return None;
            },
        };
        proof {
            lemma_digits_value_step(ds, radix as nat, i - start);
        }
        assert(acc * (radix as u128) <= (max as u128) * 36) by (nonlinear_arith)
            requires
                acc <= max,
                radix <= 36,
        ;
        acc = acc * (radix as u128) + (d as u128);
        if acc > max as u128 {
            proof {
                if all_digits(ds, radix as nat) {
                    lemma_digits_value_grows(ds, radix as nat, i - start + 1);
                }
            }
            return None;
        }
        i = i + 1;
    }
    assert(ds.take(i - start) =~= ds);
    Some(acc as u64)
}

pub open spec fn digit_char(d: nat) -> char {
    (d + 48) as char
}

/// `n.to_string()` for an unsigned integer `n`.
pub open spec fn decimal(n: nat) -> Seq<char>
    decreases n,
{
    if n < 10 {
        seq![digit_char(n)]
    } else {
        decimal(n / 10) + seq![digit_char(n % 10)]
    }
}

/// Appends the decimal form of `n` to `out`.
pub fn push_decimal(out: &mut Vec<char>, n: u64)
    ensures
        final(out)@ == old(out)@ + decimal(n as nat),
    decreases n,
{
    if n >= 10 {
        push_decimal(out, n / 10);
    }
    let d = (n % 10) as u8;
    let c = (48u8 + d) as char;
    assert(c == digit_char((n % 10) as nat));
    out.push(c);
}

pub proof fn lemma_decimal_digits(n: nat)
    ensures
        decimal(n).len() > 0,
        all_digits(decimal(n), 10),
        digits_value(decimal(n), 10) == n,
        decimal(n)[0] != '+',
    decreases n,
{
    if n < 10 {
        assert(decimal(n).drop_last() =~= Seq::<char>::empty());
        assert(digits_value(Seq::<char>::empty(), 10) == 0);
        assert(digit_value(decimal(n)[0], 10) == Some(n));
    } else {
        lemma_decimal_digits(n / 10);
        let front = decimal(n / 10);
        let whole = decimal(n);
        assert(whole.drop_last() =~= front);
        assert(digit_value(whole.last(), 10) == Some(n % 10));
        assert forall|i: int| 0 <= i < whole.len() implies (#[trigger] digit_value(
            whole[i],
            10,
        )) is Some by {
            if i < front.len() {
                assert(whole[i] == front[i]);
            }
        }
        assert(whole[0] == front[0]);
        assert((n / 10) * 10 + n % 10 == n) by (nonlinear_arith);
    }
}

/// Writing a number in decimal and parsing the text back gives the number.
pub proof fn lemma_decimal_parses_back(n: nat, max: nat)
    requires
        n <= max,
    ensures
        parse_unsigned(decimal(n), 10, max) == Some(n),
{
    lemma_decimal_digits(n);
}

} // verus!
