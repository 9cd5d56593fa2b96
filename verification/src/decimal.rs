//! Decimal text for integers.
//!
//! Vault keys are derived with the vault's decimal id as the salt, and the
//! purge retention window is stored as decimal text in the settings table,
//! so the library needs both directions between integers and digits.

use vstd::prelude::*;

verus! {

/// The character for one decimal digit.
pub open spec fn digit_char(d: nat) -> char {
    ((d + 0x30) as u8) as char
}

/// The decimal digits of `n`, most significant first, no sign and no
/// leading zero (a single `'0'` for zero).
pub open spec fn dec_digits(n: nat) -> Seq<char>
    decreases n,
{
    if n < 10 {
        seq![digit_char(n)]
    } else {
        dec_digits(n / 10).push(digit_char(n % 10))
    }
}

/// The decimal representation of `n`, minus sign included for negatives.
pub open spec fn dec_int(n: int) -> Seq<char> {
    if n < 0 {
        seq!['-'] + dec_digits((-n) as nat)
    } else {
        dec_digits(n as nat)
    }
}

/// Relies on `i64::to_string`: the decimal representation of the value,
/// most significant digit first, a leading minus sign for negatives.
#[verifier::external_body]
pub fn i64_to_string(n: i64) -> (r: String)
    ensures
        r@ == dec_int(n as int),
{
    n.to_string()
}

/// Is `c` a decimal digit?
pub open spec fn is_digit(c: char) -> bool {
    0x30 <= c as u32 <= 0x39
}

/// A non-empty run of decimal digits.
pub open spec fn is_digits(s: Seq<char>) -> bool {
    s.len() > 0 && forall|i: int| 0 <= i < s.len() ==> is_digit(#[trigger] s[i])
}

/// The value of a run of decimal digits, most significant first.
pub open spec fn digits_val(s: Seq<char>) -> int
    decreases s.len(),
{
    if s.len() == 0 {
        0
    } else {
        digits_val(s.drop_last()) * 10 + (s.last() as u32 - 0x30)
    }
}

/// What a decimal integer literal denotes: an optional single sign, then
/// at least one digit (leading zeros allowed); `None` for any other shape.
pub open spec fn parse_decimal(s: Seq<char>) -> Option<int> {
    if is_digits(s) {
        Some(digits_val(s))
    } else if s.len() >= 2 && (s[0] == '-' || s[0] == '+') && is_digits(s.skip(1)) {
        if s[0] == '-' {
            Some(-digits_val(s.skip(1)))
        } else {
            Some(digits_val(s.skip(1)))
        }
    } else {
        None
    }
}

proof fn lemma_digits_val_nonneg(t: Seq<char>)
    requires
        forall|m: int| 0 <= m < t.len() ==> is_digit(#[trigger] t[m]),
    ensures
        digits_val(t) >= 0,
    decreases t.len(),
{
    if t.len() > 0 {
        lemma_digits_val_nonneg(t.drop_last());
    }
}

/// A run of digits is worth at least any of its prefixes.
proof fn lemma_digits_val_prefix(t: Seq<char>, k: int)
    requires
        0 <= k <= t.len(),
        forall|m: int| 0 <= m < t.len() ==> is_digit(#[trigger] t[m]),
    ensures
        digits_val(t) >= digits_val(t.take(k)),
    decreases t.len() - k,
{
    if k < t.len() {
        lemma_digits_val_prefix(t, k + 1);
        assert(t.take(k + 1).drop_last() =~= t.take(k));
        assert(forall|m: int| 0 <= m < t.take(k).len() ==> is_digit(#[trigger] t.take(k)[m]));
        lemma_digits_val_nonneg(t.take(k));
    } else {
        assert(t.take(k) =~= t);
    }
}

/// Parse a decimal integer exactly as `i32` text: an optional sign, then
/// digits; `None` for malformed text or a value outside the `i32` range.
pub fn parse_i32(s: &str) -> (r: Option<i32>)
    ensures
        match r {
            Some(v) => parse_decimal(s@) == Some(v as int),
            None => !(parse_decimal(s@) matches Some(n) && i32::MIN <= n <= i32::MAX),
        },
{
    let n = s.unicode_len();
    if n == 0 {
        return None;
    }
    let c0 = s.get_char(0) as u32;
    proof {
        assert('-' as u32 == 0x2D);
        assert('+' as u32 == 0x2B);
    }
    let neg = c0 == 0x2D;
    let start: usize = if c0 == 0x2D || c0 == 0x2B {
        1
    } else {
        0
    };
    if n == start {
        return None;
    }
    let mut acc: i64 = 0;
    let mut i: usize = start;
    while i < n
        invariant
            start <= i <= n <= s@.len(),
            n == s@.len(),
            start <= 1,
            neg ==> start == 1 && s@[0] == '-',
            !neg && start == 1 ==> s@[0] == '+',
            start == 0 ==> s@[0] != '-' && s@[0] != '+',
            forall|j: int| start <= j < i ==> is_digit(#[trigger] s@[j]),
            acc == digits_val(s@.subrange(start as int, i as int)),
            0 <= acc <= 0x8000_0000,
        decreases n - i,
    {
        let c = s.get_char(i);
        let cv = c as u32;
        if cv < 0x30 || cv > 0x39 {
            proof {
                if is_digits(s@) {
                    assert(!is_digit(s@[i as int]));
                }
                if 2 <= s@.len() && (s@[0] == '-' || s@[0] == '+') && is_digits(s@.skip(1)) {
                    assert(s@.skip(1)[i - 1] == s@[i as int]);
                }
            }
            return None;
        }
        let d = (cv - 0x30) as i64;
        proof {
            let pre = s@.subrange(start as int, i as int);
            let cur = s@.subrange(start as int, i + 1 as int);
            assert(cur.drop_last() =~= pre);
            assert(cur.last() == s@[i as int]);
        }
        acc = acc * 10 + d;
        if acc > 0x8000_0000 {
            // whatever digits follow, the value's magnitude only grows,
            // so the text cannot denote anything inside the i32 range
            proof {
                let done = s@.subrange(start as int, i + 1 as int);
                if is_digits(s@) {
                    assert(start == 0);
                    assert(done =~= s@.take(i + 1 as int));
                    lemma_digits_val_prefix(s@, i + 1 as int);
                }
                if 2 <= s@.len() && (s@[0] == '-' || s@[0] == '+') && is_digits(s@.skip(1)) {
                    assert(start == 1);
                    assert(done =~= s@.skip(1).take(i as int));
                    lemma_digits_val_prefix(s@.skip(1), i as int);
                }
            }
            return None;
        }
        i = i + 1;
    }
    proof {
        if start == 1 {
            assert(s@.subrange(start as int, n as int) =~= s@.skip(1));
            assert(is_digits(s@) ==> is_digit(s@[0]));
        } else {
            assert(s@.subrange(start as int, n as int) =~= s@);
        }
    }
    if neg {
        Some((0 - acc) as i32)
    } else {
        if acc > 0x7fff_ffff {
            return None;
        }
        Some(acc as i32)
    }
}

} // verus!
