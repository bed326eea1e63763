//! Parsing integers from text the way `from_str_radix` does: an optional
//! sign, then digits of the radix, rejected when the value does not fit.
use vstd::prelude::*;

verus! {

/// The value of the character `c` as a digit of `radix` (at most 36), as
/// `char::to_digit` reads it: `0`-`9`, then letters of either case from 10.
pub open spec fn digit_value(c: char, radix: nat) -> Option<nat> {
    let v: int = if '0' <= c && c <= '9' {
        c as int - '0' as int
    } else if 'a' <= c && c <= 'z' {
        c as int - 'a' as int + 10
    } else if 'A' <= c && c <= 'Z' {
        c as int - 'A' as int + 10
    } else {
        -1
    };
    if 0 <= v && v < radix {
        Some(v as nat)
    } else {
        None
    }
}

/// Every character of `s` is a digit of `radix`.
pub open spec fn all_digits(s: Seq<char>, radix: nat) -> bool {
    forall|i: int| 0 <= i < s.len() ==> (#[trigger] digit_value(s[i], radix)) is Some
}

/// The value of the digits `s` in `radix`, most significant first.
pub open spec fn digits_value(s: Seq<char>, radix: nat) -> nat
    decreases s.len(),
{
    if s.len() == 0 {
        0
    } else {
        digits_value(s.drop_last(), radix) * radix + match digit_value(s.last(), radix) {
            Some(d) => d,
            None => 0,
        }
    }
}

/// `from_str_radix` for an unsigned type whose largest value is `max`: an
/// optional `+`, then at least one digit, and a value that fits.
pub open spec fn parse_unsigned(s: Seq<char>, radix: nat, max: nat) -> Option<nat> {
    if s.len() == 0 {
        None
    } else {
        let body = if s[0] == '+' {
            s.drop_first()
        } else {
            s
        };
        if body.len() == 0 || !all_digits(body, radix) || digits_value(body, radix) > max {
            None
        } else {
            Some(digits_value(body, radix))
        }
    }
}

/// `str::parse::<i64>`: an optional `+` or `-`, then at least one decimal
/// digit, and a value that fits.
pub open spec fn parse_i64(s: Seq<char>) -> Option<int> {
    if s.len() == 0 {
        None
    } else {
        let neg = s[0] == '-';
        let body = if s[0] == '+' || s[0] == '-' {
            s.drop_first()
        } else {
            s
        };
        if body.len() == 0 || !all_digits(body, 10) {
            None
        } else if neg {
            if digits_value(body, 10) > 0x8000_0000_0000_0000 {
                None
            } else {
                Some(-digits_value(body, 10))
            }
        } else {
            if digits_value(body, 10) > 0x7fff_ffff_ffff_ffff {
                None
            } else {
                Some(digits_value(body, 10) as int)
            }
        }
    }
}

fn digit_value_exec(c: char, radix: u32) -> (r: Option<u64>)
    requires
        radix <= 36,
    ensures
        match r {
            Some(d) => digit_value(c, radix as nat) == Some(d as nat),
            None => digit_value(c, radix as nat) is None,
        },
{
    let v: i64 = if '0' <= c && c <= '9' {
        (c as u32 - '0' as u32) as i64
    } else if 'a' <= c && c <= 'z' {
        (c as u32 - 'a' as u32 + 10) as i64
    } else if 'A' <= c && c <= 'Z' {
        (c as u32 - 'A' as u32 + 10) as i64
    } else {
        -1
    };
    if 0 <= v && v < radix as i64 {
        Some(v as u64)
    } else {
        None
    }
}

/// A prefix of digits is worth no more than all of them.
pub proof fn lemma_digits_value_grows(s: Seq<char>, radix: nat, i: int)
    requires
        0 <= i <= s.len(),
        radix >= 1,
    ensures
        digits_value(s.take(i), radix) <= digits_value(s, radix),
    decreases s.len() - i,
{
    if i < s.len() {
        lemma_digits_value_grows(s, radix, i + 1);
        let t = s.take(i + 1);
        assert(t.drop_last() =~= s.take(i));
        let a = digits_value(s.take(i), radix);
        assert(a * radix >= a) by (nonlinear_arith)
            requires
                radix >= 1,
        ;
    } else {
        assert(s.take(i) =~= s);
    }
}

/// The value of the digits `s` in `radix`, if all are digits and the value
/// is at most `max`.
pub fn digits_value_exec(s: &[char], radix: u32, max: u64) -> (r: Option<u64>)
    requires
        2 <= radix <= 36,
    ensures
        match r {
            Some(v) => all_digits(s@, radix as nat) && v == digits_value(s@, radix as nat) && v <= max,
            None => !all_digits(s@, radix as nat) || digits_value(s@, radix as nat) > max,
        },
{
    let mut acc: u64 = 0;
    for i in 0..s.len()
        invariant
            2 <= radix <= 36,
            all_digits(s@.take(i as int), radix as nat),
            acc == digits_value(s@.take(i as int), radix as nat),
            acc <= max,
    {
        let ghost t = s@.take(i + 1);
        assert(t.drop_last() =~= s@.take(i as int));
        let d = match digit_value_exec(s[i], radix) {
            Some(d) => d,
            None => {
                assert(!all_digits(s@, radix as nat)) by {
                    assert(digit_value(s@[i as int], radix as nat) is None);
                }
                return None;
            },
        };
        assert(all_digits(t, radix as nat)) by {
            assert forall|k: int| 0 <= k < t.len() implies (#[trigger] digit_value(
                t[k],
                radix as nat,
            )) is Some by {
                if k < i {
                    assert(t[k] == s@.take(i as int)[k]);
                }
            }
        }
        let next = match acc.checked_mul(radix as u64) {
            Some(m) => m.checked_add(d),
            None => None,
        };
        match next {
            Some(n) if n <= max => {
                acc = n;
            },
            _ => {
                proof {
                    lemma_digits_value_grows(s@, radix as nat, i + 1);
                }
                return None;
            },
        }
    }
    assert(s@.take(s@.len() as int) =~= s@);
    Some(acc)
}

/// `from_str_radix` for an unsigned type whose largest value is `max`.
pub fn parse_unsigned_exec(s: &[char], radix: u32, max: u64) -> (r: Option<u64>)
    requires
        2 <= radix <= 36,
    ensures
        match r {
            Some(v) => parse_unsigned(s@, radix as nat, max as nat) == Some(v as nat),
            None => parse_unsigned(s@, radix as nat, max as nat) is None,
        },
{
    if s.len() == 0 {
        return None;
    }
    let body = if s[0] == '+' {
        crate::text::slice_skip(s, 1)
    } else {
        s
    };
    assert(s[0] == '+' ==> body@ =~= s@.drop_first());
    if body.len() == 0 {
        return None;
    }
    digits_value_exec(body, radix, max)
}

/// `str::parse::<i64>`.
pub fn parse_i64_exec(s: &[char]) -> (r: Option<i64>)
    ensures
        match r {
            Some(v) => parse_i64(s@) == Some(v as int),
            None => parse_i64(s@) is None,
        },
{
    if s.len() == 0 {
        return None;
    }
    let neg = s[0] == '-';
    let body = if s[0] == '+' || s[0] == '-' {
        crate::text::slice_skip(s, 1)
    } else {
        s
    };
    assert((s[0] == '+' || s[0] == '-') ==> body@ =~= s@.drop_first());
    if body.len() == 0 {
        return None;
    }
    if neg {
        match digits_value_exec(body, 10, 0x8000_0000_0000_0000) {
            Some(v) => {
                if v == 0x8000_0000_0000_0000 {
                    Some(i64::MIN)
                } else {
                    Some(-(v as i64))
                }
            },
            None => None,
        }
    } else {
        match digits_value_exec(body, 10, 0x7fff_ffff_ffff_ffff) {
            Some(v) => Some(v as i64),
            None => None,
        }
    }
}

} // verus!
