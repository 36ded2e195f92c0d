//! Reading integers from text: optional sign, then digits of a radix.

use vstd::prelude::*;

verus! {

/// The value of `c` as a digit of `radix`, if it is one (letters in either case).
pub open spec fn digit_value(c: char, radix: nat) -> Option<nat> {
    let d: int = if '0' <= c && c <= '9' {
        (c as u32) as int - ('0' as u32) as int
    } else if 'a' <= c && c <= 'z' {
        (c as u32) as int - ('a' as u32) as int + 10
    } else if 'A' <= c && c <= 'Z' {
        (c as u32) as int - ('A' as u32) as int + 10
    } else {
        radix as int
    };
    if d < radix {
        Some(d as nat)
    } else {
        None
    }
}

/// The value of `s` as digits of `radix`, most significant first (0 when empty).
pub open spec fn digits_value(s: Seq<char>, radix: nat) -> Option<nat>
    decreases s.len(),
{
    if s.len() == 0 {
        Some(0)
    } else {
        match (digits_value(s.drop_last(), radix), digit_value(s.last(), radix)) {
            (Some(a), Some(d)) => Some(a * radix + d),
            _ => None,
        }
    }
}

/// `s` read as a signed 64-bit integer: an optional `+` or `-`, then at least
/// one digit of `radix`; `None` when malformed or out of range.
pub open spec fn signed_value(s: Seq<char>, radix: nat) -> Option<int> {
    let neg = s.len() > 0 && s[0] == '-';
    let body = if s.len() > 0 && (s[0] == '-' || s[0] == '+') {
        s.drop_first()
    } else {
        s
    };
    if body.len() == 0 {
        None
    } else {
        match digits_value(body, radix) {
            Some(m) => {
                let v = if neg {
                    -m
                } else {
                    m as int
                };
                if i64::MIN <= v <= i64::MAX {
                    Some(v)
                } else {
                    None
                }
            },
            None => None,
        }
    }
}

/// `s` read as an unsigned 64-bit decimal integer: an optional `+`, then at
/// least one digit; `None` when malformed or out of range.
pub open spec fn unsigned_value(s: Seq<char>) -> Option<nat> {
    let body = if s.len() > 0 && s[0] == '+' {
        s.drop_first()
    } else {
        s
    };
    if body.len() == 0 {
        None
    } else {
        match digits_value(body, 10) {
            Some(m) => if m <= u64::MAX {
                Some(m)
            } else {
                None
            },
            None => None,
        }
    }
}

proof fn lemma_digits_prefix(s: Seq<char>, radix: nat, i: int)
    requires
        0 <= i <= s.len(),
        radix >= 1,
        digits_value(s, radix) is Some,
    ensures
        digits_value(s.take(i), radix) is Some,
        digits_value(s.take(i), radix)->0 <= digits_value(s, radix)->0,
    decreases s.len(),
{
    if i == s.len() {
        assert(s.take(i) =~= s);
    } else {
        let a = digits_value(s.drop_last(), radix)->0;
        let d = digit_value(s.last(), radix)->0;
        assert(a <= a * radix + d) by (nonlinear_arith)
            requires
                radix >= 1,
        ;
        assert(s.drop_last().take(i) =~= s.take(i));
        lemma_digits_prefix(s.drop_last(), radix, i);
    }
}

fn digit_of(c: char, radix: u32) -> (r: Option<u32>)
    requires
        radix <= 36,
    ensures
        match digit_value(c, radix as nat) {
            Some(d) => r == Some(d as u32),
            None => r is None,
        },
{
    let d: u32 = if '0' <= c && c <= '9' {
        (c as u32) - ('0' as u32)
    } else if 'a' <= c && c <= 'z' {
        (c as u32) - ('a' as u32) + 10
    } else if 'A' <= c && c <= 'Z' {
        (c as u32) - ('A' as u32) + 10
    } else {
        radix
    };
    if d < radix {
        Some(d)
    } else {
        None
    }
}

/// The digits of `s[from..]` as a number of at most `limit`.
fn magnitude(s: &[char], from: usize, radix: u32, limit: u64) -> (r: Option<u64>)
    requires
        from <= s@.len(),
        2 <= radix <= 36,
    ensures
        match digits_value(s@.skip(from as int), radix as nat) {
            Some(m) => if m <= limit {
                r == Some(m as u64)
            } else {
                r is None
            },
            None => r is None,
        },
{
    let ghost body = s@.skip(from as int);
    let mut acc: u64 = 0;
    let mut i: usize = from;
    assert(body.take(0) =~= seq![]);
    while i < s.len()
        invariant
            from <= i <= s@.len(),
            body == s@.skip(from as int),
            2 <= radix <= 36,
            digits_value(body.take(i - from), radix as nat) == Some(acc as nat),
            acc <= limit,
        decreases s.len() - i,
    {
        let ghost k = i - from;
        assert(body.take(k + 1).drop_last() =~= body.take(k));
        assert(body.take(k + 1).last() == s@[i as int]);
        match digit_of(s[i], radix) {
            None => {
                proof {
                    if digits_value(body, radix as nat) is Some {
                        lemma_digits_prefix(body, radix as nat, k + 1);
                    }
                }
                return None;
            },
            Some(d) => {
                assert((acc as nat) * (radix as nat) <= (u64::MAX as nat) * 36) by (nonlinear_arith)
                    requires
                        acc <= u64::MAX,
                        radix <= 36,
                ;
                let next: u128 = (acc as u128) * (radix as u128) + (d as u128);
                if next > limit as u128 {
                    proof {
                        if digits_value(body, radix as nat) is Some {
                            lemma_digits_prefix(body, radix as nat, k + 1);
                        }
                    }
                    return None;
                }
                acc = next as u64;
            },
        }
        i = i + 1;
    }
    assert(body.take(i - from) =~= body);
    Some(acc)
}

/// `s[from..]` read as a signed 64-bit integer in `radix`.
pub fn parse_signed(s: &[char], from: usize, radix: u32) -> (r: Option<i64>)
    requires
        from <= s@.len(),
        2 <= radix <= 36,
    ensures
        match signed_value(s@.skip(from as int), radix as nat) {
            Some(v) => r == Some(v as i64),
            None => r is None,
        },
{
    let ghost t = s@.skip(from as int);
    let neg = from < s.len() && s[from] == '-';
    let start: usize = if from < s.len() && (s[from] == '-' || s[from] == '+') {
        from + 1
    } else {
        from
    };
    assert(s@.skip(start as int) =~= (if t.len() > 0 && (t[0] == '-' || t[0] == '+') {
        t.drop_first()
    } else {
        t
    }));
    if start == s.len() {
        return None;
    }
    let limit: u64 = if neg {
        0x8000_0000_0000_0000
    } else {
        0x7fff_ffff_ffff_ffff
    };
    match magnitude(s, start, radix, limit) {
        None => None,
        Some(m) => if neg {
            if m == 0x8000_0000_0000_0000 {
                Some(i64::MIN)
            } else {
                Some(-(m as i64))
            }
        } else {
            Some(m as i64)
        },
    }
}

/// `s` read as an unsigned 64-bit decimal integer.
pub fn parse_unsigned(s: &[char]) -> (r: Option<u64>)
    ensures
        match unsigned_value(s@) {
            Some(v) => r == Some(v as u64),
            None => r is None,
        },
{
    let start: usize = if s.len() > 0 && s[0] == '+' {
        1
    } else {
        0
    };
    assert(s@.skip(start as int) =~= (if s@.len() > 0 && s@[0] == '+' {
        s@.drop_first()
    } else {
        s@
    }));
    if start == s.len() {
        return None;
    }
    magnitude(s, start, 10, u64::MAX)
}

} // verus!
