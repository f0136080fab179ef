//! Verified parsing of decimal integer text.
//!
//! The contracts pin down exactly which strings parse and to what value, in
//! the way `str::parse` for the integer types accepts them: an optional sign
//! followed by one or more ASCII digits, rejected when the value overflows
//! the target type.

use vstd::prelude::*;

verus! {

pub open spec fn is_digit(c: char) -> bool {
    0x30 <= c as u32 && c as u32 <= 0x39
}

pub open spec fn digit_val(c: char) -> int {
    c as u32 - 0x30
}

pub open spec fn all_digits(s: Seq<char>) -> bool {
    forall|i: int| 0 <= i < s.len() ==> is_digit(#[trigger] s[i])
}

/// The value of a digit string, most significant digit first.
pub open spec fn digits_val(s: Seq<char>) -> int
    decreases s.len(),
{
    if s.len() == 0 {
        0
    } else {
        digits_val(s.drop_last()) * 10 + digit_val(s.last())
    }
}

/// The digits of an integer literal: everything after an optional sign.
pub open spec fn int_body(s: Seq<char>) -> Seq<char> {
    if s.len() > 0 && (s[0] == '-' || s[0] == '+') {
        s.subrange(1, s.len() as int)
    } else {
        s
    }
}

/// Whether `s` is an integer literal: optional sign, then one or more digits.
pub open spec fn is_int_text(s: Seq<char>) -> bool {
    int_body(s).len() > 0 && all_digits(int_body(s))
}

/// The mathematical value of an integer literal.
pub open spec fn int_text_val(s: Seq<char>) -> int {
    if s.len() > 0 && s[0] == '-' {
        -digits_val(int_body(s))
    } else {
        digits_val(int_body(s))
    }
}

/// The digits of an unsigned literal: everything after an optional `+`.
pub open spec fn uint_body(s: Seq<char>) -> Seq<char> {
    if s.len() > 0 && s[0] == '+' {
        s.subrange(1, s.len() as int)
    } else {
        s
    }
}

/// Whether `s` is an unsigned literal: optional `+`, then one or more digits.
pub open spec fn is_uint_text(s: Seq<char>) -> bool {
    uint_body(s).len() > 0 && all_digits(uint_body(s))
}

/// The mathematical value of an unsigned literal.
pub open spec fn uint_text_val(s: Seq<char>) -> int {
    digits_val(uint_body(s))
}

pub proof fn lemma_digits_val_nonneg(s: Seq<char>)
    requires
        all_digits(s),
    ensures
        digits_val(s) >= 0,
    decreases s.len(),
{
    if s.len() > 0 {
        assert(all_digits(s.drop_last()));
        lemma_digits_val_nonneg(s.drop_last());
    }
}

/// A prefix of a digit string never has a larger value than the whole.
pub proof fn lemma_digits_val_prefix(s: Seq<char>, i: int)
    requires
        all_digits(s),
        0 <= i <= s.len(),
    ensures
        digits_val(s.subrange(0, i)) <= digits_val(s),
    decreases s.len() - i,
{
    if i == s.len() {
        assert(s.subrange(0, i) =~= s);
    } else {
        lemma_digits_val_prefix(s, i + 1);
        let p = s.subrange(0, i + 1);
        assert(p.drop_last() =~= s.subrange(0, i));
        assert(all_digits(s.subrange(0, i)));
        lemma_digits_val_nonneg(s.subrange(0, i));
        assert(digits_val(s.subrange(0, i)) <= digits_val(p));
    }
}

/// Parses a signed 64-bit integer exactly as `str::parse::<i64>` does.
pub fn parse_i64_chars(v: &[char]) -> (r: Option<i64>)
    ensures
        r == (if is_int_text(v@) && i64::MIN <= int_text_val(v@) <= i64::MAX {
            Some(int_text_val(v@) as i64)
        } else {
            None::<i64>
        }),
{
    let n: usize = v.len();
    let neg: bool = n > 0 && v[0] == '-';
    let signed: bool = n > 0 && (v[0] == '-' || v[0] == '+');
    let start: usize = if signed {
        1
    } else {
        0
    };
    let ghost body = int_body(v@);
    proof {
        assert(body =~= v@.subrange(start as int, n as int));
    }
    if start == n {
        return None;
    }
    let mut acc: i64 = 0;
    let mut i: usize = start;
    while i < n
        invariant
            n == v@.len(),
            start <= i <= n,
            start < n,
            start == 1 ==> v@[0] == '-' || v@[0] == '+',
            neg == (v@.len() > 0 && v@[0] == '-'),
            neg ==> start == 1,
            body == int_body(v@),
            body == v@.subrange(start as int, n as int),
            forall|j: int| start <= j < i ==> is_digit(#[trigger] v@[j]),
            !neg ==> acc as int == digits_val(v@.subrange(start as int, i as int)),
            neg ==> acc as int == -digits_val(v@.subrange(start as int, i as int)),
        decreases n - i,
    {
        let u: u32 = v[i] as u32;
        if u < 0x30 || u > 0x39 {
            proof {
                assert(!is_digit(body[i - start]));
            }
            return None;
        }
        let d: i64 = (u - 0x30) as i64;
        let ghost pref = v@.subrange(start as int, i as int);
        let ghost pref1 = v@.subrange(start as int, i + 1 as int);
        proof {
            assert(pref1.drop_last() =~= pref);
            assert(pref1.last() == v@[i as int]);
            assert(is_digit(v@[i as int]));
            assert(forall|j: int| 0 <= j < pref1.len() ==> pref1[j] == v@[start + j]);
            assert(all_digits(pref1));
        }
        proof {
            lemma_digits_val_nonneg(pref);
            assert(digits_val(pref1) == digits_val(pref) * 10 + digit_val(v@[i as int]));
        }
        if !neg {
            let step: Option<i64> = acc.checked_mul(10);
            let next: Option<i64> = match step {
                Some(x) => x.checked_add(d),
                None => None,
            };
            match next {
                Some(y) => {
                    acc = y;
                },
                None => {
                    proof {
                        assert(digits_val(pref1) > i64::MAX);
                        lemma_body_extends_prefix(v@, start as int, i as int);
                    }
                    return None;
                },
            }
        } else {
            let step: Option<i64> = acc.checked_mul(10);
            let next: Option<i64> = match step {
                Some(x) => x.checked_sub(d),
                None => None,
            };
            match next {
                Some(y) => {
                    acc = y;
                },
                None => {
                    proof {
                        assert(digits_val(pref1) > -(i64::MIN as int));
                        lemma_body_extends_prefix(v@, start as int, i as int);
                    }
                    return None;
                },
            }
        }
        i = i + 1;
    }
    proof {
        assert(v@.subrange(start as int, n as int) =~= body);
        assert(all_digits(body));
        if neg {
            assert(int_text_val(v@) == -digits_val(body));
        } else {
            assert(int_text_val(v@) == digits_val(body));
        }
    }
    Some(acc)
}

/// Parses an unsigned 64-bit integer exactly as `str::parse::<u64>` does.
pub fn parse_u64_chars(v: &[char]) -> (r: Option<u64>)
    ensures
        r == (if is_uint_text(v@) && uint_text_val(v@) <= u64::MAX {
            Some(uint_text_val(v@) as u64)
        } else {
            None::<u64>
        }),
{
    let n: usize = v.len();
    let signed: bool = n > 0 && v[0] == '+';
    let start: usize = if signed {
        1
    } else {
        0
    };
    let ghost body = uint_body(v@);
    proof {
        assert(body =~= v@.subrange(start as int, n as int));
    }
    if start == n {
        return None;
    }
    let mut acc: u64 = 0;
    let mut i: usize = start;
    while i < n
        invariant
            n == v@.len(),
            start <= i <= n,
            start < n,
            start == 1 ==> v@[0] == '+',
            body == uint_body(v@),
            body == v@.subrange(start as int, n as int),
            forall|j: int| start <= j < i ==> is_digit(#[trigger] v@[j]),
            acc as int == digits_val(v@.subrange(start as int, i as int)),
        decreases n - i,
    {
        let u: u32 = v[i] as u32;
        if u < 0x30 || u > 0x39 {
            proof {
                assert(!is_digit(body[i - start]));
            }
            return None;
        }
        let d: u64 = (u - 0x30) as u64;
        let ghost pref = v@.subrange(start as int, i as int);
        let ghost pref1 = v@.subrange(start as int, i + 1 as int);
        proof {
            assert(pref1.drop_last() =~= pref);
            assert(pref1.last() == v@[i as int]);
            assert(is_digit(v@[i as int]));
            assert(forall|j: int| 0 <= j < pref1.len() ==> pref1[j] == v@[start + j]);
            assert(all_digits(pref1));
            lemma_digits_val_nonneg(pref);
            assert(digits_val(pref1) == digits_val(pref) * 10 + digit_val(v@[i as int]));
        }
        let step: Option<u64> = acc.checked_mul(10);
        let next: Option<u64> = match step {
            Some(x) => x.checked_add(d),
            None => None,
        };
        match next {
            Some(y) => {
                acc = y;
            },
            None => {
                proof {
                    assert(digits_val(pref1) > u64::MAX);
                    lemma_body_extends_prefix(v@, start as int, i as int);
                }
                return None;
            },
        }
        i = i + 1;
    }
    proof {
        assert(v@.subrange(start as int, n as int) =~= body);
        assert(all_digits(body));
    }
    Some(acc)
}

/// Parses a `usize` exactly as `str::parse::<usize>` does.
pub fn parse_usize_chars(v: &[char]) -> (r: Option<usize>)
    ensures
        r == (if is_uint_text(v@) && uint_text_val(v@) <= usize::MAX {
            Some(uint_text_val(v@) as usize)
        } else {
            None::<usize>
        }),
{
    match parse_u64_chars(v) {
        Some(x) => {
            proof {
                lemma_digits_val_nonneg(uint_body(v@));
            }
            if x <= usize::MAX as u64 {
                Some(x as usize)
            } else {
                None
            }
        },
        None => {
            proof {
                assert(usize::MAX <= u64::MAX);
            }
            None
        },
    }
}

/// When the tail of `s` from `start` on is all digits, its value dominates
/// the value of the prefix that ends just after position `i`.
proof fn lemma_body_extends_prefix(s: Seq<char>, start: int, i: int)
    requires
        0 <= start <= i < s.len(),
    ensures
        all_digits(s.subrange(start, s.len() as int)) ==> digits_val(
            s.subrange(start, s.len() as int),
        ) >= digits_val(s.subrange(start, i + 1)),
{
    let body = s.subrange(start, s.len() as int);
    if all_digits(body) {
        lemma_digits_val_prefix(body, i + 1 - start);
        assert(body.subrange(0, i + 1 - start) =~= s.subrange(start, i + 1));
    }
}

} // verus!
