//! Decimal text: formatting unsigned and signed integers as decimal
//! character sequences, and reading them back.
//!
//! These conversions underlie the wire codec (integer frames, bulk lengths),
//! the INCR command and stream-id parsing.

use vstd::prelude::*;

verus! {

/// A decimal digit character.
pub open spec fn is_digit(c: char) -> bool {
    48 <= c as u32 <= 57
}

/// Numeric value of a digit character.
pub open spec fn digit_val(c: char) -> int {
    c as u32 - 48
}

/// The digit character for a value in 0..10.
pub open spec fn digit_char(d: int) -> char {
    ((48 + d) as u8) as char
}

/// Every character of `s` is a decimal digit.
pub open spec fn all_digits(s: Seq<char>) -> bool {
    forall|i: int| 0 <= i < s.len() ==> is_digit(#[trigger] s[i])
}

/// The decimal representation of `n`, most significant digit first,
/// with no sign and no leading zeros (except for `n == 0` itself).
pub open spec fn spec_udigits(n: nat) -> Seq<char>
    decreases n,
{
    if n < 10 {
        seq![digit_char(n as int)]
    } else {
        spec_udigits(n / 10).push(digit_char((n % 10) as int))
    }
}

/// The decimal representation of a signed integer: a minus sign for
/// negative values, then the digits of the magnitude.
pub open spec fn spec_int_chars(i: int) -> Seq<char> {
    if i < 0 {
        seq!['-'] + spec_udigits((-i) as nat)
    } else {
        spec_udigits(i as nat)
    }
}

/// The value of a digit sequence read as a decimal number.
pub open spec fn digits_val(s: Seq<char>) -> int
    decreases s.len(),
{
    if s.len() == 0 {
        0
    } else {
        10 * digits_val(s.drop_last()) + digit_val(s.last())
    }
}

/// A well-formed integer body: an optional single sign, then at least
/// one digit, and nothing else.
pub open spec fn valid_int_body(s: Seq<char>) -> bool {
    if s.len() == 0 {
        false
    } else if s[0] == '-' || s[0] == '+' {
        s.len() >= 2 && all_digits(s.subrange(1, s.len() as int))
    } else {
        all_digits(s)
    }
}

/// The signed value of a well-formed integer body.
pub open spec fn int_body_val(s: Seq<char>) -> int {
    if s.len() > 0 && s[0] == '-' {
        -digits_val(s.subrange(1, s.len() as int))
    } else if s.len() > 0 && s[0] == '+' {
        digits_val(s.subrange(1, s.len() as int))
    } else {
        digits_val(s)
    }
}

/// The digits of `n` are digits, there is at least one, and reading them
/// back yields `n`.
pub proof fn lemma_udigits_val(n: nat)
    ensures
        spec_udigits(n).len() >= 1,
        all_digits(spec_udigits(n)),
        digits_val(spec_udigits(n)) == n,
    decreases n,
{
    if n < 10 {
        let s = spec_udigits(n);
        assert(s.len() == 1);
        assert(s.last() == digit_char(n as int));
        assert(s.drop_last().len() == 0);
        assert(digits_val(s) == 10 * digits_val(s.drop_last()) + digit_val(s.last()));
        assert(digit_val(digit_char(n as int)) == n);
    } else {
        lemma_udigits_val(n / 10);
        let p = spec_udigits(n / 10);
        let s = spec_udigits(n);
        assert(s == p.push(digit_char((n % 10) as int)));
        assert(s.drop_last() == p);
        assert(s.last() == digit_char((n % 10) as int));
        assert(digit_val(s.last()) == n % 10);
        assert(digits_val(s) == 10 * (n / 10) + n % 10);
        assert(forall|i: int| 0 <= i < s.len() ==> is_digit(#[trigger] s[i])) by {
            assert(forall|i: int| 0 <= i < p.len() ==> is_digit(#[trigger] p[i]));
        }
    }
}

/// The value of a digit string is never negative.
pub proof fn lemma_digits_val_nonneg(s: Seq<char>)
    requires
        all_digits(s),
    ensures
        digits_val(s) >= 0,
    decreases s.len(),
{
    if s.len() > 0 {
        assert(all_digits(s.drop_last())) by {
            assert(forall|i: int| 0 <= i < s.len() - 1 ==> is_digit(#[trigger] s[i]));
        }
        lemma_digits_val_nonneg(s.drop_last());
        assert(digit_val(s.last()) >= 0);
    }
}

/// Formats `n` in decimal.
pub fn u64_to_string(n: u64) -> (r: String)
    ensures
        r@ == spec_udigits(n as nat),
    decreases n,
{
    if n < 10 {
        let mut s = String::new();
        let c: char = ((48 + n) as u8) as char;
        push_char(&mut s, c);
        assert(s@ == seq![digit_char(n as int)]);
        s
    } else {
        let mut s = u64_to_string(n / 10);
        let d = n % 10;
        let c: char = ((48 + d) as u8) as char;
        push_char(&mut s, c);
        assert(s@ == spec_udigits((n / 10) as nat).push(digit_char((n % 10) as int)));
        s
    }
}

/// Formats a signed integer in decimal, with a leading minus sign for
/// negative values.
pub fn i64_to_string(i: i64) -> (r: String)
    ensures
        r@ == spec_int_chars(i as int),
{
    if i >= 0 {
        u64_to_string(i as u64)
    } else {
        let mag_wide: i128 = -(i as i128);
        assert(0 < mag_wide <= u64::MAX as i128);
        let mag: u64 = mag_wide as u64;
        assert(mag == (-(i as int)) as nat);
        let mut s = String::new();
        push_char(&mut s, '-');
        let ds = u64_to_string(mag);
        let r = s.concat(ds.as_str());
        assert(r@ == seq!['-'] + spec_udigits((-(i as int)) as nat));
        r
    }
}

/// Relies on String::push: appends exactly the given character.
#[verifier::external_body]
pub fn push_char(s: &mut String, c: char)
    ensures
        final(s)@ == old(s)@.push(c),
{
    s.push(c);
}

/// Reads the characters of `s` in `[from, to)` as an unsigned decimal
/// number. Returns the value exactly when the range is a non-empty,
/// all-digit string whose value fits in a `u64`.
pub fn parse_u64_digits(s: &str, from: usize, to: usize) -> (r: Option<u64>)
    requires
        from <= to <= s@.len(),
    ensures
        ({
            let body = s@.subrange(from as int, to as int);
            match r {
                Some(v) => all_digits(body) && body.len() > 0 && digits_val(body) == v,
                None => !(all_digits(body) && body.len() > 0 && digits_val(body)
                    <= u64::MAX as int),
            }
        }),
{
    let ghost body = s@.subrange(from as int, to as int);
    if from == to {
        return None;
    }
    let mut acc: u64 = 0;
    let mut too_big: bool = false;
    let mut i: usize = from;
    while i < to
        invariant
            from <= i <= to <= s@.len(),
            body == s@.subrange(from as int, to as int),
            all_digits(body.subrange(0, i - from)),
            !too_big ==> acc == digits_val(body.subrange(0, i - from)),
            too_big ==> digits_val(body.subrange(0, i - from)) > u64::MAX as int,
            too_big ==> all_digits(body.subrange(0, i - from)),
        decreases to - i,
    {
        let c = s.get_char(i);
        assert(c == body[i - from]);
        let cu = c as u32;
        if cu < 48 || cu > 57 {
            assert(!is_digit(body[i - from]));
            assert(!all_digits(body));
            return None;
        }
        let d: u64 = (cu - 48) as u64;
        let ghost pre = body.subrange(0, i - from);
        let ghost cur = body.subrange(0, i + 1 - from);
        proof {
            assert(cur.drop_last() == pre);
            assert(cur.last() == body[i - from]);
            assert(digits_val(cur) == 10 * digits_val(pre) + digit_val(body[i - from]));
            assert(digit_val(body[i - from]) == d);
        }
        if too_big {
            proof {
                lemma_digits_val_nonneg(pre);
                assert(digits_val(cur) > u64::MAX as int);
            }
        } else {
            if acc > (u64::MAX - d) / 10 {
                proof {
                    assert(10 * (acc as int) + d > u64::MAX as int) by (nonlinear_arith)
                        requires
                            acc as int > (u64::MAX as int - d) / 10,
                            0 <= d <= 9,
                    ;
                }
                too_big = true;
            } else {
                proof {
                    assert(10 * (acc as int) + d <= u64::MAX as int) by (nonlinear_arith)
                        requires
                            acc as int <= (u64::MAX as int - d) / 10,
                            0 <= d <= 9,
                    ;
                }
                acc = acc * 10 + d;
            }
        }
        i += 1;
    }
    assert(body.subrange(0, to - from) == body);
    if too_big {
        return None;
    }
    Some(acc)
}

/// Reads the characters of `s` in `[from, to)` as a signed decimal
/// number with an optional leading sign. Returns the value exactly when
/// the range is a well-formed integer body whose value fits in an `i64`.
pub fn parse_i64_body(s: &str, from: usize, to: usize) -> (r: Option<i64>)
    requires
        from <= to <= s@.len(),
    ensures
        ({
            let body = s@.subrange(from as int, to as int);
            match r {
                Some(v) => valid_int_body(body) && int_body_val(body) == v,
                None => !(valid_int_body(body) && i64::MIN <= int_body_val(body)
                    <= i64::MAX),
            }
        }),
{
    let ghost body = s@.subrange(from as int, to as int);
    if from == to {
        return None;
    }
    let first = s.get_char(from);
    assert(first == body[0]);
    let (neg, dstart): (bool, usize) = if first == '-' {
        (true, from + 1)
    } else if first == '+' {
        (false, from + 1)
    } else {
        (false, from)
    };
    let ghost dig = s@.subrange(dstart as int, to as int);
    proof {
        if dstart > from {
            assert(dig == body.subrange(1, body.len() as int));
        } else {
            assert(dig == body);
        }
    }
    match parse_u64_digits(s, dstart, to) {
        None => {
            proof {
                if valid_int_body(body) {
                    assert(all_digits(dig) && dig.len() > 0);
                    if digits_val(dig) <= u64::MAX as int {
                        assert(false);
                    } else {
                        lemma_digits_val_nonneg(dig);
                        if body[0] == '-' {
                            assert(int_body_val(body) == -digits_val(dig));
                            assert(int_body_val(body) < i64::MIN);
                        } else {
                            assert(int_body_val(body) > i64::MAX);
                        }
                    }
                }
            }
            None
        },
        Some(mag) => {
            proof {
                if body[0] == '-' {
                    assert(int_body_val(body) == -digits_val(dig));
                } else if body[0] == '+' {
                    assert(int_body_val(body) == digits_val(dig));
                } else {
                    assert(int_body_val(body) == digits_val(dig));
                }
            }
            if neg {
                if mag <= 9223372036854775807u64 {
                    Some(-(mag as i64))
                } else if mag == 9223372036854775808u64 {
                    Some(i64::MIN)
                } else {
                    None
                }
            } else {
                if mag <= 9223372036854775807u64 {
                    Some(mag as i64)
                } else {
                    None
                }
            }
        },
    }
}

/// Reads a whole string as an unsigned decimal number of digits only.
pub fn parse_u64_str(s: &str) -> (r: Option<u64>)
    ensures
        match r {
            Some(v) => all_digits(s@) && s@.len() > 0 && digits_val(s@) == v,
            None => !(all_digits(s@) && s@.len() > 0 && digits_val(s@) <= u64::MAX as int),
        },
{
    let n = s.unicode_len();
    let r = parse_u64_digits(s, 0, n);
    assert(s@.subrange(0, s@.len() as int) == s@);
    r
}

/// Reads a whole string as a signed decimal number.
pub fn parse_i64_str(s: &str) -> (r: Option<i64>)
    ensures
        match r {
            Some(v) => valid_int_body(s@) && int_body_val(s@) == v,
            None => !(valid_int_body(s@) && i64::MIN <= int_body_val(s@) <= i64::MAX),
        },
{
    let n = s.unicode_len();
    let r = parse_i64_body(s, 0, n);
    assert(s@.subrange(0, s@.len() as int) == s@);
    r
}

} // verus!
