//! Decimal integer parsing: a specification of the standard textual
//! rules (optional sign, decimal digits, range-checked value) and
//! executable parsers proved against it.

use vstd::prelude::*;

verus! {

/// Why a numeric token was rejected, mirroring the distinctions that
/// standard integer parsing draws.
#[derive(Clone, Copy, Debug, PartialEq, Eq, Structural)]
pub enum NumError {
    /// The token was empty.
    Empty,
    /// A character was not a decimal digit (or a sign stood alone).
    InvalidDigit,
    /// The value exceeds the largest value of the target kind.
    PosOverflow,
    /// The value falls below the smallest value of the target kind.
    NegOverflow,
}

pub open spec fn is_digit(c: char) -> bool {
    '0' <= c && c <= '9'
}

/// Numeric value of a decimal digit character.
pub open spec fn digit_val(c: char) -> int {
    c as u32 - 48
}

/// Scan a digit run left to right, accumulating a non-negative value,
/// failing on the first non-digit or on the first digit that pushes the
/// value above `max`.
pub open spec fn scan_pos(s: Seq<char>, acc: int, max: int) -> Result<int, NumError>
    decreases s.len(),
{
    if s.len() == 0 {
        Ok(acc)
    } else if !is_digit(s[0]) {
        Err(NumError::InvalidDigit)
    } else if acc * 10 + digit_val(s[0]) > max {
        Err(NumError::PosOverflow)
    } else {
        scan_pos(s.drop_first(), acc * 10 + digit_val(s[0]), max)
    }
}

/// The negative counterpart of `scan_pos`: the accumulator falls, and
/// passing below `min` is an error.
pub open spec fn scan_neg(s: Seq<char>, acc: int, min: int) -> Result<int, NumError>
    decreases s.len(),
{
    if s.len() == 0 {
        Ok(acc)
    } else if !is_digit(s[0]) {
        Err(NumError::InvalidDigit)
    } else if acc * 10 - digit_val(s[0]) < min {
        Err(NumError::NegOverflow)
    } else {
        scan_neg(s.drop_first(), acc * 10 - digit_val(s[0]), min)
    }
}

/// The value of `s` as a decimal integer in `[min, max]`, or the error
/// standard parsing would report.  A leading `+` is always allowed; a
/// leading `-` only when the target kind is signed (`min < 0`); a sign
/// standing alone is an invalid digit.
pub open spec fn parse_int(s: Seq<char>, min: int, max: int) -> Result<int, NumError> {
    if s.len() == 0 {
        Err(NumError::Empty)
    } else if s[0] == '+' {
        if s.len() == 1 {
            Err(NumError::InvalidDigit)
        } else {
            scan_pos(s.subrange(1, s.len() as int), 0, max)
        }
    } else if s[0] == '-' && min < 0 {
        if s.len() == 1 {
            Err(NumError::InvalidDigit)
        } else {
            scan_neg(s.subrange(1, s.len() as int), 0, min)
        }
    } else {
        scan_pos(s, 0, max)
    }
}

/// The wording that accompanies each numeric rejection.
pub open spec fn num_msg(e: NumError) -> Seq<char> {
    match e {
        NumError::Empty => "cannot parse integer from empty string"@,
        NumError::InvalidDigit => "invalid digit found in string"@,
        NumError::PosOverflow => "number too large to fit in target type"@,
        NumError::NegOverflow => "number too small to fit in target type"@,
    }
}

/// The error wording as a value.
pub fn num_message(e: NumError) -> (m: String)
    ensures
        m@ == num_msg(e),
{
    match e {
        NumError::Empty => String::from_str("cannot parse integer from empty string"),
        NumError::InvalidDigit => String::from_str("invalid digit found in string"),
        NumError::PosOverflow => String::from_str("number too large to fit in target type"),
        NumError::NegOverflow => String::from_str("number too small to fit in target type"),
    }
}

/// Parse `s` as an unsigned decimal integer no greater than `max`.
pub fn parse_unsigned(s: &str, max: u128) -> (r: Result<u128, NumError>)
    ensures
        match r {
            Ok(v) => v <= max && parse_int(s@, 0, max as int) == Ok::<int, NumError>(v as int),
            Err(e) => parse_int(s@, 0, max as int) == Err::<int, NumError>(e),
        },
{
    let n = s.unicode_len();
    if n == 0 {
        return Err(NumError::Empty);
    }
    let c0 = s.get_char(0);
    let start: usize = if c0 == '+' {
        1
    } else {
        0
    };
    if start == 1 && n == 1 {
        return Err(NumError::InvalidDigit);
    }
    proof {
        if start == 0 {
            assert(s@.subrange(0, n as int) =~= s@);
        }
    }
    let mut acc: u128 = 0;
    let mut i: usize = start;
    while i < n
        invariant
            start <= i <= n,
            n == s@.len(),
            acc <= max,
            parse_int(s@, 0, max as int) == scan_pos(
                s@.subrange(i as int, n as int),
                acc as int,
                max as int,
            ),
        decreases n - i,
    {
        let ghost rest = s@.subrange(i as int, n as int);
        let c = s.get_char(i);
        proof {
            assert(rest[0] == c);
        }
        if !('0' <= c && c <= '9') {
            return Err(NumError::InvalidDigit);
        }
        let d: u32 = c as u32 - 48;
        proof {
            assert(d == digit_val(c));
        }
        let mut next: Option<u128> = None;
        match acc.checked_mul(10) {
            Some(x) => {
                match x.checked_add(d as u128) {
                    Some(y) => {
                        next = Some(y);
                    },
                    None => {
                    },
                }
            },
            None => {
            },
        }
        match next {
            Some(y) => {
                if y <= max {
                    acc = y;
                    proof {
                        assert(rest.drop_first() =~= s@.subrange(i + 1, n as int));
                    }
                    i += 1;
                } else {
                    return Err(NumError::PosOverflow);
                }
            },
            None => {
                return Err(NumError::PosOverflow);
            },
        }
    }
    proof {
        assert(s@.subrange(n as int, n as int) =~= Seq::<char>::empty());
    }
    Ok(acc)
}

/// Parse `s` as a signed decimal integer in `[min, max]`.
pub fn parse_signed(s: &str, min: i128, max: i128) -> (r: Result<i128, NumError>)
    requires
        min < 0,
        max >= 0,
    ensures
        match r {
            Ok(v) => min <= v <= max && parse_int(s@, min as int, max as int) == Ok::<
                int,
                NumError,
            >(v as int),
            Err(e) => parse_int(s@, min as int, max as int) == Err::<int, NumError>(e),
        },
{
    let n = s.unicode_len();
    if n == 0 {
        return Err(NumError::Empty);
    }
    let c0 = s.get_char(0);
    let negative = c0 == '-';
    let start: usize = if c0 == '+' || c0 == '-' {
        1
    } else {
        0
    };
    if start == 1 && n == 1 {
        return Err(NumError::InvalidDigit);
    }
    proof {
        if start == 0 {
            assert(s@.subrange(0, n as int) =~= s@);
        }
    }
    if negative {
        let mut acc: i128 = 0;
        let mut i: usize = start;
        while i < n
            invariant
                start <= i <= n,
                n == s@.len(),
                min <= acc <= 0,
                parse_int(s@, min as int, max as int) == scan_neg(
                    s@.subrange(i as int, n as int),
                    acc as int,
                    min as int,
                ),
            decreases n - i,
        {
            let ghost rest = s@.subrange(i as int, n as int);
            let c = s.get_char(i);
            proof {
                assert(rest[0] == c);
            }
            if !('0' <= c && c <= '9') {
                return Err(NumError::InvalidDigit);
            }
            let d: u32 = c as u32 - 48;
            proof {
                assert(d == digit_val(c));
            }
            let mut next: Option<i128> = None;
            match acc.checked_mul(10) {
                Some(x) => {
                    match x.checked_sub(d as i128) {
                        Some(y) => {
                            next = Some(y);
                        },
                        None => {
                        },
                    }
                },
                None => {
                },
            }
            match next {
                Some(y) => {
                    if y >= min {
                        acc = y;
                        proof {
                            assert(rest.drop_first() =~= s@.subrange(i + 1, n as int));
                        }
                        i += 1;
                    } else {
                        return Err(NumError::NegOverflow);
                    }
                },
                None => {
                    return Err(NumError::NegOverflow);
                },
            }
        }
        proof {
            assert(s@.subrange(n as int, n as int) =~= Seq::<char>::empty());
        }
        Ok(acc)
    } else {
        let mut acc: i128 = 0;
        let mut i: usize = start;
        while i < n
            invariant
                start <= i <= n,
                n == s@.len(),
                0 <= acc <= max,
                parse_int(s@, min as int, max as int) == scan_pos(
                    s@.subrange(i as int, n as int),
                    acc as int,
                    max as int,
                ),
            decreases n - i,
        {
            let ghost rest = s@.subrange(i as int, n as int);
            let c = s.get_char(i);
            proof {
                assert(rest[0] == c);
            }
            if !('0' <= c && c <= '9') {
                return Err(NumError::InvalidDigit);
            }
            let d: u32 = c as u32 - 48;
            proof {
                assert(d == digit_val(c));
            }
            let mut next: Option<i128> = None;
            match acc.checked_mul(10) {
                Some(x) => {
                    match x.checked_add(d as i128) {
                        Some(y) => {
                            next = Some(y);
                        },
                        None => {
                        },
                    }
                },
                None => {
                },
            }
            match next {
                Some(y) => {
                    if y <= max {
                        acc = y;
                        proof {
                            assert(rest.drop_first() =~= s@.subrange(i + 1, n as int));
                        }
                        i += 1;
                    } else {
                        return Err(NumError::PosOverflow);
                    }
                },
                None => {
                    return Err(NumError::PosOverflow);
                },
            }
        }
        proof {
            assert(s@.subrange(n as int, n as int) =~= Seq::<char>::empty());
        }
        Ok(acc)
    }
}

/// Case-insensitive match of one character against a lower/upper pair.
pub open spec fn ci(c: char, lo: char, up: char) -> bool {
    c == lo || c == up
}

/// `inf`, in any mix of case.
pub open spec fn is_inf_text(s: Seq<char>) -> bool {
    s.len() == 3 && ci(s[0], 'i', 'I') && ci(s[1], 'n', 'N') && ci(s[2], 'f', 'F')
}

/// `infinity`, in any mix of case.
pub open spec fn is_infinity_text(s: Seq<char>) -> bool {
    s.len() == 8 && ci(s[0], 'i', 'I') && ci(s[1], 'n', 'N') && ci(s[2], 'f', 'F') && ci(
        s[3],
        'i',
        'I',
    ) && ci(s[4], 'n', 'N') && ci(s[5], 'i', 'I') && ci(s[6], 't', 'T') && ci(s[7], 'y', 'Y')
}

/// `nan`, in any mix of case.
pub open spec fn is_nan_text(s: Seq<char>) -> bool {
    s.len() == 3 && ci(s[0], 'n', 'N') && ci(s[1], 'a', 'A') && ci(s[2], 'n', 'N')
}

/// A mantissa: one or more characters, all digits or a dot, at most one
/// dot, and at least one digit.
pub open spec fn is_mantissa(s: Seq<char>) -> bool {
    &&& s.len() > 0
    &&& forall|i: int| 0 <= i < s.len() ==> is_digit(s[i]) || s[i] == '.'
    &&& forall|i: int, j: int| 0 <= i < j < s.len() ==> !(s[i] == '.' && s[j] == '.')
    &&& exists|i: int| 0 <= i < s.len() && is_digit(s[i])
}

/// Where the digits of an exponent part begin: after the marker, and
/// after the sign if one follows it.
pub open spec fn exp_digits_from(s: Seq<char>) -> int {
    if s.len() >= 2 && (s[1] == '+' || s[1] == '-') {
        2
    } else {
        1
    }
}

/// An exponent part, marker included: `e` or `E`, an optional sign, then
/// one or more digits.
pub open spec fn is_exp_tail(s: Seq<char>) -> bool {
    s.len() > exp_digits_from(s) && forall|i: int|
        exp_digits_from(s) <= i < s.len() ==> is_digit(s[i])
}

/// Position of the first exponent marker (`e` or `E`), or the length.
pub open spec fn first_exp_marker(s: Seq<char>) -> int {
    if crate::text::first_at(s, 'e') <= crate::text::first_at(s, 'E') {
        crate::text::first_at(s, 'e') as int
    } else {
        crate::text::first_at(s, 'E') as int
    }
}

/// A decimal number: a mantissa, optionally followed by an exponent part
/// at the first exponent marker.
pub open spec fn is_number_text(s: Seq<char>) -> bool {
    let k = first_exp_marker(s);
    is_mantissa(s.subrange(0, k)) && (k == s.len() || is_exp_tail(s.subrange(k, s.len() as int)))
}

/// A valid textual real-number literal: an optional sign, then `inf`,
/// `infinity` or `nan` in any case, or a decimal number with an optional
/// exponent.  Parsing such a literal as a binary floating-point value
/// never fails, and nothing else parses.
pub open spec fn is_float_text(s: Seq<char>) -> bool {
    s.len() > 0 && if s[0] == '+' || s[0] == '-' {
        is_float_body(s.drop_first())
    } else {
        is_float_body(s)
    }
}

/// The part of a real-number literal after its optional sign.
pub open spec fn is_float_body(s: Seq<char>) -> bool {
    is_inf_text(s) || is_infinity_text(s) || is_nan_text(s) || is_number_text(s)
}

/// First position in `[lo, hi)` holding an exponent marker, or `hi`.
fn find_exp_marker(s: &str, lo: usize, hi: usize) -> (k: usize)
    requires
        lo <= hi <= s@.len(),
    ensures
        lo <= k <= hi,
        forall|i: int| lo <= i < k ==> s@[i] != 'e' && s@[i] != 'E',
        k < hi ==> (s@[k as int] == 'e' || s@[k as int] == 'E'),
{
    let mut k: usize = lo;
    loop
        invariant
            lo <= k <= hi <= s@.len(),
            forall|i: int| lo <= i < k ==> s@[i] != 'e' && s@[i] != 'E',
        decreases hi - k,
    {
        if k >= hi {
            return k;
        }
        let c = s.get_char(k);
        if c == 'e' || c == 'E' {
            return k;
        }
        k += 1;
    }
}

/// Whether `s[lo..hi)` is non-empty and all decimal digits.
fn digit_run(s: &str, lo: usize, hi: usize) -> (b: bool)
    requires
        lo <= hi <= s@.len(),
    ensures
        b == (lo < hi && forall|i: int| lo <= i < hi ==> is_digit(s@[i])),
{
    if lo >= hi {
        return false;
    }
    let mut i: usize = lo;
    while i < hi
        invariant
            lo <= i <= hi <= s@.len(),
            forall|j: int| lo <= j < i ==> is_digit(s@[j]),
        decreases hi - i,
    {
        let c = s.get_char(i);
        if !('0' <= c && c <= '9') {
            return false;
        }
        i += 1;
    }
    true
}

/// Whether `s[lo..hi)` is one of the special words `inf`, `infinity`
/// or `nan`, in any mix of case.
fn special_word(s: &str, lo: usize, hi: usize) -> (b: bool)
    requires
        lo <= hi <= s@.len(),
    ensures
        b == (is_inf_text(s@.subrange(lo as int, hi as int)) || is_infinity_text(
            s@.subrange(lo as int, hi as int),
        ) || is_nan_text(s@.subrange(lo as int, hi as int))),
{
    let ghost body = s@.subrange(lo as int, hi as int);
    proof {
        assert(forall|i: int| 0 <= i < body.len() ==> body[i] == s@[lo + i]);
    }
    if hi - lo == 3 {
        let a = s.get_char(lo);
        let b = s.get_char(lo + 1);
        let c = s.get_char(lo + 2);
        ((a == 'i' || a == 'I') && (b == 'n' || b == 'N') && (c == 'f' || c == 'F')) || ((a == 'n'
            || a == 'N') && (b == 'a' || b == 'A') && (c == 'n' || c == 'N'))
    } else if hi - lo == 8 {
        let a = s.get_char(lo);
        let b = s.get_char(lo + 1);
        let c = s.get_char(lo + 2);
        let d = s.get_char(lo + 3);
        let e = s.get_char(lo + 4);
        let f = s.get_char(lo + 5);
        let g = s.get_char(lo + 6);
        let h = s.get_char(lo + 7);
        (a == 'i' || a == 'I') && (b == 'n' || b == 'N') && (c == 'f' || c == 'F') && (d == 'i' || d
            == 'I') && (e == 'n' || e == 'N') && (f == 'i' || f == 'I') && (g == 't' || g == 'T')
            && (h == 'y' || h == 'Y')
    } else {
        false
    }
}

/// Whether `s[lo..hi)` is a mantissa: digits with at most one dot among
/// them, and at least one digit.
fn mantissa_run(s: &str, lo: usize, hi: usize) -> (b: bool)
    requires
        lo <= hi <= s@.len(),
    ensures
        b == is_mantissa(s@.subrange(lo as int, hi as int)),
{
    let ghost mant = s@.subrange(lo as int, hi as int);
    proof {
        assert(forall|i: int| 0 <= i < mant.len() ==> mant[i] == s@[lo + i]);
    }
    let mut seen_digit = false;
    let mut dot: Option<usize> = None;
    let mut i: usize = lo;
    while i < hi
        invariant
            lo <= i <= hi <= s@.len(),
            mant == s@.subrange(lo as int, hi as int),
            forall|j: int| lo <= j < i ==> is_digit(s@[j]) || s@[j] == '.',
            seen_digit == exists|j: int| lo <= j < i && is_digit(s@[j]),
            match dot {
                Option::None => forall|j: int| lo <= j < i ==> s@[j] != '.',
                Option::Some(p) => lo <= p < i && s@[p as int] == '.' && forall|j: int|
                    lo <= j < i && s@[j] == '.' ==> j == p,
            },
        decreases hi - i,
    {
        let c = s.get_char(i);
        if '0' <= c && c <= '9' {
            seen_digit = true;
        } else if c == '.' {
            match dot {
                Option::None => {
                    dot = Some(i);
                },
                Option::Some(p) => {
                    proof {
                        assert(mant[p - lo] == '.' && mant[i - lo] == '.');
                    }
                    return false;
                },
            }
        } else {
            proof {
                assert(mant[i - lo] == s@[i as int]);
            }
            return false;
        }
        i += 1;
    }
    proof {
        assert forall|j: int| 0 <= j < mant.len() implies is_digit(mant[j]) || mant[j] == '.' by {
            assert(mant[j] == s@[lo + j]);
        }
        assert forall|p: int, q: int| 0 <= p < q < mant.len() implies !(mant[p] == '.' && mant[q]
            == '.') by {
            assert(mant[p] == s@[lo + p] && mant[q] == s@[lo + q]);
        }
        if seen_digit {
            let w = choose|j: int| lo <= j < hi && is_digit(s@[j]);
            assert(mant[w - lo] == s@[w]);
        } else {
            assert forall|j: int| 0 <= j < mant.len() implies !is_digit(mant[j]) by {
                assert(mant[j] == s@[lo + j]);
            }
        }
    }
    seen_digit && lo < hi
}

/// Whether `s[k..hi)` is an exponent part: a marker character, an
/// optional sign, then one or more digits.
fn exp_tail_run(s: &str, k: usize, hi: usize) -> (b: bool)
    requires
        k < hi <= s@.len(),
    ensures
        b == is_exp_tail(s@.subrange(k as int, hi as int)),
{
    let ghost tail = s@.subrange(k as int, hi as int);
    proof {
        assert(forall|i: int| 0 <= i < tail.len() ==> tail[i] == s@[k + i]);
    }
    if k + 1 == hi {
        return false;
    }
    let c1 = s.get_char(k + 1);
    let dlo: usize = if c1 == '+' || c1 == '-' {
        k + 2
    } else {
        k + 1
    };
    let ok = digit_run(s, dlo, hi);
    proof {
        assert(exp_digits_from(tail) == dlo - k);
        if ok {
            assert forall|i2: int| exp_digits_from(tail) <= i2 < tail.len() implies is_digit(
                tail[i2],
            ) by {
                assert(tail[i2] == s@[k + i2]);
            }
            assert(is_exp_tail(tail));
        } else {
            if dlo < hi {
                assert(exists|j: int| dlo <= j < hi && !is_digit(s@[j]));
                let w = choose|j: int| dlo <= j < hi && !is_digit(s@[j]);
                assert(tail[w - k] == s@[w]);
                assert(!is_digit(tail[w - k]));
                assert(!is_exp_tail(tail));
            } else {
                assert(!is_exp_tail(tail));
            }
        }
    }
    ok
}

/// Whether `s` is a valid textual real-number literal.
pub fn float_text(s: &str) -> (b: bool)
    ensures
        b == is_float_text(s@),
{
    let n = s.unicode_len();
    if n == 0 {
        return false;
    }
    let c0 = s.get_char(0);
    let st: usize = if c0 == '+' || c0 == '-' {
        1
    } else {
        0
    };
    let ghost body = s@.subrange(st as int, n as int);
    proof {
        if st == 0 {
            assert(body =~= s@);
        } else {
            assert(body =~= s@.drop_first());
        }
    }
    if special_word(s, st, n) {
        return true;
    }
    // not one of the special words: only a decimal number can remain
    let k = find_exp_marker(s, st, n);
    proof {
        assert(forall|i: int| 0 <= i < body.len() ==> body[i] == s@[st + i]);
        crate::text::lemma_first_at(body, 'e');
        crate::text::lemma_first_at(body, 'E');
        if k < n {
            if s@[k as int] == 'e' {
                crate::text::lemma_first_at_is(body, 'e', k - st);
            } else {
                crate::text::lemma_first_at_is(body, 'E', k - st);
            }
        } else {
            crate::text::lemma_first_at_is(body, 'e', body.len() as int);
            crate::text::lemma_first_at_is(body, 'E', body.len() as int);
        }
        assert(first_exp_marker(body) == k - st);
        assert(body.subrange(0, k - st) =~= s@.subrange(st as int, k as int));
    }
    if !mantissa_run(s, st, k) {
        return false;
    }
    if k == n {
        return true;
    }
    proof {
        assert(body.subrange(k - st, body.len() as int) =~= s@.subrange(k as int, n as int));
    }
    exp_tail_run(s, k, n)
}

} // verus!
