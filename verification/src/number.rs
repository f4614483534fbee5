//! The notation of numbers in mesh text: decimal reals and vertex indices.
use vstd::prelude::*;

verus! {

pub const PLUS: u8 = 43;

pub const MINUS: u8 = 45;

pub const DOT: u8 = 46;

/// Whether `b` is one of the digits `0` to `9`.
pub open spec fn is_digit(b: u8) -> bool {
    48 <= b <= 57
}

/// `b` with a capital letter made small.
pub open spec fn lower(b: u8) -> u8 {
    if 65 <= b <= 90 {
        (b + 32) as u8
    } else {
        b
    }
}

/// Where the run of digits that starts at place `i` of `s` ends: the place
/// of the first byte from `i` on that is no digit, or the length of `s`.
pub open spec fn digits_end(s: Seq<u8>, i: int) -> int
    decreases s.len() - i,
{
    if 0 <= i < s.len() && is_digit(s[i]) {
        digits_end(s, i + 1)
    } else {
        i
    }
}

/// The place after a sign at place `i`, or `i` where no sign stands there.
pub open spec fn sign_end(s: Seq<u8>, i: int) -> int {
    if 0 <= i < s.len() && (s[i] == PLUS || s[i] == MINUS) {
        i + 1
    } else {
        i
    }
}

/// Whether `s` from place `i` to its end spells `inf`, `infinity` or `nan`,
/// in capital or small letters.
pub open spec fn is_special(s: Seq<u8>, i: int) -> bool {
    ||| {
        &&& s.len() - i == 3
        &&& lower(s[i]) == 105 && lower(s[i + 1]) == 110 && lower(s[i + 2]) == 102
    }
    ||| {
        &&& s.len() - i == 8
        &&& lower(s[i]) == 105 && lower(s[i + 1]) == 110 && lower(s[i + 2]) == 102
        &&& lower(s[i + 3]) == 105 && lower(s[i + 4]) == 110 && lower(s[i + 5]) == 105
        &&& lower(s[i + 6]) == 116 && lower(s[i + 7]) == 121
    }
    ||| {
        &&& s.len() - i == 3
        &&& lower(s[i]) == 110 && lower(s[i + 1]) == 97 && lower(s[i + 2]) == 110
    }
}

/// Whether `s` from place `i` to its end is an exponent: the letter `e`, an
/// optional sign, and one digit or more.
pub open spec fn is_exponent(s: Seq<u8>, i: int) -> bool {
    &&& 0 <= i < s.len()
    &&& lower(s[i]) == 101
    &&& sign_end(s, i + 1) < s.len()
    &&& digits_end(s, sign_end(s, i + 1)) == s.len()
}

/// Whether `s` from place `i` to its end is a decimal number: digits with
/// at most one point among them, at least one digit in all, and an optional
/// exponent.
pub open spec fn is_decimal(s: Seq<u8>, i: int) -> bool {
    let whole_end = digits_end(s, i);
    let has_point = whole_end < s.len() && s[whole_end] == DOT;
    let fraction = if has_point {
        whole_end + 1
    } else {
        whole_end
    };
    let fraction_end = digits_end(s, fraction);
    &&& (whole_end - i) + (fraction_end - fraction) > 0
    &&& fraction_end == s.len() || is_exponent(s, fraction_end)
}

/// Whether `s` writes a real number: an optional sign, then a decimal
/// number or one of the words for an infinity or for no number.
pub open spec fn is_number(s: Seq<u8>) -> bool {
    is_special(s, sign_end(s, 0)) || is_decimal(s, sign_end(s, 0))
}

/// The number that a row of digits writes in base ten.
pub open spec fn decimal(digits: Seq<u8>) -> nat
    decreases digits.len(),
{
    if digits.len() == 0 {
        0
    } else {
        10 * decimal(digits.drop_last()) + (digits.last() - 48) as nat
    }
}

/// The vertex index that `field` writes: one digit or more after an
/// optional plus sign. `None` for any other text.
pub open spec fn index_of(field: Seq<u8>) -> Option<nat> {
    let digits = if field.len() > 0 && field[0] == PLUS {
        field.skip(1)
    } else {
        field
    };
    if digits.len() > 0 && digits_end(digits, 0) == digits.len() {
        Some(decimal(digits))
    } else {
        None
    }
}

/// The place where the run of digits from place `i` of `s` ends.
pub fn scan_digits(s: &[u8], i: usize) -> (end: usize)
    requires
        i <= s.len(),
    ensures
        end == digits_end(s@, i as int),
        i <= end <= s.len(),
{
    let mut j = i;
    while j < s.len() && 48 <= s[j] && s[j] <= 57
        invariant
            i <= j <= s.len(),
            digits_end(s@, i as int) == digits_end(s@, j as int),
        decreases s.len() - j,
    {
        j += 1;
    }
    j
}

/// The place after a sign at place `i` of `s`, or `i`.
pub fn scan_sign(s: &[u8], i: usize) -> (end: usize)
    requires
        i <= s.len(),
    ensures
        end == sign_end(s@, i as int),
        i <= end <= s.len(),
{
    if i < s.len() && (s[i] == PLUS || s[i] == MINUS) {
        i + 1
    } else {
        i
    }
}

/// `b` with a capital letter made small.
#[verifier::when_used_as_spec(lower)]
pub fn to_lower(b: u8) -> (small: u8)
    ensures
        small == lower(b),
{
    if 65 <= b && b <= 90 {
        b + 32
    } else {
        b
    }
}

/// Whether `s` writes a real number in decimal notation.
pub fn reads_as_number(s: &[u8]) -> (ok: bool)
    ensures
        ok == is_number(s@),
{
    let n = s.len();
    let start = scan_sign(s, 0);
    let rest = n - start;
    if rest == 3 && to_lower(s[start]) == 105 && to_lower(s[start + 1]) == 110 && to_lower(
        s[start + 2],
    ) == 102 {
        return true;
    }
    if rest == 3 && to_lower(s[start]) == 110 && to_lower(s[start + 1]) == 97 && to_lower(
        s[start + 2],
    ) == 110 {
        return true;
    }
    if rest == 8 && to_lower(s[start]) == 105 && to_lower(s[start + 1]) == 110 && to_lower(
        s[start + 2],
    ) == 102 && to_lower(s[start + 3]) == 105 && to_lower(s[start + 4]) == 110 && to_lower(
        s[start + 5],
    ) == 105 && to_lower(s[start + 6]) == 116 && to_lower(s[start + 7]) == 121 {
        return true;
    }
    assert(!is_special(s@, start as int));
    let whole_end = scan_digits(s, start);
    let has_point = whole_end < n && s[whole_end] == DOT;
    let fraction = if has_point {
        whole_end + 1
    } else {
        whole_end
    };
    let fraction_end = scan_digits(s, fraction);
    if (whole_end - start) + (fraction_end - fraction) == 0 {
        return false;
    }
    if fraction_end == n {
        return true;
    }
    if to_lower(s[fraction_end]) != 101 {
        return false;
    }
    let digits = scan_sign(s, fraction_end + 1);
    if digits >= n {
        return false;
    }
    scan_digits(s, digits) == n
}

/// The vertex index that `field` writes, where it is at least 1 and at most
/// `count`; `Ok(None)` where it writes an index outside that range, and
/// `Err(())` where it writes no index.
pub fn read_index(field: &[u8], count: usize) -> (found: Result<Option<usize>, ()>)
    ensures
        match found {
            Ok(Some(k)) => index_of(field@) == Some(k as nat) && 1 <= k <= count,
            Ok(None) => index_of(field@) matches Some(k) && !(1 <= k <= count),
            Err(_) => index_of(field@) is None,
        },
{
    let n = field.len();
    let start: usize = if n > 0 && field[0] == PLUS {
        1
    } else {
        0
    };
    let ghost digits = field@.skip(start as int);
    assert(digits.len() == n - start);
    assert(field@.skip(0) =~= field@);
    if start == n {
        return Err(());
    }
    let mut value: usize = 0;
    let mut over = false;
    let mut i: usize = start;
    while i < n
        invariant
            start <= i <= n,
            n == field@.len(),
            digits.len() == n - start,
            digits.len() > 0,
            forall|k: int| 0 <= k < digits.len() ==> digits[k] == field@[start + k],
            index_of(field@) == if digits_end(digits, 0) == digits.len() {
                Some(decimal(digits))
            } else {
                None
            },
            digits_end(digits, 0) == digits_end(digits, i - start),
            over ==> decimal(digits.take(i - start)) > count,
            !over ==> value == decimal(digits.take(i - start)) && value <= count,
        decreases n - i,
    {
        let b = field[i];
        assert(digits[i - start] == b);
        if !(48 <= b && b <= 57) {
            return Err(());
        }
        proof {
            assert(digits.take(i - start + 1).drop_last() =~= digits.take(i - start));
        }
        let d = (b - 48) as usize;
        if !over {
            if d > count || value > (count - d) / 10 {
                over = true;
            } else {
                value = 10 * value + d;
            }
        }
        i += 1;
    }
    proof {
        assert(digits.take(n - start) =~= digits);
    }
    if over || value == 0 {
        Ok(None)
    } else {
        Ok(Some(value))
    }
}

} // verus!
