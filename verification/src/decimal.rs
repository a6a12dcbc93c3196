//! Decimal numbers in text: integers, an optional sign followed by at least
//! one digit, and numbers with a fraction or an exponent.

use vstd::prelude::*;
use vstd::string::*;
use vstd::utf8::*;
use crate::text::push_char;

verus! {

/// The byte is one of the digits `0` to `9`.
pub open spec fn is_digit(b: u8) -> bool {
    48 <= b && b <= 57
}

/// Every byte of `s` is a digit.
pub open spec fn all_digits(s: Seq<u8>) -> bool {
    forall|i: int| 0 <= i < s.len() ==> is_digit(#[trigger] s[i])
}

/// The number that a run of digits denotes, most significant digit first.
pub open spec fn digits_value(s: Seq<u8>) -> nat
    decreases s.len(),
{
    if s.len() == 0 {
        0
    } else {
        (digits_value(s.drop_last()) * 10 + (s.last() - 48)) as nat
    }
}

/// The integer that `s` denotes: digits, or a `+` and digits, or, where
/// `signed` allows it, a `-` and digits. Anything else denotes nothing.
pub open spec fn integer_value(s: Seq<u8>, signed: bool) -> Option<int> {
    if s.len() == 0 {
        None
    } else if s[0] == 43 {
        if s.len() > 1 && all_digits(s.skip(1)) {
            Some(digits_value(s.skip(1)) as int)
        } else {
            None
        }
    } else if s[0] == 45 && signed {
        if s.len() > 1 && all_digits(s.skip(1)) {
            Some(-(digits_value(s.skip(1)) as int))
        } else {
            None
        }
    } else if all_digits(s) {
        Some(digits_value(s) as int)
    } else {
        None
    }
}

/// `v` where it lies between `lo` and `hi`.
pub open spec fn within(v: Option<int>, lo: int, hi: int) -> Option<int> {
    match v {
        Some(x) => if lo <= x && x <= hi {
            Some(x)
        } else {
            None
        },
        None => None,
    }
}

/// The bytes of a text whose characters are all ASCII.
pub open spec fn text_bytes(t: Seq<char>) -> Seq<u8> {
    Seq::new(t.len(), |i: int| t[i] as u8)
}

/// The integer that a text denotes; a text with a character outside ASCII
/// denotes nothing.
pub open spec fn text_integer(t: Seq<char>, signed: bool) -> Option<int> {
    if is_ascii_chars(t) {
        integer_value(text_bytes(t), signed)
    } else {
        None
    }
}

/// The digits of `n`, most significant first, without leading zeros.
pub open spec fn decimal_text(n: nat) -> Seq<char>
    decreases n,
{
    if n < 10 {
        seq![(48 + n) as u8 as char]
    } else {
        decimal_text(n / 10).push((48 + n % 10) as u8 as char)
    }
}

/// A longer run of digits denotes at least what its beginning denotes.
pub proof fn lemma_digits_value_grows(s: Seq<u8>, k: int)
    requires
        all_digits(s),
        0 <= k <= s.len(),
    ensures
        digits_value(s.take(k)) <= digits_value(s),
    decreases s.len(),
{
    if k == s.len() {
        assert(s.take(k) =~= s);
    } else {
        let front = s.drop_last();
        assert(front.take(k) =~= s.take(k));
        assert forall|i: int| 0 <= i < front.len() implies is_digit(#[trigger] front[i]) by {
            assert(front[i] == s[i]);
        }
        lemma_digits_value_grows(front, k);
        assert(is_digit(s[s.len() - 1]));
    }
}

/// Reads the integer that `s` denotes, if it lies between `lo` and `hi`.
#[verifier::loop_isolation(false)]
pub fn parse_integer(s: &[u8], signed: bool, lo: i128, hi: i128) -> (r: Option<i128>)
    ensures
        r matches Some(v) ==> within(integer_value(s@, signed), lo as int, hi as int) == Some(
            v as int,
        ),
        r is None ==> within(integer_value(s@, signed), lo as int, hi as int) is None,
{
    let n = s.len();
    if n == 0 {
        return None;
    }
    let negative = signed && s[0] == 45;
    let start: usize = if s[0] == 43 || negative {
        1
    } else {
        0
    };
    if start == n {
        return None;
    }
    let ghost digits = s@.skip(start as int);
    assert(start == 0 ==> digits =~= s@);
    let limit: u128 = 0x8000_0000_0000_0000_0000_0000_0000_0000;
    let mut acc: u128 = 0;
    let mut i: usize = start;
    while i < n
        invariant
            start <= i <= n,
            n == s@.len(),
            digits == s@.skip(start as int),
            all_digits(digits.take(i - start)),
            acc == digits_value(digits.take(i - start)),
            acc <= limit,
        decreases n - i,
    {
        let b = s[i];
        assert(digits[i - start] == b);
        if b < 48 || b > 57 {
            assert(!all_digits(digits));
            return None;
        }
        assert(digits.take(i - start + 1).drop_last() =~= digits.take(i - start));
        if acc > limit / 10 {
            proof {
                if all_digits(digits) {
                    lemma_digits_value_grows(digits, i - start + 1);
                }
            }
            return None;
        }
        let next = acc * 10 + (b - 48) as u128;
        assert(next == digits_value(digits.take(i - start + 1)));
        if next > limit {
            proof {
                if all_digits(digits) {
                    lemma_digits_value_grows(digits, i - start + 1);
                }
            }
            return None;
        }
        assert forall|j: int| 0 <= j < i - start + 1 implies is_digit(
            #[trigger] digits.take(i - start + 1)[j],
        ) by {
            if j < i - start {
                assert(digits.take(i - start)[j] == digits[j]);
            }
        }
        acc = next;
        i += 1;
    }
    assert(digits.take(n - start) =~= digits);
    let value: i128 = if negative {
        if acc == limit {
            i128::MIN
        } else {
            -(acc as i128)
        }
    } else {
        if acc == limit {
            return None;
        }
        acc as i128
    };
    if lo <= value && value <= hi {
        Some(value)
    } else {
        None
    }
}

/// Reads the integer that a text denotes, if it lies between `lo` and `hi`.
pub fn parse_text(text: &str, signed: bool, lo: i128, hi: i128) -> (r: Option<i128>)
    ensures
        r matches Some(v) ==> within(text_integer(text@, signed), lo as int, hi as int) == Some(
            v as int,
        ),
        r is None ==> within(text_integer(text@, signed), lo as int, hi as int) is None,
{
    if !text.is_ascii() {
        return None;
    }
    let bytes = text.as_bytes();
    proof {
        is_ascii_spec_bytes(text);
        assert(bytes@ =~= text_bytes(text@));
    }
    parse_integer(bytes, signed, lo, hi)
}

/// Appends the decimal digits of `n` to `s`.
pub fn push_decimal(s: &mut String, n: u32)
    ensures
        final(s)@ == old(s)@ + decimal_text(n as nat),
    decreases n,
{
    if n >= 10 {
        push_decimal(s, n / 10);
    }
    let d: u8 = (n % 10) as u8;
    push_char(s, (48 + d) as char);
    assert(s@ =~= old(s)@ + decimal_text(n as nat));
}

/// The keyword that numbers a family: `prefix` followed by the decimal
/// digits of `index`, as in `NAXIS2`.
pub fn indexed_keyword(prefix: &str, index: u32) -> (name: String)
    ensures
        name@ == prefix@ + decimal_text(index as nat),
{
    let mut name = String::from_str(prefix);
    push_decimal(&mut name, index);
    name
}

/// The number of digits that `s` holds from place `i` on without a break.
pub open spec fn digit_run(s: Seq<u8>, i: int) -> nat
    decreases s.len() - i,
{
    if 0 <= i < s.len() && is_digit(s[i]) {
        1 + digit_run(s, i + 1)
    } else {
        0
    }
}

/// The byte is `+` or `-`.
pub open spec fn is_sign(b: u8) -> bool {
    b == 43 || b == 45
}

/// The byte, a capital letter turned into its small letter.
pub open spec fn lower(b: u8) -> u8 {
    if 65 <= b && b <= 90 {
        (b + 32) as u8
    } else {
        b
    }
}

/// From place `i` on, `s` spells `word` in small or capital letters, and
/// nothing more.
pub open spec fn spells_at(s: Seq<u8>, i: int, word: Seq<u8>) -> bool {
    s.len() - i == word.len() && forall|k: int|
        0 <= k < word.len() ==> lower(s[i + k]) == #[trigger] word[k]
}

/// From place `i` on, `s` is an exponent: `e` or `E`, an optional sign, and
/// at least one digit up to the end.
pub open spec fn is_exponent_at(s: Seq<u8>, i: int) -> bool {
    let start = if i + 1 < s.len() && is_sign(s[i + 1]) {
        i + 2
    } else {
        i + 1
    };
    i < s.len() && lower(s[i]) == 101 && digit_run(s, start) >= 1 && start + digit_run(s, start)
        == s.len()
}

/// From place `i` on, `s` is a number without a sign: digits with an
/// optional point among, before or after them, at least one digit in all,
/// and an optional exponent.
pub open spec fn is_number_at(s: Seq<u8>, i: int) -> bool {
    let whole = digit_run(s, i);
    let pointed = i + whole < s.len() && s[i + whole] == 46;
    let fraction = if pointed {
        digit_run(s, i + whole + 1)
    } else {
        0
    };
    let end = if pointed {
        i + whole + 1 + fraction
    } else {
        i + whole
    };
    whole + fraction >= 1 && (end == s.len() || is_exponent_at(s, end))
}

/// The letters of `inf`.
pub open spec fn inf_word() -> Seq<u8> {
    seq![105u8, 110u8, 102u8]
}

/// The letters of `infinity`.
pub open spec fn infinity_word() -> Seq<u8> {
    seq![105u8, 110u8, 102u8, 105u8, 110u8, 105u8, 116u8, 121u8]
}

/// The letters of `nan`.
pub open spec fn nan_word() -> Seq<u8> {
    seq![110u8, 97u8, 110u8]
}

/// `s` denotes a number with a fraction: after an optional sign, either
/// `inf`, `infinity` or `nan` in small or capital letters, or digits with
/// an optional point and an optional exponent.
pub open spec fn is_float_text(s: Seq<u8>) -> bool {
    let i: int = if s.len() >= 1 && is_sign(s[0]) {
        1
    } else {
        0
    };
    spells_at(s, i, inf_word()) || spells_at(s, i, infinity_word()) || spells_at(s, i, nan_word())
        || is_number_at(s, i)
}

/// Counts the digits that `s` holds from place `i` on without a break.
fn count_digits(s: &[u8], i: usize) -> (n: usize)
    requires
        i <= s@.len(),
    ensures
        n == digit_run(s@, i as int),
        i + n <= s@.len(),
{
    let mut j: usize = i;
    while j < s.len() && 48 <= s[j] && s[j] <= 57
        invariant
            i <= j <= s@.len(),
            digit_run(s@, i as int) == (j - i) + digit_run(s@, j as int),
        decreases s@.len() - j,
    {
        j += 1;
    }
    j - i
}

/// Tells whether `s` spells `word` from place `i` on, and nothing more.
fn spells(s: &[u8], i: usize, word: &[u8]) -> (r: bool)
    requires
        i <= s@.len(),
    ensures
        r == spells_at(s@, i as int, word@),
{
    let len = s.len();
    if len - i != word.len() {
        return false;
    }
    let mut k: usize = 0;
    while k < word.len()
        invariant
            k <= word@.len(),
            len == s@.len(),
            i <= s@.len(),
            s@.len() - i == word@.len(),
            forall|j: int| 0 <= j < k ==> lower(s@[i + j]) == #[trigger] word@[j],
        decreases word@.len() - k,
    {
        let b = s[i + k];
        let small = if 65 <= b && b <= 90 {
            b + 32
        } else {
            b
        };
        if small != word[k] {
            return false;
        }
        k += 1;
    }
    true
}

/// Tells whether `s` denotes a number with a fraction.
pub fn check_float_text(s: &[u8]) -> (r: bool)
    ensures
        r == is_float_text(s@),
{
    let n = s.len();
    let i: usize = if n >= 1 && (s[0] == 43 || s[0] == 45) {
        1
    } else {
        0
    };
    let inf: [u8; 3] = [105, 110, 102];
    let infinity: [u8; 8] = [105, 110, 102, 105, 110, 105, 116, 121];
    let nan: [u8; 3] = [110, 97, 110];
    assert(inf@ =~= inf_word());
    assert(infinity@ =~= infinity_word());
    assert(nan@ =~= nan_word());
    if spells(s, i, inf.as_slice()) || spells(s, i, infinity.as_slice()) || spells(
        s,
        i,
        nan.as_slice(),
    ) {
        return true;
    }
    let whole = count_digits(s, i);
    let mut end = i + whole;
    let mut digits = whole;
    if end < n && s[end] == 46 {
        let fraction = count_digits(s, end + 1);
        digits = whole + fraction;
        end = end + 1 + fraction;
    }
    if digits == 0 {
        return false;
    }
    if end == n {
        return true;
    }
    if s[end] != 101 && s[end] != 69 {
        return false;
    }
    let start = if end + 1 < n && (s[end + 1] == 43 || s[end + 1] == 45) {
        end + 2
    } else {
        end + 1
    };
    let run = count_digits(s, start);
    run >= 1 && start + run == n
}

} // verus!
