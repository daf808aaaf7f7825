//! Decimal numbers read from text: digits, an optional fraction and an
//! optional power of ten. A number is held exactly, as the digits of its
//! value and its exponent, and is put on a grid by a power-of-ten scale.

use crate::text::{find_byte, first_at};
use vstd::prelude::*;
use vstd::slice::slice_subrange;

verus! {

/// The byte `+`.
pub const PLUS: u8 = 0x2b;

/// The byte `-`.
pub const MINUS: u8 = 0x2d;

/// The byte `.`, which stands before the fraction of a number.
pub const DOT: u8 = 0x2e;

/// The byte `0`.
pub const ZERO: u8 = 0x30;

/// The byte `9`.
pub const NINE: u8 = 0x39;

/// The byte `e`, which stands before the power of ten.
pub const LOWER_E: u8 = 0x65;

/// The byte `E`, which stands before the power of ten as well.
pub const UPPER_E: u8 = 0x45;

/// The largest digits that a number is held with: 2^63, the size of the
/// least coordinate.
pub const MAX_DIGITS: u64 = 0x8000_0000_0000_0000;

/// The largest exponent, in size, that a number is held with: 2^63 - 1.
pub const MAX_EXPONENT: i64 = 0x7fff_ffff_ffff_ffff;

/// A decimal number as mathematics: `digits` times ten to the `exponent`,
/// negated if `negative`.
pub struct Written {
    pub negative: bool,
    pub digits: nat,
    pub exponent: int,
}

/// A decimal number as held: `digits` times ten to the `exponent`, negated
/// if `negative`.
#[derive(Clone, Copy, Debug, PartialEq, Eq, Structural)]
pub struct Decimal {
    pub negative: bool,
    pub digits: u64,
    pub exponent: i64,
}

/// Why a text gave no number.
#[derive(Clone, Copy, Debug, PartialEq, Eq, Structural)]
pub enum NumberError {
    /// The text is not a decimal number.
    Malformed,
    /// The text is a decimal number whose value has digits beyond
    /// [`MAX_DIGITS`] or an exponent beyond [`MAX_EXPONENT`].
    TooLarge,
}

impl Decimal {
    /// The number that is held.
    pub open spec fn written(self) -> Written {
        Written {
            negative: self.negative,
            digits: self.digits as nat,
            exponent: self.exponent as int,
        }
    }
}

/// Whether `c` is a decimal digit.
pub open spec fn is_digit(c: u8) -> bool {
    ZERO <= c <= NINE
}

/// Whether `s` holds decimal digits only.
pub open spec fn all_digits(s: Seq<u8>) -> bool {
    forall|i: int| 0 <= i < s.len() ==> is_digit(#[trigger] s[i])
}

/// The number that the digit `c` stands for.
pub open spec fn digit_value(c: u8) -> nat {
    if is_digit(c) {
        (c - ZERO) as nat
    } else {
        0
    }
}

/// The number written in base ten by the digits of `start` followed by the
/// digits `s`.
pub open spec fn digits_from(start: nat, s: Seq<u8>) -> nat
    decreases s.len(),
{
    if s.len() == 0 {
        start
    } else {
        digits_from(start, s.drop_last()) * 10 + digit_value(s.last())
    }
}

/// The power of ten written after the `e` of a number: an optional sign and
/// at least one digit.
pub open spec fn power_of(s: Seq<u8>) -> Option<int> {
    let signed = s.len() > 0 && (s[0] == MINUS || s[0] == PLUS);
    let digits = if signed {
        s.drop_first()
    } else {
        s
    };
    if digits.len() >= 1 && all_digits(digits) {
        if s[0] == MINUS {
            Some(-(digits_from(0, digits) as int))
        } else {
            Some(digits_from(0, digits) as int)
        }
    } else {
        None
    }
}

/// Where the power of ten of `body` begins: at its first `e` or `E`, or at
/// its end.
pub open spec fn mark_at(body: Seq<u8>) -> int {
    if first_at(body, LOWER_E) <= first_at(body, UPPER_E) {
        first_at(body, LOWER_E)
    } else {
        first_at(body, UPPER_E)
    }
}

/// `s` without the zero digits at its end.
pub open spec fn without_trailing_zeros(s: Seq<u8>) -> Seq<u8>
    decreases s.len(),
{
    if s.len() > 0 && s.last() == ZERO {
        without_trailing_zeros(s.drop_last())
    } else {
        s
    }
}

/// The digits of a number without the zeros at their end, and the power of
/// ten that goes with them: digits with an optional dot among them, at
/// least one digit in all. Each zero left out raises the power by one, each
/// fraction digit lowers it by one.
pub open spec fn mantissa_of(s: Seq<u8>) -> Option<(nat, int)> {
    let dot = first_at(s, DOT);
    let whole = s.subrange(0, dot);
    let fraction = if dot < s.len() {
        s.subrange(dot + 1, s.len() as int)
    } else {
        Seq::<u8>::empty()
    };
    if all_digits(whole) && all_digits(fraction) && whole.len() + fraction.len() >= 1 {
        let all = whole + fraction;
        let kept = without_trailing_zeros(all);
        Some((digits_from(0, kept), all.len() - kept.len() - fraction.len()))
    } else {
        None
    }
}

/// The number that `field` writes: an optional sign, a mantissa, and
/// optionally `e` or `E` with a power of ten. The number is given by its
/// value: its digits end in no zero, and zero has the exponent 0.
pub open spec fn written_of(field: Seq<u8>) -> Option<Written> {
    let signed = field.len() > 0 && (field[0] == MINUS || field[0] == PLUS);
    let body = if signed {
        field.drop_first()
    } else {
        field
    };
    let mark = mark_at(body);
    let power = if mark < body.len() {
        power_of(body.subrange(mark + 1, body.len() as int))
    } else {
        Some(0int)
    };
    match (mantissa_of(body.subrange(0, mark)), power) {
        (Some((digits, shift)), Some(power)) => Some(
            Written {
                negative: signed && field[0] == MINUS,
                digits,
                exponent: if digits == 0 {
                    0
                } else {
                    power + shift
                },
            },
        ),
        _ => None,
    }
}

/// Whether the number can be held: its digits and its exponent are within
/// [`MAX_DIGITS`] and [`MAX_EXPONENT`].
pub open spec fn fits(w: Written) -> bool {
    w.digits <= MAX_DIGITS && -MAX_EXPONENT <= w.exponent <= MAX_EXPONENT
}

/// Digits added at the end do not make a number smaller.
proof fn lemma_digits_grow(start: nat, s: Seq<u8>, i: int)
    requires
        0 <= i <= s.len(),
    ensures
        start <= digits_from(start, s.take(i)) <= digits_from(start, s),
    decreases s.len() - i, i,
{
    if i == s.len() {
        assert(s.take(i) =~= s);
        if i > 0 {
            lemma_digits_grow(start, s.drop_last(), i - 1);
            lemma_digits_grow(start, s.drop_last(), s.len() - 1);
            assert(s.drop_last().take(s.len() - 1) =~= s.drop_last());
        }
    } else {
        lemma_digits_grow(start, s.drop_last(), i);
        assert(s.drop_last().take(i) =~= s.take(i));
    }
}

/// Tells whether `text` holds decimal digits only.
pub fn is_digits(text: &[u8]) -> (r: bool)
    ensures
        r == all_digits(text@),
{
    let mut i: usize = 0;
    while i < text.len()
        invariant
            0 <= i <= text.len(),
            forall|j: int| 0 <= j < i ==> is_digit(#[trigger] text@[j]),
        decreases text.len() - i,
    {
        if text[i] < ZERO || text[i] > NINE {
            assert(!is_digit(text@[i as int]));
            return false;
        }
        i += 1;
    }
    true
}

/// Reads the digits `text` as a number that goes on from `start`, if it is
/// no more than `cap`.
pub fn read_digits(start: u128, text: &[u8], cap: u128) -> (r: Option<u128>)
    requires
        all_digits(text@),
        start <= cap <= 0x0100_0000_0000_0000_0000_0000_0000_0000,
    ensures
        r == if digits_from(start as nat, text@) <= cap {
            Some(digits_from(start as nat, text@) as u128)
        } else {
            None
        },
{
    let mut value: u128 = start;
    let mut i: usize = 0;
    while i < text.len()
        invariant
            0 <= i <= text.len(),
            all_digits(text@),
            value == digits_from(start as nat, text@.take(i as int)),
            value <= cap <= 0x0100_0000_0000_0000_0000_0000_0000_0000,
        decreases text.len() - i,
    {
        let c = text[i];
        proof {
            assert(text@.take(i + 1).drop_last() =~= text@.take(i as int));
            assert(text@.take(i + 1).last() == c);
            assert(is_digit(text@[i as int]));
        }
        value = value * 10 + (c - ZERO) as u128;
        if value > cap {
            proof {
                lemma_digits_grow(start as nat, text@, i + 1);
            }
            return None;
        }
        i += 1;
    }
    proof {
        assert(text@.take(i as int) =~= text@);
    }
    Some(value)
}

/// The largest power of ten, in size, that is read: 2^70. With a larger one
/// the exponent is beyond [`MAX_EXPONENT`] whatever the fraction.
pub const MAX_POWER: u128 = 0x40_0000_0000_0000_0000;

/// Copies `first` and then `second` into one text.
fn joined(first: &[u8], second: &[u8]) -> (r: Vec<u8>)
    ensures
        r@ == first@ + second@,
{
    let mut all: Vec<u8> = Vec::new();
    let mut i: usize = 0;
    while i < first.len()
        invariant
            0 <= i <= first.len(),
            all@ == first@.take(i as int),
        decreases first.len() - i,
    {
        all.push(first[i]);
        assert(all@ =~= first@.take(i + 1));
        i += 1;
    }
    assert(first@.take(i as int) =~= first@);
    let mut j: usize = 0;
    while j < second.len()
        invariant
            0 <= j <= second.len(),
            all@ == first@ + second@.take(j as int),
        decreases second.len() - j,
    {
        all.push(second[j]);
        assert(all@ =~= first@ + second@.take(j + 1));
        j += 1;
    }
    assert(second@.take(j as int) =~= second@);
    all
}

/// Counts the bytes of `text` before the zero digits at its end.
fn kept_length(text: &[u8]) -> (kept: usize)
    ensures
        kept <= text@.len(),
        text@.take(kept as int) == without_trailing_zeros(text@),
{
    let mut kept: usize = text.len();
    assert(text@.take(kept as int) =~= text@);
    while kept > 0 && text[kept - 1] == ZERO
        invariant
            0 <= kept <= text@.len(),
            without_trailing_zeros(text@.take(kept as int)) == without_trailing_zeros(text@),
        decreases kept,
    {
        assert(text@.take(kept as int).drop_last() =~= text@.take(kept - 1));
        kept -= 1;
    }
    kept
}

/// Reads the digits of a number, without the zeros at their end, and the
/// power of ten that goes with them.
fn parse_mantissa(text: &[u8]) -> (r: Result<(u64, i128), NumberError>)
    ensures
        match r {
            Ok((digits, shift)) => mantissa_of(text@) == Some((digits as nat, shift as int))
                && digits <= MAX_DIGITS && -0x1_0000_0000_0000_0000 < shift
                < 0x1_0000_0000_0000_0000,
            Err(NumberError::Malformed) => mantissa_of(text@) is None,
            Err(NumberError::TooLarge) => mantissa_of(text@) is Some && mantissa_of(
                text@,
            ).unwrap().0 > MAX_DIGITS,
        },
{
    let dot = find_byte(text, DOT);
    let whole = slice_subrange(text, 0, dot);
    let fraction = if dot < text.len() {
        slice_subrange(text, dot + 1, text.len())
    } else {
        slice_subrange(text, 0, 0)
    };
    assert(fraction@ =~= if dot < text@.len() {
        text@.subrange(dot + 1, text@.len() as int)
    } else {
        Seq::<u8>::empty()
    });
    if !is_digits(whole) || !is_digits(fraction) || (whole.len() == 0 && fraction.len() == 0) {
        return Err(NumberError::Malformed);
    }
    let all = joined(whole, fraction);
    let kept = kept_length(all.as_slice());
    let shift: i128 = (all.len() - kept) as i128 - fraction.len() as i128;
    match read_digits(0, slice_subrange(all.as_slice(), 0, kept), MAX_DIGITS as u128) {
        Some(digits) => Ok((digits as u64, shift)),
        None => Err(NumberError::TooLarge),
    }
}

/// Reads the power of ten that follows the `e` of a number.
fn parse_power(text: &[u8]) -> (r: Result<i128, NumberError>)
    ensures
        match r {
            Ok(power) => power_of(text@) == Some(power as int) && -MAX_POWER <= power
                <= MAX_POWER,
            Err(NumberError::Malformed) => power_of(text@) is None,
            Err(NumberError::TooLarge) => power_of(text@) is Some && !(-MAX_POWER <= power_of(
                text@,
            ).unwrap() <= MAX_POWER),
        },
{
    let signed = text.len() > 0 && (text[0] == MINUS || text[0] == PLUS);
    let negative = signed && text[0] == MINUS;
    let digits = if signed {
        slice_subrange(text, 1, text.len())
    } else {
        text
    };
    if digits.len() < 1 || !is_digits(digits) {
        return Err(NumberError::Malformed);
    }
    match read_digits(0, digits, MAX_POWER) {
        Some(size) => if negative {
            Ok(-(size as i128))
        } else {
            Ok(size as i128)
        },
        None => Err(NumberError::TooLarge),
    }
}

/// Reads a decimal number.
///
/// The text is malformed if it is no decimal number, and too large if it is
/// one whose value does not fit [`Decimal`].
pub fn parse_number(field: &[u8]) -> (r: Result<Decimal, NumberError>)
    ensures
        match r {
            Ok(d) => written_of(field@) == Some(d.written()) && fits(d.written()),
            Err(NumberError::Malformed) => written_of(field@) is None,
            Err(NumberError::TooLarge) => written_of(field@) is Some && !fits(
                written_of(field@).unwrap(),
            ),
        },
{
    let signed = field.len() > 0 && (field[0] == MINUS || field[0] == PLUS);
    let negative = signed && field[0] == MINUS;
    let body = if signed {
        slice_subrange(field, 1, field.len())
    } else {
        field
    };
    let lower = find_byte(body, LOWER_E);
    let upper = find_byte(body, UPPER_E);
    let mark = if lower <= upper {
        lower
    } else {
        upper
    };
    let mantissa = parse_mantissa(slice_subrange(body, 0, mark));
    let power = if mark < body.len() {
        parse_power(slice_subrange(body, mark + 1, body.len()))
    } else {
        Ok(0)
    };
    match (mantissa, power) {
        (Err(NumberError::Malformed), _) => Err(NumberError::Malformed),
        (_, Err(NumberError::Malformed)) => Err(NumberError::Malformed),
        (Err(NumberError::TooLarge), _) => Err(NumberError::TooLarge),
        (Ok((digits, shift)), power) => {
            if digits == 0 {
                return Ok(Decimal { negative, digits: 0, exponent: 0 });
            }
            match power {
                Ok(power) => {
                    let exponent: i128 = power + shift;
                    if exponent < -(MAX_EXPONENT as i128) || exponent > MAX_EXPONENT as i128 {
                        Err(NumberError::TooLarge)
                    } else {
                        Ok(Decimal { negative, digits, exponent: exponent as i64 })
                    }
                },
                Err(_) => Err(NumberError::TooLarge),
            }
        },
    }
}

/// Ten to the `n`.
pub open spec fn pow10(n: nat) -> nat
    decreases n,
{
    if n == 0 {
        1
    } else {
        10 * pow10((n - 1) as nat)
    }
}

/// The decimal places that a number needs: as many as its exponent is
/// below zero.
pub open spec fn places_needed(w: Written) -> nat {
    if w.exponent < 0 {
        (-w.exponent) as nat
    } else {
        0
    }
}

/// The size of the number on a grid of `places` decimal places: the number
/// of grid steps from zero.
pub open spec fn grid_size(w: Written, places: nat) -> nat {
    w.digits * pow10((w.exponent + places) as nat)
}

/// The number in steps of a grid of `places` decimal places.
pub open spec fn grid_value(w: Written, places: nat) -> int {
    if w.negative {
        -(grid_size(w, places) as int)
    } else {
        grid_size(w, places) as int
    }
}

/// Whether the number is a coordinate on the grid of `places` decimal
/// places: its steps there are within the range of `i64`.
pub open spec fn on_grid(w: Written, places: nat) -> bool {
    i64::MIN <= grid_value(w, places) <= i64::MAX
}

/// Powers of ten are at least one and grow with the exponent.
proof fn lemma_pow10_grows(i: nat, n: nat)
    requires
        i <= n,
    ensures
        1 <= pow10(i) <= pow10(n),
    decreases n,
{
    if n > 0 {
        if i < n {
            lemma_pow10_grows(i, (n - 1) as nat);
        } else {
            lemma_pow10_grows((i - 1) as nat, (n - 1) as nat);
        }
    }
}

impl Decimal {
    /// The decimal places that the number needs.
    pub fn places(&self) -> (r: u64)
        requires
            fits(self.written()),
        ensures
            r == places_needed(self.written()),
    {
        if self.exponent < 0 {
            (-self.exponent) as u64
        } else {
            0
        }
    }

    /// Puts the number on the grid of `places` decimal places, if it is
    /// within the range of a coordinate there.
    pub fn to_grid(&self, places: u64) -> (r: Option<i64>)
        requires
            fits(self.written()),
            places_needed(self.written()) <= places <= MAX_EXPONENT,
        ensures
            r == if on_grid(self.written(), places as nat) {
                Some(grid_value(self.written(), places as nat) as i64)
            } else {
                None
            },
    {
        let ghost w = self.written();
        let steps: u64 = (self.exponent as i128 + places as i128) as u64;
        if self.digits == 0 {
            assert(grid_size(w, places as nat) == 0) by (nonlinear_arith)
                requires
                    grid_size(w, places as nat) == 0 * pow10((w.exponent + places) as nat),
            ;
            return Some(0);
        }
        let mut size: u64 = self.digits;
        let mut i: u64 = 0;
        assert(self.digits * pow10(0) == self.digits) by (nonlinear_arith)
            requires
                pow10(0) == 1,
        ;
        while i < steps
            invariant
                0 <= i <= steps,
                steps == w.exponent + places,
                w == self.written(),
                1 <= self.digits,
                size == self.digits * pow10(i as nat),
                1 <= size <= MAX_DIGITS,
            decreases steps - i,
        {
            proof {
                lemma_pow10_grows((i + 1) as nat, steps as nat);
                assert(self.digits * pow10((i + 1) as nat) == size * 10) by (nonlinear_arith)
                    requires
                        size == self.digits * pow10(i as nat),
                        pow10((i + 1) as nat) == 10 * pow10(i as nat),
                ;
                assert(self.digits * pow10((i + 1) as nat) <= self.digits * pow10(steps as nat))
                    by (nonlinear_arith)
                    requires
                        pow10((i + 1) as nat) <= pow10(steps as nat),
                        self.digits >= 1,
                ;
            }
            if size > MAX_DIGITS / 10 {
                return None;
            }
            size = size * 10;
            i += 1;
        }
        if self.negative {
            if size == MAX_DIGITS {
                Some(i64::MIN)
            } else {
                Some(-(size as i64))
            }
        } else if size < MAX_DIGITS {
            Some(size as i64)
        } else {
            None
        }
    }
}

} // verus!
