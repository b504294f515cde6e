//! Decimal fixed-point numbers.
//!
//! A [`Fixed`] is a whole number of millionths.  Sums and differences are
//! exact; products, quotients and roots are rounded toward zero.  Results
//! beyond the range are replaced by its nearest end; the two ends stand for the
//! infinities.

pub mod exact;

use vstd::prelude::*;

use crate::parser::number_of;
use crate::scalar::Scalar;
use crate::text::{
    chars_of, decimal, digit, digit_char, index_of_char, is_digit, push_decimal, push_text,
};

verus! {

/// A decimal number with six places.
#[derive(Debug, Clone, Copy, PartialEq, Eq, Structural)]
pub struct Fixed {
    /// The number in millionths.
    pub millionths: i64,
}

/// One, in millionths.
pub const ONE: i64 = 1_000_000;

// ── Range ─────────────────────────────────────────────────────────────────────

/// The number of millionths nearest to `n` that can be held.
pub open spec fn clamp(n: int) -> i64 {
    if n > i64::MAX {
        i64::MAX
    } else if n < -i64::MAX {
        (-i64::MAX) as i64
    } else {
        n as i64
    }
}

/// The magnitude of a number.
pub open spec fn magnitude(n: int) -> nat {
    if n < 0 {
        (-n) as nat
    } else {
        n as nat
    }
}

/// The number with the given magnitude and sign.
pub open spec fn signed(negative: bool, size: nat) -> int {
    if negative {
        -(size as int)
    } else {
        size as int
    }
}

/// The number of millionths nearest to the given one that can be held.
pub open spec fn held(negative: bool, size: nat) -> Fixed {
    Fixed { millionths: clamp(signed(negative, size)) }
}

fn clamped(n: i128) -> (result: i64)
    ensures
        result == clamp(n as int),
{
    if n > i64::MAX as i128 {
        i64::MAX
    } else if n < -(i64::MAX as i128) {
        -i64::MAX
    } else {
        n as i64
    }
}

fn size_of_number(n: i64) -> (result: u128)
    ensures
        result == magnitude(n as int),
        result <= 0x8000_0000_0000_0000,
{
    if n < 0 {
        (-(n as i128)) as u128
    } else {
        n as u128
    }
}

fn hold(negative: bool, size: u128) -> (result: Fixed)
    ensures
        result == held(negative, size as nat),
{
    if size > i64::MAX as u128 {
        if negative {
            Fixed { millionths: -i64::MAX }
        } else {
            Fixed { millionths: i64::MAX }
        }
    } else if negative {
        Fixed { millionths: -(size as i64) }
    } else {
        Fixed { millionths: size as i64 }
    }
}

// ── Arithmetic ────────────────────────────────────────────────────────────────

/// The largest number whose square is at most `n`.
pub open spec fn is_root(n: nat, r: nat) -> bool {
    r * r <= n < (r + 1) * (r + 1)
}

/// The integer square root.
pub open spec fn root(n: nat) -> nat {
    choose|r: nat| is_root(n, r)
}

proof fn lemma_root_is_unique(n: nat, a: nat, b: nat)
    requires
        is_root(n, a),
        is_root(n, b),
    ensures
        a == b,
{
    assert(a < b + 1) by (nonlinear_arith)
        requires
            a * a <= n,
            n < (b + 1) * (b + 1),
            a >= 0,
            b >= 0,
    ;
    assert(b < a + 1) by (nonlinear_arith)
        requires
            b * b <= n,
            n < (a + 1) * (a + 1),
            a >= 0,
            b >= 0,
    ;
}

fn integer_root(n: u128) -> (result: u128)
    requires
        n < 0x1_0000_0000_0000_0000_0000_0000,
    ensures
        result == root(n as nat),
{
    // The root lies from `low` up to, and without, `high`.
    let mut low: u128 = 0;
    let mut high: u128 = 0x1_0000_0000_0000;
    while high - low > 1
        invariant
            low < high <= 0x1_0000_0000_0000,
            low * low <= n,
            n < high * high,
        decreases high - low,
    {
        let middle: u128 = low + (high - low) / 2;
        assert(middle * middle <= 0x1_0000_0000_0000 * 0x1_0000_0000_0000) by (nonlinear_arith)
            requires
                0 <= middle <= 0x1_0000_0000_0000,
        ;
        if middle * middle <= n {
            low = middle;
        } else {
            high = middle;
        }
    }
    proof {
        let r = low as nat;
        assert(high == low + 1);
        assert(is_root(n as nat, r));
        lemma_root_is_unique(n as nat, r, root(n as nat));
    }
    low
}

/// The angle in millionths of a radian whose tangent is `q` millionths, for `q`
/// up to one; off by no more than about 0.004 radians.
pub open spec fn small_angle(q: nat) -> nat {
    q * ((785_398 + 273_000 * (1_000_000 - q) / 1_000_000) as nat) / 1_000_000
}

/// The angle of the point (`x`, `y`) in the first quadrant, in millionths of a radian.
pub open spec fn quadrant_angle(y: nat, x: nat) -> int {
    if x == 0 && y == 0 {
        0
    } else if y <= x {
        small_angle(y * 1_000_000 / x) as int
    } else {
        1_570_796 - small_angle(x * 1_000_000 / y)
    }
}

/// The angle of the point (`x`, `y`), in millionths of a radian.
pub open spec fn point_angle(y: int, x: int) -> int {
    let a = quadrant_angle(magnitude(y), magnitude(x));
    let b = if x < 0 {
        3_141_593 - a
    } else {
        a
    };
    if y < 0 {
        -b
    } else {
        b
    }
}

fn small_angle_of(q: u128) -> (result: u128)
    requires
        q <= 1_000_000,
    ensures
        result == small_angle(q as nat),
        result <= 1_100_000,
{
    let slope: u128 = 785_398 + 273_000 * (1_000_000 - q) / 1_000_000;
    assert(q * slope <= 1_000_000 * 1_058_398) by (nonlinear_arith)
        requires
            0 <= q <= 1_000_000,
            0 <= slope <= 1_058_398,
    ;
    q * slope / 1_000_000
}

fn quadrant_angle_of(y: u128, x: u128) -> (result: i64)
    requires
        y <= 0x8000_0000_0000_0000,
        x <= 0x8000_0000_0000_0000,
    ensures
        result == quadrant_angle(y as nat, x as nat),
        -2_000_000 <= result <= 2_000_000,
{
    if x == 0 && y == 0 {
        0
    } else if y <= x {
        assert(y * 1_000_000 / x as int <= 1_000_000) by (nonlinear_arith)
            requires
                0 <= y <= x,
                x > 0,
        ;
        small_angle_of(y * 1_000_000 / x) as i64
    } else {
        assert(x * 1_000_000 / y as int <= 1_000_000) by (nonlinear_arith)
            requires
                0 <= x <= y,
                y > 0,
        ;
        1_570_796 - small_angle_of(x * 1_000_000 / y) as i64
    }
}

// ── Text ──────────────────────────────────────────────────────────────────────

/// Ten to the power of `k`.
pub open spec fn pow10(k: nat) -> nat
    decreases k,
{
    if k == 0 {
        1
    } else {
        10 * pow10((k - 1) as nat)
    }
}

/// The last `width` digits of `n`, with zeros in front where there are fewer.
pub open spec fn fixed_digits(n: nat, width: nat) -> Seq<char>
    decreases width,
{
    if width == 0 {
        Seq::empty()
    } else {
        fixed_digits(n / 10, (width - 1) as nat).push(digit_char(n % 10))
    }
}

/// As many zeros.
pub open spec fn zeros(count: nat) -> Seq<char> {
    Seq::new(count, |i: int| '0')
}

/// The magnitude in units of the last place, rounded half up.
pub open spec fn rounded(size: nat, places: nat) -> nat {
    let unit = pow10((6 - places) as nat);
    (size + unit / 2) / unit
}

/// The number with up to six places; what is rounded to zero has no sign.
pub open spec fn short_text(n: int, places: nat) -> Seq<char> {
    let scaled = rounded(magnitude(n), places);
    let sign = if n < 0 && scaled > 0 {
        "-"@
    } else {
        Seq::empty()
    };
    let whole = decimal(scaled / pow10(places));
    if places == 0 {
        sign + whole
    } else {
        sign + whole + "."@ + fixed_digits(scaled % pow10(places), places)
    }
}

/// The number with the given number of places.
pub open spec fn fixed_text(n: int, places: nat) -> Seq<char> {
    if places <= 6 {
        short_text(n, places)
    } else {
        short_text(n, 6) + zeros((places - 6) as nat)
    }
}

/// The least number of places, up to `places`, that a magnitude needs.
pub open spec fn places_needed(size: nat, places: nat) -> nat
    decreases places,
{
    if places == 0 || size % pow10((7 - places) as nat) != 0 {
        places
    } else {
        places_needed(size, (places - 1) as nat)
    }
}

fn power_of_ten(k: usize) -> (result: u128)
    requires
        k <= 7,
    ensures
        result == pow10(k as nat),
        1 <= result <= 10_000_000,
{
    proof {
        reveal_with_fuel(pow10, 8);
    }
    match k {
        0 => 1,
        1 => 10,
        2 => 100,
        3 => 1_000,
        4 => 10_000,
        5 => 100_000,
        6 => 1_000_000,
        _ => 10_000_000,
    }
}

fn digit_for(d: u128) -> (result: char)
    requires
        d < 10,
    ensures
        result == digit_char(d as nat),
{
    match d {
        0 => '0',
        1 => '1',
        2 => '2',
        3 => '3',
        4 => '4',
        5 => '5',
        6 => '6',
        7 => '7',
        8 => '8',
        _ => '9',
    }
}

fn push_fixed_digits(text: &mut String, n: u128, width: usize)
    ensures
        final(text)@ == old(text)@ + fixed_digits(n as nat, width as nat),
    decreases width,
{
    if width > 0 {
        push_fixed_digits(text, n / 10, width - 1);
        text.push(digit_for(n % 10));
    }
    proof {
        assert(text@ =~= old(text)@ + fixed_digits(n as nat, width as nat));
    }
}

fn push_short_text(text: &mut String, n: i64, places: usize)
    requires
        places <= 6,
    ensures
        final(text)@ == old(text)@ + short_text(n as int, places as nat),
{
    let unit: u128 = power_of_ten(6 - places);
    let size: u128 = size_of_number(n);
    let scaled: u128 = (size + unit / 2) / unit;
    assert(scaled <= size + unit / 2) by (nonlinear_arith)
        requires
            unit >= 1,
            scaled == (size + unit / 2) / (unit as int),
    ;
    let one: u128 = power_of_ten(places);
    assert(scaled / one <= scaled) by (nonlinear_arith)
        requires
            one >= 1,
            scaled >= 0,
    ;
    if n < 0 && scaled > 0 {
        push_text(text, "-");
    }
    push_decimal(text, (scaled / one) as u64);
    if places > 0 {
        push_text(text, ".");
        push_fixed_digits(text, scaled % one, places);
    }
    proof {
        assert(text@ =~= old(text)@ + short_text(n as int, places as nat));
    }
}

/// Whether all of the characters are digits.
pub open spec fn all_digits(s: Seq<char>) -> bool {
    forall|i: int| 0 <= i < s.len() ==> is_digit(#[trigger] s[i])
}

/// The first six of the digits, with zeros behind where there are fewer.
pub open spec fn six_places(digits: Seq<char>) -> Seq<char> {
    Seq::new(
        6,
        |i: int|
            if i < digits.len() {
                digits[i]
            } else {
                '0'
            },
    )
}

/// The magnitude that an unsigned numeral spells: digits, and perhaps a point
/// and more digits; places behind the sixth are dropped.
pub open spec fn unsigned_value(s: Seq<char>) -> Option<nat> {
    let at = index_of_char(s, '.');
    let whole = s.take(at);
    let places = if at < s.len() {
        s.skip(at + 1)
    } else {
        Seq::empty()
    };
    if all_digits(whole) && all_digits(places) && whole.len() + places.len() > 0 {
        Some(number_of(whole) * 1_000_000 + number_of(six_places(places)))
    } else {
        None
    }
}

/// The number that a numeral spells: perhaps a sign, and an unsigned numeral.
pub open spec fn value_of(s: Seq<char>) -> Option<Fixed> {
    let negative = s.len() > 0 && s[0] == '-';
    let body = if s.len() > 0 && (s[0] == '-' || s[0] == '+') {
        s.drop_first()
    } else {
        s
    };
    match unsigned_value(body) {
        Some(size) => Some(held(negative, size)),
        None => None,
    }
}

fn digits_between(chars: &Vec<char>, from: usize, to: usize) -> (result: bool)
    requires
        from <= to <= chars.len(),
    ensures
        result == all_digits(chars@.subrange(from as int, to as int)),
{
    let ghost part = chars@.subrange(from as int, to as int);
    let mut i: usize = from;
    while i < to
        invariant
            from <= i <= to <= chars.len(),
            part == chars@.subrange(from as int, to as int),
            forall|j: int| 0 <= j < i - from ==> is_digit(#[trigger] part[j]),
        decreases to - i,
    {
        proof {
            assert(part[i - from] == chars@[i as int]);
        }
        if !digit(chars[i]) {
            return false;
        }
        i = i + 1;
    }
    true
}

/// The number that digits spell, exact below ten to the power of 18.
fn number_between(chars: &Vec<char>, from: usize, to: usize) -> (result: u128)
    requires
        from <= to <= chars.len(),
        all_digits(chars@.subrange(from as int, to as int)),
    ensures
        result < 1_000_000_000_000_000_000 ==> result == number_of(
            chars@.subrange(from as int, to as int),
        ),
        result >= 1_000_000_000_000_000_000 ==> number_of(chars@.subrange(from as int, to as int))
            >= 1_000_000_000_000_000_000,
        result < 100_000_000_000_000_000_000,
{
    let ghost part = chars@.subrange(from as int, to as int);
    let mut acc: u128 = 0;
    let mut i: usize = from;
    proof {
        assert(part.take(0) =~= Seq::<char>::empty());
    }
    while i < to
        invariant
            from <= i <= to <= chars.len(),
            part == chars@.subrange(from as int, to as int),
            all_digits(part),
            acc < 1_000_000_000_000_000_000 ==> acc == number_of(part.take(i - from)),
            acc >= 1_000_000_000_000_000_000 ==> number_of(part.take(i - from))
                >= 1_000_000_000_000_000_000,
            acc < 100_000_000_000_000_000_000,
        decreases to - i,
    {
        proof {
            let longer = part.take(i - from + 1);
            assert(longer.drop_last() =~= part.take(i - from));
            assert(longer.last() == part[i - from]);
            assert(part[i - from] == chars@[i as int]);
            assert(is_digit(part[i - from]));
        }
        let d: u128 = (chars[i] as u32 - '0' as u32) as u128;
        if acc < 1_000_000_000_000_000_000 {
            acc = acc * 10 + d;
        }
        i = i + 1;
    }
    proof {
        assert(part.take(i - from) =~= part);
    }
    acc
}

fn places_between(chars: &Vec<char>, from: usize, to: usize) -> (result: u128)
    requires
        from <= to <= chars.len(),
        all_digits(chars@.subrange(from as int, to as int)),
    ensures
        result == number_of(six_places(chars@.subrange(from as int, to as int))),
        result < 1_000_000,
{
    let ghost part = chars@.subrange(from as int, to as int);
    let ghost six = six_places(part);
    let mut acc: u128 = 0;
    let mut k: usize = 0;
    proof {
        assert(six.take(0) =~= Seq::<char>::empty());
        reveal_with_fuel(pow10, 8);
    }
    while k < 6
        invariant
            k <= 6,
            from <= to <= chars.len(),
            part == chars@.subrange(from as int, to as int),
            all_digits(part),
            six == six_places(part),
            acc == number_of(six.take(k as int)),
            acc < pow10(k as nat),
            pow10(k as nat) <= 1_000_000,
        decreases 6 - k,
    {
        proof {
            let longer = six.take(k + 1);
            assert(longer.drop_last() =~= six.take(k as int));
            assert(longer.last() == six[k as int]);
            if k < to - from {
                assert(part[k as int] == chars@[from + k]);
                assert(is_digit(part[k as int]));
            }
            assert(pow10((k + 1) as nat) == 10 * pow10(k as nat));
        }
        let d: u128 = if k < to - from {
            (chars[from + k] as u32 - '0' as u32) as u128
        } else {
            0
        };
        acc = acc * 10 + d;
        k = k + 1;
        proof {
            reveal_with_fuel(pow10, 8);
        }
    }
    proof {
        assert(six.take(6) =~= six);
        reveal_with_fuel(pow10, 8);
    }
    acc
}

fn parse_fixed(text: &str) -> (result: Option<Fixed>)
    ensures
        result == value_of(text@),
{
    let chars = chars_of(text);
    let negative = chars.len() > 0 && chars[0] == '-';
    let start: usize = if chars.len() > 0 && (chars[0] == '-' || chars[0] == '+') {
        1
    } else {
        0
    };
    let ghost body = if start == 1 {
        text@.drop_first()
    } else {
        text@
    };
    let mut at: usize = start;
    while at < chars.len() && chars[at] != '.'
        invariant
            start <= at <= chars.len(),
            start <= 1,
            chars@ == text@,
            body == if start == 1 {
                text@.drop_first()
            } else {
                text@
            },
            start == 1 ==> text@.len() > 0,
            forall|j: int| 0 <= j < at - start ==> #[trigger] body[j] != '.',
        decreases chars.len() - at,
    {
        proof {
            assert(body[at - start] == text@[at as int]);
        }
        at = at + 1;
    }
    proof {
        if at < chars.len() {
            assert(body[at - start] == text@[at as int]);
        }
        crate::text::lemma_index_of_char(body, '.', at - start);
        assert(body.take(at - start) =~= text@.subrange(start as int, at as int));
    }
    let places_start: usize = if at < chars.len() {
        at + 1
    } else {
        at
    };
    proof {
        let places = if at - start < body.len() {
            body.skip(at - start + 1)
        } else {
            Seq::empty()
        };
        assert(places =~= text@.subrange(places_start as int, text@.len() as int));
    }
    if !digits_between(&chars, start, at) || !digits_between(&chars, places_start, chars.len()) {
        return None;
    }
    if at == start && places_start == chars.len() {
        return None;
    }
    let whole: u128 = number_between(&chars, start, at);
    let places: u128 = places_between(&chars, places_start, chars.len());
    Some(hold(negative, whole * 1_000_000 + places))
}

// ── The operations ────────────────────────────────────────────────────────────

impl Scalar for Fixed {
    open spec fn of_spec(n: i64) -> Self {
        Fixed { millionths: clamp(n * ONE) }
    }

    open spec fn count_spec(n: u64) -> Self {
        Fixed { millionths: clamp(n * ONE) }
    }

    open spec fn max_value_spec() -> Self {
        Fixed { millionths: (i64::MAX - 1) as i64 }
    }

    open spec fn min_value_spec() -> Self {
        Fixed { millionths: (1 - i64::MAX) as i64 }
    }

    open spec fn infinity_spec() -> Self {
        Fixed { millionths: i64::MAX }
    }

    open spec fn pi_spec() -> Self {
        Fixed { millionths: 3_141_593 }
    }

    open spec fn tau_spec() -> Self {
        Fixed { millionths: 6_283_185 }
    }

    open spec fn plus_spec(self, other: Self) -> Self {
        Fixed { millionths: clamp(self.millionths + other.millionths) }
    }

    open spec fn minus_spec(self, other: Self) -> Self {
        Fixed { millionths: clamp(self.millionths - other.millionths) }
    }

    open spec fn times_spec(self, other: Self) -> Self {
        held(
            (self.millionths < 0) != (other.millionths < 0),
            magnitude(self.millionths as int) * magnitude(other.millionths as int) / 1_000_000,
        )
    }

    open spec fn over_spec(self, other: Self) -> Self {
        if other.millionths == 0 {
            if self.millionths == 0 {
                self
            } else {
                held(self.millionths < 0, i64::MAX as nat)
            }
        } else {
            held(
                (self.millionths < 0) != (other.millionths < 0),
                magnitude(self.millionths as int) * 1_000_000 / magnitude(other.millionths as int),
            )
        }
    }

    open spec fn negate_spec(self) -> Self {
        Fixed { millionths: clamp(-self.millionths) }
    }

    open spec fn abs_spec(self) -> Self {
        held(false, magnitude(self.millionths as int))
    }

    open spec fn sqrt_spec(self) -> Self {
        if self.millionths <= 0 {
            Fixed { millionths: 0 }
        } else {
            held(false, root((self.millionths * 1_000_000) as nat))
        }
    }

    open spec fn atan2_spec(self, x: Self) -> Self {
        Fixed { millionths: clamp(point_angle(self.millionths as int, x.millionths as int)) }
    }

    open spec fn min_spec(self, other: Self) -> Self {
        if other.millionths < self.millionths {
            other
        } else {
            self
        }
    }

    open spec fn max_spec(self, other: Self) -> Self {
        if self.millionths < other.millionths {
            other
        } else {
            self
        }
    }

    open spec fn round_spec(self) -> Self {
        held(
            self.millionths < 0,
            (magnitude(self.millionths as int) + 500_000) / 1_000_000 * 1_000_000,
        )
    }

    open spec fn to_degrees_spec(self) -> Self {
        held(
            self.millionths < 0,
            magnitude(self.millionths as int) * 180_000_000 / 3_141_593,
        )
    }

    open spec fn less_spec(self, other: Self) -> bool {
        self.millionths < other.millionths
    }

    open spec fn at_most_spec(self, other: Self) -> bool {
        self.millionths <= other.millionths
    }

    open spec fn same_spec(self, other: Self) -> bool {
        self.millionths == other.millionths
    }

    open spec fn is_finite_spec(self) -> bool {
        -i64::MAX < self.millionths < i64::MAX
    }

    open spec fn to_u32_spec(self) -> u32 {
        if self.millionths <= 0 {
            0
        } else if self.millionths / 1_000_000 > u32::MAX {
            u32::MAX
        } else {
            (self.millionths / 1_000_000) as u32
        }
    }

    open spec fn parse_spec(text: Seq<char>) -> Option<Self> {
        value_of(text)
    }

    open spec fn fixed_spec(self, places: nat) -> Seq<char> {
        fixed_text(self.millionths as int, places)
    }

    open spec fn display_spec(self) -> Seq<char> {
        fixed_text(
            self.millionths as int,
            places_needed(magnitude(self.millionths as int), 6),
        )
    }

    fn of(n: i64) -> (result: Self) {
        Fixed { millionths: clamped(n as i128 * 1_000_000) }
    }

    fn count(n: u64) -> (result: Self) {
        Fixed { millionths: clamped(n as i128 * 1_000_000) }
    }

    fn max_value() -> (result: Self) {
        Fixed { millionths: i64::MAX - 1 }
    }

    fn min_value() -> (result: Self) {
        Fixed { millionths: 1 - i64::MAX }
    }

    fn infinity() -> (result: Self) {
        Fixed { millionths: i64::MAX }
    }

    fn pi() -> (result: Self) {
        Fixed { millionths: 3_141_593 }
    }

    fn tau() -> (result: Self) {
        Fixed { millionths: 6_283_185 }
    }

    fn plus(self, other: Self) -> (result: Self) {
        Fixed { millionths: clamped(self.millionths as i128 + other.millionths as i128) }
    }

    fn minus(self, other: Self) -> (result: Self) {
        Fixed { millionths: clamped(self.millionths as i128 - other.millionths as i128) }
    }

    fn times(self, other: Self) -> (result: Self) {
        let a: u128 = size_of_number(self.millionths);
        let b: u128 = size_of_number(other.millionths);
        assert(a * b <= 0x8000_0000_0000_0000 * 0x8000_0000_0000_0000) by (nonlinear_arith)
            requires
                0 <= a <= 0x8000_0000_0000_0000,
                0 <= b <= 0x8000_0000_0000_0000,
        ;
        hold((self.millionths < 0) != (other.millionths < 0), a * b / 1_000_000)
    }

    fn over(self, other: Self) -> (result: Self) {
        if other.millionths == 0 {
            if self.millionths == 0 {
                self
            } else {
                hold(self.millionths < 0, i64::MAX as u128)
            }
        } else {
            let a: u128 = size_of_number(self.millionths);
            let b: u128 = size_of_number(other.millionths);
            hold((self.millionths < 0) != (other.millionths < 0), a * 1_000_000 / b)
        }
    }

    fn negate(self) -> (result: Self) {
        Fixed { millionths: clamped(-(self.millionths as i128)) }
    }

    fn abs(self) -> (result: Self) {
        hold(false, size_of_number(self.millionths))
    }

    fn sqrt(self) -> (result: Self) {
        if self.millionths <= 0 {
            Fixed { millionths: 0 }
        } else {
            hold(false, integer_root(self.millionths as u128 * 1_000_000))
        }
    }

    fn atan2(self, x: Self) -> (result: Self) {
        let a: i64 = quadrant_angle_of(
            size_of_number(self.millionths),
            size_of_number(x.millionths),
        );
        let b: i64 = if x.millionths < 0 {
            3_141_593 - a
        } else {
            a
        };
        if self.millionths < 0 {
            Fixed { millionths: -b }
        } else {
            Fixed { millionths: b }
        }
    }

    fn min(self, other: Self) -> (result: Self) {
        if other.millionths < self.millionths {
            other
        } else {
            self
        }
    }

    fn max(self, other: Self) -> (result: Self) {
        if self.millionths < other.millionths {
            other
        } else {
            self
        }
    }

    fn round(self) -> (result: Self) {
        hold(
            self.millionths < 0,
            (size_of_number(self.millionths) + 500_000) / 1_000_000 * 1_000_000,
        )
    }

    fn to_degrees(self) -> (result: Self) {
        hold(self.millionths < 0, size_of_number(self.millionths) * 180_000_000 / 3_141_593)
    }

    fn less(self, other: Self) -> (result: bool) {
        self.millionths < other.millionths
    }

    fn at_most(self, other: Self) -> (result: bool) {
        self.millionths <= other.millionths
    }

    fn same(self, other: Self) -> (result: bool) {
        self.millionths == other.millionths
    }

    fn is_finite(self) -> (result: bool) {
        -i64::MAX < self.millionths && self.millionths < i64::MAX
    }

    fn to_u32(self) -> (result: u32) {
        if self.millionths <= 0 {
            0
        } else {
            let whole: i64 = self.millionths / 1_000_000;
            if whole > u32::MAX as i64 {
                u32::MAX
            } else {
                whole as u32
            }
        }
    }

    fn parse(text: &str) -> (result: Option<Self>) {
        parse_fixed(text)
    }

    fn fixed(self, places: usize) -> (result: String) {
        let mut text = String::new();
        if places <= 6 {
            push_short_text(&mut text, self.millionths, places);
        } else {
            push_short_text(&mut text, self.millionths, 6);
            let ghost head = text@;
            let mut k: usize = 6;
            proof {
                assert(text@ =~= head + zeros(0));
            }
            while k < places
                invariant
                    6 <= k <= places,
                    text@ == head + zeros((k - 6) as nat),
                decreases places - k,
            {
                text.push('0');
                k = k + 1;
                proof {
                    assert(text@ =~= head + zeros((k - 6) as nat));
                }
            }
        }
        text
    }

    fn display(self) -> (result: String) {
        let size: u128 = size_of_number(self.millionths);
        let mut places: usize = 6;
        while places > 0 && size % power_of_ten(7 - places) == 0
            invariant
                places <= 6,
                places_needed(size as nat, 6) == places_needed(size as nat, places as nat),
            decreases places,
        {
            places = places - 1;
        }
        let mut text = String::new();
        push_short_text(&mut text, self.millionths, places);
        text
    }
}

} // verus!
