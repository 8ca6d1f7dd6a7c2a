//! The numerals that a weight may be written as: an optional sign, then
//! `inf` or `infinity` in any letter case, or decimal digits with an optional
//! point and an optional exponent.

use crate::binary64::{
    is_nearest,
    lemma_nearest_is,
    lemma_overflow,
    magnitude,
    midpoint,
    nearest,
    nearest_magnitude,
    INFINITY,
    ONE,
    SIGN,
};
use crate::natural::Natural;
use vstd::arithmetic::power::{lemma_pow0, lemma_pow_adds, lemma_pow_positive, pow};
use vstd::arithmetic::power2::{lemma2_to64, lemma_pow2_adds, lemma_pow2_pos, lemma_pow2_unfold, pow2};
use vstd::prelude::*;

verus! {

/// What a numeral says: infinity, or the decimal number `digits * 10^exponent`.
pub enum Number {
    Infinite { negative: bool },
    Finite { negative: bool, digits: nat, exponent: int },
}

/// Whether `c` is one of the ten decimal digits.
pub open spec fn is_digit(c: char) -> bool {
    '0' <= c && c <= '9'
}

/// The digit that `c` shows.
pub open spec fn digit_of(c: char) -> nat {
    (c as u32 - 48) as nat
}

/// The index at which the run of digits that starts at `from` ends.
pub open spec fn digits_end(text: Seq<char>, from: int) -> int
    decreases text.len() - from,
{
    if 0 <= from < text.len() && is_digit(text[from]) {
        digits_end(text, from + 1)
    } else {
        from
    }
}

/// The number that a sequence of digits shows.
pub open spec fn digits_value(digits: Seq<char>) -> nat
    decreases digits.len(),
{
    if digits.len() == 0 {
        0
    } else {
        10 * digits_value(digits.drop_last()) + digit_of(digits.last())
    }
}

/// Whether `c` is the letter `lower` in either case; `upper` is its capital.
pub open spec fn is_letter(c: char, lower: char, upper: char) -> bool {
    c == lower || c == upper
}

/// Whether `word` spells `inf` or `infinity`, in any mix of cases.
pub open spec fn spells_infinity(word: Seq<char>) -> bool {
    &&& word.len() == 3 || word.len() == 8
    &&& is_letter(word[0], 'i', 'I')
    &&& is_letter(word[1], 'n', 'N')
    &&& is_letter(word[2], 'f', 'F')
    &&& word.len() == 8 ==> {
        &&& is_letter(word[3], 'i', 'I')
        &&& is_letter(word[4], 'n', 'N')
        &&& is_letter(word[5], 'i', 'I')
        &&& is_letter(word[6], 't', 'T')
        &&& is_letter(word[7], 'y', 'Y')
    }
}

/// The number of characters that a sign takes at `from`: one or none.
pub open spec fn sign_len(text: Seq<char>, from: int) -> int {
    if 0 <= from < text.len() && (text[from] == '+' || text[from] == '-') {
        1
    } else {
        0
    }
}

/// Whether a minus sign stands at `from`.
pub open spec fn minus_at(text: Seq<char>, from: int) -> bool {
    0 <= from < text.len() && text[from] == '-'
}

/// The exponent written from `from` to the end of `text`: an optional sign
/// and at least one digit, nothing else.
pub open spec fn exponent_at(text: Seq<char>, from: int) -> Option<int> {
    let start = from + sign_len(text, from);
    let end = digits_end(text, start);
    if start < end && end == text.len() {
        let size = digits_value(text.subrange(start, end));
        Some(if minus_at(text, from) { -size } else { size as int })
    } else {
        None
    }
}

/// The digits and the exponent of the decimal numeral written from `from` to
/// the end of `text`: digits before and after an optional point, at least
/// one in all, then an optional `e` or `E` with an exponent.
pub open spec fn decimal_at(text: Seq<char>, from: int) -> Option<(nat, int)> {
    let a = digits_end(text, from);
    let pointed = a < text.len() && text[a] == '.';
    let b = if pointed { digits_end(text, a + 1) } else { a };
    let whole = text.subrange(from, a);
    let fraction = if pointed { text.subrange(a + 1, b) } else { Seq::<char>::empty() };
    if whole.len() + fraction.len() == 0 {
        None
    } else if b == text.len() {
        Some((digits_value(whole + fraction), -(fraction.len() as int)))
    } else if text[b] == 'e' || text[b] == 'E' {
        match exponent_at(text, b + 1) {
            Some(exponent) => Some((digits_value(whole + fraction), exponent - fraction.len())),
            None => None,
        }
    } else {
        None
    }
}

/// What `text` says as a numeral, if it is one. Everything else is not a
/// number: a text with anything before or after the numeral, and `nan`.
pub open spec fn number_of(text: Seq<char>) -> Option<Number> {
    let start = sign_len(text, 0);
    let negative = minus_at(text, 0);
    if text.len() >= start + 3 && spells_infinity(text.skip(start)) {
        Some(Number::Infinite { negative })
    } else {
        match decimal_at(text, start) {
            Some((digits, exponent)) => Some(Number::Finite { negative, digits, exponent }),
            None => None,
        }
    }
}

/// Ten to the power of `n`.
pub open spec fn pow10(n: nat) -> nat {
    pow(10, n) as nat
}

/// The magnitude pattern with the sign put on.
pub open spec fn signed(negative: bool, k: nat) -> u64 {
    if negative {
        (SIGN + k) as u64
    } else {
        k as u64
    }
}

/// The magnitude pattern nearest to `digits * 10^exponent`.
pub open spec fn finite_pattern(digits: nat, exponent: int) -> nat {
    if exponent >= 0 {
        nearest(digits * pow10(exponent as nat), 1)
    } else {
        nearest(digits, pow10((-exponent) as nat))
    }
}

/// The bit pattern of the binary64 number nearest to `number`.
pub open spec fn bits_of(number: Number) -> u64 {
    match number {
        Number::Infinite { negative } => signed(negative, INFINITY as nat),
        Number::Finite { negative, digits, exponent } => signed(
            negative,
            finite_pattern(digits, exponent),
        ),
    }
}

/// Whether `value` is written with `count` digits, none for zero.
pub open spec fn has_digits(value: nat, count: nat) -> bool {
    if count == 0 {
        value == 0
    } else {
        pow10((count - 1) as nat) <= value < pow10(count)
    }
}

/// The least of two numbers.
pub open spec fn least(a: nat, b: nat) -> nat {
    if a <= b {
        a
    } else {
        b
    }
}

/// From here on the size of an exponent is no longer counted: with patterns
/// of 64 bits and texts of less than 2^64 characters, every exponent of this
/// size or more gives infinity or zero.
pub const LIMIT: u128 = 0x40_0000_0000_0000_0000;

/// The powers of ten are positive, and each is ten times the last.
pub proof fn lemma_pow10(n: nat)
    ensures
        pow10(n) > 0,
        pow10(0) == 1,
        pow10(n + 1) == 10 * pow10(n),
{
    lemma_pow_positive(10, n);
    lemma_pow0(10);
    reveal(pow);
}

/// Ten to the power of a sum is the product of the powers.
pub proof fn lemma_pow10_adds(a: nat, b: nat)
    ensures
        pow10(a + b) == pow10(a) * pow10(b),
{
    lemma_pow_adds(10, a, b);
    lemma_pow_positive(10, a);
    lemma_pow_positive(10, b);
    lemma_pow_positive(10, a + b);
}

/// Ten to the power of `n` is at least eight to the power of `n`.
pub proof fn lemma_pow10_above(n: nat)
    ensures
        pow10(n) >= pow2(3 * n),
    decreases n,
{
    lemma2_to64();
    lemma_pow10(n);
    if n > 0 {
        let m = (n - 1) as nat;
        lemma_pow10_above(m);
        lemma_pow10(m);
        lemma_pow2_adds(3 * m, 3);
        lemma_pow2_pos(3 * m);
        assert(10 * pow10(m) >= pow2(3 * m) * 8) by (nonlinear_arith)
            requires
                pow10(m) >= pow2(3 * m),
        ;
    }
}

/// The powers of two never fall.
pub proof fn lemma_pow2_increases(a: nat, b: nat)
    requires
        a <= b,
    ensures
        pow2(a) <= pow2(b),
{
    if a < b {
        vstd::arithmetic::power2::lemma_pow2_strictly_increases(a, b);
    }
}

/// No digits show zero, and one more digit behind a number shows ten times
/// the number and the digit.
pub proof fn lemma_digits_push(digits: Seq<char>, c: char)
    ensures
        digits_value(Seq::<char>::empty()) == 0,
        digits_value(digits.push(c)) == 10 * digits_value(digits) + digit_of(c),
{
    assert(digits.push(c).drop_last() =~= digits);
}

/// One more digit behind a number written with `count` digits.
pub proof fn lemma_has_digits_push(value: nat, count: nat, digit: nat)
    requires
        has_digits(value, count),
        digit < 10,
    ensures
        has_digits(10 * value + digit, if count == 0 && digit == 0 { 0 } else { count + 1 }),
{
    lemma_pow10(count);
    if count > 0 {
        lemma_pow10((count - 1) as nat);
    }
}

/// Zero has the pattern zero nearest, whatever it is divided by.
pub proof fn lemma_zero(den: nat)
    requires
        den > 0,
    ensures
        nearest(0, den) == 0,
{
    assert(2 * 0 * pow2(1074) == 0) by (nonlinear_arith);
    assert(den * midpoint(0) >= 0) by (nonlinear_arith)
        requires
            midpoint(0) >= 0,
    ;
    assert(is_nearest(0, den, 0));
    lemma_nearest_is(0, den, 0);
}

/// A number of more than 342 digits before the point is beyond every finite
/// pattern.
pub proof fn lemma_huge(digits: nat, count: nat, exponent: int)
    requires
        count > 0,
        has_digits(digits, count),
        count + exponent > 342,
    ensures
        finite_pattern(digits, exponent) == INFINITY,
{
    lemma_pow10_above(342);
    lemma_pow2_increases(1024, 1026);
    lemma_pow2_adds(1074, 1024);
    lemma_pow2_pos(1074);
    let big = pow2(1024);
    let unit = pow2(1074);
    let low = pow10((count - 1) as nat);
    if exponent >= 0 {
        let e = exponent as nat;
        let tens = pow10(e);
        let num = digits * tens;
        lemma_pow10_adds((count - 1) as nat, e);
        lemma_pow10_adds(342, (count - 1 + e - 342) as nat);
        lemma_pow10((count - 1 + e - 342) as nat);
        lemma_pow10(e);
        assert(num >= low * tens) by (nonlinear_arith)
            requires
                num == digits * tens,
                digits >= low,
                tens > 0,
        ;
        let rest = pow10((count - 1 + e - 342) as nat);
        assert(pow10(342) * rest >= big) by (nonlinear_arith)
            requires
                pow10(342) >= big,
                rest >= 1,
        ;
        assert(num * unit >= 1 * (unit * big)) by (nonlinear_arith)
            requires
                num >= big,
                unit > 0,
        ;
        lemma_overflow(num, 1);
        lemma_nearest_is(num, 1, INFINITY as nat);
    } else {
        let e = (-exponent) as nat;
        let den = pow10(e);
        lemma_pow10(e);
        let more = (count - 1 - e) as nat;
        lemma_pow10_adds(more, e);
        lemma_pow10_adds(342, (more - 342) as nat);
        lemma_pow10((more - 342) as nat);
        let rest = pow10((more - 342) as nat);
        assert(pow10(more) >= big) by (nonlinear_arith)
            requires
                pow10(more) == pow10(342) * rest,
                pow10(342) >= big,
                rest >= 1,
        ;
        assert(digits * unit >= den * (unit * big)) by (nonlinear_arith)
            requires
                digits >= pow10(more) * den,
                pow10(more) >= big,
                den > 0,
                unit > 0,
        ;
        lemma_overflow(digits, den);
        lemma_nearest_is(digits, den, INFINITY as nat);
    }
}

/// A number whose first digit stands more than 358 places behind the point
/// is nearer to zero than to any other pattern.
pub proof fn lemma_tiny(digits: nat, count: nat, exponent: int)
    requires
        has_digits(digits, count),
        count + exponent < -358,
    ensures
        finite_pattern(digits, exponent) == 0,
{
    let e = (-exponent) as nat;
    let den = pow10(e);
    let gap = (e - count) as nat;
    lemma_pow10(e);
    lemma_pow10(count);
    lemma_pow10_adds(count, gap);
    lemma_pow10_adds(359, (gap - 359) as nat);
    lemma_pow10((gap - 359) as nat);
    lemma_pow10_above(359);
    lemma_pow2_increases(1075, 1077);
    lemma_pow2_unfold(1075);
    let half = pow2(1075);
    let rest = pow10((gap - 359) as nat);
    assert(pow10(gap) >= half) by (nonlinear_arith)
        requires
            pow10(gap) == pow10(359) * rest,
            pow10(359) >= half,
            rest >= 1,
    ;
    let twice = 2 * digits * pow2(1074);
    assert(twice <= den) by (nonlinear_arith)
        requires
            twice == 2 * digits * pow2(1074),
            half == 2 * pow2(1074),
            digits <= pow10(count),
            den == pow10(count) * pow10(gap),
            pow10(gap) >= half,
            pow10(count) > 0,
    ;
    assert(magnitude(0) == 0 && magnitude(1) == 1);
    assert(den * midpoint(0) == den) by (nonlinear_arith)
        requires
            midpoint(0) == 1,
    ;
    assert(is_nearest(digits, den, 0));
    lemma_nearest_is(digits, den, 0);
}

/// The numeral `1` says the number one, whose pattern is `ONE`.
pub proof fn lemma_numeral_one()
    ensures
        number_of(seq!['1']) == Some(Number::Finite { negative: false, digits: 1, exponent: 0 }),
        bits_of(Number::Finite { negative: false, digits: 1, exponent: 0 }) == ONE,
{
    let text = seq!['1'];
    assert(digits_end(text, 1) == 1);
    assert(digits_end(text, 0) == 1);
    let whole = text.subrange(0, 1);
    assert(whole + Seq::<char>::empty() =~= text);
    lemma_digits_push(Seq::<char>::empty(), '1');
    assert(text =~= Seq::<char>::empty().push('1'));
    assert(digits_value(text) == 1);
    lemma_pow10(0);
    assert(1 * pow10(0) == 1);
    crate::binary64::lemma_one();
}

/// Whether `c` is a decimal digit.
pub fn is_decimal_digit(c: char) -> (r: bool)
    ensures
        r == is_digit(c),
{
    c >= '0' && c <= '9'
}

/// Reads the digits that start at `from` behind the number in `acc`, which
/// was read from `seen`, and counts its digits from the first that is not
/// zero.
fn read_digits(
    text: &Vec<char>,
    from: usize,
    acc: &mut Natural,
    count: &mut usize,
    Ghost(seen): Ghost<Seq<char>>,
) -> (end: usize)
    requires
        from <= text.len(),
        old(acc).wf(),
        old(acc)@ == digits_value(seen),
        has_digits(old(acc)@, *old(count) as nat),
        *old(count) + (text.len() - from) <= usize::MAX,
    ensures
        end == digits_end(text@, from as int),
        from <= end <= text.len(),
        final(acc).wf(),
        final(acc)@ == digits_value(seen + text@.subrange(from as int, end as int)),
        has_digits(final(acc)@, *final(count) as nat),
        *final(count) <= *old(count) + (end - from),
{
    let mut i: usize = from;
    proof {
        assert(seen + text@.subrange(from as int, from as int) =~= seen);
    }
    while i < text.len() && is_decimal_digit(text[i])
        invariant
            from <= i <= text.len(),
            acc.wf(),
            acc@ == digits_value(seen + text@.subrange(from as int, i as int)),
            has_digits(acc@, *count as nat),
            *count <= *old(count) + (i - from),
            *old(count) + (text.len() - from) <= usize::MAX,
            digits_end(text@, from as int) == digits_end(text@, i as int),
        decreases text.len() - i,
    {
        let c = text[i];
        let digit: u32 = c as u32 - 48;
        proof {
            let before = seen + text@.subrange(from as int, i as int);
            lemma_digits_push(before, c);
            assert(before.push(c) =~= seen + text@.subrange(from as int, i + 1));
            lemma_has_digits_push(acc@, *count as nat, digit as nat);
        }
        acc.scale_add(10, digit);
        if !(*count == 0 && digit == 0) {
            *count = *count + 1;
        }
        i += 1;
    }
    i
}

/// Reads the digits that start at `from` as a number, which stops growing
/// at `LIMIT`.
fn read_size(text: &Vec<char>, from: usize) -> (r: (usize, u128))
    requires
        from <= text.len(),
    ensures
        r.0 == digits_end(text@, from as int),
        from <= r.0 <= text.len(),
        r.1 == least(digits_value(text@.subrange(from as int, r.0 as int)), LIMIT as nat),
{
    let mut i: usize = from;
    let mut size: u128 = 0;
    proof {
        lemma_digits_push(Seq::<char>::empty(), '0');
        assert(text@.subrange(from as int, from as int) =~= Seq::<char>::empty());
    }
    while i < text.len() && is_decimal_digit(text[i])
        invariant
            from <= i <= text.len(),
            size == least(digits_value(text@.subrange(from as int, i as int)), LIMIT as nat),
            digits_end(text@, from as int) == digits_end(text@, i as int),
        decreases text.len() - i,
    {
        let c = text[i];
        let digit: u32 = c as u32 - 48;
        proof {
            let before = text@.subrange(from as int, i as int);
            lemma_digits_push(before, c);
            assert(before.push(c) =~= text@.subrange(from as int, i + 1));
        }
        size = size * 10 + digit as u128;
        if size > LIMIT {
            size = LIMIT;
        }
        i += 1;
    }
    (i, size)
}

/// Multiplies `n` by ten to the power of `power`.
fn times_power_of_ten(n: &mut Natural, power: u128)
    requires
        old(n).wf(),
    ensures
        final(n).wf(),
        final(n)@ == old(n)@ * pow10(power as nat),
{
    let mut j: u128 = 0;
    let ghost start = n@;
    proof {
        lemma_pow10(0);
        assert(n@ * 1 == n@);
    }
    while j < power
        invariant
            j <= power,
            n.wf(),
            start == old(n)@,
            n@ == start * pow10(j as nat),
        decreases power - j,
    {
        n.scale_add(10, 0);
        proof {
            lemma_pow10(j as nat);
            let h = pow10(j as nat);
            assert(start * h * 10 == start * (10 * h)) by (nonlinear_arith);
        }
        j += 1;
    }
}

/// The magnitude pattern nearest to `digits * 10^exponent`, where the
/// exponent is `exact`, with a minus sign if `minus`, less `fraction`.
/// `size` is `exact` as far as it was counted.
fn finite_magnitude(
    digits: Natural,
    count: usize,
    fraction: usize,
    minus: bool,
    size: u128,
    Ghost(exact): Ghost<nat>,
) -> (k: u64)
    requires
        digits.wf(),
        has_digits(digits@, count as nat),
        size == least(exact, LIMIT as nat),
    ensures
        k == finite_pattern(digits@, (if minus { -exact } else { exact as int }) - fraction),
        k <= INFINITY,
{
    let ghost exponent = (if minus { -exact } else { exact as int }) - fraction;
    let counted: i128 = if minus { -(size as i128) } else { size as i128 };
    let shift: i128 = counted - fraction as i128;
    if count == 0 {
        proof {
            if exponent >= 0 {
                assert(0 * pow10(exponent as nat) == 0);
                lemma_zero(1);
            } else {
                lemma_pow10((-exponent) as nat);
                lemma_zero(pow10((-exponent) as nat));
            }
        }
        return 0;
    }
    let place: i128 = count as i128 + shift;
    if place > 342 {
        proof {
            lemma_huge(digits@, count as nat, exponent);
        }
        return INFINITY;
    }
    if place < -358 {
        proof {
            lemma_tiny(digits@, count as nat, exponent);
        }
        return 0;
    }
    assert(size < LIMIT);
    assert(shift == exponent);
    if shift >= 0 {
        let mut num = digits;
        times_power_of_ten(&mut num, shift as u128);
        let den = Natural::from_u32(1);
        nearest_magnitude(num, den)
    } else {
        let mut den = Natural::from_u32(1);
        times_power_of_ten(&mut den, (-shift) as u128);
        proof {
            lemma_pow10((-shift) as nat);
            assert(1 * pow10((-shift) as nat) == pow10((-shift) as nat));
        }
        nearest_magnitude(digits, den)
    }
}

/// Whether the characters from `from` to the end spell `inf` or `infinity`.
fn reads_infinity(text: &Vec<char>, from: usize) -> (r: bool)
    requires
        from <= text.len(),
    ensures
        r == (text.len() >= from + 3 && spells_infinity(text@.skip(from as int))),
{
    let n = text.len() - from;
    if n != 3 && n != 8 {
        return false;
    }
    let ghost word = text@.skip(from as int);
    assert(forall|j: int| 0 <= j < n ==> word[j] == text@[from + j]);
    let short = (text[from] == 'i' || text[from] == 'I') && (text[from + 1] == 'n' || text[from
        + 1] == 'N') && (text[from + 2] == 'f' || text[from + 2] == 'F');
    if n == 3 {
        return short;
    }
    short && (text[from + 3] == 'i' || text[from + 3] == 'I') && (text[from + 4] == 'n' || text[from
        + 4] == 'N') && (text[from + 5] == 'i' || text[from + 5] == 'I') && (text[from + 6] == 't'
        || text[from + 6] == 'T') && (text[from + 7] == 'y' || text[from + 7] == 'Y')
}

/// The magnitude pattern with the sign put on.
fn with_sign(negative: bool, k: u64) -> (bits: u64)
    requires
        k <= INFINITY,
    ensures
        bits == signed(negative, k as nat),
{
    if negative {
        SIGN + k
    } else {
        k
    }
}

/// The bit pattern of the binary64 number nearest to what `text` says, or
/// `None` where `text` is not a numeral.
pub fn parse_number(text: &Vec<char>) -> (bits: Option<u64>)
    ensures
        bits == match number_of(text@) {
            Some(number) => Some(bits_of(number)),
            None => None,
        },
{
    let n = text.len();
    let start: usize = if n > 0 && (text[0] == '+' || text[0] == '-') {
        1
    } else {
        0
    };
    let negative = n > 0 && text[0] == '-';
    if reads_infinity(text, start) {
        return Some(with_sign(negative, INFINITY));
    }
    let mut digits = Natural::from_u32(0);
    let mut count: usize = 0;
    proof {
        lemma_digits_push(Seq::<char>::empty(), '0');
        lemma_pow10(0);
    }
    let a = read_digits(text, start, &mut digits, &mut count, Ghost(Seq::<char>::empty()));
    let ghost whole = text@.subrange(start as int, a as int);
    assert(Seq::<char>::empty() + whole =~= whole);
    let pointed = a < n && text[a] == '.';
    let b = if pointed {
        read_digits(text, a + 1, &mut digits, &mut count, Ghost(whole))
    } else {
        a
    };
    let fraction: usize = if pointed {
        b - a - 1
    } else {
        0
    };
    let ghost behind = if pointed {
        text@.subrange(a + 1, b as int)
    } else {
        Seq::<char>::empty()
    };
    assert(whole + Seq::<char>::empty() =~= whole);
    if a - start + fraction == 0 {
        return None;
    }
    if b == n {
        let k = finite_magnitude(digits, count, fraction, false, 0, Ghost(0));
        return Some(with_sign(negative, k));
    }
    if text[b] == 'e' || text[b] == 'E' {
        let mark = b + 1;
        let signed_at: usize = if mark < n && (text[mark] == '+' || text[mark] == '-') {
            mark + 1
        } else {
            mark
        };
        let minus = mark < n && text[mark] == '-';
        let (end, size) = read_size(text, signed_at);
        if signed_at < end && end == n {
            let ghost exact = digits_value(text@.subrange(signed_at as int, end as int));
            let k = finite_magnitude(digits, count, fraction, minus, size, Ghost(exact));
            return Some(with_sign(negative, k));
        }
        return None;
    }
    None
}

} // verus!
