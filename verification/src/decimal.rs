//! Decimal texts of floating-point numbers.
use crate::bignat::BigNat;
use crate::binary::{
    grid, is_nearest, lemma_nearest_unique, nearest_64, one_64, reaches, round_64, Binary64, NAN_64,
    TOP_64,
};
use crate::text::{
    all_digits, decimal_value, digit_of, first_part, is_all_digits, is_digit, lemma_run_length,
    rest_from, run_length, same,
};
use vstd::arithmetic::power2::{lemma_pow2_adds, lemma_pow2_pos, pow2};
use vstd::prelude::*;

verus! {

/// A power of ten.
pub open spec fn ten_to(k: nat) -> nat
    decreases k,
{
    if k == 0 {
        1
    } else {
        10 * ten_to((k - 1) as nat)
    }
}

/// The magnitude nearest to `digits * 10^exponent`.
pub open spec fn scaled_magnitude(digits: nat, exponent: int) -> nat {
    if exponent >= 0 {
        nearest_64(digits * ten_to(exponent as nat) * one_64(), 1)
    } else {
        nearest_64(digits * one_64(), ten_to((-exponent) as nat))
    }
}

/// A character that does not end the mantissa of a numeral.
pub open spec fn is_mantissa_char(c: char) -> bool {
    c != 'e' && c != 'E'
}

/// A character that is not the point of a mantissa.
pub open spec fn is_before_point(c: char) -> bool {
    c != '.'
}

/// The digits before the point of a mantissa.
pub open spec fn integer_digits(mantissa: Seq<char>) -> Seq<char> {
    mantissa.take(run_length(mantissa, |c: char| is_before_point(c)) as int)
}

/// The digits after the point of a mantissa.
pub open spec fn fraction_digits(mantissa: Seq<char>) -> Seq<char> {
    let k = run_length(mantissa, |c: char| is_before_point(c));
    if k < mantissa.len() {
        mantissa.skip((k + 1) as int)
    } else {
        Seq::empty()
    }
}

/// Whether a text is a mantissa: digits with at most one point, and at least one
/// digit.
pub open spec fn is_mantissa(s: Seq<char>) -> bool {
    &&& all_digits(integer_digits(s))
    &&& all_digits(fraction_digits(s))
    &&& integer_digits(s).len() + fraction_digits(s).len() > 0
}

/// The integer that the text after the exponent mark writes.
pub open spec fn exponent_value(s: Seq<char>) -> Option<int> {
    let signed = s.len() > 0 && (s[0] == '-' || s[0] == '+');
    let digits = if signed {
        s.drop_first()
    } else {
        s
    };
    if digits.len() > 0 && all_digits(digits) {
        if signed && s[0] == '-' {
            Some(-(decimal_value(digits) as int))
        } else {
            Some(decimal_value(digits) as int)
        }
    } else {
        None
    }
}

/// The magnitude that a numeral without sign writes: a mantissa, optionally
/// followed by an exponent.
pub open spec fn numeral_magnitude(s: Seq<char>) -> Option<nat> {
    let k = run_length(s, |c: char| is_mantissa_char(c));
    let mantissa = s.take(k as int);
    let exponent = if k < s.len() {
        exponent_value(s.skip((k + 1) as int))
    } else {
        Some(0int)
    };
    match exponent {
        Some(e) => if is_mantissa(mantissa) {
            let fraction = fraction_digits(mantissa);
            Some(
                scaled_magnitude(
                    decimal_value(integer_digits(mantissa) + fraction),
                    e - fraction.len(),
                ),
            )
        } else {
            None
        },
        None => None,
    }
}

/// The ASCII lower-case form of a character.
pub open spec fn lower(c: char) -> char {
    if 'A' <= c <= 'Z' {
        (c as u32 + 32) as char
    } else {
        c
    }
}

/// The ASCII lower-case form of a text.
pub open spec fn lowered(s: Seq<char>) -> Seq<char> {
    Seq::new(s.len(), |i: int| lower(s[i]))
}

/// The number that a text writes: an optional sign, then `inf`, `infinity` or
/// `nan` in any case, or a numeral.
pub open spec fn float_value(s: Seq<char>) -> Option<Binary64> {
    let signed = s.len() > 0 && (s[0] == '-' || s[0] == '+');
    let sign = signed && s[0] == '-';
    let body = if signed {
        s.drop_first()
    } else {
        s
    };
    if lowered(body) == "inf"@ || lowered(body) == "infinity"@ {
        Some(Binary64::from_parts(sign, TOP_64 as nat))
    } else if lowered(body) == "nan"@ {
        Some(Binary64::from_parts(sign, NAN_64 as nat))
    } else {
        match numeral_magnitude(body) {
            Some(m) => Some(Binary64::from_parts(sign, m)),
            None => None,
        }
    }
}

proof fn lemma_ten_grows(k: nat)
    ensures
        ten_to(k) >= pow2(3 * k),
        ten_to(k) > 0,
    decreases k,
{
    if k == 0 {
        vstd::arithmetic::power2::lemma2_to64();
    } else {
        lemma_ten_grows((k - 1) as nat);
        lemma_pow2_adds(3, (3 * (k - 1)) as nat);
        vstd::arithmetic::power2::lemma2_to64();
        assert(3 + 3 * (k - 1) == 3 * k);
    }
}

proof fn lemma_ten_adds(a: nat, b: nat)
    ensures
        ten_to(a + b) == ten_to(a) * ten_to(b),
    decreases a,
{
    if a == 0 {
        assert(1 * ten_to(b) == ten_to(b));
    } else {
        lemma_ten_adds((a - 1) as nat, b);
        let t = ten_to((a - 1) as nat);
        let u = ten_to(b);
        assert((10 * t) * u == 10 * (t * u)) by (nonlinear_arith);
        assert((a + b - 1) as nat == (a - 1) as nat + b);
    }
}

proof fn lemma_decimal_below(s: Seq<char>)
    requires
        all_digits(s),
    ensures
        decimal_value(s) < ten_to(s.len()),
    decreases s.len(),
{
    if s.len() > 0 {
        assert(all_digits(s.drop_last())) by {
            assert forall|i: int| 0 <= i < s.drop_last().len() implies is_digit(
                #[trigger] s.drop_last()[i],
            ) by {
                assert(s.drop_last()[i] == s[i]);
            }
        }
        lemma_decimal_below(s.drop_last());
        assert(is_digit(s[s.len() - 1]));
    }
}

proof fn lemma_overflow(digits: nat, exponent: nat)
    requires
        digits > 0,
        exponent > 400,
    ensures
        nearest_64(digits * ten_to(exponent) * one_64(), 1) == TOP_64,
{
    let num = digits * ten_to(exponent) * one_64();
    let top = TOP_64 as nat;
    lemma_ten_grows(exponent);
    vstd::arithmetic::power2::lemma_pow2_strictly_increases(1200, 3 * exponent);
    lemma_pow2_pos(1074);
    assert(num >= pow2(1200) * one_64()) by (nonlinear_arith)
        requires
            num == digits * ten_to(exponent) * one_64(),
            digits >= 1,
            ten_to(exponent) >= pow2(1200),
    ;
    lemma_pow2_adds(1200, 1074);
    vstd::arithmetic::power2::lemma2_to64_rest();
    assert(grid(52, top) == pow2(52) * pow2(2046));
    lemma_pow2_adds(52, 2046);
    crate::binary::lemma_grid_increases(52, (top - 1) as nat);
    vstd::arithmetic::power2::lemma_pow2_strictly_increases(2098, 2274);
    assert(reaches(52, num, 1, top));
    assert(is_nearest(52, top, num, 1, top));
    lemma_nearest_unique(52, top, num, 1, top);
}

proof fn lemma_underflow(digits: nat, places: nat, shift: nat)
    requires
        digits < ten_to(places),
        shift >= places + 400,
    ensures
        nearest_64(digits * one_64(), ten_to(shift)) == 0,
{
    let num = digits * one_64();
    let den = ten_to(shift);
    let extra = (shift - places) as nat;
    lemma_ten_adds(places, extra);
    lemma_ten_grows(extra);
    lemma_ten_grows(shift);
    vstd::arithmetic::power2::lemma_pow2_strictly_increases(1075, 3 * extra);
    vstd::arithmetic::power2::lemma_pow2_unfold(1075);
    let a = ten_to(places);
    let b = ten_to(extra);
    let one = one_64();
    assert(2 * num <= den) by (nonlinear_arith)
        requires
            num == digits * one,
            den == a * b,
            digits <= a,
            b >= 2 * one,
    ;
    assert(grid(52, 0) == 0 && grid(52, 1) == 1) by {
        vstd::arithmetic::power2::lemma2_to64_rest();
    }
    assert(1 * den == den);
    assert(!reaches(52, num, den, 1));
    assert(is_nearest(52, TOP_64 as nat, num, den, 0));
    lemma_nearest_unique(52, TOP_64 as nat, num, den, 0);
}

proof fn lemma_zero(exponent: int)
    ensures
        scaled_magnitude(0, exponent) == 0,
{
    let den: nat = if exponent >= 0 {
        1
    } else {
        ten_to((-exponent) as nat)
    };
    if exponent < 0 {
        lemma_ten_grows((-exponent) as nat);
        assert(0 * one_64() == 0) by (nonlinear_arith);
    } else {
        assert(0 * ten_to(exponent as nat) * one_64() == 0) by (nonlinear_arith);
    }
    assert(grid(52, 0) == 0 && grid(52, 1) == 1) by {
        vstd::arithmetic::power2::lemma2_to64_rest();
    }
    assert(1 * den == den);
    assert(!reaches(52, 0, den, 1));
    assert(is_nearest(52, TOP_64 as nat, 0, den, 0));
    lemma_nearest_unique(52, TOP_64 as nat, 0, den, 0);
}

/// A power of ten.
fn power_of_ten(k: u128) -> (r: BigNat)
    ensures
        r@ == ten_to(k as nat),
        r@ > 0,
{
    let mut total = BigNat::from_u64(1);
    let mut i: u128 = 0;
    while i < k
        invariant
            i <= k,
            total@ == ten_to(i as nat),
        decreases k - i,
    {
        total = total.times_u32(10);
        i = i + 1;
    }
    proof {
        lemma_ten_grows(k as nat);
    }
    total
}

fn append_digits(start: &BigNat, s: &[char], Ghost(before): Ghost<Seq<char>>) -> (r: BigNat)
    requires
        all_digits(s@),
        start@ == decimal_value(before),
    ensures
        r@ == decimal_value(before + s@),
{
    let mut total = start.plus(&BigNat::from_u64(0));
    let mut i: usize = 0;
    assert(before + s@.take(0) =~= before);
    while i < s.len()
        invariant
            i <= s@.len(),
            all_digits(s@),
            total@ == decimal_value(before + s@.take(i as int)),
        decreases s@.len() - i,
    {
        let d: u64 = digit_of(s[i]);
        proof {
            let next = before + s@.take(i + 1);
            assert(next.drop_last() =~= before + s@.take(i as int));
            assert(next.last() == s@[i as int]);
        }
        total = total.times_u32(10).plus(&BigNat::from_u64(d));
        i = i + 1;
    }
    assert(s@.take(i as int) =~= s@);
    total
}

/// The number that digits write, or a bound that it exceeds.
fn capped_value(s: &[char]) -> (r: u128)
    requires
        all_digits(s@),
    ensures
        r == decimal_value(s@) || (r >= 0x1_0000_0000_0000_0000_0000 && decimal_value(s@) >= r),
        r < 0x1000_0000_0000_0000_0000_0000,
{
    let mut total: u128 = 0;
    let mut i: usize = 0;
    assert(s@.take(0) =~= Seq::<char>::empty());
    while i < s.len()
        invariant
            i <= s@.len(),
            all_digits(s@),
            total < 0x1000_0000_0000_0000_0000_0000,
            total == decimal_value(s@.take(i as int)) || (total >= 0x1_0000_0000_0000_0000_0000
                && decimal_value(s@.take(i as int)) >= total),
        decreases s@.len() - i,
    {
        let d: u64 = digit_of(s[i]);
        proof {
            assert(s@.take(i + 1).drop_last() =~= s@.take(i as int));
        }
        if total < 0x1_0000_0000_0000_0000_0000 {
            total = total * 10 + d as u128;
        }
        i = i + 1;
    }
    assert(s@.take(i as int) =~= s@);
    total
}

/// The magnitude nearest to `digits * 10^exponent`, where the exponent is `up`
/// less `down`, or lies beyond that difference on its own side.
fn scale(digits: &BigNat, places: u128, up: u128, down: u128, Ghost(exponent): Ghost<int>) -> (m:
    u64)
    requires
        digits@ < ten_to(places as nat),
        places < 0x4_0000_0000_0000_0000,
        up < 0x2000_0000_0000_0000_0000_0000,
        down < 0x2000_0000_0000_0000_0000_0000,
        exponent == up - down || (up - down >= 0x1000_0000_0000_0000_0000 && exponent >= up - down)
            || (up - down <= -0x1_0000_0000_0000_0000_0000 && exponent <= up - down),
    ensures
        m == scaled_magnitude(digits@, exponent),
        m <= TOP_64,
{
    if digits.is_zero() {
        proof {
            lemma_zero(exponent);
        }
        return 0;
    }
    if up >= down {
        let x: u128 = up - down;
        if x > 400 {
            proof {
                lemma_overflow(digits@, exponent as nat);
            }
            return TOP_64;
        }
        let num = digits.times(&power_of_ten(x)).shifted(1074);
        round_64(&num, &BigNat::from_u64(1))
    } else {
        let x: u128 = down - up;
        if x >= places + 400 {
            proof {
                lemma_underflow(digits@, places as nat, (-exponent) as nat);
            }
            return 0;
        }
        round_64(&digits.shifted(1074), &power_of_ten(x))
    }
}

/// The magnitude that a numeral without sign writes.
#[verifier::spinoff_prover]
#[verifier::rlimit(40)]
fn parse_numeral(s: &[char]) -> (r: Option<u64>)
    ensures
        match (r, numeral_magnitude(s@)) {
            (Some(m), Some(e)) => m == e && m <= TOP_64,
            (None, None) => true,
            _ => false,
        },
{
    let mut k: usize = 0;
    while k < s.len() && s[k] != 'e' && s[k] != 'E'
        invariant
            k <= s@.len(),
            forall|j: int| 0 <= j < k ==> is_mantissa_char(#[trigger] s@[j]),
        decreases s@.len() - k,
    {
        k = k + 1;
    }
    proof {
        lemma_run_length(s@, |c: char| is_mantissa_char(c), k as nat);
    }
    let mantissa = first_part(s, k);
    let mut j: usize = 0;
    while j < mantissa.len() && mantissa[j] != '.'
        invariant
            j <= mantissa@.len(),
            forall|i: int| 0 <= i < j ==> is_before_point(#[trigger] mantissa@[i]),
        decreases mantissa@.len() - j,
    {
        j = j + 1;
    }
    proof {
        lemma_run_length(mantissa@, |c: char| is_before_point(c), j as nat);
    }
    let integer = first_part(mantissa, j);
    let fraction = if j < mantissa.len() {
        rest_from(mantissa, j + 1)
    } else {
        rest_from(mantissa, j)
    };
    assert(fraction@ =~= fraction_digits(mantissa@));
    let (negative, exponent_digits) = if k < s.len() {
        let tail = rest_from(s, k + 1);
        let signed: bool = tail.len() > 0 && (tail[0] == '-' || tail[0] == '+');
        let digits = if signed {
            rest_from(tail, 1)
        } else {
            tail
        };
        assert(signed ==> digits@ =~= tail@.drop_first());
        if digits.len() == 0 || !is_all_digits(digits) {
            return None;
        }
        (signed && tail[0] == '-', Some(digits))
    } else {
        (false, None)
    };
    if !is_all_digits(integer) || !is_all_digits(fraction) {
        return None;
    }
    if integer.len() == 0 && fraction.len() == 0 {
        return None;
    }
    let ghost whole = integer@ + fraction@;
    assert(Seq::<char>::empty() + integer@ =~= integer@);
    let front = append_digits(&BigNat::from_u64(0), integer, Ghost(Seq::empty()));
    let all = append_digits(&front, fraction, Ghost(integer@));
    assert(all_digits(whole)) by {
        assert forall|i: int| 0 <= i < whole.len() implies is_digit(#[trigger] whole[i]) by {
            if i < integer@.len() {
                assert(whole[i] == integer@[i]);
            } else {
                assert(whole[i] == fraction@[i - integer@.len()]);
            }
        }
    }
    proof {
        lemma_decimal_below(whole);
    }
    let places: u128 = integer.len() as u128 + fraction.len() as u128;
    let point: u128 = fraction.len() as u128;
    match exponent_digits {
        None => Some(scale(&all, places, 0, point, Ghost(0 - fraction@.len()))),
        Some(digits) => {
            let e: u128 = capped_value(digits);
            if negative {
                let ghost x = -(decimal_value(digits@) as int) - fraction@.len();
                Some(scale(&all, places, 0, e + point, Ghost(x)))
            } else {
                let ghost x = decimal_value(digits@) - fraction@.len();
                Some(scale(&all, places, e, point, Ghost(x)))
            }
        },
    }
}

/// The ASCII lower-case form of a character.
pub fn lower_char(c: char) -> (r: char)
    ensures
        r == lower(c),
{
    if 'A' <= c && c <= 'Z' {
        (c as u8 + 32) as char
    } else {
        c
    }
}

/// The ASCII lower-case form of a text.
pub fn lower_text(s: &[char]) -> (r: Vec<char>)
    ensures
        r@ == lowered(s@),
{
    let mut out: Vec<char> = Vec::new();
    let mut i: usize = 0;
    while i < s.len()
        invariant
            i <= s@.len(),
            out@.len() == i,
            forall|j: int| 0 <= j < i ==> out@[j] == lower(s@[j]),
        decreases s@.len() - i,
    {
        out.push(lower_char(s[i]));
        i = i + 1;
    }
    assert(out@ =~= lowered(s@));
    out
}

/// The number that a text writes.
pub fn parse_float(s: &[char]) -> (r: Option<Binary64>)
    ensures
        r == float_value(s@),
{
    let signed: bool = s.len() > 0 && (s[0] == '-' || s[0] == '+');
    let sign: bool = signed && s[0] == '-';
    let body = if signed {
        rest_from(s, 1)
    } else {
        s
    };
    assert(signed ==> body@ =~= s@.drop_first());
    let folded = lower_text(body);
    let inf = crate::text::chars_of("inf");
    let infinity = crate::text::chars_of("infinity");
    let nan = crate::text::chars_of("nan");
    if same(folded.as_slice(), inf.as_slice()) || same(folded.as_slice(), infinity.as_slice()) {
        return Some(Binary64::assemble(sign, TOP_64));
    }
    if same(folded.as_slice(), nan.as_slice()) {
        return Some(Binary64::assemble(sign, NAN_64));
    }
    match parse_numeral(body) {
        Some(m) => Some(Binary64::assemble(sign, m)),
        None => None,
    }
}

// ---------------------------------------------------------------------------
// Laws
// ---------------------------------------------------------------------------
proof fn lemma_mantissa(whole: Seq<char>, fraction: Seq<char>)
    requires
        all_digits(whole),
        all_digits(fraction),
    ensures
        integer_digits(whole) == whole,
        fraction_digits(whole) == Seq::<char>::empty(),
        integer_digits(whole + seq!['.'] + fraction) == whole,
        fraction_digits(whole + seq!['.'] + fraction) == fraction,
{
    let keep = |c: char| is_before_point(c);
    let s = whole + seq!['.'] + fraction;
    assert forall|j: int| 0 <= j < whole.len() implies keep(#[trigger] whole[j]) by {
        assert(is_digit(whole[j]));
    }
    assert forall|j: int| 0 <= j < whole.len() implies keep(#[trigger] s[j]) by {
        assert(s[j] == whole[j]);
        assert(is_digit(whole[j]));
    }
    assert(s[whole.len() as int] == '.');
    lemma_run_length(whole, keep, whole.len());
    lemma_run_length(s, keep, whole.len());
    assert(whole.take(whole.len() as int) =~= whole);
    assert(s.take(whole.len() as int) =~= whole);
    assert(s.skip((whole.len() + 1) as int) =~= fraction);
}

proof fn lemma_numeral(mantissa: Seq<char>, mark: char, rest: Seq<char>)
    requires
        forall|i: int|
            0 <= i < mantissa.len() ==> is_digit(#[trigger] mantissa[i]) || mantissa[i] == '.',
        mark == 'e' || mark == 'E',
    ensures
        run_length(mantissa, |c: char| is_mantissa_char(c)) == mantissa.len(),
        run_length(mantissa + seq![mark] + rest, |c: char| is_mantissa_char(c)) == mantissa.len(),
        (mantissa + seq![mark] + rest).take(mantissa.len() as int) == mantissa,
        (mantissa + seq![mark] + rest).skip(mantissa.len() as int + 1) == rest,
{
    let keep = |c: char| is_mantissa_char(c);
    let s = mantissa + seq![mark] + rest;
    assert forall|j: int| 0 <= j < mantissa.len() implies keep(#[trigger] mantissa[j]) by {}
    assert forall|j: int| 0 <= j < mantissa.len() implies keep(#[trigger] s[j]) by {
        assert(s[j] == mantissa[j]);
    }
    assert(s[mantissa.len() as int] == mark);
    lemma_run_length(mantissa, keep, mantissa.len());
    lemma_run_length(s, keep, mantissa.len());
    assert(s.take(mantissa.len() as int) =~= mantissa);
    assert(s.skip(mantissa.len() as int + 1) =~= rest);
}

/// A numeral is read: its digits before and behind the point, and ten to its exponent, in
/// any of its forms.
pub proof fn law_numerals_are_read(
    whole: Seq<char>,
    fraction: Seq<char>,
    mark: char,
    exponent: Seq<char>,
)
    requires
        all_digits(whole),
        all_digits(fraction),
        whole.len() + fraction.len() > 0,
        mark == 'e' || mark == 'E',
        all_digits(exponent),
        exponent.len() > 0,
    ensures
        ({
            let digits = decimal_value(whole + fraction);
            let places = fraction.len() as int;
            let power = decimal_value(exponent) as int;
            let m = whole + seq!['.'] + fraction;
            &&& numeral_magnitude(m) == Some(scaled_magnitude(digits, -places))
            &&& numeral_magnitude(m + seq![mark] + exponent) == Some(
                scaled_magnitude(digits, power - places),
            )
            &&& numeral_magnitude(m + seq![mark] + (seq!['+'] + exponent)) == Some(
                scaled_magnitude(digits, power - places),
            )
            &&& numeral_magnitude(m + seq![mark] + (seq!['-'] + exponent)) == Some(
                scaled_magnitude(digits, -power - places),
            )
            &&& whole.len() > 0 ==> numeral_magnitude(whole) == Some(
                scaled_magnitude(decimal_value(whole), 0),
            )
            &&& whole.len() > 0 ==> numeral_magnitude(whole + seq![mark] + exponent) == Some(
                scaled_magnitude(decimal_value(whole), power),
            )
        }),
{
    let m = whole + seq!['.'] + fraction;
    lemma_mantissa(whole, fraction);
    assert forall|i: int| 0 <= i < m.len() implies is_digit(#[trigger] m[i]) || m[i] == '.' by {
        if i < whole.len() {
            assert(is_digit(whole[i]));
        } else if i > whole.len() {
            assert(is_digit(fraction[i - whole.len() - 1]));
        }
    }
    assert forall|i: int| 0 <= i < whole.len() implies is_digit(#[trigger] whole[i])
        || whole[i] == '.' by {}
    let plus = seq!['+'] + exponent;
    let minus = seq!['-'] + exponent;
    lemma_numeral(m, mark, exponent);
    lemma_numeral(m, mark, plus);
    lemma_numeral(m, mark, minus);
    lemma_numeral(whole, mark, exponent);
    assert(m.take(m.len() as int) =~= m);
    assert(whole.take(whole.len() as int) =~= whole);
    assert(whole + Seq::<char>::empty() =~= whole);
    assert(plus.drop_first() =~= exponent);
    assert(minus.drop_first() =~= exponent);
    assert(is_digit(exponent[0]));
    assert(exponent_value(exponent) == Some(decimal_value(exponent) as int));
    assert(exponent_value(plus) == Some(decimal_value(exponent) as int));
    assert(exponent_value(minus) == Some(-(decimal_value(exponent) as int)));
    assert(all_digits(Seq::<char>::empty()));
}

/// A text that starts with a digit or a point is read as a numeral, and a sign before it
/// makes it positive or negative.
pub proof fn law_signs_are_read(body: Seq<char>)
    requires
        body.len() > 0,
        is_digit(body[0]) || body[0] == '.',
    ensures
        numeral_magnitude(body) is None ==> float_value(body) is None && float_value(
            seq!['-'] + body,
        ) is None && float_value(seq!['+'] + body) is None,
        numeral_magnitude(body) is Some ==> {
            let m = numeral_magnitude(body)->0;
            &&& float_value(body) == Some(Binary64::from_parts(false, m))
            &&& float_value(seq!['+'] + body) == Some(Binary64::from_parts(false, m))
            &&& float_value(seq!['-'] + body) == Some(Binary64::from_parts(true, m))
        },
{
    reveal_strlit("inf");
    reveal_strlit("infinity");
    reveal_strlit("nan");
    assert(lowered(body)[0] == body[0]);
    assert("inf"@[0] == 'i' && "infinity"@[0] == 'i' && "nan"@[0] == 'n');
    assert((seq!['-'] + body).drop_first() =~= body);
    assert((seq!['+'] + body).drop_first() =~= body);
}

/// Digits and a power of ten give the number that they write, where it is one.
pub proof fn law_decimals_are_exact(digits: nat, k: nat, z: Binary64)
    requires
        z.finite(),
        !z.sign(),
    ensures
        z.units() == digits * ten_to(k) * one_64() ==> scaled_magnitude(digits, k as int)
            == z.magnitude(),
        z.units() * ten_to(k) == digits * one_64() ==> scaled_magnitude(digits, -(k as int))
            == z.magnitude(),
        ten_to(0) == 1,
        ten_to(k + 1) == 10 * ten_to(k),
{
    lemma_ten_grows(k);
    lemma_pow2_pos(3 * k);
    if z.units() == digits * ten_to(k) * one_64() {
        crate::binary::lemma_exact_is_nearest(52, TOP_64 as nat, z.magnitude());
    }
    if z.units() * ten_to(k) == digits * one_64() {
        crate::binary::lemma_exact_ratio(52, TOP_64 as nat, z.magnitude(), ten_to(k));
        if k == 0 {
            assert(digits * 1 * one_64() == digits * one_64());
            assert(ten_to(0) == 1);
        }
    }
}

/// Capital letters of ASCII are folded to small ones, and nothing else changes.
pub proof fn law_letters_are_folded(s: Seq<char>, i: int)
    requires
        0 <= i < s.len(),
    ensures
        lowered(s).len() == s.len(),
        'A' <= s[i] <= 'Z' ==> lowered(s)[i] as u32 == s[i] as u32 + 32,
        !('A' <= s[i] <= 'Z') ==> lowered(s)[i] == s[i],
{
}

} // verus!
