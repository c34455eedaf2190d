//! Numbers of the value model.
//!
//! A number is an IEEE-754 binary64 value carried as its 64-bit pattern:
//! one sign bit, eleven exponent bits, fifty-two fraction bits. Equality and
//! order are those of the IEEE-754 standard, stated here over the bits: a
//! NaN is equal to nothing and ordered with nothing, the two zeros are
//! equal, and every other pair compares as its signed magnitudes do.

use vstd::prelude::*;
use crate::text::{decimal, digit, digit_char, push_decimal};

verus! {

/// The weight of the sign bit.
pub const SIGN_BIT: u64 = 0x8000_0000_0000_0000;

/// The pattern of positive infinity; every larger magnitude is a NaN.
pub const INFINITY_BITS: u64 = 0x7ff0_0000_0000_0000;

/// The pattern without its sign bit.
pub open spec fn magnitude(bits: u64) -> nat {
    (bits % SIGN_BIT) as nat
}

/// True when the sign bit is set.
pub open spec fn is_negative(bits: u64) -> bool {
    bits >= SIGN_BIT
}

/// True when the pattern is a NaN.
pub open spec fn is_nan(bits: u64) -> bool {
    magnitude(bits) > INFINITY_BITS
}

/// The place of a pattern on the number line: patterns that are not NaN
/// compare as their ranks do, and both zeros have rank 0.
pub open spec fn rank(bits: u64) -> int {
    if is_negative(bits) {
        -(magnitude(bits) as int)
    } else {
        magnitude(bits) as int
    }
}

/// Numeric equality of two patterns.
pub open spec fn number_eq(a: u64, b: u64) -> bool {
    !is_nan(a) && !is_nan(b) && rank(a) == rank(b)
}

/// Numeric strict order of two patterns.
pub open spec fn number_lt(a: u64, b: u64) -> bool {
    !is_nan(a) && !is_nan(b) && rank(a) < rank(b)
}

/// The rank of a pattern as a machine integer.
fn rank_of(bits: u64) -> (r: i64)
    ensures
        r == rank(bits),
{
    let m: u64 = bits % SIGN_BIT;
    if bits >= SIGN_BIT {
        -(m as i64)
    } else {
        m as i64
    }
}

/// True when the pattern is a NaN.
pub fn number_is_nan(bits: u64) -> (b: bool)
    ensures
        b == is_nan(bits),
{
    bits % SIGN_BIT > INFINITY_BITS
}

/// True when the two patterns are numerically equal.
pub fn number_equal(a: u64, b: u64) -> (r: bool)
    ensures
        r == number_eq(a, b),
{
    !number_is_nan(a) && !number_is_nan(b) && rank_of(a) == rank_of(b)
}

/// True when `a` is numerically less than `b`.
pub fn number_less(a: u64, b: u64) -> (r: bool)
    ensures
        r == number_lt(a, b),
{
    !number_is_nan(a) && !number_is_nan(b) && rank_of(a) < rank_of(b)
}

/// Equality is symmetric, and the order is strict: no pattern is below
/// itself, and no two patterns are below each other.
pub proof fn lemma_number_order(a: u64, b: u64)
    ensures
        number_eq(a, b) == number_eq(b, a),
        !number_lt(a, a),
        !(number_lt(a, b) && number_lt(b, a)),
        !(number_lt(a, b) && number_eq(a, b)),
{
}

/// Two to the power `k`.
pub open spec fn pow2(k: nat) -> nat
    decreases k,
{
    if k == 0 {
        1
    } else {
        2 * pow2((k - 1) as nat)
    }
}

/// The weight of the lowest exponent bit: two to the power 52.
pub const FRACTION_RANGE: u64 = 0x10_0000_0000_0000;

/// The eleven exponent bits of a pattern.
pub open spec fn exponent_field(bits: u64) -> nat {
    (bits / FRACTION_RANGE % 2048) as nat
}

/// The fifty-two fraction bits of a pattern.
pub open spec fn fraction_field(bits: u64) -> nat {
    (bits % FRACTION_RANGE) as nat
}

/// The integer `m` such that the magnitude of a finite pattern is
/// `m * 2^binary_exponent`.
pub open spec fn significand(bits: u64) -> nat {
    if exponent_field(bits) == 0 {
        fraction_field(bits)
    } else {
        fraction_field(bits) + FRACTION_RANGE as nat
    }
}

/// The power of two that scales the significand of a finite pattern.
pub open spec fn binary_exponent(bits: u64) -> int {
    if exponent_field(bits) == 0 {
        -1074
    } else {
        exponent_field(bits) as int - 1075
    }
}

/// The quotient `num / den` rounded to the nearest integer, a tie going to
/// the even neighbour.
pub open spec fn round_half_even(num: nat, den: nat) -> nat {
    let q = num / den;
    let r = num % den;
    if 2 * r > den || (2 * r == den && q % 2 == 1) {
        q + 1
    } else {
        q
    }
}

/// The magnitude of a finite pattern in millionths, rounded to the nearest
/// integer, a tie going to the even neighbour.
pub open spec fn millionths(bits: u64) -> nat {
    let m = significand(bits);
    let e = binary_exponent(bits);
    if e >= 0 {
        m * pow2(e as nat) * 1_000_000
    } else {
        round_half_even(m * 1_000_000, pow2((-e) as nat))
    }
}

/// `n` written with exactly `width` decimal digits, leading zeros included;
/// digits above that width are dropped.
pub open spec fn fixed_digits(n: nat, width: nat) -> Seq<char>
    decreases width,
{
    if width == 0 {
        Seq::empty()
    } else {
        fixed_digits(n / 10, (width - 1) as nat).push(digit_char(n % 10))
    }
}

/// A run of `count` zero digits.
pub open spec fn zeros(count: nat) -> Seq<char> {
    Seq::new(count, |i: int| '0')
}

/// A count of millionths as a decimal numeral with six fractional digits.
pub open spec fn fixed6(n: nat) -> Seq<char> {
    decimal(n / 1_000_000) + seq!['.'] + fixed_digits(n % 1_000_000, 6)
}

/// A sign and a numeral filled up with zeros between them to `width`
/// characters; a longer text is left as it is.
pub open spec fn zero_padded(sign: Seq<char>, body: Seq<char>, width: nat) -> Seq<char> {
    if sign.len() + body.len() >= width {
        sign + body
    } else {
        sign + zeros((width - sign.len() - body.len()) as nat) + body
    }
}

/// The text of a number in an index key: the value with six fractional
/// digits, zero-filled after the sign to twenty characters. Infinities are
/// written `inf` and a NaN is written `NaN`, without a sign.
pub open spec fn number_text(bits: u64) -> Seq<char> {
    let sign = if is_negative(bits) {
        seq!['-']
    } else {
        Seq::empty()
    };
    if is_nan(bits) {
        zero_padded(Seq::empty(), seq!['N', 'a', 'N'], 20)
    } else if magnitude(bits) == INFINITY_BITS {
        zero_padded(sign, seq!['i', 'n', 'f'], 20)
    } else {
        zero_padded(sign, fixed6(millionths(bits)), 20)
    }
}

/// The text of a timestamp in an index key: twenty characters, the sign
/// first when there is one, then the digits after leading zeros.
pub open spec fn timestamp_text(t: i64) -> Seq<char> {
    if t < 0 {
        seq!['-'] + fixed_digits((-t) as nat, 19)
    } else {
        fixed_digits(t as nat, 20)
    }
}

/// The number that a row of decimal digits writes, most significant first.
pub open spec fn digits_value(d: Seq<u8>) -> nat
    decreases d.len(),
{
    if d.len() == 0 {
        0
    } else {
        digits_value(d.drop_last()) * 10 + d.last() as nat
    }
}

/// Every entry is a decimal digit.
pub open spec fn all_digits(d: Seq<u8>) -> bool {
    forall|i: int| 0 <= i < d.len() ==> #[trigger] d[i] < 10
}

/// A row of digits without a leading zero, except for the single digit 0.
pub open spec fn canonical(d: Seq<u8>) -> bool {
    all_digits(d) && d.len() >= 1 && (d.len() == 1 || d[0] != 0)
}

/// The characters of a row of digits.
pub open spec fn digit_chars(d: Seq<u8>) -> Seq<char> {
    d.map_values(|x: u8| digit_char(x as nat))
}

/// The decimal digits of `n`, most significant first.
pub open spec fn digits_of(n: nat) -> Seq<u8>
    decreases n,
{
    if n < 10 {
        seq![n as u8]
    } else {
        digits_of(n / 10).push((n % 10) as u8)
    }
}

/// The digits of `n` are canonical digits that write `n`.
proof fn lemma_digits_of(n: nat)
    ensures
        canonical(digits_of(n)),
        digits_value(digits_of(n)) == n,
        n >= 10 ==> digits_of(n)[0] != 0,
    decreases n,
{
    if n < 10 {
        let d = digits_of(n);
        assert(d.drop_last() =~= Seq::<u8>::empty());
        assert(digits_value(d.drop_last()) == 0);
    } else {
        lemma_digits_of(n / 10);
        let head = digits_of(n / 10);
        let d = head.push((n % 10) as u8);
        assert(d.drop_last() =~= head);
        assert(d[0] == head[0]);
        if n / 10 < 10 {
            assert(head[0] == (n / 10) as u8);
        }
    }
}

/// A row of digits that starts with a digit other than zero writes a
/// positive number.
proof fn lemma_leading_digit(d: Seq<u8>)
    requires
        d.len() >= 1,
        d[0] != 0,
    ensures
        digits_value(d) >= 1,
    decreases d.len(),
{
    if d.len() > 1 {
        assert(d.drop_last()[0] == d[0]);
        lemma_leading_digit(d.drop_last());
    } else {
        assert(d.drop_last() =~= Seq::<u8>::empty());
        assert(digits_value(d.drop_last()) == 0);
    }
}

/// The characters of canonical digits are the decimal numeral of the
/// number they write.
proof fn lemma_digit_chars(d: Seq<u8>)
    requires
        canonical(d),
    ensures
        digit_chars(d) == decimal(digits_value(d)),
    decreases d.len(),
{
    let head = d.drop_last();
    if d.len() == 1 {
        assert(head =~= Seq::<u8>::empty());
        assert(digits_value(head) == 0);
        assert(digit_chars(d) =~= seq![digit_char(d[0] as nat)]);
    } else {
        assert(head[0] == d[0]);
        assert(canonical(head));
        lemma_digit_chars(head);
        lemma_leading_digit(head);
        let n = digits_value(d);
        assert(n / 10 == digits_value(head));
        assert(n % 10 == d.last() as nat);
        assert(digit_chars(d) =~= digit_chars(head).push(digit_char(d.last() as nat)));
    }
}

/// Appends the decimal digits of `n` to `out`.
fn push_digits(out: &mut Vec<u8>, n: u64)
    ensures
        final(out)@ == old(out)@ + digits_of(n as nat),
    decreases n,
{
    if n >= 10 {
        push_digits(out, n / 10);
    }
    out.push((n % 10) as u8);
    assert(out@ =~= old(out)@ + digits_of(n as nat));
}

/// The digits of twice the number that `d` writes.
fn double_digits(d: &Vec<u8>) -> (out: Vec<u8>)
    requires
        canonical(d@),
    ensures
        canonical(out@),
        digits_value(out@) == 2 * digits_value(d@),
{
    let mut out: Vec<u8> = Vec::new();
    if d[0] >= 5 {
        out.push(1u8);
        assert(out@.drop_last() =~= Seq::<u8>::empty());
        assert(digits_value(out@.drop_last()) == 0);
    }
    let ghost lead: int = if d[0] >= 5 { 1 } else { 0 };
    let n = d.len();
    let mut i: usize = 0;
    assert(d@.take(0) =~= Seq::<u8>::empty());
    while i < n
        invariant
            n == d.len(),
            i <= n,
            canonical(d@),
            lead == (if d[0] >= 5 { 1int } else { 0int }),
            out.len() == i + lead,
            all_digits(out@),
            lead == 1 ==> out[0] == 1,
            lead == 0 && i >= 1 && n > 1 ==> out[0] != 0,
            lead == 0 && i >= 1 && n == 1 ==> out[0] == 2 * d[0],
            digits_value(out@) == 2 * digits_value(d@.take(i as int)) + (if i < n && d[i as int]
                >= 5 {
                1int
            } else {
                0int
            }),
        decreases n - i,
    {
        let carry: u8 = if i + 1 < n && d[i + 1] >= 5 {
            1
        } else {
            0
        };
        let x: u8 = d[i];
        let low: u8 = if x >= 5 {
            2 * x - 10
        } else {
            2 * x
        };
        let ghost before = out@;
        out.push(low + carry);
        proof {
            assert(out@.drop_last() =~= before);
            assert(d@.take(i + 1).drop_last() =~= d@.take(i as int));
            assert(d@.take(i + 1).last() == x);
        }
        i += 1;
    }
    proof {
        assert(d@.take(n as int) =~= d@);
    }
    out
}

/// Appends the characters of a row of digits to `out`.
fn push_digit_chars(out: &mut Vec<char>, d: &Vec<u8>)
    requires
        all_digits(d@),
    ensures
        final(out)@ == old(out)@ + digit_chars(d@),
{
    let mut i: usize = 0;
    while i < d.len()
        invariant
            i <= d.len(),
            all_digits(d@),
            out@ == old(out)@ + digit_chars(d@).take(i as int),
        decreases d.len() - i,
    {
        out.push(digit(d[i]));
        i += 1;
        assert(out@ =~= old(out)@ + digit_chars(d@).take(i as int));
    }
    assert(digit_chars(d@).take(i as int) =~= digit_chars(d@));
}

/// Appends `n` written with exactly `width` digits to `out`.
pub fn push_fixed_digits(out: &mut Vec<char>, n: u128, width: usize)
    ensures
        final(out)@ == old(out)@ + fixed_digits(n as nat, width as nat),
    decreases width,
{
    if width > 0 {
        push_fixed_digits(out, n / 10, width - 1);
        out.push(digit((n % 10) as u8));
    }
    assert(out@ =~= old(out)@ + fixed_digits(n as nat, width as nat));
}

/// Appends `count` zero digits to `out`.
fn push_zeros(out: &mut Vec<char>, count: usize)
    ensures
        final(out)@ == old(out)@ + zeros(count as nat),
{
    let mut i: usize = 0;
    while i < count
        invariant
            i <= count,
            out@ == old(out)@ + zeros(i as nat),
        decreases count - i,
    {
        out.push('0');
        i += 1;
        assert(out@ =~= old(out)@ + zeros(i as nat));
    }
}

/// Appends a sign and a numeral, zero-filled between them to `width`
/// characters.
fn push_zero_padded(out: &mut Vec<char>, negative: bool, body: &Vec<char>, width: usize)
    ensures
        final(out)@ == old(out)@ + zero_padded(
            if negative {
                seq!['-']
            } else {
                Seq::empty()
            },
            body@,
            width as nat,
        ),
{
    let ghost sign: Seq<char> = if negative {
        seq!['-']
    } else {
        Seq::empty()
    };
    let sign_len: usize = if negative {
        1
    } else {
        0
    };
    if negative {
        out.push('-');
    }
    assert(out@ =~= old(out)@ + sign);
    if body.len() < width && sign_len < width - body.len() {
        push_zeros(out, width - body.len() - sign_len);
    }
    let ghost mid = out@;
    let mut i: usize = 0;
    while i < body.len()
        invariant
            i <= body.len(),
            out@ == mid + body@.take(i as int),
        decreases body.len() - i,
    {
        out.push(body[i]);
        i += 1;
        assert(out@ =~= mid + body@.take(i as int));
    }
    assert(body@.take(i as int) =~= body@);
    assert(out@ =~= old(out)@ + zero_padded(sign, body@, width as nat));
}

/// Powers of two grow with the exponent.
proof fn lemma_pow2_grows(j: nat, k: nat)
    requires
        j <= k,
    ensures
        pow2(j) <= pow2(k),
        pow2(j) >= 1,
    decreases k,
{
    if j < k {
        lemma_pow2_grows(j, (k - 1) as nat);
    } else if j > 0 {
        lemma_pow2_grows((j - 1) as nat, (j - 1) as nat);
    }
}

/// The millionths of a pattern whose exponent is negative: `num / 2^k`
/// rounded to the nearest integer, a tie going to the even neighbour.
fn rounded_quotient(num: u128, k: u32) -> (n: u128)
    requires
        num < 0x200_0000_0000_0000_0000,
        k >= 1,
    ensures
        n == round_half_even(num as nat, pow2(k as nat)),
{
    let mut den: u128 = 1;
    let mut j: u32 = 0;
    while j < k && den <= 2 * num
        invariant
            j <= k,
            den == pow2(j as nat),
            den >= 1,
            num < 0x200_0000_0000_0000_0000,
            den <= 0x800_0000_0000_0000_0000,
        decreases k - j,
    {
        den = den * 2;
        j += 1;
    }
    if j < k {
        proof {
            lemma_pow2_grows(j as nat, k as nat);
            let big = pow2(k as nat);
            assert(2 * num < big);
            assert(num as nat / big == 0) by (nonlinear_arith)
                requires
                    num < big,
            ;
            assert(num as nat % big == num) by (nonlinear_arith)
                requires
                    num < big,
            ;
        }
        0
    } else {
        let q = num / den;
        let r = num % den;
        if 2 * r > den || (2 * r == den && q % 2 == 1) {
            q + 1
        } else {
            q
        }
    }
}

/// Appends the text of a number in an index key to `out`.
pub fn push_number_text(out: &mut Vec<char>, bits: u64)
    ensures
        final(out)@ == old(out)@ + number_text(bits),
{
    let negative = bits >= SIGN_BIT;
    let mag: u64 = bits % SIGN_BIT;
    let mut body: Vec<char> = Vec::new();
    if mag > INFINITY_BITS {
        body.push('N');
        body.push('a');
        body.push('N');
        assert(body@ =~= seq!['N', 'a', 'N']);
        push_zero_padded(out, false, &body, 20);
        return ;
    }
    if mag == INFINITY_BITS {
        body.push('i');
        body.push('n');
        body.push('f');
        assert(body@ =~= seq!['i', 'n', 'f']);
        push_zero_padded(out, negative, &body, 20);
        return ;
    }
    let field: u64 = bits / FRACTION_RANGE % 2048;
    let fraction: u64 = bits % FRACTION_RANGE;
    let m: u64 = if field == 0 {
        fraction
    } else {
        fraction + FRACTION_RANGE
    };
    assert(field < 2047) by {
        assert(mag < INFINITY_BITS);
        assert(mag / FRACTION_RANGE == bits / FRACTION_RANGE % 2048);
    }
    if field >= 1075 {
        let e: u64 = field - 1075;
        let mut digits: Vec<u8> = Vec::new();
        push_digits(&mut digits, m);
        proof {
            lemma_digits_of(m as nat);
            assert(digits@ =~= digits_of(m as nat));
        }
        let mut j: u64 = 0;
        while j < e
            invariant
                j <= e,
                canonical(digits@),
                digits_value(digits@) == m * pow2(j as nat),
            decreases e - j,
        {
            let ghost p = pow2(j as nat);
            digits = double_digits(&digits);
            j += 1;
            assert(2 * (m * p) == m * (2 * p)) by (nonlinear_arith);
        }
        let ghost whole = digits_value(digits@);
        push_digit_chars(&mut body, &digits);
        body.push('.');
        push_fixed_digits(&mut body, 0, 6);
        proof {
            lemma_digit_chars(digits@);
            let n = millionths(bits);
            assert(n == whole * 1_000_000);
            assert(n / 1_000_000 == whole);
            assert(n % 1_000_000 == 0);
            assert(body@ =~= fixed6(n));
        }
        push_zero_padded(out, negative, &body, 20);
    } else {
        let k: u32 = if field == 0 {
            1074
        } else {
            (1075 - field) as u32
        };
        let num: u128 = (m as u128) * 1_000_000;
        let n = rounded_quotient(num, k);
        proof {
            assert(n <= num) by {
                lemma_pow2_grows(0, k as nat);
                let den = pow2(k as nat);
                assert(den >= 2) by {
                    lemma_pow2_grows(1, k as nat);
                    assert(pow2(1) == 2) by {
                        assert(pow2(0) == 1);
                    }
                }
                assert(num as nat / den + 1 <= num || num == 0) by (nonlinear_arith)
                    requires
                        den >= 2,
                ;
                assert(num == 0 ==> num as nat / den == 0 && num as nat % den == 0) by (nonlinear_arith)
                    requires
                        den >= 2,
                ;
            }
        }
        push_decimal(&mut body, n / 1_000_000);
        body.push('.');
        push_fixed_digits(&mut body, n % 1_000_000, 6);
        proof {
            assert(body@ =~= fixed6(n as nat));
        }
        push_zero_padded(out, negative, &body, 20);
    }
}

/// Appends the text of a timestamp in an index key to `out`.
pub fn push_timestamp_text(out: &mut Vec<char>, t: i64)
    ensures
        final(out)@ == old(out)@ + timestamp_text(t),
{
    if t < 0 {
        out.push('-');
        let m: u64 = if t == i64::MIN {
            9223372036854775808u64
        } else {
            (-t) as u64
        };
        push_fixed_digits(out, m as u128, 19);
        assert(out@ =~= old(out)@ + timestamp_text(t));
    } else {
        push_fixed_digits(out, t as u128, 20);
    }
}

} // verus!
