//! How large a decimal number is: whether binary64 still holds it as a
//! finite value, decided on its digits alone.
use crate::number::{
    all_digits, binary64_limit, digit_value, digits_value, exceeds_binary64, fraction_end,
    fraction_start, holds_ascii, is_digit, lays_out, lemma_digits_end, parse_decimal, pow10,
    reaches_limit, whole_end, whole_start, Layout,
};
use vstd::prelude::*;

verus! {

/// A power of ten is positive.
pub proof fn lemma_pow10_positive(n: nat)
    ensures
        pow10(n) > 0,
    decreases n,
{
    if n > 0 {
        lemma_pow10_positive((n - 1) as nat);
    }
}

/// Powers of ten multiply as their exponents add.
pub proof fn lemma_pow10_sum(a: nat, b: nat)
    ensures
        pow10(a + b) == pow10(a) * pow10(b),
    decreases a,
{
    if a > 0 {
        lemma_pow10_sum((a - 1) as nat, b);
        assert(pow10(a + b) == 10 * pow10((a + b - 1) as nat));
        assert(10 * (pow10((a - 1) as nat) * pow10(b)) == (10 * pow10((a - 1) as nat)) * pow10(b))
            by (nonlinear_arith);
    } else {
        assert(pow10(a) * pow10(b) == pow10(b)) by (nonlinear_arith)
            requires
                pow10(a) == 1,
        ;
    }
}

/// A larger exponent gives a power of ten that is no smaller.
pub proof fn lemma_pow10_monotone(a: nat, b: nat)
    requires
        a <= b,
    ensures
        pow10(a) <= pow10(b),
    decreases b,
{
    if a < b {
        lemma_pow10_monotone(a, (b - 1) as nat);
    }
}

/// The value of two runs of digits, one after the other.
pub proof fn lemma_digits_value_concat(a: Seq<char>, b: Seq<char>)
    ensures
        digits_value(a + b) == digits_value(a) * pow10(b.len()) + digits_value(b),
    decreases b.len(),
{
    if b.len() == 0 {
        assert(a + b =~= a);
        assert(digits_value(a) * pow10(0) == digits_value(a)) by (nonlinear_arith)
            requires
                pow10(0) == 1,
        ;
    } else {
        let front = b.drop_last();
        lemma_digits_value_concat(a, front);
        assert((a + b).drop_last() =~= a + front);
        assert((a + b).last() == b.last());
        let x = digits_value(a);
        let p = pow10(front.len());
        let y = digits_value(front);
        let d = digit_value(b.last());
        assert(pow10(b.len()) == 10 * p);
        assert(10 * (x * p + y) + d == x * (10 * p) + (10 * y + d)) by (nonlinear_arith);
    }
}

/// A run of `n` digits denotes a number below ten to the power `n`.
pub proof fn lemma_digits_value_below(a: Seq<char>)
    requires
        all_digits(a),
    ensures
        digits_value(a) < pow10(a.len()),
    decreases a.len(),
{
    if a.len() > 0 {
        let front = a.drop_last();
        assert forall|i: int| 0 <= i < front.len() implies is_digit(#[trigger] front[i]) by {
            assert(front[i] == a[i]);
        }
        lemma_digits_value_below(front);
        assert(is_digit(a.last()));
    }
}

/// A run of `n` digits that does not start with a zero denotes a number of
/// at least ten to the power `n - 1`.
pub proof fn lemma_digits_value_at_least(a: Seq<char>)
    requires
        all_digits(a),
        a.len() > 0,
        a[0] != '0',
    ensures
        digits_value(a) >= pow10((a.len() - 1) as nat),
    decreases a.len(),
{
    if a.len() == 1 {
        assert(a.drop_last() =~= Seq::<char>::empty());
        assert(is_digit(a[0]));
    } else {
        let front = a.drop_last();
        assert forall|i: int| 0 <= i < front.len() implies is_digit(#[trigger] front[i]) by {
            assert(front[i] == a[i]);
        }
        assert(front[0] == a[0]);
        lemma_digits_value_at_least(front);
    }
}

/// A run of zeros denotes zero.
pub proof fn lemma_zeros_value(a: Seq<char>)
    requires
        forall|i: int| 0 <= i < a.len() ==> #[trigger] a[i] == '0',
    ensures
        digits_value(a) == 0,
    decreases a.len(),
{
    if a.len() > 0 {
        let front = a.drop_last();
        assert forall|i: int| 0 <= i < front.len() implies #[trigger] front[i] == '0' by {
            assert(front[i] == a[i]);
        }
        lemma_zeros_value(front);
    }
}

/// The digits of the limit, eighteen at a time, from the most significant
/// on: limb 0 holds its first three digits, the limbs 1 to 17 the rest.
pub open spec fn limit_limb(j: int) -> nat {
    if j == 0 {
        179
    } else if j == 1 {
        769313486231580793
    } else if j == 2 {
        728971405303415079
    } else if j == 3 {
        934132710037826936
    } else if j == 4 {
        173778980444968292
    } else if j == 5 {
        764750946649017977
    } else if j == 6 {
        587207096330286416
    } else if j == 7 {
        692887910946555547
    } else if j == 8 {
        851940402630657488
    } else if j == 9 {
        671505820681908902
    } else if j == 10 {
        708383676273854
    } else if j == 11 {
        845817711531764475
    } else if j == 12 {
        730270069855571366
    } else if j == 13 {
        959622842914819860
    } else if j == 14 {
        834936475292719074
    } else if j == 15 {
        168444365510704342
    } else if j == 16 {
        711559699508093042
    } else {
        880177904174497792
    }
}

/// The number that the first `j` limbs of the limit denote.
pub open spec fn limit_prefix(j: nat) -> nat
    decreases j,
{
    if j == 0 {
        0
    } else {
        limit_prefix((j - 1) as nat) * 1_000_000_000_000_000_000 + limit_limb(j - 1)
    }
}

/// The eighteen limbs together denote the limit.
pub proof fn lemma_limit_limbs()
    ensures
        limit_prefix(18) == binary64_limit(),
{
    assert(limit_prefix(0) == 0);
    assert(limit_prefix(1) == 179);
    assert(limit_prefix(2) == 179769313486231580793);
    assert(limit_prefix(3) == 179769313486231580793728971405303415079);
    assert(limit_prefix(4) == 179769313486231580793728971405303415079934132710037826936);
    assert(limit_prefix(5) == 179769313486231580793728971405303415079934132710037826936173778980444968292);
    assert(limit_prefix(6) == 179769313486231580793728971405303415079934132710037826936173778980444968292764750946649017977);
    assert(limit_prefix(7) == 179769313486231580793728971405303415079934132710037826936173778980444968292764750946649017977587207096330286416);
    assert(limit_prefix(8) == 179769313486231580793728971405303415079934132710037826936173778980444968292764750946649017977587207096330286416692887910946555547);
    assert(limit_prefix(9) == 179769313486231580793728971405303415079934132710037826936173778980444968292764750946649017977587207096330286416692887910946555547851940402630657488);
    assert(limit_prefix(10) == 179769313486231580793728971405303415079934132710037826936173778980444968292764750946649017977587207096330286416692887910946555547851940402630657488671505820681908902);
    assert(limit_prefix(11) == 179769313486231580793728971405303415079934132710037826936173778980444968292764750946649017977587207096330286416692887910946555547851940402630657488671505820681908902000708383676273854);
    assert(limit_prefix(12) == 179769313486231580793728971405303415079934132710037826936173778980444968292764750946649017977587207096330286416692887910946555547851940402630657488671505820681908902000708383676273854845817711531764475);
    assert(limit_prefix(13) == 179769313486231580793728971405303415079934132710037826936173778980444968292764750946649017977587207096330286416692887910946555547851940402630657488671505820681908902000708383676273854845817711531764475730270069855571366);
    assert(limit_prefix(14) == 179769313486231580793728971405303415079934132710037826936173778980444968292764750946649017977587207096330286416692887910946555547851940402630657488671505820681908902000708383676273854845817711531764475730270069855571366959622842914819860);
    assert(limit_prefix(15) == 179769313486231580793728971405303415079934132710037826936173778980444968292764750946649017977587207096330286416692887910946555547851940402630657488671505820681908902000708383676273854845817711531764475730270069855571366959622842914819860834936475292719074);
    assert(limit_prefix(16) == 179769313486231580793728971405303415079934132710037826936173778980444968292764750946649017977587207096330286416692887910946555547851940402630657488671505820681908902000708383676273854845817711531764475730270069855571366959622842914819860834936475292719074168444365510704342);
    assert(limit_prefix(17) == 179769313486231580793728971405303415079934132710037826936173778980444968292764750946649017977587207096330286416692887910946555547851940402630657488671505820681908902000708383676273854845817711531764475730270069855571366959622842914819860834936475292719074168444365510704342711559699508093042);
    assert(limit_prefix(18) == 179769313486231580793728971405303415079934132710037826936173778980444968292764750946649017977587207096330286416692887910946555547851940402630657488671505820681908902000708383676273854845817711531764475730270069855571366959622842914819860834936475292719074168444365510704342711559699508093042880177904174497792);
}

/// A limb of the limit.
fn limb(j: usize) -> (value: u64)
    requires
        j < 18,
    ensures
        value == limit_limb(j as int),
        value < 1_000_000_000_000_000_000,
{
    match j {
        0 => 179,
        1 => 769313486231580793,
        2 => 728971405303415079,
        3 => 934132710037826936,
        4 => 173778980444968292,
        5 => 764750946649017977,
        6 => 587207096330286416,
        7 => 692887910946555547,
        8 => 851940402630657488,
        9 => 671505820681908902,
        10 => 708383676273854,
        11 => 845817711531764475,
        12 => 730270069855571366,
        13 => 959622842914819860,
        14 => 834936475292719074,
        15 => 168444365510704342,
        16 => 711559699508093042,
        _ => 880177904174497792,
    }
}

/// The limit lies between ten to the power 308 and ten to the power 309:
/// it has 309 digits.
pub proof fn lemma_limit_has_309_digits()
    ensures
        pow10(308) < binary64_limit() < pow10(309),
{
    assert(pow10(18) == 1000000000000000000) by {
        reveal_with_fuel(pow10, 19);
    }
    lemma_pow10_sum(18, 18);
    assert(pow10(36) == 1000000000000000000000000000000000000);
    lemma_pow10_sum(36, 36);
    assert(pow10(72) == 1000000000000000000000000000000000000000000000000000000000000000000000000);
    lemma_pow10_sum(72, 72);
    assert(pow10(144) == 1000000000000000000000000000000000000000000000000000000000000000000000000000000000000000000000000000000000000000000000000000000000000000000000000);
    lemma_pow10_sum(144, 144);
    assert(pow10(288) == 1000000000000000000000000000000000000000000000000000000000000000000000000000000000000000000000000000000000000000000000000000000000000000000000000000000000000000000000000000000000000000000000000000000000000000000000000000000000000000000000000000000000000000000000000000000000000000000000000);
    lemma_pow10_sum(288, 18);
    assert(pow10(306) == 1000000000000000000000000000000000000000000000000000000000000000000000000000000000000000000000000000000000000000000000000000000000000000000000000000000000000000000000000000000000000000000000000000000000000000000000000000000000000000000000000000000000000000000000000000000000000000000000000000000000000000000);
    assert(pow10(308) == 100 * pow10(306)) by {
        reveal_with_fuel(pow10, 3);
    }
    assert(pow10(309) == 10 * pow10(308));
}

/// The first `len` of `digits`, with zeros after them where they are fewer.
pub open spec fn padded(digits: Seq<char>, len: nat) -> Seq<char> {
    Seq::new(len, |q: int| if q < digits.len() { digits[q] } else { '0' })
}

/// Zeros in front of a run of digits do not change what it denotes.
pub proof fn lemma_leading_zeros(digits: Seq<char>, zeros: int)
    requires
        0 <= zeros <= digits.len(),
        forall|i: int| 0 <= i < zeros ==> #[trigger] digits[i] == '0',
    ensures
        digits_value(digits) == digits_value(digits.skip(zeros)),
{
    let head = digits.take(zeros);
    let tail = digits.skip(zeros);
    assert(digits =~= head + tail);
    lemma_zeros_value(head);
    lemma_digits_value_concat(head, tail);
    assert(0 * pow10(tail.len()) == 0) by (nonlinear_arith);
}

/// Where a number stands against the limit, by the count of its digits: a
/// number of `n` significant digits scaled by ten to the power `scale` is
/// below the limit where `n + scale` is at most 308, reaches it where
/// `n + scale` is at least 310, and in between reaches it exactly where its
/// first 309 digits do.
pub proof fn lemma_order_of_magnitude(significant: Seq<char>, scale: int)
    requires
        all_digits(significant),
        significant.len() > 0,
        significant[0] != '0',
    ensures
        significant.len() + scale <= 308 ==> !reaches_limit(digits_value(significant), scale),
        significant.len() + scale >= 310 ==> reaches_limit(digits_value(significant), scale),
        significant.len() + scale == 309 ==> (reaches_limit(digits_value(significant), scale)
            <==> digits_value(padded(significant, 309)) >= binary64_limit()),
{
    let n = significant.len();
    let m = digits_value(significant);
    let limit = binary64_limit();
    lemma_digits_value_below(significant);
    lemma_digits_value_at_least(significant);
    lemma_limit_has_309_digits();
    let low = pow10((n - 1) as nat);
    let high = pow10(n);
    if scale >= 0 {
        let p = pow10(scale as nat);
        lemma_pow10_positive(scale as nat);
        lemma_pow10_sum(n, scale as nat);
        lemma_pow10_sum((n - 1) as nat, scale as nat);
        assert(m * p < high * p) by (nonlinear_arith)
            requires
                m < high,
                p > 0,
        ;
        assert(m * p >= low * p) by (nonlinear_arith)
            requires
                m >= low,
                p > 0,
        ;
        if n + scale <= 308 {
            lemma_pow10_monotone((n + scale) as nat, 308);
        } else if n + scale >= 310 {
            lemma_pow10_monotone(309, (n - 1 + scale) as nat);
        } else {
            let zeros = Seq::new(scale as nat, |q: int| '0');
            assert(padded(significant, 309) =~= significant + zeros);
            lemma_zeros_value(zeros);
            lemma_digits_value_concat(significant, zeros);
        }
    } else {
        let k = (-scale) as nat;
        let p = pow10(k);
        lemma_pow10_positive(k);
        if n + scale <= 308 {
            lemma_pow10_monotone(n, 308 + k);
            lemma_pow10_sum(308, k);
            assert(pow10(308) * p < limit * p) by (nonlinear_arith)
                requires
                    pow10(308) < limit,
                    p > 0,
            ;
        } else if n + scale >= 310 {
            lemma_pow10_monotone(309 + k, (n - 1) as nat);
            lemma_pow10_sum(309, k);
            assert(pow10(309) * p > limit * p) by (nonlinear_arith)
                requires
                    pow10(309) > limit,
                    p > 0,
            ;
        } else {
            let head = significant.take(309);
            let tail = significant.skip(309);
            assert(significant =~= head + tail);
            assert(padded(significant, 309) =~= head);
            lemma_digits_value_concat(head, tail);
            assert forall|i: int| 0 <= i < tail.len() implies is_digit(#[trigger] tail[i]) by {
                assert(tail[i] == significant[i + 309]);
            }
            lemma_digits_value_below(tail);
            let front = digits_value(head);
            let rest = digits_value(tail);
            assert(m == front * p + rest);
            assert(front >= limit ==> front * p + rest >= limit * p) by (nonlinear_arith)
                requires
                    p > 0,
                    rest >= 0,
            ;
            assert(front < limit ==> front * p + rest < limit * p) by (nonlinear_arith)
                requires
                    p > 0,
                    rest < p,
            ;
        }
    }
}

/// The digits of a decimal number: those before the point, then those after
/// it.
pub open spec fn mantissa(s: Seq<char>) -> Seq<char> {
    s.subrange(whole_start(s), whole_end(s)) + s.subrange(fraction_start(s), fraction_end(s))
}

/// The parts of a decimal number lie in its text one after the other, and
/// its digits are digits.
pub proof fn lemma_mantissa(s: Seq<char>)
    requires
        parse_decimal(s) is Some,
    ensures
        0 <= whole_start(s) <= whole_end(s) <= fraction_start(s) <= fraction_end(s) <= s.len(),
        mantissa(s).len() == (whole_end(s) - whole_start(s)) + (fraction_end(s)
            - fraction_start(s)),
        mantissa(s).len() > 0,
        all_digits(mantissa(s)),
        forall|q: int|
            0 <= q < whole_end(s) - whole_start(s) ==> (#[trigger] mantissa(s)[q]) == s[whole_start(
                s,
            ) + q],
        forall|q: int|
            whole_end(s) - whole_start(s) <= q < mantissa(s).len() ==> (#[trigger] mantissa(
                s,
            )[q]) == s[fraction_start(s) + q - (whole_end(s) - whole_start(s))],
{
    lemma_digits_end(s, whole_start(s));
    lemma_digits_end(s, fraction_start(s));
}

/// Ten to the power 18, written out.
pub proof fn lemma_pow10_18()
    ensures
        pow10(18) == 1_000_000_000_000_000_000,
{
    reveal_with_fuel(pow10, 19);
}

/// The value of the digit at place `q` among the digits of the number.
fn mantissa_digit(bytes: &[u8], Ghost(s): Ghost<Seq<char>>, layout: &Layout, q: usize) -> (digit:
    u8)
    requires
        holds_ascii(bytes@, s),
        parse_decimal(s) is Some,
        lays_out(*layout, s),
        q < mantissa(s).len(),
    ensures
        digit < 10,
        digit == digit_value(mantissa(s)[q as int]),
        is_digit(mantissa(s)[q as int]),
{
    proof {
        lemma_mantissa(s);
    }
    let whole_len = layout.whole_end - layout.whole_start;
    let at: usize = if q < whole_len {
        layout.whole_start + q
    } else {
        layout.fraction_start + (q - whole_len)
    };
    proof {
        assert(mantissa(s)[q as int] == s[at as int]);
        assert(is_digit(mantissa(s)[q as int]));
        assert(bytes[at as int] as int == s[at as int] as int);
    }
    bytes[at] - 48
}

/// Counts the zeros in front of the number's digits.
fn leading_zeros(bytes: &[u8], Ghost(s): Ghost<Seq<char>>, layout: &Layout, total: usize) -> (zeros:
    usize)
    requires
        holds_ascii(bytes@, s),
        parse_decimal(s) is Some,
        lays_out(*layout, s),
        total == mantissa(s).len(),
    ensures
        zeros <= total,
        forall|i: int| 0 <= i < zeros ==> (#[trigger] mantissa(s)[i]) == '0',
        zeros < total ==> mantissa(s)[zeros as int] != '0',
{
    let mut zeros: usize = 0;
    while zeros < total
        invariant
            zeros <= total,
            holds_ascii(bytes@, s),
            parse_decimal(s) is Some,
            lays_out(*layout, s),
            total == mantissa(s).len(),
            forall|i: int| 0 <= i < zeros ==> (#[trigger] mantissa(s)[i]) == '0',
        decreases total - zeros,
    {
        if mantissa_digit(bytes, Ghost(s), layout, zeros) != 0 {
            return zeros;
        }
        zeros = zeros + 1;
    }
    zeros
}

/// The largest exponent that is read digit by digit; beyond it only its
/// sign matters.
const EXPONENT_CAP: u128 = 1_000_000_000_000_000_000_000_000;

/// Reads the digits of the exponent: their value where it is below
/// `EXPONENT_CAP`, and whether it is not.
fn exponent_magnitude(bytes: &[u8], Ghost(s): Ghost<Seq<char>>, layout: &Layout) -> (found: (
    u128,
    bool,
))
    requires
        holds_ascii(bytes@, s),
        parse_decimal(s) is Some,
        lays_out(*layout, s),
    ensures
        !found.1 ==> found.0 == digits_value(
            s.subrange(layout.exponent_start as int, s.len() as int),
        ) && found.0 < EXPONENT_CAP,
        found.1 ==> digits_value(s.subrange(layout.exponent_start as int, s.len() as int))
            >= EXPONENT_CAP,
{
    let n = bytes.len();
    let start = layout.exponent_start;
    let ghost digits = s.subrange(start as int, n as int);
    let mut i: usize = start;
    let mut value: u128 = 0;
    let mut beyond = false;
    while i < n
        invariant
            start <= i <= n,
            n == bytes.len(),
            holds_ascii(bytes@, s),
            digits == s.subrange(start as int, n as int),
            all_digits(digits),
            !beyond ==> value == digits_value(digits.take(i - start)) && value < EXPONENT_CAP,
            beyond ==> digits_value(digits.take(i - start)) >= EXPONENT_CAP,
        decreases n - i,
    {
        proof {
            let next = digits.take(i - start + 1);
            assert(next.drop_last() =~= digits.take(i - start));
            assert(next.last() == digits[i - start]);
            assert(is_digit(digits[i - start]));
            assert(digits[i - start] == s[i as int]);
        }
        if !beyond {
            value = value * 10 + (bytes[i] - 48) as u128;
            if value >= EXPONENT_CAP {
                beyond = true;
            }
        }
        i = i + 1;
    }
    assert(digits.take(n - start) =~= digits);
    (value, beyond)
}

/// Reads `width` of the number's significant digits, from place `from` on,
/// as one number; places after the last digit count as zeros.
fn chunk(
    bytes: &[u8],
    Ghost(s): Ghost<Seq<char>>,
    layout: &Layout,
    zeros: usize,
    total: usize,
    from: usize,
    width: usize,
) -> (value: u64)
    requires
        holds_ascii(bytes@, s),
        parse_decimal(s) is Some,
        lays_out(*layout, s),
        total == mantissa(s).len(),
        zeros < total,
        width <= 18,
        from + width <= 309,
    ensures
        value == digits_value(
            padded(mantissa(s).skip(zeros as int), 309).subrange(from as int, from + width),
        ),
        value < pow10(width as nat),
{
    let ghost digits = padded(mantissa(s).skip(zeros as int), 309);
    let count = total - zeros;
    let mut value: u64 = 0;
    let mut t: usize = 0;
    proof {
        lemma_pow10_18();
        assert(digits.subrange(from as int, from as int) =~= Seq::<char>::empty());
    }
    while t < width
        invariant
            t <= width <= 18,
            from + width <= 309,
            holds_ascii(bytes@, s),
            parse_decimal(s) is Some,
            lays_out(*layout, s),
            total == mantissa(s).len(),
            zeros < total,
            count == total - zeros,
            digits == padded(mantissa(s).skip(zeros as int), 309),
            value == digits_value(digits.subrange(from as int, from + t)),
            value < pow10(t as nat),
            pow10(18) == 1_000_000_000_000_000_000,
        decreases width - t,
    {
        let place = from + t;
        let digit: u8 = if place < count {
            mantissa_digit(bytes, Ghost(s), layout, zeros + place)
        } else {
            0
        };
        proof {
            let next = digits.subrange(from as int, from + t + 1);
            assert(next.drop_last() =~= digits.subrange(from as int, from + t));
            assert(next.last() == digits[place as int]);
            assert(digit == digit_value(digits[place as int]));
            lemma_pow10_monotone((t + 1) as nat, 18);
        }
        value = value * 10 + digit as u64;
        t = t + 1;
    }
    value
}

/// How the first digits of a number stand against the first limbs of the
/// limit.
#[derive(Clone, Copy, PartialEq, Eq, Structural)]
enum Standing {
    Below,
    Level,
    Above,
}

/// Whether the first 309 significant digits of the number, as one number,
/// reach the limit.
fn first_digits_reach_limit(
    bytes: &[u8],
    Ghost(s): Ghost<Seq<char>>,
    layout: &Layout,
    zeros: usize,
    total: usize,
) -> (reaches: bool)
    requires
        holds_ascii(bytes@, s),
        parse_decimal(s) is Some,
        lays_out(*layout, s),
        total == mantissa(s).len(),
        zeros < total,
    ensures
        reaches == (digits_value(padded(mantissa(s).skip(zeros as int), 309))
            >= binary64_limit()),
{
    let ghost digits = padded(mantissa(s).skip(zeros as int), 309);
    let mut standing = Standing::Level;
    let mut from: usize = 0;
    let mut j: usize = 0;
    proof {
        assert(digits.take(0) =~= Seq::<char>::empty());
        lemma_pow10_18();
    }
    while j < 18
        invariant
            j <= 18,
            from == if j == 0 {
                0int
            } else {
                3 + 18 * (j - 1)
            },
            holds_ascii(bytes@, s),
            parse_decimal(s) is Some,
            lays_out(*layout, s),
            total == mantissa(s).len(),
            zeros < total,
            digits == padded(mantissa(s).skip(zeros as int), 309),
            pow10(18) == 1_000_000_000_000_000_000,
            standing == Standing::Level ==> digits_value(digits.take(from as int))
                == limit_prefix(j as nat),
            standing == Standing::Below ==> digits_value(digits.take(from as int)) < limit_prefix(
                j as nat,
            ),
            standing == Standing::Above ==> digits_value(digits.take(from as int)) > limit_prefix(
                j as nat,
            ),
        decreases 18 - j,
    {
        let width: usize = if j == 0 {
            3
        } else {
            18
        };
        let value = chunk(bytes, Ghost(s), layout, zeros, total, from, width);
        let l = limb(j);
        proof {
            let head = digits.take(from as int);
            let part = digits.subrange(from as int, from + width);
            assert(digits.take(from + width) =~= head + part);
            lemma_digits_value_concat(head, part);
            let before = digits_value(head);
            let bound = limit_prefix(j as nat);
            let base = pow10(width as nat);
            let after = digits_value(digits.take(from + width));
            assert(after == before * base + value);
            assert(limit_prefix((j + 1) as nat) == bound * 1_000_000_000_000_000_000 + l);
            if j == 0 {
                assert(before == 0 && bound == 0);
                assert(0 * base == 0) by (nonlinear_arith);
            } else {
                assert(base == 1_000_000_000_000_000_000);
                assert(before < bound ==> before * base + value < bound * base + l)
                    by (nonlinear_arith)
                    requires
                        value < base,
                        l >= 0,
                        base > 0,
                ;
                assert(before > bound ==> before * base + value > bound * base + l)
                    by (nonlinear_arith)
                    requires
                        l < base,
                        value >= 0,
                        base > 0,
                ;
            }
        }
        if standing == Standing::Level {
            if value < l {
                standing = Standing::Below;
            } else if value > l {
                standing = Standing::Above;
            }
        }
        from = from + width;
        j = j + 1;
    }
    proof {
        assert(digits.take(309) =~= digits);
        lemma_limit_limbs();
    }
    standing != Standing::Below
}

/// Whether the magnitude of the decimal number in `bytes` reaches the limit
/// of binary64.
pub(crate) fn scan_magnitude(bytes: &[u8], Ghost(s): Ghost<Seq<char>>, layout: &Layout) -> (exceeds:
    bool)
    requires
        holds_ascii(bytes@, s),
        parse_decimal(s) is Some,
        lays_out(*layout, s),
    ensures
        exceeds == exceeds_binary64(parse_decimal(s).unwrap()),
{
    proof {
        lemma_mantissa(s);
    }
    let fraction_len = layout.fraction_end - layout.fraction_start;
    let total = (layout.whole_end - layout.whole_start) + fraction_len;
    let ghost digits = mantissa(s);
    let ghost decimal = parse_decimal(s).unwrap();
    let ghost scale = decimal.exponent - decimal.fraction.len();
    assert(decimal.whole + decimal.fraction == digits);
    let zeros = leading_zeros(bytes, Ghost(s), layout, total);
    proof {
        lemma_leading_zeros(digits, zeros as int);
    }
    if zeros == total {
        proof {
            assert(digits.skip(zeros as int) =~= Seq::<char>::empty());
            assert(digits_value(digits) == 0);
            if scale >= 0 {
                assert(0 * pow10(scale as nat) == 0) by (nonlinear_arith);
            } else {
                lemma_pow10_positive((-scale) as nat);
                assert(binary64_limit() * pow10((-scale) as nat) > 0) by (nonlinear_arith)
                    requires
                        binary64_limit() > 0,
                        pow10((-scale) as nat) > 0,
                ;
            }
        }
        return false;
    }
    let ghost significant = digits.skip(zeros as int);
    proof {
        assert forall|i: int| 0 <= i < significant.len() implies is_digit(
            #[trigger] significant[i],
        ) by {
            assert(significant[i] == digits[i + zeros]);
        }
        assert(significant[0] == digits[zeros as int]);
        lemma_order_of_magnitude(significant, scale);
    }
    let (exponent, beyond) = exponent_magnitude(bytes, Ghost(s), layout);
    if beyond {
        return !layout.exponent_negative;
    }
    let count = (total - zeros) as i128;
    let signed: i128 = if layout.exponent_negative {
        -(exponent as i128)
    } else {
        exponent as i128
    };
    let order: i128 = count + signed - fraction_len as i128;
    if order <= 308 {
        false
    } else if order >= 310 {
        true
    } else {
        first_digits_reach_limit(bytes, Ghost(s), layout, zeros, total)
    }
}

} // verus!
