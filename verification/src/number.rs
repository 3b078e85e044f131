//! Decimal text: what counts as an integer and as a floating-point number,
//! what value a text denotes, and how a number is written.
//!
//! Numbers travel as text. This module holds the grammar of that text and
//! decides, digit by digit and without any floating-point arithmetic, which
//! texts denote a signed 64-bit integer, which a finite binary64 number, which
//! a number that binary64 can only hold as an infinity or a NaN, and which
//! denote no number at all.
use crate::magnitude::scan_magnitude;
use vstd::prelude::*;

verus! {

/// Whether `c` is one of the ten ASCII decimal digits.
pub open spec fn is_digit(c: char) -> bool {
    '0' <= c && c <= '9'
}

/// The value of a decimal digit.
pub open spec fn digit_value(c: char) -> nat
    recommends
        is_digit(c),
{
    (c as int - '0' as int) as nat
}

/// The digit that stands for `d`.
pub open spec fn digit_char(d: nat) -> char
    recommends
        d < 10,
{
    ((d + 48) as u8) as char
}

/// Whether every character of `s` is a decimal digit.
pub open spec fn all_digits(s: Seq<char>) -> bool {
    forall|i: int| 0 <= i < s.len() ==> is_digit(#[trigger] s[i])
}

/// The number that a run of digits denotes, most significant digit first.
/// Leading zeros do not count; the empty run denotes zero.
pub open spec fn digits_value(s: Seq<char>) -> nat
    decreases s.len(),
{
    if s.len() == 0 {
        0
    } else {
        10 * digits_value(s.drop_last()) + digit_value(s.last())
    }
}

/// Whether `s` starts with `+` or `-`.
pub open spec fn has_sign(s: Seq<char>) -> bool {
    s.len() > 0 && (s[0] == '+' || s[0] == '-')
}

/// Whether `s` starts with `-`.
pub open spec fn is_negative(s: Seq<char>) -> bool {
    s.len() > 0 && s[0] == '-'
}

/// `s` without its sign, if it has one.
pub open spec fn unsigned_part(s: Seq<char>) -> Seq<char> {
    if has_sign(s) {
        s.subrange(1, s.len() as int)
    } else {
        s
    }
}

/// Integer text is an optional sign followed by one or more digits, and
/// nothing else: no blanks, no separators.
pub open spec fn is_integer_text(s: Seq<char>) -> bool {
    unsigned_part(s).len() > 0 && all_digits(unsigned_part(s))
}

/// The integer that an integer text denotes.
pub open spec fn integer_text_value(s: Seq<char>) -> int
    recommends
        is_integer_text(s),
{
    if is_negative(s) {
        -(digits_value(unsigned_part(s)) as int)
    } else {
        digits_value(unsigned_part(s)) as int
    }
}

/// The signed 64-bit integer that `s` denotes, if it is integer text and the
/// value fits.
pub open spec fn parse_integer(s: Seq<char>) -> Option<i64> {
    if is_integer_text(s) && i64::MIN <= integer_text_value(s) <= i64::MAX {
        Some(integer_text_value(s) as i64)
    } else {
        None
    }
}

/// The shortest digits of a natural number: no leading zero, `0` for zero.
pub open spec fn natural_text(n: nat) -> Seq<char>
    decreases n,
{
    if n < 10 {
        seq![digit_char(n)]
    } else {
        natural_text(n / 10).push(digit_char(n % 10))
    }
}

/// The canonical text of an integer: a `-` for a negative one, then the
/// shortest digits of its magnitude.
pub open spec fn integer_text(i: int) -> Seq<char> {
    if i < 0 {
        seq!['-'] + natural_text((-i) as nat)
    } else {
        natural_text(i as nat)
    }
}

/// The index just past the run of digits that starts at `from`.
pub open spec fn digits_end(s: Seq<char>, from: int) -> int
    decreases s.len() - from,
{
    if 0 <= from < s.len() && is_digit(s[from]) {
        digits_end(s, from + 1)
    } else {
        from
    }
}

/// A decimal number taken apart: sign, digits before the point, digits after
/// it, and the power of ten that scales them.
pub struct Decimal {
    pub negative: bool,
    pub whole: Seq<char>,
    pub fraction: Seq<char>,
    pub exponent: int,
}

/// Where the digits before the point begin: after the sign, if there is one.
pub open spec fn whole_start(s: Seq<char>) -> int {
    if has_sign(s) {
        1
    } else {
        0
    }
}

/// Where the digits before the point end.
pub open spec fn whole_end(s: Seq<char>) -> int {
    digits_end(s, whole_start(s))
}

/// Whether a point follows the digits before it.
pub open spec fn has_point(s: Seq<char>) -> bool {
    whole_end(s) < s.len() && s[whole_end(s)] == '.'
}

/// Where the digits after the point begin.
pub open spec fn fraction_start(s: Seq<char>) -> int {
    if has_point(s) {
        whole_end(s) + 1
    } else {
        whole_end(s)
    }
}

/// Where the digits after the point end.
pub open spec fn fraction_end(s: Seq<char>) -> int {
    digits_end(s, fraction_start(s))
}

/// What follows the letter that introduces the exponent.
pub open spec fn exponent_text(s: Seq<char>) -> Seq<char> {
    s.subrange(fraction_end(s) + 1, s.len() as int)
}

/// Reads `s` by the grammar of decimal numbers:
///
/// ```text
/// Number ::= Sign? ( Digit+ | Digit+ '.' Digit* | Digit* '.' Digit+ ) Exp?
/// Exp    ::= ( 'e' | 'E' ) Sign? Digit+
/// Sign   ::= '+' | '-'
/// ```
///
/// The result is `None` where `s` is not such a number.
pub open spec fn parse_decimal(s: Seq<char>) -> Option<Decimal> {
    let whole = s.subrange(whole_start(s), whole_end(s));
    let fraction = s.subrange(fraction_start(s), fraction_end(s));
    if whole.len() + fraction.len() == 0 {
        None
    } else if fraction_end(s) == s.len() {
        Some(Decimal { negative: is_negative(s), whole, fraction, exponent: 0 })
    } else if (s[fraction_end(s)] == 'e' || s[fraction_end(s)] == 'E') && is_integer_text(
        exponent_text(s),
    ) {
        Some(
            Decimal {
                negative: is_negative(s),
                whole,
                fraction,
                exponent: integer_text_value(exponent_text(s)),
            },
        )
    } else {
        None
    }
}

/// An ASCII letter in lower case; any other character unchanged.
pub open spec fn to_lower(c: char) -> char {
    if 'A' <= c && c <= 'Z' {
        ((c as u8 + 32) as u8) as char
    } else {
        c
    }
}

/// `s` with its ASCII letters in lower case.
pub open spec fn lowered(s: Seq<char>) -> Seq<char> {
    s.map_values(|c: char| to_lower(c))
}

/// Whether `s` names an infinity or a NaN: `inf`, `infinity` or `nan` in any
/// mix of upper and lower case, after an optional sign.
pub open spec fn is_special_text(s: Seq<char>) -> bool {
    let word = lowered(unsigned_part(s));
    ||| word == seq!['i', 'n', 'f']
    ||| word == seq!['i', 'n', 'f', 'i', 'n', 'i', 't', 'y']
    ||| word == seq!['n', 'a', 'n']
}

/// Ten to the power `n`.
pub open spec fn pow10(n: nat) -> nat
    decreases n,
{
    if n == 0 {
        1
    } else {
        10 * pow10((n - 1) as nat)
    }
}

/// The least magnitude that binary64 rounds to an infinity: halfway between
/// its largest finite value and two to the power 1024, that is
/// 2^1024 - 2^970.
pub open spec fn binary64_limit() -> nat {
    179769313486231580793728971405303415079934132710037826936173778980444968292764750946649017977587207096330286416692887910946555547851940402630657488671505820681908902000708383676273854845817711531764475730270069855571366959622842914819860834936475292719074168444365510704342711559699508093042880177904174497792nat
}

/// Whether `digits` times ten to the power `scale` is at least
/// [`binary64_limit`].
pub open spec fn reaches_limit(digits: nat, scale: int) -> bool {
    if scale >= 0 {
        digits * pow10(scale as nat) >= binary64_limit()
    } else {
        digits >= binary64_limit() * pow10((-scale) as nat)
    }
}

/// Whether the magnitude of `d` is at least [`binary64_limit`], so that the
/// nearest binary64 value is an infinity.
pub open spec fn exceeds_binary64(d: Decimal) -> bool {
    reaches_limit(digits_value(d.whole + d.fraction), d.exponent - d.fraction.len())
}

/// What a number's text denotes.
#[derive(Debug, Clone, Copy, PartialEq, Eq)]
pub enum NumberClass {
    /// An integer that fits in 64 bits, signed.
    Integer(i64),
    /// A decimal number whose text is not that of such an integer, and that
    /// binary64 holds as a finite value.
    Finite,
    /// An infinity, a NaN, or a decimal number too large for binary64.
    NonFinite,
    /// No number.
    Malformed,
}

/// Classifies the text of a number. Integer text whose value fits wins; then
/// the names of infinities and NaN; then decimal numbers, by magnitude.
pub open spec fn classify(s: Seq<char>) -> NumberClass {
    match parse_integer(s) {
        Some(i) => NumberClass::Integer(i),
        None => if is_special_text(s) {
            NumberClass::NonFinite
        } else {
            match parse_decimal(s) {
                None => NumberClass::Malformed,
                Some(d) => if exceeds_binary64(d) {
                    NumberClass::NonFinite
                } else {
                    NumberClass::Finite
                },
            }
        },
    }
}

/// `bytes` holds the text `s`, one ASCII byte for each character.
pub(crate) open spec fn holds_ascii(bytes: Seq<u8>, s: Seq<char>) -> bool {
    &&& bytes.len() == s.len()
    &&& forall|i: int|
        0 <= i < s.len() ==> (#[trigger] bytes[i]) < 128 && bytes[i] as int == s[i] as int
}

/// The digits of a natural number are digits, and denote it.
pub proof fn lemma_natural_text(n: nat)
    ensures
        natural_text(n).len() > 0,
        all_digits(natural_text(n)),
        digits_value(natural_text(n)) == n,
    decreases n,
{
    if n < 10 {
        let t = natural_text(n);
        assert(t.drop_last() =~= Seq::<char>::empty());
        assert(digits_value(t.drop_last()) == 0);
    } else {
        lemma_natural_text(n / 10);
        let t = natural_text(n);
        assert(t.drop_last() =~= natural_text(n / 10));
        assert(t.last() == digit_char(n % 10));
    }
}

/// Reading the canonical text of a signed 64-bit integer gives the integer
/// back.
pub proof fn lemma_integer_text_parses(i: i64)
    ensures
        parse_integer(integer_text(i as int)) == Some(i),
{
    let t = integer_text(i as int);
    if i < 0 {
        let m = (-(i as int)) as nat;
        lemma_natural_text(m);
        assert(t[0] == '-');
        assert(unsigned_part(t) =~= natural_text(m));
    } else {
        lemma_natural_text(i as nat);
        assert(is_digit(t[0]));
        assert(unsigned_part(t) == t);
    }
}

fn digit_text(d: u64) -> (text: &'static str)
    requires
        d < 10,
    ensures
        text@ == seq![digit_char(d as nat)],
{
    proof {
        reveal_strlit("0");
        reveal_strlit("1");
        reveal_strlit("2");
        reveal_strlit("3");
        reveal_strlit("4");
        reveal_strlit("5");
        reveal_strlit("6");
        reveal_strlit("7");
        reveal_strlit("8");
        reveal_strlit("9");
    }
    let text = match d {
        0 => "0",
        1 => "1",
        2 => "2",
        3 => "3",
        4 => "4",
        5 => "5",
        6 => "6",
        7 => "7",
        8 => "8",
        _ => "9",
    };
    assert(text@ =~= seq![digit_char(d as nat)]);
    text
}

/// Appends the shortest digits of `n` to `out`.
pub(crate) fn push_natural(out: &mut String, n: u64)
    ensures
        final(out)@ == old(out)@ + natural_text(n as nat),
    decreases n,
{
    if n >= 10 {
        push_natural(out, n / 10);
    }
    out.append(digit_text(n % 10));
    assert(final(out)@ =~= old(out)@ + natural_text(n as nat));
}

/// Writes an integer as its canonical decimal text.
pub fn format_integer(i: i64) -> (text: String)
    ensures
        text@ == integer_text(i as int),
{
    let mut out = String::new();
    if i < 0 {
        proof {
            reveal_strlit("-");
        }
        out.append("-");
        let magnitude: u64 = if i == i64::MIN {
            9223372036854775808u64
        } else {
            (-i) as u64
        };
        push_natural(&mut out, magnitude);
        assert(out@ =~= integer_text(i as int));
    } else {
        push_natural(&mut out, i as u64);
        assert(out@ =~= integer_text(i as int));
    }
    out
}

/// Reads `bytes` as a signed 64-bit integer.
fn scan_integer(bytes: &[u8], Ghost(s): Ghost<Seq<char>>) -> (value: Option<i64>)
    requires
        holds_ascii(bytes@, s),
    ensures
        value == parse_integer(s),
{
    let n = bytes.len();
    if n == 0 {
        return None;
    }
    let negative = bytes[0] == 45;
    let start: usize = if bytes[0] == 43 || bytes[0] == 45 {
        1
    } else {
        0
    };
    let ghost body = unsigned_part(s);
    if start == n {
        return None;
    }
    let mut i: usize = start;
    let mut magnitude: u128 = 0;
    let mut too_large = false;
    while i < n
        invariant
            start <= i <= n,
            n == bytes.len(),
            holds_ascii(bytes@, s),
            body == unsigned_part(s),
            body.len() == n - start,
            forall|k: int| 0 <= k < body.len() ==> body[k] == s[k + start],
            all_digits(body.take(i - start)),
            !too_large ==> magnitude == digits_value(body.take(i - start)) && magnitude
                <= 0x8000_0000_0000_0000,
            too_large ==> digits_value(body.take(i - start)) > 0x8000_0000_0000_0000,
        decreases n - i,
    {
        let b = bytes[i];
        if b < 48 || b > 57 {
            assert(!is_digit(body[i - start]));
            return None;
        }
        proof {
            let next = body.take(i - start + 1);
            assert(next.drop_last() =~= body.take(i - start));
            assert(next.last() == body[i - start]);
            assert(is_digit(body[i - start]));
        }
        if !too_large {
            magnitude = magnitude * 10 + (b - 48) as u128;
            if magnitude > 0x8000_0000_0000_0000 {
                too_large = true;
            }
        }
        i = i + 1;
    }
    assert(body.take(n - start) =~= body);
    if too_large {
        None
    } else if negative {
        if magnitude == 0x8000_0000_0000_0000 {
            Some(i64::MIN)
        } else {
            Some(-(magnitude as i64))
        }
    } else if magnitude == 0x8000_0000_0000_0000 {
        None
    } else {
        Some(magnitude as i64)
    }
}

/// Where a run of digits ends: at or after its start, within the text, on
/// the first character that is no digit.
pub proof fn lemma_digits_end(s: Seq<char>, from: int)
    requires
        0 <= from <= s.len(),
    ensures
        from <= digits_end(s, from) <= s.len(),
        forall|k: int| from <= k < digits_end(s, from) ==> is_digit(#[trigger] s[k]),
        digits_end(s, from) < s.len() ==> !is_digit(s[digits_end(s, from)]),
    decreases s.len() - from,
{
    if from < s.len() && is_digit(s[from]) {
        lemma_digits_end(s, from + 1);
    }
}

/// Text with a character outside ASCII is no number.
pub proof fn lemma_not_ascii_is_malformed(s: Seq<char>)
    requires
        !vstd::utf8::is_ascii_chars(s),
    ensures
        classify(s) == NumberClass::Malformed,
{
    let k = choose|k: int| 0 <= k < s.len() && !('\0' <= #[trigger] s[k] <= '\u{7f}');
    let c = s[k];
    assert(!is_digit(c) && c != '+' && c != '-' && c != '.' && c != 'e' && c != 'E');
    let shift = if has_sign(s) {
        1int
    } else {
        0int
    };
    let body = unsigned_part(s);
    assert(k >= shift);
    assert(body[k - shift] == c);
    assert(!all_digits(body));
    let word = lowered(body);
    assert(word[k - shift] == c);
    assert(!is_special_text(s)) by {
        let j = k - shift;
        let inf = seq!['i', 'n', 'f'];
        let infinity = seq!['i', 'n', 'f', 'i', 'n', 'i', 't', 'y'];
        let nan = seq!['n', 'a', 'n'];
        assert(inf.len() == 3 && nan.len() == 3 && infinity.len() == 8);
        assert(j < 3 ==> c != inf[j] && c != nan[j]);
        assert(j < 8 ==> c != infinity[j]);
        assert(word[j] == c);
        assert(word != inf);
        assert(word != nan);
        assert(word != infinity);
    }
    lemma_digits_end(s, whole_start(s));
    lemma_digits_end(s, fraction_start(s));
    if fraction_end(s) < s.len() && k > fraction_end(s) {
        let tail = exponent_text(s);
        let tail_shift = if has_sign(tail) {
            1int
        } else {
            0int
        };
        assert(tail[k - fraction_end(s) - 1] == c);
        assert(unsigned_part(tail)[k - fraction_end(s) - 1 - tail_shift] == c);
        assert(!is_integer_text(tail));
    }
}

/// Finds the end of the run of digits that starts at `from`.
fn scan_digits(bytes: &[u8], from: usize, Ghost(s): Ghost<Seq<char>>) -> (end: usize)
    requires
        holds_ascii(bytes@, s),
        from <= bytes.len(),
    ensures
        end == digits_end(s, from as int),
        from <= end <= bytes.len(),
{
    let mut i: usize = from;
    while i < bytes.len() && 48 <= bytes[i] && bytes[i] <= 57
        invariant
            from <= i <= bytes.len(),
            holds_ascii(bytes@, s),
            digits_end(s, from as int) == digits_end(s, i as int),
        decreases bytes.len() - i,
    {
        i = i + 1;
    }
    i
}

/// A byte of ASCII text with an upper-case letter turned to lower case.
fn lower_byte(b: u8) -> (l: u8)
    requires
        b < 128,
    ensures
        l < 128,
        forall|c: char| c as int == b as int ==> to_lower(c) as int == l as int,
{
    if 65 <= b && b <= 90 {
        b + 32
    } else {
        b
    }
}

/// Whether `bytes` names an infinity or a NaN.
fn scan_special(bytes: &[u8], Ghost(s): Ghost<Seq<char>>) -> (special: bool)
    requires
        holds_ascii(bytes@, s),
    ensures
        special == is_special_text(s),
{
    let n = bytes.len();
    let start: usize = if n > 0 && (bytes[0] == 43 || bytes[0] == 45) {
        1
    } else {
        0
    };
    let ghost word = lowered(unsigned_part(s));
    assert(word.len() == n - start);
    assert(forall|k: int| 0 <= k < word.len() ==> word[k] == to_lower(#[trigger] s[k + start]));
    if n - start == 3 {
        let a = lower_byte(bytes[start]);
        let b = lower_byte(bytes[start + 1]);
        let c = lower_byte(bytes[start + 2]);
        assert(word[0] as int == a as int && word[1] as int == b as int && word[2] as int
            == c as int) by {
            assert(word[0] == to_lower(s[0 + start]));
            assert(word[1] == to_lower(s[1 + start]));
            assert(word[2] == to_lower(s[2 + start]));
        }
        let is_inf = a == 105 && b == 110 && c == 102;
        let is_nan = a == 110 && b == 97 && c == 110;
        assert(is_inf == (word =~= seq!['i', 'n', 'f']));
        assert(is_nan == (word =~= seq!['n', 'a', 'n']));
        is_inf || is_nan
    } else if n - start == 8 {
        let mut i: usize = 0;
        let mut same = true;
        while i < 8
            invariant
                i <= 8,
                n == bytes.len(),
                n - start == 8,
                holds_ascii(bytes@, s),
                word.len() == 8,
                forall|k: int| 0 <= k < word.len() ==> word[k] == to_lower(#[trigger] s[k + start]),
                same == (forall|k: int|
                    0 <= k < i ==> #[trigger] word[k] == seq![
                        'i',
                        'n',
                        'f',
                        'i',
                        'n',
                        'i',
                        't',
                        'y',
                    ][k]),
            decreases 8 - i,
        {
            let l = lower_byte(bytes[start + i]);
            let expected: u8 = match i {
                0 => 105,
                1 => 110,
                2 => 102,
                3 => 105,
                4 => 110,
                5 => 105,
                6 => 116,
                _ => 121,
            };
            assert(word[i as int] == to_lower(s[i + start]));
            assert(word[i as int] as int == l as int);
            assert(expected as int == seq!['i', 'n', 'f', 'i', 'n', 'i', 't', 'y'][i as int] as int);
            if l != expected {
                same = false;
            }
            i = i + 1;
        }
        assert(same == (word =~= seq!['i', 'n', 'f', 'i', 'n', 'i', 't', 'y']));
        same
    } else {
        false
    }
}

/// The places at which a decimal number's parts begin and end in its text.
pub(crate) struct Layout {
    pub(crate) whole_start: usize,
    pub(crate) whole_end: usize,
    pub(crate) fraction_start: usize,
    pub(crate) fraction_end: usize,
    pub(crate) exponent_negative: bool,
    pub(crate) exponent_start: usize,
}

/// Whether `layout` marks the parts of the decimal number `s`: the digits
/// before and after the point where [`parse_decimal`] finds them, and the
/// digits of the exponent from `exponent_start` to the end of the text.
pub(crate) open spec fn lays_out(layout: Layout, s: Seq<char>) -> bool {
    &&& layout.whole_start == whole_start(s)
    &&& layout.whole_end == whole_end(s)
    &&& layout.fraction_start == fraction_start(s)
    &&& layout.fraction_end == fraction_end(s)
    &&& layout.fraction_end <= layout.exponent_start <= s.len()
    &&& all_digits(s.subrange(layout.exponent_start as int, s.len() as int))
    &&& parse_decimal(s).unwrap().exponent == if layout.exponent_negative {
        -(digits_value(s.subrange(layout.exponent_start as int, s.len() as int)) as int)
    } else {
        digits_value(s.subrange(layout.exponent_start as int, s.len() as int)) as int
    }
}

/// Reads the text from `from` on as an exponent's sign and digits: whether
/// the exponent is negative, and where its digits begin.
fn scan_exponent(bytes: &[u8], from: usize, Ghost(s): Ghost<Seq<char>>) -> (found: Option<
    (bool, usize),
>)
    requires
        holds_ascii(bytes@, s),
        from <= bytes.len(),
    ensures
        found is Some <==> is_integer_text(s.subrange(from as int, s.len() as int)),
        found matches Some((negative, digits_start)) ==> {
            let tail = s.subrange(from as int, s.len() as int);
            let digits = s.subrange(digits_start as int, s.len() as int);
            &&& from <= digits_start <= s.len()
            &&& digits == unsigned_part(tail)
            &&& all_digits(digits)
            &&& negative == is_negative(tail)
        },
{
    let n = bytes.len();
    let ghost tail = s.subrange(from as int, n as int);
    let negative = from < n && bytes[from] == 45;
    let digits_start: usize = if from < n && (bytes[from] == 43 || bytes[from] == 45) {
        from + 1
    } else {
        from
    };
    let digits_end = scan_digits(bytes, digits_start, Ghost(s));
    proof {
        lemma_digits_end(s, digits_start as int);
        assert(unsigned_part(tail) =~= s.subrange(digits_start as int, n as int));
        if digits_end < n {
            assert(unsigned_part(tail)[digits_end - digits_start] == s[digits_end as int]);
        }
    }
    if digits_start == n || digits_end != n {
        None
    } else {
        Some((negative, digits_start))
    }
}

/// Takes `bytes` apart as a decimal number.
fn scan_decimal(bytes: &[u8], Ghost(s): Ghost<Seq<char>>) -> (layout: Option<Layout>)
    requires
        holds_ascii(bytes@, s),
    ensures
        layout is Some <==> parse_decimal(s) is Some,
        layout matches Some(l) ==> lays_out(l, s),
{
    let n = bytes.len();
    let whole_start: usize = if n > 0 && (bytes[0] == 43 || bytes[0] == 45) {
        1
    } else {
        0
    };
    let whole_end = scan_digits(bytes, whole_start, Ghost(s));
    let has_point = whole_end < n && bytes[whole_end] == 46;
    let fraction_start: usize = if has_point {
        whole_end + 1
    } else {
        whole_end
    };
    let fraction_end = scan_digits(bytes, fraction_start, Ghost(s));
    proof {
        lemma_digits_end(s, whole_start as int);
        lemma_digits_end(s, fraction_start as int);
    }
    if (whole_end - whole_start) + (fraction_end - fraction_start) == 0 {
        return None;
    }
    if fraction_end == n {
        assert(s.subrange(n as int, n as int) =~= Seq::<char>::empty());
        return Some(
            Layout {
                whole_start,
                whole_end,
                fraction_start,
                fraction_end,
                exponent_negative: false,
                exponent_start: n,
            },
        );
    }
    if bytes[fraction_end] != 101 && bytes[fraction_end] != 69 {
        return None;
    }
    match scan_exponent(bytes, fraction_end + 1, Ghost(s)) {
        None => None,
        Some((exponent_negative, exponent_start)) => Some(
            Layout {
                whole_start,
                whole_end,
                fraction_start,
                fraction_end,
                exponent_negative,
                exponent_start,
            },
        ),
    }
}

/// Classifies the text of a number.
pub fn classify_number(text: &str) -> (class: NumberClass)
    ensures
        class == classify(text@),
{
    if !text.is_ascii() {
        proof {
            lemma_not_ascii_is_malformed(text@);
        }
        return NumberClass::Malformed;
    }
    let bytes = text.as_bytes();
    let ghost s = text@;
    proof {
        vstd::utf8::is_ascii_chars_encode_utf8(s);
    }
    if let Some(i) = scan_integer(bytes, Ghost(s)) {
        return NumberClass::Integer(i);
    }
    if scan_special(bytes, Ghost(s)) {
        return NumberClass::NonFinite;
    }
    match scan_decimal(bytes, Ghost(s)) {
        None => NumberClass::Malformed,
        Some(layout) => if scan_magnitude(bytes, Ghost(s), &layout) {
            NumberClass::NonFinite
        } else {
            NumberClass::Finite
        },
    }
}

} // verus!
