//! Coordinates in degrees, written as decimal numerals and kept as whole
//! ten-millionths of a degree.

use vstd::prelude::*;
use crate::text::all_digits;
use crate::text::chars_of;
use crate::text::decimal_value;
use crate::text::digits_only;
use crate::text::is_digit;
use crate::text::lemma_decimal_value_prefix;
use crate::text::lemma_leading_digit;
use crate::text::lemma_long_numeral;
use crate::text::lemma_pow10_grows;
use crate::text::lemma_pow10_nineteen;
use crate::text::lemma_span_before;
use crate::text::lemma_span_before_bounds;
use crate::text::lemma_zeros_denote_zero;
use crate::text::parse_digits;
use crate::text::span_before;

verus! {

/// Geographic coordinates are whole ten-millionths of a degree.
pub const UNITS_PER_DEGREE: i64 = 10_000_000;

/// Decimal places that a coordinate keeps.
pub const DEGREE_DECIMALS: usize = 7;

/// `text` begins with a sign.
pub open spec fn has_sign(text: Seq<char>) -> bool {
    text.len() > 0 && (text[0] == '-' || text[0] == '+')
}

/// `text` without its sign.
pub open spec fn unsigned_part(text: Seq<char>) -> Seq<char> {
    if has_sign(text) {
        text.skip(1)
    } else {
        text
    }
}

/// Where the exponent of `body` is marked: the position of its first `e`
/// or `E`, or its length if it has neither.
pub open spec fn exponent_mark(body: Seq<char>) -> nat {
    let lower = span_before(body, 'e');
    let upper = span_before(body, 'E');
    if lower <= upper {
        lower
    } else {
        upper
    }
}

/// `text` has an exponent part.
pub open spec fn has_exponent(text: Seq<char>) -> bool {
    exponent_mark(unsigned_part(text)) < unsigned_part(text).len()
}

/// What stands between the sign and the exponent mark.
pub open spec fn mantissa_text(text: Seq<char>) -> Seq<char> {
    let body = unsigned_part(text);
    body.take(exponent_mark(body) as int)
}

/// What stands behind the exponent mark; nothing without a mark.
pub open spec fn exponent_text(text: Seq<char>) -> Seq<char> {
    let body = unsigned_part(text);
    if has_exponent(text) {
        body.skip(exponent_mark(body) as int + 1)
    } else {
        Seq::empty()
    }
}

/// The digits before the decimal point.
pub open spec fn whole_digits(text: Seq<char>) -> Seq<char> {
    let mantissa = mantissa_text(text);
    mantissa.take(span_before(mantissa, '.') as int)
}

/// The digits after the decimal point; none without a point.
pub open spec fn fraction_digits(text: Seq<char>) -> Seq<char> {
    let mantissa = mantissa_text(text);
    let point = span_before(mantissa, '.');
    if point < mantissa.len() {
        mantissa.skip(point as int + 1)
    } else {
        Seq::empty()
    }
}

/// The digits of the exponent, without its sign.
pub open spec fn exponent_digits(text: Seq<char>) -> Seq<char> {
    unsigned_part(exponent_text(text))
}

/// The exponent of `text`; 0 where it has none.
pub open spec fn exponent_of(text: Seq<char>) -> int {
    let magnitude = decimal_value(exponent_digits(text));
    if exponent_text(text).len() > 0 && exponent_text(text)[0] == '-' {
        -magnitude
    } else {
        magnitude as int
    }
}

/// `text` is a decimal numeral: an optional sign; digits, and optionally a
/// point and more digits, with a digit on at least one side of the point;
/// and optionally an `e` or `E`, an optional sign and the digits of an
/// exponent.
pub open spec fn is_decimal(text: Seq<char>) -> bool {
    &&& all_digits(whole_digits(text))
    &&& all_digits(fraction_digits(text))
    &&& whole_digits(text).len() + fraction_digits(text).len() > 0
    &&& has_exponent(text) ==> exponent_digits(text).len() > 0 && all_digits(
        exponent_digits(text),
    )
}

/// All the digits of the numeral, those before the point and those after.
pub open spec fn significand(text: Seq<char>) -> Seq<char> {
    whole_digits(text) + fraction_digits(text)
}

/// How many digits of the significand stand before the eighth decimal
/// place of the number: the digits before the point, as many more or
/// fewer as the exponent says, and seven decimal places.
pub open spec fn kept_places(text: Seq<char>) -> int {
    whole_digits(text).len() + exponent_of(text) + DEGREE_DECIMALS
}

/// The first `places` digits of `digits`, with zeros where it has fewer.
pub open spec fn kept_digits(digits: Seq<char>, places: int) -> Seq<char> {
    if places <= 0 {
        Seq::empty()
    } else {
        Seq::new(
            places as nat,
            |k: int|
                if k < digits.len() {
                    digits[k]
                } else {
                    '0'
                },
        )
    }
}

/// A digit other than zero stands at or behind position `places`: cutting
/// `digits` there loses something.
pub open spec fn drops_something(digits: Seq<char>, places: int) -> bool {
    exists|k: int| places <= k && 0 <= k < digits.len() && #[trigger] digits[k] != '0'
}

/// The absolute value that the decimal numeral `text` denotes, in whole
/// ten-millionths: what is less than a ten-millionth is left off.
pub open spec fn decimal_magnitude(text: Seq<char>) -> nat {
    decimal_value(kept_digits(significand(text), kept_places(text)))
}

/// The coordinate that `text` denotes in ten-millionths of a degree,
/// rounded down, where `text` is a decimal numeral and its magnitude fits
/// the coordinate type. Rounding down keeps every coordinate on its side
/// of each whole number of units, whatever its sign.
pub open spec fn degrees_of(text: Seq<char>) -> Option<i64> {
    if is_decimal(text) && decimal_magnitude(text) <= i64::MAX {
        if text[0] != '-' {
            Some(decimal_magnitude(text) as i64)
        } else if drops_something(significand(text), kept_places(text)) {
            Some((-decimal_magnitude(text) - 1) as i64)
        } else {
            Some((-decimal_magnitude(text)) as i64)
        }
    } else {
        None
    }
}

/// `exponent_mark` is the position of the first `e` or `E`.
proof fn lemma_exponent_mark(body: Seq<char>, n: int)
    requires
        0 <= n <= body.len(),
        forall|j: int| 0 <= j < n ==> body[j] != 'e' && body[j] != 'E',
        n == body.len() || body[n] == 'e' || body[n] == 'E',
    ensures
        exponent_mark(body) == n,
{
    lemma_span_before_bounds(body, 'e');
    lemma_span_before_bounds(body, 'E');
    if n == body.len() {
        lemma_span_before(body, 'e', n);
        lemma_span_before(body, 'E', n);
    } else if body[n] == 'e' {
        lemma_span_before(body, 'e', n);
    } else {
        lemma_span_before(body, 'E', n);
    }
}

/// Where the parts of a numeral lie in the characters it is read from.
struct Parts {
    negative: bool,
    whole_from: usize,
    whole_to: usize,
    fraction_from: usize,
    fraction_to: usize,
    marked: bool,
    exponent_negative: bool,
    exponent_from: usize,
    exponent_to: usize,
}

/// Where the exponent mark of `chars[from..to]` stands, or `to`.
fn find_mark(chars: &Vec<char>, from: usize, to: usize) -> (mark: usize)
    requires
        from <= to <= chars.len(),
    ensures
        from <= mark <= to,
        exponent_mark(chars@.subrange(from as int, to as int)) == mark - from,
{
    let mut mark: usize = from;
    while mark < to && chars[mark] != 'e' && chars[mark] != 'E'
        invariant
            from <= mark <= to <= chars.len(),
            forall|j: int| from <= j < mark ==> chars@[j] != 'e' && chars@[j] != 'E',
        decreases to - mark,
    {
        mark += 1;
    }
    proof {
        lemma_exponent_mark(chars@.subrange(from as int, to as int), mark - from);
    }
    mark
}

/// Where the decimal point of `chars[from..to]` stands, or `to`.
fn find_point(chars: &Vec<char>, from: usize, to: usize) -> (point: usize)
    requires
        from <= to <= chars.len(),
    ensures
        from <= point <= to,
        span_before(chars@.subrange(from as int, to as int), '.') == point - from,
{
    let mut point: usize = from;
    while point < to && chars[point] != '.'
        invariant
            from <= point <= to <= chars.len(),
            forall|j: int| from <= j < point ==> chars@[j] != '.',
        decreases to - point,
    {
        point += 1;
    }
    proof {
        lemma_span_before(chars@.subrange(from as int, to as int), '.', point - from);
    }
    point
}

/// Where the text behind the sign of `chars[from..to]` begins.
fn skip_sign(chars: &Vec<char>, from: usize, to: usize) -> (start: usize)
    requires
        from <= to <= chars.len(),
    ensures
        from <= start <= to,
        unsigned_part(chars@.subrange(from as int, to as int)) == chars@.subrange(
            start as int,
            to as int,
        ),
{
    let start: usize = if from < to && (chars[from] == '-' || chars[from] == '+') {
        from + 1
    } else {
        from
    };
    assert(unsigned_part(chars@.subrange(from as int, to as int)) =~= chars@.subrange(
        start as int,
        to as int,
    ));
    start
}

/// Finds the parts of the numeral `chars[from..to]`.
fn parts_of(chars: &Vec<char>, from: usize, to: usize) -> (p: Parts)
    requires
        from <= to <= chars.len(),
    ensures
        ({
            let text = chars@.subrange(from as int, to as int);
            &&& p.negative == (text.len() > 0 && text[0] == '-')
            &&& p.whole_from <= p.whole_to <= p.fraction_from <= p.fraction_to <= p.exponent_from
                <= p.exponent_to == to
            &&& p.marked ==> p.fraction_to < p.exponent_from
            &&& whole_digits(text) == chars@.subrange(p.whole_from as int, p.whole_to as int)
            &&& fraction_digits(text) == chars@.subrange(
                p.fraction_from as int,
                p.fraction_to as int,
            )
            &&& p.marked == has_exponent(text)
            &&& exponent_digits(text) == chars@.subrange(
                p.exponent_from as int,
                p.exponent_to as int,
            )
            &&& p.exponent_negative == (exponent_text(text).len() > 0 && exponent_text(text)[0]
                == '-')
        }),
{
    let ghost text = chars@.subrange(from as int, to as int);
    let negative = from < to && chars[from] == '-';
    let body_start = skip_sign(chars, from, to);
    let mark = find_mark(chars, body_start, to);
    let ghost mantissa = chars@.subrange(body_start as int, mark as int);
    assert(mantissa_text(text) =~= mantissa);
    let point = find_point(chars, body_start, mark);
    let fraction_start: usize = if point < mark {
        point + 1
    } else {
        mark
    };
    assert(whole_digits(text) =~= chars@.subrange(body_start as int, point as int)) by {
        assert(mantissa.take(point - body_start) =~= chars@.subrange(
            body_start as int,
            point as int,
        ));
    }
    assert(fraction_digits(text) =~= chars@.subrange(fraction_start as int, mark as int)) by {
        if point < mark {
            assert(mantissa.skip(point - body_start + 1) =~= chars@.subrange(
                fraction_start as int,
                mark as int,
            ));
        }
    }
    let marked = mark < to;
    let exponent_from: usize = if marked {
        mark + 1
    } else {
        to
    };
    let ghost behind = chars@.subrange(exponent_from as int, to as int);
    assert(exponent_text(text) =~= behind);
    let exponent_negative = exponent_from < to && chars[exponent_from] == '-';
    let exponent_start = skip_sign(chars, exponent_from, to);
    Parts {
        negative,
        whole_from: body_start,
        whole_to: point,
        fraction_from: fraction_start,
        fraction_to: mark,
        marked,
        exponent_negative,
        exponent_from: exponent_start,
        exponent_to: to,
    }
}

/// The characters of two ranges of `chars`, one after the other.
fn gather(chars: &Vec<char>, a: usize, b: usize, c: usize, d: usize) -> (joined: Vec<char>)
    requires
        a <= b <= c <= d <= chars.len(),
    ensures
        joined@ == chars@.subrange(a as int, b as int) + chars@.subrange(c as int, d as int),
{
    let mut joined: Vec<char> = Vec::new();
    let mut i: usize = a;
    while i < b
        invariant
            a <= i <= b <= chars.len(),
            joined@ =~= chars@.subrange(a as int, i as int),
        decreases b - i,
    {
        joined.push(chars[i]);
        i += 1;
    }
    let mut i: usize = c;
    while i < d
        invariant
            c <= i <= d <= chars.len(),
            joined@ =~= chars@.subrange(a as int, b as int) + chars@.subrange(c as int, i as int),
        decreases d - i,
    {
        joined.push(chars[i]);
        i += 1;
    }
    joined
}

/// How many zeros `digits` begins with.
fn leading_zeros(digits: &Vec<char>) -> (lead: usize)
    ensures
        lead <= digits.len(),
        forall|j: int| 0 <= j < lead ==> digits@[j] == '0',
        lead < digits.len() ==> digits@[lead as int] != '0',
{
    let mut lead: usize = 0;
    while lead < digits.len() && digits[lead] == '0'
        invariant
            lead <= digits.len(),
            forall|j: int| 0 <= j < lead ==> digits@[j] == '0',
        decreases digits.len() - lead,
    {
        lead += 1;
    }
    lead
}

/// Digits that are all zero denote zero wherever they are cut, and the cut
/// loses nothing.
proof fn lemma_zero_digits(digits: Seq<char>, places: int)
    requires
        forall|j: int| 0 <= j < digits.len() ==> digits[j] == '0',
    ensures
        decimal_value(kept_digits(digits, places)) == 0,
        !drops_something(digits, places),
{
    lemma_zeros_denote_zero(kept_digits(digits, places));
}

/// Twenty places or more from the first digit that is not zero denote
/// more than 63 bits hold.
proof fn lemma_cut_overflows(digits: Seq<char>, places: int, lead: int)
    requires
        all_digits(digits),
        0 <= lead < digits.len(),
        digits[lead] != '0',
        places - lead >= 20,
    ensures
        decimal_value(kept_digits(digits, places)) > i64::MAX,
{
    let kept = kept_digits(digits, places);
    assert(kept[lead] == digits[lead]);
    lemma_leading_digit(kept, lead);
    lemma_pow10_grows(19, (places - 1 - lead) as nat);
    lemma_pow10_nineteen();
}

/// The number that the first `cut` digits of `digits` denote, and whether
/// a digit other than zero stands behind them; nothing if the number is
/// more than 63 bits hold.
fn cut_value(digits: &Vec<char>, cut: i128) -> (r: Option<(u64, bool)>)
    requires
        all_digits(digits@),
    ensures
        match r {
            Some((value, dropped)) => {
                &&& value == decimal_value(kept_digits(digits@, cut as int))
                &&& value <= i64::MAX
                &&& dropped == drops_something(digits@, cut as int)
            },
            None => decimal_value(kept_digits(digits@, cut as int)) > i64::MAX,
        },
{
    let ghost kept = kept_digits(digits@, cut as int);
    let lead = leading_zeros(digits);
    if lead == digits.len() {
        proof {
            lemma_zero_digits(digits@, cut as int);
        }
        return Some((0, false));
    }
    if cut <= 0 {
        assert(digits@[lead as int] != '0');
        return Some((0, true));
    }
    if cut - lead as i128 >= 20 {
        proof {
            lemma_cut_overflows(digits@, cut as int, lead as int);
        }
        return None;
    }
    let mut value: u64 = 0;
    let mut k: i128 = 0;
    while k < cut
        invariant
            0 <= k <= cut,
            cut > 0,
            kept == kept_digits(digits@, cut as int),
            all_digits(digits@),
            value == decimal_value(kept.take(k as int)),
            value <= i64::MAX,
        decreases cut - k,
    {
        let c: char = if k < digits.len() as i128 {
            digits[k as usize]
        } else {
            '0'
        };
        assert(is_digit(c));
        let d: u64 = (c as u32 - '0' as u32) as u64;
        proof {
            assert(kept.take(k + 1).drop_last() =~= kept.take(k as int));
            assert(kept.take(k + 1).last() == c);
            lemma_decimal_value_prefix(kept, k + 1);
        }
        if value > (0x7fff_ffff_ffff_ffff - d) / 10 {
            return None;
        }
        value = value * 10 + d;
        k += 1;
    }
    assert(kept.take(cut as int) =~= kept);
    let mut dropped = false;
    if cut < digits.len() as i128 {
        let mut j: usize = cut as usize;
        while j < digits.len()
            invariant
                cut <= j <= digits.len(),
                cut > 0,
                dropped <==> exists|t: int| cut <= t < j && #[trigger] digits@[t] != '0',
            decreases digits.len() - j,
        {
            if digits[j] != '0' {
                dropped = true;
            }
            j += 1;
        }
    }
    Some((value, dropped))
}

/// What `cut_value` gives where the exponent is more than 64 bits hold:
/// nothing is kept of digits moved that far down, and digits moved that
/// far up denote too much, unless all of them are zero.
fn far_cut_value(digits: &Vec<char>, down: bool, Ghost(places): Ghost<int>) -> (r: Option<
    (u64, bool),
>)
    requires
        all_digits(digits@),
        down ==> places <= 0,
        !down ==> places - digits.len() >= 20,
    ensures
        match r {
            Some((value, dropped)) => {
                &&& value == decimal_value(kept_digits(digits@, places))
                &&& value <= i64::MAX
                &&& dropped == drops_something(digits@, places)
            },
            None => decimal_value(kept_digits(digits@, places)) > i64::MAX,
        },
{
    let lead = leading_zeros(digits);
    if lead == digits.len() {
        proof {
            lemma_zero_digits(digits@, places);
        }
        Some((0, false))
    } else if down {
        assert(digits@[lead as int] != '0');
        Some((0, true))
    } else {
        proof {
            lemma_cut_overflows(digits@, places, lead as int);
        }
        None
    }
}

/// Reads `chars[from..to]` as a coordinate in degrees.
pub(crate) fn parse_degrees_in(chars: &Vec<char>, from: usize, to: usize) -> (r: Option<i64>)
    requires
        from <= to <= chars.len(),
    ensures
        r == degrees_of(chars@.subrange(from as int, to as int)),
{
    let ghost text = chars@.subrange(from as int, to as int);
    let p = parts_of(chars, from, to);
    if (p.whole_to - p.whole_from) + (p.fraction_to - p.fraction_from) == 0 {
        return None;
    }
    if !digits_only(chars, p.whole_from, p.whole_to) || !digits_only(
        chars,
        p.fraction_from,
        p.fraction_to,
    ) {
        return None;
    }
    if p.marked && (p.exponent_from == p.exponent_to || !digits_only(
        chars,
        p.exponent_from,
        p.exponent_to,
    )) {
        return None;
    }
    assert(is_decimal(text));
    let digits = gather(chars, p.whole_from, p.whole_to, p.fraction_from, p.fraction_to);
    assert(digits@ =~= significand(text));
    assert(all_digits(digits@));
    let ghost places = kept_places(text);
    let whole_len: usize = p.whole_to - p.whole_from;
    let exponent: Option<u64> = if p.marked {
        parse_digits(chars, p.exponent_from, p.exponent_to, 0xffff_ffff_ffff_ffff)
    } else {
        Some(0)
    };
    let outcome = match exponent {
        Some(e) => {
            let cut: i128 = if p.exponent_negative {
                whole_len as i128 + 7 - e as i128
            } else {
                whole_len as i128 + 7 + e as i128
            };
            assert(cut == places);
            cut_value(&digits, cut)
        },
        None => {
            proof {
                lemma_long_numeral(exponent_digits(text));
            }
            far_cut_value(&digits, p.exponent_negative, Ghost(places))
        },
    };
    match outcome {
        None => None,
        Some((value, dropped)) => {
            if !p.negative {
                Some(value as i64)
            } else if dropped {
                Some(-(value as i64) - 1)
            } else {
                Some(-(value as i64))
            }
        },
    }
}

/// Reads a coordinate in degrees, written as a decimal numeral with or
/// without an exponent, into ten-millionths of a degree, rounded down.
pub fn parse_degrees(text: &str) -> (r: Option<i64>)
    ensures
        r == degrees_of(text@),
{
    let chars = chars_of(text);
    assert(chars@.subrange(0, chars.len() as int) =~= text@);
    parse_degrees_in(&chars, 0, chars.len())
}

} // verus!
