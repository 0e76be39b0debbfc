//! Character-level helpers shared by the string-processing modules:
//! substring search and unsigned decimal numerals.

use vstd::prelude::*;

verus! {

/// The texts of a sequence of strings.
pub open spec fn texts(strings: Seq<String>) -> Seq<Seq<char>> {
    Seq::new(strings.len(), |i: int| strings[i]@)
}

/// `pattern` stands in `text` at position `at`.
pub open spec fn occurs_at(text: Seq<char>, pattern: Seq<char>, at: int) -> bool {
    &&& 0 <= at
    &&& at + pattern.len() <= text.len()
    &&& text.subrange(at, at + pattern.len()) == pattern
}

/// The first position at or after `from` at which `pattern` stands in
/// `text`, if there is one.
pub open spec fn first_occurrence(text: Seq<char>, pattern: Seq<char>, from: int) -> Option<int>
    decreases text.len() + 1 - from,
{
    if from < 0 || from + pattern.len() > text.len() {
        None
    } else if occurs_at(text, pattern, from) {
        Some(from)
    } else {
        first_occurrence(text, pattern, from + 1)
    }
}

/// `first_occurrence` finds an occurrence, no occurrence lies between
/// `from` and it, and when it finds none there is none at or after `from`.
pub proof fn lemma_first_occurrence(text: Seq<char>, pattern: Seq<char>, from: int)
    requires
        0 <= from,
    ensures
        match first_occurrence(text, pattern, from) {
            Some(at) => {
                &&& from <= at
                &&& occurs_at(text, pattern, at)
                &&& forall|j: int| from <= j < at ==> !occurs_at(text, pattern, j)
            },
            None => forall|j: int| from <= j ==> !occurs_at(text, pattern, j),
        },
    decreases text.len() + 1 - from,
{
    if from + pattern.len() <= text.len() && !occurs_at(text, pattern, from) {
        lemma_first_occurrence(text, pattern, from + 1);
    }
}

/// The characters of `text`, by position.
pub fn chars_of(text: &str) -> (chars: Vec<char>)
    ensures
        chars@ == text@,
{
    let mut chars: Vec<char> = Vec::new();
    for c in it: text.chars()
        invariant
            chars@ == it.seq().take(it.index()),
            it.seq() == text@,
    {
        chars.push(c);
    }
    chars
}

/// Whether `pattern` stands in `text` at position `at`.
pub fn matches_at(text: &Vec<char>, pattern: &Vec<char>, at: usize) -> (r: bool)
    ensures
        r == occurs_at(text@, pattern@, at as int),
{
    if at > text.len() || pattern.len() > text.len() - at {
        return false;
    }
    let mut k: usize = 0;
    while k < pattern.len()
        invariant
            k <= pattern.len(),
            at + pattern.len() <= text.len(),
            forall|j: int| 0 <= j < k ==> text@[at + j] == pattern@[j],
        decreases pattern.len() - k,
    {
        if text[at + k] != pattern[k] {
            proof {
                let window = text@.subrange(at as int, at + pattern.len());
                assert(window[k as int] != pattern@[k as int]);
            }
            return false;
        }
        k += 1;
    }
    assert(text@.subrange(at as int, at + pattern.len()) =~= pattern@);
    true
}

/// Searches `text` for `pattern`, starting at position `from`.
pub fn find(text: &Vec<char>, pattern: &Vec<char>, from: usize) -> (r: Option<usize>)
    ensures
        match r {
            Some(at) => first_occurrence(text@, pattern@, from as int) == Some(at as int),
            None => first_occurrence(text@, pattern@, from as int) is None,
        },
{
    if from > text.len() {
        return None;
    }
    let mut at: usize = from;
    while text.len() - at >= pattern.len()
        invariant
            from <= at <= text.len(),
            first_occurrence(text@, pattern@, at as int) == first_occurrence(
                text@,
                pattern@,
                from as int,
            ),
        decreases text.len() - at,
    {
        if matches_at(text, pattern, at) {
            return Some(at);
        }
        proof {
            if pattern.len() == 0 {
                assert(text@.subrange(at as int, at as int) =~= pattern@);
            }
        }
        at += 1;
    }
    None
}

/// `c` is one of the ten ASCII digits.
pub open spec fn is_digit(c: char) -> bool {
    '0' <= c <= '9'
}

/// The number that the ASCII digit `c` stands for.
pub open spec fn digit_value(c: char) -> nat {
    (c as u32 - '0' as u32) as nat
}

/// Every character of `s` is an ASCII digit.
pub open spec fn all_digits(s: Seq<char>) -> bool {
    forall|i: int| 0 <= i < s.len() ==> is_digit(#[trigger] s[i])
}

/// The number that the digit string `s` denotes in base ten; 0 for the
/// empty string.
pub open spec fn decimal_value(s: Seq<char>) -> nat
    decreases s.len(),
{
    if s.len() == 0 {
        0
    } else {
        decimal_value(s.drop_last()) * 10 + digit_value(s.last())
    }
}

/// A digit string denotes at least as much as each of its prefixes.
pub proof fn lemma_decimal_value_prefix(s: Seq<char>, n: int)
    requires
        0 <= n <= s.len(),
    ensures
        decimal_value(s.take(n)) <= decimal_value(s),
    decreases s.len() - n,
{
    if n == s.len() {
        assert(s.take(n) =~= s);
    } else {
        lemma_decimal_value_prefix(s, n + 1);
        assert(s.take(n + 1).drop_last() =~= s.take(n));
    }
}

/// Reads `chars[from..to]` as an unsigned decimal numeral. The result is the
/// number it denotes, provided that the range lies within `chars`, holds
/// nothing but ASCII digits, and denotes at most `limit`. The empty range
/// denotes 0.
pub fn parse_digits(chars: &Vec<char>, from: usize, to: usize, limit: u64) -> (r: Option<u64>)
    ensures
        r is Some <==> {
            &&& from <= to <= chars.len()
            &&& all_digits(chars@.subrange(from as int, to as int))
            &&& decimal_value(chars@.subrange(from as int, to as int)) <= limit
        },
        r matches Some(v) ==> v == decimal_value(chars@.subrange(from as int, to as int)),
{
    if from > to || to > chars.len() {
        return None;
    }
    let ghost digits = chars@.subrange(from as int, to as int);
    let mut value: u64 = 0;
    let mut i: usize = from;
    while i < to
        invariant
            from <= i <= to <= chars.len(),
            digits == chars@.subrange(from as int, to as int),
            all_digits(digits.take(i - from)),
            value == decimal_value(digits.take(i - from)),
            value <= limit,
        decreases to - i,
    {
        let c = chars[i];
        if c < '0' || c > '9' {
            assert(!is_digit(digits[i - from]));
            return None;
        }
        let d: u64 = (c as u32 - '0' as u32) as u64;
        proof {
            assert(digits.take(i - from + 1).drop_last() =~= digits.take(i - from));
            assert(digits.take(i - from + 1).last() == c);
            lemma_decimal_value_prefix(digits, i - from + 1);
        }
        if limit < d || value > (limit - d) / 10 {
            return None;
        }
        value = value * 10 + d;
        i += 1;
    }
    assert(digits.take(to - from) =~= digits);
    Some(value)
}

/// How many characters of `text` stand before the first `stop`, or in all
/// of `text` if it holds none.
pub open spec fn span_before(text: Seq<char>, stop: char) -> nat
    decreases text.len(),
{
    if text.len() == 0 || text[0] == stop {
        0
    } else {
        1 + span_before(text.drop_first(), stop)
    }
}

/// `span_before` is the position of the first `stop`.
pub proof fn lemma_span_before(text: Seq<char>, stop: char, n: int)
    requires
        0 <= n <= text.len(),
        forall|j: int| 0 <= j < n ==> text[j] != stop,
        n == text.len() || text[n] == stop,
    ensures
        span_before(text, stop) == n,
    decreases n,
{
    if n > 0 {
        lemma_span_before(text.drop_first(), stop, n - 1);
    }
}

/// `span_before` stays within the text, no `stop` stands before it, and
/// one stands at it unless it is the end of the text.
pub proof fn lemma_span_before_bounds(text: Seq<char>, stop: char)
    ensures
        span_before(text, stop) <= text.len(),
        forall|j: int| 0 <= j < span_before(text, stop) ==> text[j] != stop,
        span_before(text, stop) == text.len() || text[span_before(text, stop) as int] == stop,
    decreases text.len(),
{
    if text.len() > 0 && text[0] != stop {
        lemma_span_before_bounds(text.drop_first(), stop);
        assert forall|j: int| 0 <= j < span_before(text, stop) implies text[j] != stop by {
            if j > 0 {
                assert(text[j] == text.drop_first()[j - 1]);
            }
        }
    }
}

/// The greatest number that `n` decimal digits can denote.
pub open spec fn all_nines(n: nat) -> nat
    decreases n,
{
    if n == 0 {
        0
    } else {
        all_nines((n - 1) as nat) * 10 + 9
    }
}

/// A string of digits denotes no more than as many nines.
pub proof fn lemma_decimal_value_bound(s: Seq<char>)
    requires
        all_digits(s),
    ensures
        decimal_value(s) <= all_nines(s.len()),
    decreases s.len(),
{
    if s.len() > 0 {
        lemma_decimal_value_bound(s.drop_last());
    }
}

/// Whether `chars[from..to]` lies within `chars` and holds nothing but
/// ASCII digits.
pub fn digits_only(chars: &Vec<char>, from: usize, to: usize) -> (r: bool)
    ensures
        r == (from <= to <= chars.len() && all_digits(chars@.subrange(from as int, to as int))),
{
    if from > to || to > chars.len() {
        return false;
    }
    let ghost digits = chars@.subrange(from as int, to as int);
    let mut i: usize = from;
    while i < to
        invariant
            from <= i <= to <= chars.len(),
            digits == chars@.subrange(from as int, to as int),
            forall|j: int| 0 <= j < i - from ==> is_digit(#[trigger] digits[j]),
        decreases to - i,
    {
        let c = chars[i];
        if c < '0' || c > '9' {
            assert(!is_digit(digits[i - from]));
            return false;
        }
        i += 1;
    }
    true
}

/// The pieces of `text` between the occurrences of `stop`, empty pieces
/// included. A text without `stop` is one piece.
pub open spec fn fields_of(text: Seq<char>, stop: char) -> Seq<Seq<char>>
    decreases text.len(),
{
    let n = span_before(text, stop);
    if n >= text.len() {
        seq![text]
    } else {
        seq![text.take(n as int)] + fields_of(text.skip(n as int + 1), stop)
    }
}

/// The pieces of `chars` that `ranges` mark, each range a first position
/// and the position after the last.
pub open spec fn ranges_of(chars: Seq<char>, ranges: Seq<(usize, usize)>) -> Seq<Seq<char>> {
    Seq::new(ranges.len(), |i: int| chars.subrange(ranges[i].0 as int, ranges[i].1 as int))
}

/// Splits `chars` at every `stop` and gives the range of each piece.
pub fn split_fields(chars: &Vec<char>, stop: char) -> (ranges: Vec<(usize, usize)>)
    ensures
        ranges_of(chars@, ranges@) == fields_of(chars@, stop),
        forall|k: int|
            0 <= k < ranges.len() ==> (#[trigger] ranges[k]).0 <= ranges[k].1 <= chars.len(),
{
    let mut ranges: Vec<(usize, usize)> = Vec::new();
    let mut start: usize = 0;
    let mut i: usize = 0;
    assert(chars@.skip(0) =~= chars@);
    while i < chars.len()
        invariant
            start <= i <= chars.len(),
            forall|j: int| start <= j < i ==> chars@[j] != stop,
            fields_of(chars@, stop) =~= ranges_of(chars@, ranges@) + fields_of(
                chars@.skip(start as int),
                stop,
            ),
            forall|k: int|
                0 <= k < ranges.len() ==> (#[trigger] ranges[k]).0 <= ranges[k].1 <= chars.len(),
        decreases chars.len() - i,
    {
        if chars[i] == stop {
            let ghost rest = chars@.skip(start as int);
            let ghost before = ranges@;
            proof {
                lemma_span_before(rest, stop, i - start);
                assert(rest.take(i - start) =~= chars@.subrange(start as int, i as int));
                assert(rest.skip(i - start + 1) =~= chars@.skip(i + 1));
            }
            ranges.push((start, i));
            assert(ranges_of(chars@, ranges@) =~= ranges_of(chars@, before) + seq![
                chars@.subrange(start as int, i as int),
            ]);
            start = i + 1;
        }
        i += 1;
    }
    let ghost rest = chars@.skip(start as int);
    let ghost before = ranges@;
    proof {
        lemma_span_before(rest, stop, chars.len() - start);
        assert(rest =~= chars@.subrange(start as int, chars.len() as int));
    }
    ranges.push((start, chars.len()));
    assert(ranges_of(chars@, ranges@) =~= ranges_of(chars@, before) + seq![
        chars@.subrange(start as int, chars.len() as int),
    ]);
    ranges
}

/// Ten to the power of `n`.
pub open spec fn pow10(n: nat) -> nat
    decreases n,
{
    if n == 0 {
        1
    } else {
        pow10((n - 1) as nat) * 10
    }
}

/// A higher power of ten is no smaller.
pub proof fn lemma_pow10_grows(a: nat, b: nat)
    requires
        a <= b,
    ensures
        pow10(a) <= pow10(b),
    decreases b,
{
    if a < b {
        lemma_pow10_grows(a, (b - 1) as nat);
    }
}

/// More nines denote no less.
pub proof fn lemma_all_nines_grows(a: nat, b: nat)
    requires
        a <= b,
    ensures
        all_nines(a) <= all_nines(b),
    decreases b,
{
    if a < b {
        lemma_all_nines_grows(a, (b - 1) as nat);
    }
}

/// A string of digits with a digit other than zero at position `at`
/// denotes at least the power of ten of that place.
pub proof fn lemma_leading_digit(s: Seq<char>, at: int)
    requires
        0 <= at < s.len(),
        is_digit(s[at]),
        s[at] != '0',
    ensures
        decimal_value(s) >= pow10((s.len() - 1 - at) as nat),
    decreases s.len(),
{
    if at < s.len() - 1 {
        lemma_leading_digit(s.drop_last(), at);
    } else {
        assert(digit_value(s.last()) >= 1);
    }
}

/// A string of zeros denotes zero.
pub proof fn lemma_zeros_denote_zero(s: Seq<char>)
    requires
        forall|i: int| 0 <= i < s.len() ==> s[i] == '0',
    ensures
        decimal_value(s) == 0,
    decreases s.len(),
{
    if s.len() > 0 {
        lemma_zeros_denote_zero(s.drop_last());
    }
}

/// A numeral that denotes more than 64 bits hold has at least twenty
/// digits.
pub proof fn lemma_long_numeral(s: Seq<char>)
    requires
        all_digits(s),
        decimal_value(s) > u64::MAX,
    ensures
        s.len() >= 20,
{
    lemma_decimal_value_bound(s);
    if s.len() <= 19 {
        lemma_all_nines_grows(s.len(), 19);
        reveal_with_fuel(all_nines, 20);
        assert(all_nines(19) == 9_999_999_999_999_999_999);
    }
}

/// The nineteenth power of ten is more than 63 bits hold.
pub proof fn lemma_pow10_nineteen()
    ensures
        pow10(19) == 10_000_000_000_000_000_000,
        pow10(19) > i64::MAX,
{
    reveal_with_fuel(pow10, 20);
}

} // verus!
