//! Text: decimal numbers, white space and searching, on sequences of characters.

use vstd::prelude::*;

verus! {

/// `String::push` of std appends the character to the string.
pub assume_specification[ String::push ](s: &mut String, c: char)
    ensures
        final(s)@ == old(s)@.push(c),
;

/// Whether `c` is one of `0` to `9`.
pub open spec fn is_digit(c: char) -> bool {
    '0' <= c <= '9'
}

/// The number that `s` writes in decimal.
pub open spec fn digits_value(s: Seq<char>) -> int
    decreases s.len(),
{
    if s.len() == 0 {
        0
    } else {
        digits_value(s.drop_last()) * 10 + (s.last() as int - '0' as int)
    }
}

/// `s` holds digits only, and at least one.
pub open spec fn is_number(s: Seq<char>) -> bool {
    &&& s.len() > 0
    &&& forall|i: int| 0 <= i < s.len() ==> is_digit(#[trigger] s[i])
}

/// The unsigned number that a text stands for: digits, with an optional plus
/// sign before them; none where it holds anything else or is too large.
pub open spec fn parsed_usize(s: Seq<char>) -> Option<usize> {
    let digits = if s.len() > 0 && s[0] == '+' {
        s.drop_first()
    } else {
        s
    };
    if is_number(digits) && digits_value(digits) <= usize::MAX {
        Some(digits_value(digits) as usize)
    } else {
        None
    }
}

/// The signed number that a text stands for: digits, with an optional sign
/// before them; none where it holds anything else or is out of range.
pub open spec fn parsed_i64(s: Seq<char>) -> Option<i64> {
    let negative = s.len() > 0 && s[0] == '-';
    let digits = if s.len() > 0 && (s[0] == '+' || s[0] == '-') {
        s.drop_first()
    } else {
        s
    };
    let value = if negative {
        -digits_value(digits)
    } else {
        digits_value(digits)
    };
    if is_number(digits) && i64::MIN <= value <= i64::MAX {
        Some(value as i64)
    } else {
        None
    }
}

proof fn digits_value_grows(s: Seq<char>, n: int)
    requires
        0 <= n <= s.len(),
        forall|i: int| 0 <= i < s.len() ==> is_digit(#[trigger] s[i]),
    ensures
        0 <= digits_value(s.take(n)) <= digits_value(s),
    decreases s.len(),
{
    if n < s.len() {
        assert(s.drop_last().take(n) =~= s.take(n));
        digits_value_grows(s.drop_last(), n);
    } else if s.len() > 0 {
        assert(s.take(n) =~= s);
        assert(s.drop_last().take(n - 1) =~= s.drop_last());
        digits_value_grows(s.drop_last(), n - 1);
    }
}

/// The digits of `s` from `start` on as a number; none where there are none,
/// another character is among them, or the number exceeds `limit`.
fn parse_digits(s: &Vec<char>, start: usize, limit: u128) -> (r: Option<u128>)
    requires
        start <= s@.len(),
        limit <= 0x1_0000_0000_0000_0000u128,
    ensures
        ({
            let digits = s@.skip(start as int);
            match r {
                Some(n) => is_number(digits) && n == digits_value(digits) && n <= limit,
                None => !is_number(digits) || digits_value(digits) > limit,
            }
        }),
{
    let ghost digits = s@.skip(start as int);
    if start >= s.len() {
        return None;
    }
    let mut value: u128 = 0;
    let mut i: usize = start;
    assert(digits.take(0) =~= Seq::<char>::empty());
    while i < s.len()
        invariant
            start <= i <= s@.len(),
            start < s@.len(),
            limit <= 0x1_0000_0000_0000_0000u128,
            digits == s@.skip(start as int),
            forall|j: int| 0 <= j < i - start ==> is_digit(#[trigger] digits[j]),
            value == digits_value(digits.take(i - start)),
            value <= limit,
        decreases s@.len() - i,
    {
        let c: char = s[i];
        assert(digits[i - start] == c);
        if c < '0' || '9' < c {
            assert(!is_digit(digits[i - start]));
            return None;
        }
        let digit: u128 = (c as u32 - '0' as u32) as u128;
        proof {
            assert(digits.take(i - start + 1).drop_last() =~= digits.take(i - start));
            assert(digits.take(i - start + 1).last() == c);
        }
        value = value * 10 + digit;
        if value > limit {
            proof {
                if is_number(digits) {
                    digits_value_grows(digits, i - start + 1);
                }
            }
            return None;
        }
        i += 1;
    }
    assert(digits.take(i - start) =~= digits);
    Some(value)
}

/// The unsigned number that a text stands for.
pub fn parse_usize(s: &Vec<char>) -> (r: Option<usize>)
    ensures
        r == parsed_usize(s@),
{
    let start: usize = if s.len() > 0 && s[0] == '+' {
        1
    } else {
        0
    };
    proof {
        if start == 1 {
            assert(s@.skip(1) =~= s@.drop_first());
        } else {
            assert(s@.skip(0) =~= s@);
        }
    }
    match parse_digits(s, start, usize::MAX as u128) {
        Some(n) => Some(n as usize),
        None => None,
    }
}

/// The signed number that a text stands for.
pub fn parse_i64(s: &Vec<char>) -> (r: Option<i64>)
    ensures
        r == parsed_i64(s@),
{
    let negative: bool = s.len() > 0 && s[0] == '-';
    let start: usize = if s.len() > 0 && (s[0] == '+' || s[0] == '-') {
        1
    } else {
        0
    };
    proof {
        if start == 1 {
            assert(s@.skip(1) =~= s@.drop_first());
        } else {
            assert(s@.skip(0) =~= s@);
        }
        if is_number(s@.skip(start as int)) {
            digits_value_grows(s@.skip(start as int), 0);
        }
    }
    let limit: u128 = if negative {
        0x8000_0000_0000_0000
    } else {
        0x7fff_ffff_ffff_ffff
    };
    match parse_digits(s, start, limit) {
        Some(n) => {
            let value: i128 = if negative {
                -(n as i128)
            } else {
                n as i128
            };
            Some(value as i64)
        },
        None => None,
    }
}

/// A number in decimal, without leading zeros.
pub open spec fn decimal(n: nat) -> Seq<char>
    decreases n,
{
    if n < 10 {
        seq![digit_char(n)]
    } else {
        decimal(n / 10).push(digit_char(n % 10))
    }
}

/// The digit for a number below ten.
pub open spec fn digit_char(n: nat) -> char {
    ('0' as int + n) as char
}

fn digit(n: usize) -> (c: char)
    requires
        n < 10,
    ensures
        c == digit_char(n as nat),
{
    ('0' as u8 + n as u8) as char
}

/// Appends a number in decimal.
pub fn push_decimal(s: &mut String, n: usize)
    ensures
        final(s)@ == old(s)@ + decimal(n as nat),
    decreases n,
{
    if n >= 10 {
        push_decimal(s, n / 10);
    }
    s.push(digit(n % 10));
    assert(s@ =~= old(s)@ + decimal(n as nat));
}

/// Reading back a number written in decimal gives the number.
pub proof fn decimal_reads_back(n: nat)
    ensures
        is_number(decimal(n)),
        digits_value(decimal(n)) == n,
        n <= usize::MAX ==> parsed_usize(decimal(n)) == Some(n as usize),
        n <= i64::MAX ==> parsed_i64(decimal(n)) == Some(n as i64),
    decreases n,
{
    if n < 10 {
        reveal_with_fuel(digits_value, 2);
        assert(decimal(n).drop_last() =~= Seq::<char>::empty());
    } else {
        decimal_reads_back(n / 10);
        assert(decimal(n).drop_last() =~= decimal(n / 10));
    }
    assert(is_digit(decimal(n)[0]));
}

/// A number is written digit by digit: one below ten as its digit, any other as its
/// tens followed by its last digit.
pub proof fn decimal_is_written_by_digits(tens: nat, ones: nat)
    requires
        ones < 10,
    ensures
        decimal(ones) == seq![('0' as int + ones) as char],
        0 < tens ==> decimal(10 * tens + ones) == decimal(tens).push(('0' as int + ones) as char),
{
    assert((10 * tens + ones) / 10 == tens);
    assert((10 * tens + ones) % 10 == ones);
}

/// Digits are worth ten times what stands before them, and themselves.
pub proof fn digits_are_decimal(s: Seq<char>, c: char)
    ensures
        digits_value(Seq::empty()) == 0,
        digits_value(s.push(c)) == 10 * digits_value(s) + (c as int - '0' as int),
{
    assert(s.push(c).drop_last() =~= s);
}

/// A sign may stand before a signed number, and a plus before an unsigned one.
pub proof fn signed_decimal_reads_back(n: nat)
    ensures
        n <= i64::MAX ==> parsed_i64(seq!['+'] + decimal(n)) == Some(n as i64),
        n <= 0x8000_0000_0000_0000 ==> parsed_i64(seq!['-'] + decimal(n)) == Some((-n) as i64),
        n <= usize::MAX ==> parsed_usize(seq!['+'] + decimal(n)) == Some(n as usize),
{
    decimal_reads_back(n);
    assert((seq!['+'] + decimal(n)).drop_first() =~= decimal(n));
    assert((seq!['-'] + decimal(n)).drop_first() =~= decimal(n));
}

/// A text that stands for a number holds a digit, and nothing but digits after an
/// optional sign; a number that is too large is none.
pub proof fn numbers_hold_digits(s: Seq<char>)
    ensures
        parsed_i64(s) is Some ==> s.len() > 0 && '0' <= s.last() <= '9' && forall|i: int|
            0 < i < s.len() ==> '0' <= #[trigger] s[i] <= '9',
        parsed_i64(s) is Some ==> s[0] == '+' || s[0] == '-' || '0' <= s[0] <= '9',
        parsed_usize(s) is Some ==> s.len() > 0 && '0' <= s.last() <= '9' && forall|i: int|
            0 < i < s.len() ==> '0' <= #[trigger] s[i] <= '9',
        parsed_usize(s) is Some ==> s[0] == '+' || '0' <= s[0] <= '9',
        digits_value(s) > i64::MAX ==> parsed_i64(s) is None || s[0] == '+' || s[0] == '-',
        digits_value(s) > usize::MAX ==> parsed_usize(s) is None || s[0] == '+',
{
    let tail = s.drop_first();
    if s.len() > 0 {
        assert forall|i: int| 0 < i < s.len() && is_number(tail) implies is_digit(
            #[trigger] s[i],
        ) by {
            assert(is_digit(tail[i - 1]));
        }
        if is_number(s) {
            assert(is_digit(s[0]));
        }
    }
}

/// Different numbers are written differently.
pub proof fn decimals_differ(m: nat, n: nat)
    requires
        m != n,
    ensures
        decimal(m) != decimal(n),
{
    decimal_reads_back(m);
    decimal_reads_back(n);
}

/// The characters of a text.
pub fn chars_of(s: &str) -> (r: Vec<char>)
    ensures
        r@ == s@,
{
    let mut r: Vec<char> = Vec::new();
    for c in it: s.chars()
        invariant
            r@ == s@.take(it.index()),
            it.seq() == s@,
    {
        r.push(c);
    }
    assert(s@.take(s@.len() as int) =~= s@);
    r
}

/// The text made of the characters from `start` to `end`.
pub fn string_of(s: &Vec<char>, start: usize, end: usize) -> (r: String)
    requires
        start <= end <= s@.len(),
    ensures
        r@ == s@.subrange(start as int, end as int),
{
    let mut r = String::new();
    let mut i: usize = start;
    assert(r@ =~= s@.subrange(start as int, start as int));
    while i < end
        invariant
            start <= i <= end,
            end <= s@.len(),
            r@ == s@.subrange(start as int, i as int),
        decreases end - i,
    {
        r.push(s[i]);
        i += 1;
        assert(r@ =~= s@.subrange(start as int, i as int));
    }
    r
}

/// Whether `c` has the Unicode property `White_Space`.
pub open spec fn is_white(c: char) -> bool {
    ||| '\u{9}' <= c <= '\u{d}'
    ||| c == ' '
    ||| c == '\u{85}'
    ||| c == '\u{a0}'
    ||| c == '\u{1680}'
    ||| '\u{2000}' <= c <= '\u{200a}'
    ||| c == '\u{2028}'
    ||| c == '\u{2029}'
    ||| c == '\u{202f}'
    ||| c == '\u{205f}'
    ||| c == '\u{3000}'
}

/// Blanks, tabs and line ends are white space; digits, letters and the punctuation
/// of a header are not.
pub proof fn white_space_is_blank(c: char)
    ensures
        c == ' ' || c == '\t' || c == '\n' || c == '\r' ==> is_white(c),
        '!' <= c <= '~' ==> !is_white(c),
{
}

fn white(c: char) -> (r: bool)
    ensures
        r == is_white(c),
{
    ('\u{9}' <= c && c <= '\u{d}') || c == ' ' || c == '\u{85}' || c == '\u{a0}' || c == '\u{1680}'
        || ('\u{2000}' <= c && c <= '\u{200a}') || c == '\u{2028}' || c == '\u{2029}' || c
        == '\u{202f}' || c == '\u{205f}' || c == '\u{3000}'
}

/// The position of the first character from `start` to `end` that is not white
/// space; `end` where there is none.
pub open spec fn skip_white(s: Seq<char>, start: int, end: int) -> int
    decreases end - start,
{
    if start < end && is_white(s[start]) {
        skip_white(s, start + 1, end)
    } else {
        start
    }
}

/// The end of the characters from `start` to `end` without white space at the end.
pub open spec fn skip_white_back(s: Seq<char>, start: int, end: int) -> int
    decreases end - start,
{
    if start < end && is_white(s[end - 1]) {
        skip_white_back(s, start, end - 1)
    } else {
        end
    }
}

/// White space is left out, and nothing else: what is left starts and ends with
/// another character, or is empty.
pub proof fn only_white_is_left_out(s: Seq<char>, start: int, end: int)
    requires
        0 <= start <= end <= s.len(),
    ensures
        start <= skip_white(s, start, end) <= end,
        forall|i: int| start <= i < skip_white(s, start, end) ==> is_white(#[trigger] s[i]),
        skip_white(s, start, end) < end ==> !is_white(s[skip_white(s, start, end)]),
        start <= skip_white_back(s, start, end) <= end,
        forall|i: int| skip_white_back(s, start, end) <= i < end ==> is_white(#[trigger] s[i]),
        start < skip_white_back(s, start, end) ==> !is_white(
            s[skip_white_back(s, start, end) - 1],
        ),
    decreases end - start,
{
    if start < end {
        if is_white(s[start]) {
            only_white_is_left_out(s, start + 1, end);
        }
        if is_white(s[end - 1]) {
            only_white_is_left_out(s, start, end - 1);
        }
    }
}

/// Where the text from `start` to `end` begins, leaving out white space.
pub fn trim_start(s: &Vec<char>, start: usize, end: usize) -> (r: usize)
    requires
        start <= end <= s@.len(),
    ensures
        start <= r <= end,
        r == skip_white(s@, start as int, end as int),
{
    let mut i: usize = start;
    while i < end && white(s[i])
        invariant
            start <= i <= end,
            end <= s@.len(),
            skip_white(s@, start as int, end as int) == skip_white(s@, i as int, end as int),
        decreases end - i,
    {
        i += 1;
    }
    i
}

/// Where the text from `start` to `end` ends, leaving out white space.
pub fn trim_end(s: &Vec<char>, start: usize, end: usize) -> (r: usize)
    requires
        start <= end <= s@.len(),
    ensures
        start <= r <= end,
        r == skip_white_back(s@, start as int, end as int),
{
    let mut i: usize = end;
    while start < i && white(s[i - 1])
        invariant
            start <= i <= end,
            end <= s@.len(),
            skip_white_back(s@, start as int, end as int) == skip_white_back(
                s@,
                start as int,
                i as int,
            ),
        decreases i,
    {
        i -= 1;
    }
    i
}

/// `pattern` occurs in `s` at position `i`.
pub open spec fn occurs_at(s: Seq<char>, pattern: Seq<char>, i: int) -> bool {
    0 <= i && i + pattern.len() <= s.len() && s.subrange(i, i + pattern.len()) == pattern
}

/// The position of the first occurrence of `pattern` at or after `from`.
pub open spec fn first_occurrence(s: Seq<char>, pattern: Seq<char>, from: int) -> Option<int>
    decreases s.len() - from,
{
    if from < 0 || from + pattern.len() > s.len() {
        None
    } else if occurs_at(s, pattern, from) {
        Some(from)
    } else if from < s.len() {
        first_occurrence(s, pattern, from + 1)
    } else {
        None
    }
}

/// The first occurrence is an occurrence, and none is before it.
pub proof fn first_occurrence_is_first(s: Seq<char>, pattern: Seq<char>, from: int)
    requires
        0 <= from,
    ensures
        match first_occurrence(s, pattern, from) {
            Some(i) => from <= i && occurs_at(s, pattern, i) && forall|j: int|
                from <= j < i ==> !#[trigger] occurs_at(s, pattern, j),
            None => forall|j: int| from <= j ==> !#[trigger] occurs_at(s, pattern, j),
        },
    decreases s.len() - from,
{
    if from + pattern.len() > s.len() || occurs_at(s, pattern, from) {
    } else if from < s.len() {
        first_occurrence_is_first(s, pattern, from + 1);
    }
}

/// Whether `pattern` occurs in `s` at `at`.
fn matches_at(s: &Vec<char>, pattern: &Vec<char>, at: usize) -> (r: bool)
    requires
        at + pattern@.len() <= s@.len(),
    ensures
        r == occurs_at(s@, pattern@, at as int),
{
    let mut j: usize = 0;
    assert(at + pattern@.len() <= s.len());
    while j < pattern.len()
        invariant
            j <= pattern@.len(),
            at + pattern@.len() <= s@.len(),
            s@.len() <= usize::MAX,
            forall|k: int| 0 <= k < j ==> s@[at + k] == #[trigger] pattern@[k],
        decreases pattern@.len() - j,
    {
        if s[at + j] != pattern[j] {
            assert(s@.subrange(at as int, at + pattern@.len())[j as int] == s@[at + j]);
            return false;
        }
        j += 1;
    }
    assert(s@.subrange(at as int, at + pattern@.len()) =~= pattern@);
    true
}

/// Whether the characters are those of the text `t`.
pub fn equals(s: &Vec<char>, t: &str) -> (r: bool)
    ensures
        r == (s@ == t@),
{
    let t = chars_of(t);
    if s.len() != t.len() {
        return false;
    }
    let r = matches_at(s, &t, 0);
    assert(s@.subrange(0, s@.len() as int) =~= s@);
    r
}

/// Whether the characters begin with those of the text `t`.
pub fn starts_with(s: &Vec<char>, t: &str) -> (r: bool)
    ensures
        r == occurs_at(s@, t@, 0),
{
    let t = chars_of(t);
    t.len() <= s.len() && matches_at(s, &t, 0)
}

/// The position of the first occurrence of `pattern` in `s`.
pub fn find(s: &Vec<char>, pattern: &Vec<char>) -> (r: Option<usize>)
    ensures
        match r {
            Some(i) => first_occurrence(s@, pattern@, 0) == Some(i as int) && i + pattern@.len()
                <= s@.len(),
            None => first_occurrence(s@, pattern@, 0) is None,
        },
{
    let mut i: usize = 0;
    if pattern.len() > s.len() {
        return None;
    }
    let last: usize = s.len() - pattern.len();
    while i <= last
        invariant
            i <= last + 1,
            last + pattern@.len() == s@.len(),
            s@.len() <= usize::MAX,
            first_occurrence(s@, pattern@, 0) == first_occurrence(s@, pattern@, i as int),
        decreases last + 1 - i,
    {
        if matches_at(s, pattern, i) {
            return Some(i);
        }
        if i == last {
            assert(first_occurrence(s@, pattern@, i as int) is None) by {
                reveal_with_fuel(first_occurrence, 2);
            }
            return None;
        }
        i += 1;
    }
    None
}

/// The position of the first `c` from `start` on; the length of `s` where there is none.
pub open spec fn first_char(s: Seq<char>, c: char, start: int) -> int
    decreases s.len() - start,
{
    if start < s.len() && s[start] != c {
        first_char(s, c, start + 1)
    } else {
        start
    }
}

/// No `c` stands before the first one.
pub proof fn first_char_is_first(s: Seq<char>, c: char, start: int)
    requires
        0 <= start <= s.len(),
    ensures
        start <= first_char(s, c, start) <= s.len(),
        first_char(s, c, start) < s.len() ==> s[first_char(s, c, start)] == c,
        forall|i: int| start <= i < first_char(s, c, start) ==> #[trigger] s[i] != c,
    decreases s.len() - start,
{
    if start < s.len() && s[start] != c {
        first_char_is_first(s, c, start + 1);
    }
}

/// The position of the first `c` from `start` on; the length of `s` where there is none.
pub fn find_char(s: &Vec<char>, c: char, start: usize) -> (r: usize)
    requires
        start <= s@.len(),
    ensures
        start <= r <= s@.len(),
        r == first_char(s@, c, start as int),
        r < s@.len() ==> s@[r as int] == c,
{
    let mut i: usize = start;
    while i < s.len() && s[i] != c
        invariant
            start <= i <= s@.len(),
            first_char(s@, c, start as int) == first_char(s@, c, i as int),
        decreases s@.len() - i,
    {
        i += 1;
    }
    i
}

} // verus!
