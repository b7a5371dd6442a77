//! Headers of NPY files.

use crate::text;
use crate::utils::types::Kind;
use vstd::prelude::*;
use vstd::utf8;

verus! {

/// Why a file's header cannot be used.
#[derive(Debug)]
pub enum NpyError {
    /// The file does not start with the magic bytes
    NotNpy,
    /// A version 2 file that ends before its header's length
    TooShort,
    UnsupportedVersion(u8),
    NotUtf8,
    MissingDescr,
    UnsupportedDtype(String),
    FortranOrder,
    MissingShape,
    EmptyShape,
}

/// `std::str::from_utf8`: the text that the bytes encode, where they are valid UTF-8.
#[verifier::external_body]
fn text_from_utf8(bytes: &[u8]) -> (r: Option<&str>)
    ensures
        r is Some <==> utf8::valid_utf8(bytes@),
        r matches Some(s) ==> s@ == utf8::decode_utf8(bytes@),
{
    std::str::from_utf8(bytes).ok()
}

/// The position of the first `,` or `}` from `start` on; the length where there is none.
pub open spec fn first_end(s: Seq<char>, start: int) -> int
    decreases s.len() - start,
{
    if start < s.len() && s[start] != ',' && s[start] != '}' {
        first_end(s, start + 1)
    } else {
        start
    }
}

/// The characters from `start` to `end`, without white space around them.
pub open spec fn trimmed(s: Seq<char>, start: int, end: int) -> Seq<char> {
    let from = text::skip_white(s, start, end);
    s.subrange(from, text::skip_white_back(s, from, end))
}

/// The value that starts at `from`, after white space: what stands in quotes, a
/// tuple with its parentheses, or what comes before the next comma or brace.
pub open spec fn value_at(header: Seq<char>, from: int) -> Option<Seq<char>> {
    let start = text::skip_white(header, from, header.len() as int);
    if start < header.len() && header[start] == '\'' {
        let end = text::first_char(header, '\'', start + 1);
        if end < header.len() {
            Some(header.subrange(start + 1, end))
        } else {
            None
        }
    } else if start < header.len() && header[start] == '(' {
        let end = text::first_char(header, ')', start);
        if end < header.len() {
            Some(header.subrange(start, end + 1))
        } else {
            None
        }
    } else {
        Some(trimmed(header, start, first_end(header, start)))
    }
}

/// The value of the first field with the given key.
pub open spec fn field(header: Seq<char>, key: Seq<char>) -> Option<Seq<char>> {
    let pattern = "'"@ + key + "':"@;
    match text::first_occurrence(header, pattern, 0) {
        Some(i) => value_at(header, i + pattern.len()),
        None => None,
    }
}

/// The text, or none, that an optional string holds.
pub open spec fn text_of(s: Option<String>) -> Option<Seq<char>> {
    match s {
        Some(t) => Some(t@),
        None => None,
    }
}

fn find_end(s: &Vec<char>, start: usize) -> (r: usize)
    requires
        start <= s@.len(),
    ensures
        start <= r <= s@.len(),
        r == first_end(s@, start as int),
{
    let mut i: usize = start;
    while i < s.len() && s[i] != ',' && s[i] != '}'
        invariant
            start <= i <= s@.len(),
            first_end(s@, start as int) == first_end(s@, i as int),
        decreases s@.len() - i,
    {
        i += 1;
    }
    i
}

/// The value of a field is what follows the first place where its key stands in
/// quotes before a colon.
pub proof fn field_follows_its_key(header: Seq<char>, key: Seq<char>, i: int)
    requires
        0 <= i,
        i + key.len() + 3 <= header.len(),
        header.subrange(i, i + key.len() + 3) == seq!['\''] + key + seq!['\'', ':'],
        forall|j: int|
            0 <= j < i && j + key.len() + 3 <= header.len() ==> #[trigger] header.subrange(
                j,
                j + key.len() + 3,
            ) != seq!['\''] + key + seq!['\'', ':'],
    ensures
        field(header, key) == value_at(header, i + key.len() + 3),
{
    reveal_strlit("'");
    reveal_strlit("':");
    let pattern = "'"@ + key + "':"@;
    assert("'"@ =~= seq!['\'']);
    assert("':"@ =~= seq!['\'', ':']);
    assert(pattern.len() == key.len() + 3);
    text::first_occurrence_is_first(header, pattern, 0);
    assert(text::occurs_at(header, pattern, i));
    if let Some(j) = text::first_occurrence(header, pattern, 0) {
        assert(text::occurs_at(header, pattern, j));
        if j < i {
            assert(header.subrange(j, j + key.len() + 3) == pattern);
        }
    }
}

/// A key that does not stand in the header has no value.
pub proof fn missing_field_has_no_value(header: Seq<char>, key: Seq<char>)
    requires
        forall|j: int|
            0 <= j && j + key.len() + 3 <= header.len() ==> #[trigger] header.subrange(
                j,
                j + key.len() + 3,
            ) != seq!['\''] + key + seq!['\'', ':'],
    ensures
        field(header, key) is None,
{
    reveal_strlit("'");
    reveal_strlit("':");
    let pattern = "'"@ + key + "':"@;
    assert("'"@ =~= seq!['\'']);
    assert("':"@ =~= seq!['\'', ':']);
    text::first_occurrence_is_first(header, pattern, 0);
    if let Some(j) = text::first_occurrence(header, pattern, 0) {
        assert(text::occurs_at(header, pattern, j));
        assert(header.subrange(j, j + key.len() + 3) == pattern);
    }
}

/// After blanks, a text in quotes is read without them.
pub proof fn quoted_value_is_read(header: Seq<char>, from: int, start: int, end: int)
    requires
        0 <= from <= start < end < header.len(),
        forall|i: int| from <= i < start ==> #[trigger] header[i] == ' ',
        header[start] == '\'',
        header[end] == '\'',
        forall|i: int| start < i < end ==> #[trigger] header[i] != '\'',
    ensures
        value_at(header, from) == Some(header.subrange(start + 1, end)),
{
    blanks_are_skipped(header, from, start, header.len() as int);
    text::first_char_is_first(header, '\'', start + 1);
}

/// After blanks, a tuple is read with its parentheses.
pub proof fn tuple_value_is_read(header: Seq<char>, from: int, start: int, end: int)
    requires
        0 <= from <= start < end < header.len(),
        forall|i: int| from <= i < start ==> #[trigger] header[i] == ' ',
        header[start] == '(',
        header[end] == ')',
        forall|i: int| start < i < end ==> #[trigger] header[i] != ')',
    ensures
        value_at(header, from) == Some(header.subrange(start, end + 1)),
{
    blanks_are_skipped(header, from, start, header.len() as int);
    text::first_char_is_first(header, ')', start);
}

/// After blanks, a bare word is read up to the next comma or brace.
pub proof fn bare_value_is_read(header: Seq<char>, from: int, start: int, end: int)
    requires
        0 <= from <= start < end < header.len(),
        forall|i: int| from <= i < start ==> #[trigger] header[i] == ' ',
        forall|i: int|
            start <= i < end ==> '!' <= #[trigger] header[i] <= '~' && header[i] != '\''
                && header[i] != '(' && header[i] != ',' && header[i] != '}',
        header[end] == ',' || header[end] == '}',
    ensures
        value_at(header, from) == Some(header.subrange(start, end)),
{
    assert(header[start] != '\'');
    blanks_are_skipped(header, from, start, header.len() as int);
    end_is_first(header, start, end);
    text::only_white_is_left_out(header, start, end);
    text::white_space_is_blank(header[start]);
    text::white_space_is_blank(header[end - 1]);
    assert(text::skip_white(header, start, end) == start);
    assert(text::skip_white_back(header, start, end) == end);
}

proof fn blanks_are_skipped(s: Seq<char>, from: int, start: int, end: int)
    requires
        0 <= from <= start < end <= s.len(),
        forall|i: int| from <= i < start ==> #[trigger] s[i] == ' ',
        '!' <= s[start] <= '~',
    ensures
        text::skip_white(s, from, end) == start,
{
    text::only_white_is_left_out(s, from, end);
    text::white_space_is_blank(s[start]);
    let at = text::skip_white(s, from, end);
    if at < start {
        assert(s[at] == ' ');
        text::white_space_is_blank(s[at]);
    }
}

proof fn end_is_first(s: Seq<char>, start: int, end: int)
    requires
        0 <= start <= end < s.len(),
        forall|i: int| start <= i < end ==> #[trigger] s[i] != ',' && s[i] != '}',
        s[end] == ',' || s[end] == '}',
    ensures
        first_end(s, start) == end,
    decreases end - start,
{
    if start < end {
        end_is_first(s, start + 1, end);
    }
}

/// Extract a value for a given key from the NPY header dict string.
/// The header looks like: {'descr': '<f4', 'fortran_order': False, 'shape': (100, 128), }
pub fn extract_npy_field(header: &str, key: &str) -> (r: Option<String>)
    ensures
        text_of(r) == field(header@, key@),
{
    let h = text::chars_of(header);
    let mut quoted = String::new();
    quoted.append("'");
    quoted.append(key);
    quoted.append("':");
    let pattern = text::chars_of(quoted.as_str());
    assert(pattern@ =~= "'"@ + key@ + "':"@);
    let idx: usize = match text::find(&h, &pattern) {
        Some(i) => i,
        None => {
            return None;
        },
    };
    assert(idx + pattern@.len() <= h.len());
    let from: usize = idx + pattern.len();
    let start: usize = text::trim_start(&h, from, h.len());
    if start < h.len() && h[start] == '\'' {
        // String value
        let end: usize = text::find_char(&h, '\'', start + 1);
        if end < h.len() {
            Some(text::string_of(&h, start + 1, end))
        } else {
            None
        }
    } else if start < h.len() && h[start] == '(' {
        // Tuple value
        let end: usize = text::find_char(&h, ')', start);
        if end < h.len() {
            Some(text::string_of(&h, start, end + 1))
        } else {
            None
        }
    } else {
        // Bare value (e.g. True/False)
        let end: usize = find_end(&h, start);
        let first: usize = text::trim_start(&h, start, end);
        let last: usize = text::trim_end(&h, first, end);
        Some(text::string_of(&h, first, last))
    }
}

/// The element type that a type descriptor names.
pub open spec fn kind_of(descr: Seq<char>) -> Option<Kind> {
    if descr == "<i4"@ || descr == "=i4"@ {
        Some(Kind::Int)
    } else if descr == "<i8"@ || descr == "=i8"@ {
        Some(Kind::Int64)
    } else if descr == "|u1"@ || descr == "<u1"@ || descr == ">u1"@ {
        Some(Kind::Uint8)
    } else if descr == "<f4"@ || descr == "=f4"@ {
        Some(Kind::Float)
    } else if descr == "<f2"@ || descr == "=f2"@ {
        Some(Kind::Half)
    } else if descr == "<f8"@ || descr == "=f8"@ {
        Some(Kind::Double)
    } else {
        None
    }
}

/// The type descriptors that are supported, and what they name; no other is.
pub proof fn descriptors_name_kinds(descr: Seq<char>)
    ensures
        descr == "<i4"@ || descr == "=i4"@ ==> kind_of(descr) == Some(Kind::Int),
        descr == "<i8"@ || descr == "=i8"@ ==> kind_of(descr) == Some(Kind::Int64),
        descr == "|u1"@ || descr == "<u1"@ || descr == ">u1"@ ==> kind_of(descr) == Some(Kind::Uint8),
        descr == "<f4"@ || descr == "=f4"@ ==> kind_of(descr) == Some(Kind::Float),
        descr == "<f2"@ || descr == "=f2"@ ==> kind_of(descr) == Some(Kind::Half),
        descr == "<f8"@ || descr == "=f8"@ ==> kind_of(descr) == Some(Kind::Double),
        kind_of(descr) is Some ==> descr == "<i4"@ || descr == "=i4"@ || descr == "<i8"@ || descr
            == "=i8"@ || descr == "|u1"@ || descr == "<u1"@ || descr == ">u1"@ || descr == "<f4"@
            || descr == "=f4"@ || descr == "<f2"@ || descr == "=f2"@ || descr == "<f8"@ || descr
            == "=f8"@,
{
    reveal_strlit("<i4");
    reveal_strlit("=i4");
    reveal_strlit("<i8");
    reveal_strlit("=i8");
    reveal_strlit("|u1");
    reveal_strlit("<u1");
    reveal_strlit(">u1");
    reveal_strlit("<f4");
    reveal_strlit("=f4");
    reveal_strlit("<f2");
    reveal_strlit("=f2");
    reveal_strlit("<f8");
    reveal_strlit("=f8");
    assert("<i4"@[1] == 'i' && "<i4"@[2] == '4' && "=i4"@[1] == 'i' && "=i4"@[2] == '4');
    assert("<i8"@[1] == 'i' && "<i8"@[2] == '8' && "=i8"@[1] == 'i' && "=i8"@[2] == '8');
    assert("|u1"@[1] == 'u' && "<u1"@[1] == 'u' && ">u1"@[1] == 'u');
    assert("<f4"@[1] == 'f' && "<f4"@[2] == '4' && "=f4"@[1] == 'f' && "=f4"@[2] == '4');
    assert("<f2"@[1] == 'f' && "<f2"@[2] == '2' && "=f2"@[1] == 'f' && "=f2"@[2] == '2');
    assert("<f8"@[1] == 'f' && "<f8"@[2] == '8' && "=f8"@[1] == 'f' && "=f8"@[2] == '8');
}

fn parse_descr(descr: &str) -> (r: Option<Kind>)
    ensures
        r == kind_of(descr@),
{
    let d = text::chars_of(descr);
    if text::equals(&d, "<i4") || text::equals(&d, "=i4") {
        Some(Kind::Int)
    } else if text::equals(&d, "<i8") || text::equals(&d, "=i8") {
        Some(Kind::Int64)
    } else if text::equals(&d, "|u1") || text::equals(&d, "<u1") || text::equals(&d, ">u1") {
        Some(Kind::Uint8)
    } else if text::equals(&d, "<f4") || text::equals(&d, "=f4") {
        Some(Kind::Float)
    } else if text::equals(&d, "<f2") || text::equals(&d, "=f2") {
        Some(Kind::Half)
    } else if text::equals(&d, "<f8") || text::equals(&d, "=f8") {
        Some(Kind::Double)
    } else {
        None
    }
}

pub open spec fn is_paren(c: char) -> bool {
    c == '(' || c == ')'
}

/// Where the text from `start` to `end` begins, leaving out parentheses.
pub open spec fn skip_parens(s: Seq<char>, start: int, end: int) -> int
    decreases end - start,
{
    if start < end && is_paren(s[start]) {
        skip_parens(s, start + 1, end)
    } else {
        start
    }
}

/// Where the text from `start` to `end` ends, leaving out parentheses.
pub open spec fn skip_parens_back(s: Seq<char>, start: int, end: int) -> int
    decreases end - start,
{
    if start < end && is_paren(s[end - 1]) {
        skip_parens_back(s, start, end - 1)
    } else {
        end
    }
}

/// The position of the first comma from `start` to `end`; `end` where there is none.
pub open spec fn first_comma(s: Seq<char>, start: int, end: int) -> int
    decreases end - start,
{
    if start < end && s[start] != ',' {
        first_comma(s, start + 1, end)
    } else {
        start
    }
}

/// The numbers between the commas; what is no number is left out.
pub open spec fn numbers(s: Seq<char>, start: int, end: int) -> Seq<i64>
    decreases end - start,
{
    let comma = first_comma(s, start, end);
    let first = match text::parsed_i64(trimmed(s, start, comma)) {
        Some(n) => seq![n],
        None => Seq::empty(),
    };
    if start <= comma < end {
        first + numbers(s, comma + 1, end)
    } else {
        first
    }
}

/// The dimensions in a shape tuple.
pub open spec fn shape_of(s: Seq<char>) -> Seq<i64> {
    let start = skip_parens(s, 0, s.len() as int);
    numbers(s, start, skip_parens_back(s, start, s.len() as int))
}

/// Dimensions as they are written in a tuple: with a comma and a blank between them.
pub open spec fn joined(dims: Seq<i64>) -> Seq<char>
    decreases dims.len(),
{
    if dims.len() == 0 {
        Seq::empty()
    } else if dims.len() == 1 {
        text::decimal(dims[0] as nat)
    } else {
        text::decimal(dims[0] as nat) + seq![',', ' '] + joined(dims.drop_first())
    }
}

proof fn comma_is_first(s: Seq<char>, start: int, comma: int, end: int)
    requires
        0 <= start <= comma <= end <= s.len(),
        forall|i: int| start <= i < comma ==> #[trigger] s[i] != ',',
        comma == end || s[comma] == ',',
    ensures
        first_comma(s, start, end) == comma,
    decreases comma - start,
{
    if start < comma {
        comma_is_first(s, start + 1, comma, end);
    }
}

/// A number that is written after blanks is found without them.
proof fn number_is_trimmed(s: Seq<char>, start: int, from: int, end: int, n: nat)
    requires
        0 <= start <= from < end <= s.len(),
        forall|i: int| start <= i < from ==> #[trigger] s[i] == ' ',
        s.subrange(from, end) == text::decimal(n),
    ensures
        trimmed(s, start, end) == text::decimal(n),
        forall|i: int| from <= i < end ==> text::is_digit(#[trigger] s[i]),
{
    text::decimal_reads_back(n);
    assert forall|i: int| from <= i < end implies text::is_digit(#[trigger] s[i]) by {
        assert(s.subrange(from, end)[i - from] == s[i]);
        assert(text::is_digit(text::decimal(n)[i - from]));
    }
    assert(text::is_digit(s[from]) && text::is_digit(s[end - 1]));
    blanks_are_skipped(s, start, from, end);
    text::only_white_is_left_out(s, from, end);
    text::white_space_is_blank(s[end - 1]);
    assert(text::skip_white_back(s, from, end) == end);
}

proof fn joined_numbers_read_back(s: Seq<char>, start: int, from: int, end: int, dims: Seq<i64>)
    requires
        0 < dims.len(),
        forall|d: int| 0 <= d < dims.len() ==> 0 <= #[trigger] dims[d],
        0 <= start <= from <= end <= s.len(),
        forall|i: int| start <= i < from ==> #[trigger] s[i] == ' ',
        s.subrange(from, end) == joined(dims),
    ensures
        numbers(s, start, end) == dims,
    decreases dims.len(),
{
    let n = dims[0] as nat;
    let own = text::decimal(n);
    text::decimal_reads_back(n);
    assert(0 <= dims[0]);
    if dims.len() == 1 {
        assert(end == from + own.len());
        number_is_trimmed(s, start, from, end, n);
        assert forall|i: int| start <= i < end implies #[trigger] s[i] != ',' by {
            if from <= i {
                assert(text::is_digit(s[i]));
            }
        }
        comma_is_first(s, start, end, end);
        assert(numbers(s, start, end) =~= dims);
    } else {
        let rest = dims.drop_first();
        let comma = from + own.len();
        let whole = joined(dims);
        assert(whole.len() == own.len() + 2 + joined(rest).len());
        assert(s.subrange(from, comma) =~= own) by {
            assert forall|i: int| 0 <= i < own.len() implies s[from + i] == own[i] by {
                assert(s.subrange(from, end)[i] == whole[i]);
            }
        }
        assert(s.subrange(from, end)[own.len() as int] == ',');
        assert(s.subrange(from, end)[own.len() as int + 1] == ' ');
        assert(s[comma] == ',' && s[comma + 1] == ' ');
        number_is_trimmed(s, start, from, comma, n);
        assert forall|i: int| start <= i < comma implies #[trigger] s[i] != ',' by {
            if from <= i {
                assert(text::is_digit(s[i]));
            }
        }
        comma_is_first(s, start, comma, end);
        assert(s.subrange(comma + 2, end) =~= joined(rest)) by {
            assert forall|i: int| 0 <= i < joined(rest).len() implies s[comma + 2 + i]
                == joined(rest)[i] by {
                assert(s.subrange(from, end)[own.len() + 2 + i] == whole[own.len() + 2 + i]);
            }
        }
        assert forall|d: int| 0 <= d < rest.len() implies 0 <= #[trigger] rest[d] by {
            assert(rest[d] == dims[d + 1]);
        }
        joined_numbers_read_back(s, comma + 1, comma + 2, end, rest);
        assert(seq![dims[0]] + rest =~= dims);
    }
}

proof fn joined_ends_in_digits(dims: Seq<i64>)
    requires
        0 < dims.len(),
    ensures
        joined(dims).len() > 0,
        text::is_digit(joined(dims)[0]),
        text::is_digit(joined(dims).last()),
    decreases dims.len(),
{
    text::decimal_reads_back(dims[0] as nat);
    let own = text::decimal(dims[0] as nat);
    assert(text::is_digit(own[0]) && text::is_digit(own[own.len() - 1]));
    if dims.len() > 1 {
        joined_ends_in_digits(dims.drop_first());
    }
}

/// A shape is read back: the dimensions that are written in a tuple, however many,
/// are those that are read, in their order.
pub proof fn shape_reads_back(dims: Seq<i64>)
    requires
        0 < dims.len(),
        forall|d: int| 0 <= d < dims.len() ==> 0 <= #[trigger] dims[d],
    ensures
        shape_of(seq!['('] + joined(dims) + seq![')']) == dims,
{
    let s = seq!['('] + joined(dims) + seq![')'];
    let end = s.len() - 1;
    joined_ends_in_digits(dims);
    assert(s[0] == '(' && s[end] == ')');
    assert(s[1] == joined(dims)[0] && s[end - 1] == joined(dims).last());
    reveal_with_fuel(skip_parens, 3);
    reveal_with_fuel(skip_parens_back, 3);
    assert(skip_parens(s, 0, s.len() as int) == 1);
    assert(skip_parens_back(s, 1, s.len() as int) == end);
    assert(s.subrange(1, end) =~= joined(dims));
    joined_numbers_read_back(s, 1, 1, end, dims);
}

fn parse_shape(shape: &str) -> (r: Vec<i64>)
    ensures
        r@ == shape_of(shape@),
{
    let s = text::chars_of(shape);
    let len: usize = s.len();
    let mut start: usize = 0;
    while start < len && (s[start] == '(' || s[start] == ')')
        invariant
            start <= len,
            len == s@.len(),
            skip_parens(s@, 0, len as int) == skip_parens(s@, start as int, len as int),
        decreases len - start,
    {
        start += 1;
    }
    let mut end: usize = len;
    while start < end && (s[end - 1] == '(' || s[end - 1] == ')')
        invariant
            start <= end <= len,
            len == s@.len(),
            skip_parens_back(s@, start as int, len as int) == skip_parens_back(
                s@,
                start as int,
                end as int,
            ),
        decreases end,
    {
        end -= 1;
    }
    let ghost goal = numbers(s@, start as int, end as int);
    let mut r: Vec<i64> = Vec::new();
    let mut at: usize = start;
    let mut done: bool = false;
    assert(r@ + goal =~= goal);
    while !done
        invariant
            start <= at <= end,
            end <= len,
            len == s@.len(),
            !done ==> goal == r@ + numbers(s@, at as int, end as int),
            done ==> goal == r@,
        decreases end - at + if done {
            0int
        } else {
            1int
        },
    {
        let ghost from = at;
        let ghost before = r@;
        let mut comma: usize = at;
        while comma < end && s[comma] != ','
            invariant
                at <= comma <= end,
                end <= len,
                len == s@.len(),
                first_comma(s@, at as int, end as int) == first_comma(
                    s@,
                    comma as int,
                    end as int,
                ),
            decreases end - comma,
        {
            comma += 1;
        }
        let first: usize = text::trim_start(&s, at, comma);
        let last: usize = text::trim_end(&s, first, comma);
        let item = text::chars_of(text::string_of(&s, first, last).as_str());
        assert(item@ =~= trimmed(s@, at as int, comma as int));
        let ghost mut own: Seq<i64> = Seq::empty();
        if let Some(n) = text::parse_i64(&item) {
            r.push(n);
            proof {
                own = seq![n];
            }
        }
        assert(r@ =~= before + own);
        if comma < end {
            at = comma + 1;
            assert(goal == r@ + numbers(s@, at as int, end as int)) by {
                assert(before + (own + numbers(s@, at as int, end as int)) =~= (before + own)
                    + numbers(s@, at as int, end as int));
            }
        } else {
            done = true;
        }
    }
    r
}

/// The six bytes that an NPY file starts with.
pub open spec fn magic() -> Seq<u8> {
    seq![0x93u8, 0x4eu8, 0x55u8, 0x4du8, 0x50u8, 0x59u8]
}

/// Whether the bytes start as an NPY file does.
pub open spec fn is_npy(data: Seq<u8>) -> bool {
    data.len() >= 10 && data.subrange(0, 6) == magic()
}

/// Where the header text starts, and how long it is, in a file of version 1 or 2.
pub open spec fn header_span(data: Seq<u8>) -> (int, int) {
    if data[6] == 1 {
        (10, data[8] + 256 * data[9])
    } else {
        (12, data[8] + 256 * data[9] + 0x1_0000 * data[10] + 0x100_0000 * data[11])
    }
}

/// Whether a file of version 1 or 2 is long enough to say how long its header is.
pub open spec fn has_header_length(data: Seq<u8>) -> bool {
    is_npy(data) && (data[6] == 1 || (data[6] == 2 && data.len() >= 12))
}

/// The file holds all of the header that it announces, if it announces one.
pub open spec fn header_fits(data: Seq<u8>) -> bool {
    has_header_length(data) ==> header_span(data).0 + header_span(data).1 <= data.len()
}

/// What the header text gives: the shape and the element type, or the first
/// thing that is wrong with it.
pub open spec fn reads_text(
    header: Seq<char>,
    offset: int,
    r: Result<(u64, Vec<i64>, Kind), NpyError>,
) -> bool {
    match field(header, "descr"@) {
        None => r matches Err(NpyError::MissingDescr),
        Some(descr) => match kind_of(descr) {
            None => r matches Err(NpyError::UnsupportedDtype(d)) && d@ == descr,
            Some(kind) => if field(header, "fortran_order"@) is Some && field(
                header,
                "fortran_order"@,
            ) != Some("False"@) {
                r matches Err(NpyError::FortranOrder)
            } else {
                match field(header, "shape"@) {
                    None => r matches Err(NpyError::MissingShape),
                    Some(shape) => if shape_of(shape).len() == 0 {
                        r matches Err(NpyError::EmptyShape)
                    } else {
                        r matches Ok((o, s, k)) && o == offset && s@ == shape_of(shape) && k
                            == kind
                    },
                }
            },
        },
    }
}

/// What a file's bytes give: where the data starts, the shape and the element
/// type, or the first thing that is wrong with the header.
pub open spec fn reads_header(
    data: Seq<u8>,
    r: Result<(u64, Vec<i64>, Kind), NpyError>,
) -> bool {
    if !is_npy(data) {
        r matches Err(NpyError::NotNpy)
    } else if data[6] == 2 && data.len() < 12 {
        r matches Err(NpyError::TooShort)
    } else if data[6] != 1 && data[6] != 2 {
        r matches Err(NpyError::UnsupportedVersion(v)) && v == data[6]
    } else {
        let (start, len) = header_span(data);
        let bytes = data.subrange(start, start + len);
        if !utf8::valid_utf8(bytes) {
            r matches Err(NpyError::NotUtf8)
        } else {
            reads_text(utf8::decode_utf8(bytes), start + len, r)
        }
    }
}

/// A file is read as NPY exactly where it is long enough and starts with byte 0x93
/// and the letters NUMPY.
pub proof fn npy_files_start_with_magic(data: Seq<u8>)
    ensures
        is_npy(data) <==> data.len() >= 10 && data[0] == 0x93 && data[1] == 0x4e && data[2] == 0x55
            && data[3] == 0x4d && data[4] == 0x50 && data[5] == 0x59,
{
    if data.len() >= 10 {
        let head = data.subrange(0, 6);
        assert(head[0] == data[0] && head[1] == data[1] && head[2] == data[2] && head[3] == data[3]
            && head[4] == data[4] && head[5] == data[5]);
        if data[0] == 0x93 && data[1] == 0x4e && data[2] == 0x55 && data[3] == 0x4d && data[4]
            == 0x50 && data[5] == 0x59 {
            assert(head =~= magic());
        }
    }
}

/// A header that names a supported type, a shape and C order is read: its data starts
/// where the header ends, which the two bytes after the version say in version 1, and
/// the four bytes after it in version 2, the lowest byte first.
pub proof fn complete_header_is_read(
    data: Seq<u8>,
    start: int,
    end: int,
    descr: Seq<char>,
    shape: Seq<char>,
    r: Result<(u64, Vec<i64>, Kind), NpyError>,
)
    requires
        is_npy(data),
        (data[6] == 1 && start == 10 && end == 10 + data[8] + 256 * data[9]) || (data[6] == 2
            && data.len() >= 12 && start == 12 && end == 12 + data[8] + 256 * data[9] + 65_536
            * data[10] + 16_777_216 * data[11]),
        end <= data.len(),
        utf8::valid_utf8(data.subrange(start, end)),
        ({
            let header = utf8::decode_utf8(data.subrange(start, end));
            &&& field(header, "descr"@) == Some(descr)
            &&& field(header, "shape"@) == Some(shape)
            &&& field(header, "fortran_order"@) is None || field(header, "fortran_order"@) == Some(
                "False"@,
            )
        }),
        kind_of(descr) is Some,
        shape_of(shape).len() > 0,
        reads_header(data, r),
    ensures
        r matches Ok((offset, dims, kind)) && offset == end && dims@ == shape_of(shape) && Some(kind)
            == kind_of(descr),
{
}

/// A header is refused for what is wrong with it, the first thing first.
pub proof fn faulty_header_is_refused(
    data: Seq<u8>,
    r: Result<(u64, Vec<i64>, Kind), NpyError>,
)
    requires
        reads_header(data, r),
    ensures
        r matches Err(NpyError::NotNpy) <==> !is_npy(data),
        r matches Err(NpyError::TooShort) <==> is_npy(data) && data[6] == 2 && data.len() < 12,
        r matches Err(NpyError::UnsupportedVersion(_)) <==> is_npy(data) && data[6] != 1 && data[6]
            != 2,
        r matches Err(NpyError::UnsupportedVersion(v)) ==> v == data[6],
        r matches Ok((_, dims, _)) ==> dims@.len() > 0,
{
}

fn starts_as_npy(data: &Vec<u8>) -> (r: bool)
    ensures
        r == is_npy(data@),
{
    if data.len() < 10 {
        return false;
    }
    let r: bool = data[0] == 0x93 && data[1] == 0x4e && data[2] == 0x55 && data[3] == 0x4d
        && data[4] == 0x50 && data[5] == 0x59;
    proof {
        let head = data@.subrange(0, 6);
        if r {
            assert(head =~= magic());
        } else {
            assert(head[0] == data@[0] && head[1] == data@[1] && head[2] == data@[2] && head[3]
                == data@[3] && head[4] == data@[4] && head[5] == data@[5]);
        }
    }
    r
}

/// A header fits exactly where it ends within the file. Files that announce none fit.
pub proof fn fitting_headers_end_in_file(data: Seq<u8>)
    ensures
        !is_npy(data) ==> header_fits(data),
        is_npy(data) && data[6] == 1 ==> (header_fits(data) <==> 10 + data[8] + 256 * data[9]
            <= data.len()),
        is_npy(data) && data[6] == 2 && data.len() >= 12 ==> (header_fits(data) <==> 12 + data[8]
            + 256 * data[9] + 65_536 * data[10] + 16_777_216 * data[11] <= data.len()),
        is_npy(data) && data[6] != 1 && data[6] != 2 ==> header_fits(data),
{
}

fn span_of(data: &Vec<u8>) -> (r: (u64, u64))
    requires
        has_header_length(data@),
    ensures
        (r.0 as int, r.1 as int) == header_span(data@),
{
    if data[6] == 1 {
        (10, data[8] as u64 + 256 * data[9] as u64)
    } else {
        (
            12,
            data[8] as u64 + 256 * data[9] as u64 + 0x1_0000 * data[10] as u64 + 0x100_0000
                * data[11] as u64,
        )
    }
}

/// Whether the file holds all of the header that it announces.
pub fn npy_header_fits(data: &Vec<u8>) -> (r: bool)
    ensures
        r == header_fits(data@),
{
    if !starts_as_npy(data) || !(data[6] == 1 || (data[6] == 2 && data.len() >= 12)) {
        return true;
    }
    let (start, len) = span_of(data);
    start + len <= data.len() as u64
}

/// Parse a NPY file header, returning (data_offset, shape, kind).
pub fn parse_npy_header(data: &Vec<u8>) -> (r: Result<(u64, Vec<i64>, Kind), NpyError>)
    requires
        header_fits(data@),
    ensures
        reads_header(data@, r),
{
    if !starts_as_npy(data) {
        return Err(NpyError::NotNpy);
    }
    let major: u8 = data[6];
    if major == 2 && data.len() < 12 {
        return Err(NpyError::TooShort);
    }
    if major != 1 && major != 2 {
        return Err(NpyError::UnsupportedVersion(major));
    }
    let (start, len) = span_of(data);
    let data_offset: u64 = start + len;
    let bytes = vstd::slice::slice_subrange(
        data.as_slice(),
        start as usize,
        data_offset as usize,
    );
    let header = match text_from_utf8(bytes) {
        Some(h) => h,
        None => {
            return Err(NpyError::NotUtf8);
        },
    };

    // Parse 'descr'
    let descr = match extract_npy_field(header, "descr") {
        Some(d) => d,
        None => {
            return Err(NpyError::MissingDescr);
        },
    };
    let kind = match parse_descr(descr.as_str()) {
        Some(k) => k,
        None => {
            return Err(NpyError::UnsupportedDtype(descr));
        },
    };

    // Parse 'fortran_order'
    if let Some(fortran) = extract_npy_field(header, "fortran_order") {
        if !text::equals(&text::chars_of(fortran.as_str()), "False") {
            return Err(NpyError::FortranOrder);
        }
    }

    // Parse 'shape'
    let shape = match extract_npy_field(header, "shape") {
        Some(s) => parse_shape(s.as_str()),
        None => {
            return Err(NpyError::MissingShape);
        },
    };
    if shape.len() == 0 {
        return Err(NpyError::EmptyShape);
    }
    Ok((data_offset, shape, kind))
}

/// The product of the dimensions from `i` on.
pub open spec fn suffix_product(shape: Seq<i64>, i: int) -> int
    decreases shape.len() - i,
{
    if i >= shape.len() {
        1
    } else {
        shape[i] * suffix_product(shape, i + 1)
    }
}

/// Compute C-contiguous strides for a given shape.
pub fn compute_c_strides(shape: &Vec<i64>) -> (strides: Vec<i64>)
    requires
        forall|i: int|
            0 < i <= shape@.len() ==> i64::MIN <= #[trigger] suffix_product(shape@, i) <= i64::MAX,
    ensures
        strides@ == Seq::new(
            shape@.len(),
            |i: int| suffix_product(shape@, i + 1) as i64,
        ),
        strides@.len() == shape@.len(),
        0 < shape@.len() ==> strides@[shape@.len() - 1] == 1,
        forall|i: int|
            0 <= i < shape@.len() - 1 ==> #[trigger] strides@[i] == strides@[i + 1] * shape@[i + 1],
{
    let n: usize = shape.len();
    let mut strides: Vec<i64> = Vec::new();
    let mut i: usize = 0;
    while i < n
        invariant
            i <= n,
            strides@.len() == i,
            forall|j: int| 0 <= j < i ==> #[trigger] strides@[j] == 1,
        decreases n - i,
    {
        strides.push(1);
        i += 1;
    }
    if n == 0 {
        assert(strides@ =~= Seq::new(
            shape@.len(),
            |i: int| suffix_product(shape@, i + 1) as i64,
        ));
        return strides;
    }
    let mut i: usize = n - 1;
    while 0 < i
        invariant
            i < n,
            n == shape@.len(),
            strides@.len() == n,
            forall|j: int|
                0 < j <= shape@.len() ==> i64::MIN <= #[trigger] suffix_product(shape@, j)
                    <= i64::MAX,
            forall|j: int|
                i <= j < n ==> #[trigger] strides@[j] == suffix_product(shape@, j + 1),
        decreases i,
    {
        let ghost product = suffix_product(shape@, i as int);
        assert(product == shape@[i as int] * suffix_product(shape@, i + 1));
        assert(strides@[i as int] * shape@[i as int] == shape@[i as int] * strides@[i as int])
            by (nonlinear_arith);
        let stride: i64 = strides[i] * shape[i];
        i -= 1;
        strides.set(i, stride);
    }
    assert(strides@ =~= Seq::new(shape@.len(), |i: int| suffix_product(shape@, i + 1) as i64));
    proof {
        assert forall|i: int| 0 <= i < n - 1 implies #[trigger] strides@[i] == strides@[i + 1]
            * shape@[i + 1] by {
            let (a, b) = (shape@[i + 1] as int, suffix_product(shape@, i + 2));
            assert(a * b == b * a) by (nonlinear_arith);
            assert(suffix_product(shape@, i + 1) == a * b);
        }
    }
    strides
}

} // verus!
