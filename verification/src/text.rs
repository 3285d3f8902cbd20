//! Text as sequences of characters.
//!
//! The parsers of this crate work on character slices; `chars_of` and `string_of`
//! lead from strings to characters and back.

use vstd::prelude::*;
use vstd::slice::slice_subrange;

verus! {

broadcast use vstd::string::group_string_axioms;

/// `String::push` appends one character to the end of the string.
pub assume_specification[ String::push ](text: &mut String, c: char)
    ensures
        final(text)@ == old(text)@.push(c),
;

/// The characters of `text`, in order.
pub fn chars_of(text: &str) -> (chars: Vec<char>)
    ensures
        chars@ == text@,
{
    let mut chars: Vec<char> = Vec::new();
    for c in it: text.chars()
        invariant
            it.seq() == text@,
            chars@ == text@.take(it.index() as int),
    {
        chars.push(c);
        assert(text@.take(it.index() + 1) =~= text@.take(it.index() as int).push(c));
    }
    assert(text@.take(text@.len() as int) =~= text@);
    chars
}

/// The string that holds exactly `chars`.
pub fn string_of(chars: &[char]) -> (text: String)
    ensures
        text@ == chars@,
{
    let mut text = String::new();
    let mut i: usize = 0;
    while i < chars.len()
        invariant
            i <= chars@.len(),
            text@ == chars@.take(i as int),
        decreases chars@.len() - i,
    {
        text.push(chars[i]);
        assert(chars@.take(i + 1) =~= chars@.take(i as int).push(chars@[i as int]));
        i = i + 1;
    }
    assert(chars@.take(chars@.len() as int) =~= chars@);
    text
}

/// Whether `part` stands in `text` at position `at`.
pub open spec fn occurs_at(text: Seq<char>, part: Seq<char>, at: int) -> bool {
    0 <= at && at + part.len() <= text.len() && text.subrange(at, at + part.len()) == part
}

pub open spec fn starts_with(text: Seq<char>, prefix: Seq<char>) -> bool {
    occurs_at(text, prefix, 0)
}

pub open spec fn ends_with(text: Seq<char>, suffix: Seq<char>) -> bool {
    occurs_at(text, suffix, text.len() - suffix.len())
}

/// The first position, from `from` on, at which `part` stands in `text`.
pub open spec fn find_from(text: Seq<char>, part: Seq<char>, from: int) -> Option<int>
    decreases text.len() + 1 - from,
{
    if from < 0 || from + part.len() > text.len() {
        None
    } else if occurs_at(text, part, from) {
        Some(from)
    } else {
        find_from(text, part, from + 1)
    }
}

/// The first position at which `part` stands in `text`.
pub open spec fn find(text: Seq<char>, part: Seq<char>) -> Option<int> {
    find_from(text, part, 0)
}

/// The first position, from `from` on, of the character `c` in `text`.
pub open spec fn find_char_from(text: Seq<char>, c: char, from: int) -> Option<int>
    decreases text.len() - from,
{
    if from < 0 || from >= text.len() {
        None
    } else if text[from] == c {
        Some(from)
    } else {
        find_char_from(text, c, from + 1)
    }
}

/// The first position of the character `c` in `text`.
pub open spec fn find_char(text: Seq<char>, c: char) -> Option<int> {
    find_char_from(text, c, 0)
}

/// What `find_from` gives is the least position, from `from` on, at which `part` stands.
pub proof fn lemma_find_from_is_first(text: Seq<char>, part: Seq<char>, from: int)
    requires
        0 <= from,
    ensures
        match find_from(text, part, from) {
            Some(at) => from <= at && occurs_at(text, part, at) && forall|i: int|
                from <= i < at ==> !occurs_at(text, part, i),
            None => forall|i: int| from <= i ==> !occurs_at(text, part, i),
        },
    decreases text.len() + 1 - from,
{
    if from + part.len() <= text.len() && !occurs_at(text, part, from) {
        lemma_find_from_is_first(text, part, from + 1);
    }
}

/// What `find_char_from` gives is the least position, from `from` on, that holds `c`.
pub proof fn lemma_find_char_from_is_first(text: Seq<char>, c: char, from: int)
    requires
        0 <= from,
    ensures
        match find_char_from(text, c, from) {
            Some(at) => from <= at < text.len() && text[at] == c && forall|i: int|
                from <= i < at ==> text[i] != c,
            None => forall|i: int| from <= i < text.len() ==> text[i] != c,
        },
    decreases text.len() - from,
{
    if from < text.len() && text[from] != c {
        lemma_find_char_from_is_first(text, c, from + 1);
    }
}

/// Whether `part` stands in `text` at position `at`.
pub fn occurs(text: &[char], part: &[char], at: usize) -> (found: bool)
    requires
        at <= text@.len(),
    ensures
        found == occurs_at(text@, part@, at as int),
{
    let available: usize = text.len() - at;
    if part.len() > available {
        return false;
    }
    let mut i: usize = 0;
    while i < part.len()
        invariant
            i <= part@.len(),
            at + available <= usize::MAX,
            part@.len() <= available,
            at + part@.len() <= text@.len(),
            forall|j: int| 0 <= j < i ==> text@[at + j] == part@[j],
        decreases part@.len() - i,
    {
        if text[at + i] != part[i] {
            assert(text@.subrange(at as int, at + part@.len())[i as int] != part@[i as int]);
            return false;
        }
        i = i + 1;
    }
    assert(text@.subrange(at as int, at + part@.len()) =~= part@);
    true
}

/// The first position, from `from` on, at which `part` stands in `text`.
pub fn position_from(text: &[char], part: &[char], from: usize) -> (found: Option<usize>)
    requires
        from <= text@.len(),
    ensures
        match found {
            Some(at) => find_from(text@, part@, from as int) == Some(at as int) && at + part@.len()
                <= text@.len(),
            None => find_from(text@, part@, from as int) is None,
        },
{
    let mut at: usize = from;
    while at <= text.len() && part.len() <= text.len() - at
        invariant
            from <= at <= text@.len() + 1,
            find_from(text@, part@, from as int) == find_from(text@, part@, at as int),
        decreases text@.len() + 1 - at,
    {
        if occurs(text, part, at) {
            return Some(at);
        }
        if at == text.len() {
            assert(find_from(text@, part@, at as int) == find_from(text@, part@, at + 1));
            return None;
        }
        at = at + 1;
    }
    None
}

/// The first position, from `from` on, of the character `c` in `text`.
pub fn char_position_from(text: &[char], c: char, from: usize) -> (found: Option<usize>)
    requires
        from <= text@.len(),
    ensures
        match found {
            Some(at) => find_char_from(text@, c, from as int) == Some(at as int) && from <= at
                < text@.len(),
            None => find_char_from(text@, c, from as int) is None,
        },
{
    let mut at: usize = from;
    while at < text.len()
        invariant
            from <= at <= text@.len(),
            find_char_from(text@, c, from as int) == find_char_from(text@, c, at as int),
        decreases text@.len() - at,
    {
        if text[at] == c {
            return Some(at);
        }
        at = at + 1;
    }
    None
}

/// Whether `text` begins with `prefix`.
pub fn has_prefix(text: &[char], prefix: &str) -> (found: bool)
    ensures
        found == starts_with(text@, prefix@),
{
    let prefix: Vec<char> = chars_of(prefix);
    occurs(text, prefix.as_slice(), 0)
}

/// Whether `text` ends with `suffix`.
pub fn has_suffix(text: &[char], suffix: &str) -> (found: bool)
    ensures
        found == ends_with(text@, suffix@),
{
    let suffix: Vec<char> = chars_of(suffix);
    if suffix.len() > text.len() {
        return false;
    }
    occurs(text, suffix.as_slice(), text.len() - suffix.len())
}

/// Whether `text` holds exactly the characters of `other`.
pub fn equals(text: &[char], other: &str) -> (same: bool)
    ensures
        same == (text@ == other@),
{
    let other: Vec<char> = chars_of(other);
    if text.len() != other.len() {
        return false;
    }
    let same: bool = occurs(text, other.as_slice(), 0);
    assert(text@.subrange(0, other@.len() as int) =~= text@);
    same
}

/// Whether two strings hold the same characters.
pub fn same_text(left: &str, right: &str) -> (same: bool)
    ensures
        same == (left@ == right@),
{
    let left: Vec<char> = chars_of(left);
    equals(left.as_slice(), right)
}

/// Appends every character of `part` to `text`.
pub fn push_all(text: &mut Vec<char>, part: &[char])
    ensures
        final(text)@ == old(text)@ + part@,
{
    let ghost before = text@;
    let mut i: usize = 0;
    while i < part.len()
        invariant
            i <= part@.len(),
            text@ == before + part@.take(i as int),
        decreases part@.len() - i,
    {
        text.push(part[i]);
        assert(part@.take(i + 1) =~= part@.take(i as int).push(part@[i as int]));
        i = i + 1;
    }
    assert(part@.take(part@.len() as int) =~= part@);
}

/// Appends every character of `part` to `text`.
pub fn push_text(text: &mut Vec<char>, part: &str)
    ensures
        final(text)@ == old(text)@ + part@,
{
    let part: Vec<char> = chars_of(part);
    push_all(text, part.as_slice());
}

/// The Unicode `White_Space` property.
pub open spec fn is_white_space(c: char) -> bool {
    let code = c as u32;
    ||| 0x9 <= code <= 0xd
    ||| code == 0x20
    ||| code == 0x85
    ||| code == 0xa0
    ||| code == 0x1680
    ||| 0x2000 <= code <= 0x200a
    ||| code == 0x2028
    ||| code == 0x2029
    ||| code == 0x202f
    ||| code == 0x205f
    ||| code == 0x3000
}

/// Whether `c` is white space.
pub fn white_space(c: char) -> (white: bool)
    ensures
        white == is_white_space(c),
{
    let code: u32 = c as u32;
    (0x9 <= code && code <= 0xd) || code == 0x20 || code == 0x85 || code == 0xa0 || code == 0x1680
        || (0x2000 <= code && code <= 0x200a) || code == 0x2028 || code == 0x2029 || code == 0x202f
        || code == 0x205f || code == 0x3000
}

/// `text` without the white space at its front.
pub open spec fn trimmed_start(text: Seq<char>) -> Seq<char>
    decreases text.len(),
{
    if text.len() > 0 && is_white_space(text[0]) {
        trimmed_start(text.drop_first())
    } else {
        text
    }
}

/// `text` without the white space at its end.
pub open spec fn trimmed_end(text: Seq<char>) -> Seq<char>
    decreases text.len(),
{
    if text.len() > 0 && is_white_space(text.last()) {
        trimmed_end(text.drop_last())
    } else {
        text
    }
}

/// `text` without the white space at its front and at its end.
pub open spec fn trimmed(text: Seq<char>) -> Seq<char> {
    trimmed_end(trimmed_start(text))
}

/// `text` without the white space at its front.
pub fn trim_start<'a>(text: &'a [char]) -> (rest: &'a [char])
    ensures
        rest@ == trimmed_start(text@),
{
    let mut from: usize = 0;
    assert(text@.subrange(0, text@.len() as int) =~= text@);
    while from < text.len() && white_space(text[from])
        invariant
            from <= text@.len(),
            trimmed_start(text@) == trimmed_start(
                text@.subrange(from as int, text@.len() as int),
            ),
        decreases text@.len() - from,
    {
        assert(text@.subrange(from as int, text@.len() as int).drop_first() =~= text@.subrange(
            from + 1,
            text@.len() as int,
        ));
        from = from + 1;
    }
    slice_subrange(text, from, text.len())
}

/// `text` without the white space at its end.
pub fn trim_end<'a>(text: &'a [char]) -> (rest: &'a [char])
    ensures
        rest@ == trimmed_end(text@),
{
    let mut to: usize = text.len();
    assert(text@.subrange(0, text@.len() as int) =~= text@);
    while to > 0 && white_space(text[to - 1])
        invariant
            to <= text@.len(),
            trimmed_end(text@) == trimmed_end(text@.subrange(0, to as int)),
        decreases to,
    {
        assert(text@.subrange(0, to as int).drop_last() =~= text@.subrange(0, to - 1));
        to = to - 1;
    }
    slice_subrange(text, 0, to)
}

/// `text` without the white space at its front and at its end.
pub fn trim<'a>(text: &'a [char]) -> (rest: &'a [char])
    ensures
        rest@ == trimmed(text@),
{
    trim_end(trim_start(text))
}

/// The parts of `text` between the occurrences of `c`: one more than there are occurrences.
pub open spec fn split(text: Seq<char>, c: char) -> Seq<Seq<char>>
    decreases text.len(),
{
    match find_char(text, c) {
        Some(at) if 0 <= at < text.len() => seq![text.take(at)] + split(text.skip(at + 1), c),
        _ => seq![text],
    }
}

/// `line` without one carriage return at its end.
pub open spec fn without_return(line: Seq<char>) -> Seq<char> {
    if line.len() > 0 && line.last() == '\r' {
        line.drop_last()
    } else {
        line
    }
}

/// The lines of `text`: each ends at a line feed or at the end of the text. A carriage return
/// directly before a line feed belongs to the line's end, and nothing follows the last line
/// feed of a text that ends in one.
pub open spec fn lines(text: Seq<char>) -> Seq<Seq<char>>
    decreases text.len(),
{
    if text.len() == 0 {
        seq![]
    } else {
        match find_char(text, '\n') {
            Some(at) if 0 <= at < text.len() => seq![without_return(text.take(at))] + lines(
                text.skip(at + 1),
            ),
            _ => seq![text],
        }
    }
}

/// What the vectors in `parts` hold.
pub open spec fn views(parts: Seq<Vec<char>>) -> Seq<Seq<char>> {
    Seq::new(parts.len(), |i: int| parts[i]@)
}

/// The characters of `text` from `from` up to `to`.
fn copied(text: &[char], from: usize, to: usize) -> (part: Vec<char>)
    requires
        from <= to <= text@.len(),
    ensures
        part@ == text@.subrange(from as int, to as int),
{
    let mut part: Vec<char> = Vec::new();
    let mut i: usize = from;
    while i < to
        invariant
            from <= i <= to <= text@.len(),
            part@ == text@.subrange(from as int, i as int),
        decreases to - i,
    {
        part.push(text[i]);
        assert(text@.subrange(from as int, i + 1) =~= text@.subrange(from as int, i as int).push(
            text@[i as int],
        ));
        i = i + 1;
    }
    part
}

/// Moving the start of a search moves what it finds.
proof fn lemma_find_char_in_rest(text: Seq<char>, c: char, from: int, at: int)
    requires
        0 <= from <= at <= text.len(),
    ensures
        find_char_from(text, c, at) == match find_char_from(text.skip(from), c, at - from) {
            Some(found) => Some(found + from),
            None => None,
        },
    decreases text.len() - at,
{
    if at < text.len() {
        lemma_find_char_in_rest(text, c, from, at + 1);
    }
}

/// The parts of `text` between the occurrences of `c`.
pub fn split_at_char(text: &[char], c: char) -> (parts: Vec<Vec<char>>)
    ensures
        views(parts@) == split(text@, c),
{
    let mut parts: Vec<Vec<char>> = Vec::new();
    let mut from: usize = 0;
    let count: usize = text.len();
    assert(text@.skip(0) =~= text@);
    assert(views(parts@) + split(text@, c) =~= split(text@, c));
    loop
        invariant
            from <= text@.len(),
            count == text@.len(),
            views(parts@) + split(text@.skip(from as int), c) == split(text@, c),
        decreases text@.len() - from,
    {
        let ghost rest = text@.skip(from as int);
        let ghost before = parts@;
        proof {
            lemma_find_char_in_rest(text@, c, from as int, from as int);
            lemma_find_char_from_is_first(rest, c, 0);
        }
        match char_position_from(text, c, from) {
            Some(at) => {
                parts.push(copied(text, from, at));
                proof {
                    assert(text@.subrange(from as int, at as int) =~= rest.take(at - from));
                    assert(rest.skip(at - from + 1) =~= text@.skip(at + 1));
                    assert(views(parts@) =~= views(before) + seq![rest.take(at - from)]);
                    assert(views(parts@) + split(text@.skip(at + 1), c) =~= views(before) + split(
                        rest,
                        c,
                    ));
                }
                from = at + 1;
            },
            None => {
                parts.push(copied(text, from, text.len()));
                proof {
                    assert(text@.subrange(from as int, text@.len() as int) =~= rest);
                    assert(views(parts@) =~= views(before) + seq![rest]);
                }
                return parts;
            },
        }
    }
}

/// The lines of `text`.
pub fn lines_of(text: &[char]) -> (parts: Vec<Vec<char>>)
    ensures
        views(parts@) == lines(text@),
{
    let mut parts: Vec<Vec<char>> = Vec::new();
    let mut from: usize = 0;
    assert(text@.skip(0) =~= text@);
    assert(views(parts@) + lines(text@) =~= lines(text@));
    while from < text.len()
        invariant
            from <= text@.len(),
            views(parts@) + lines(text@.skip(from as int)) == lines(text@),
        decreases text@.len() - from,
    {
        let ghost rest = text@.skip(from as int);
        let ghost before = parts@;
        proof {
            lemma_find_char_in_rest(text@, '\n', from as int, from as int);
            lemma_find_char_from_is_first(rest, '\n', 0);
        }
        match char_position_from(text, '\n', from) {
            Some(at) => {
                let to: usize = if at > from && text[at - 1] == '\r' {
                    at - 1
                } else {
                    at
                };
                parts.push(copied(text, from, to));
                proof {
                    let line = rest.take(at - from);
                    assert(text@.subrange(from as int, at as int) =~= line);
                    assert(text@.subrange(from as int, to as int) =~= without_return(line));
                    assert(rest.skip(at - from + 1) =~= text@.skip(at + 1));
                    assert(views(parts@) =~= views(before) + seq![without_return(line)]);
                    assert(views(parts@) + lines(text@.skip(at + 1)) =~= views(before) + lines(
                        rest,
                    ));
                }
                from = at + 1;
            },
            None => {
                parts.push(copied(text, from, text.len()));
                proof {
                    assert(text@.subrange(from as int, text@.len() as int) =~= rest);
                    assert(views(parts@) =~= views(before) + seq![rest]);
                }
                return parts;
            },
        }
    }
    assert(text@.skip(from as int) =~= seq![]);
    assert(views(parts@) + lines(text@.skip(from as int)) =~= views(parts@));
    parts
}

/// The value of `c` as a digit of the given radix, for radices up to sixteen.
pub open spec fn digit_value(c: char, radix: int) -> Option<int> {
    let value = if '0' <= c <= '9' {
        c as int - '0' as int
    } else if 'a' <= c <= 'f' {
        c as int - 'a' as int + 10
    } else if 'A' <= c <= 'F' {
        c as int - 'A' as int + 10
    } else {
        radix
    };
    if value < radix {
        Some(value)
    } else {
        None
    }
}

/// The number that `digits` writes, most significant digit first, if each is a digit.
pub open spec fn digits_value(digits: Seq<char>, radix: int) -> Option<int>
    decreases digits.len(),
{
    if digits.len() == 0 {
        Some(0)
    } else {
        match (digits_value(digits.drop_last(), radix), digit_value(digits.last(), radix)) {
            (Some(high), Some(low)) => Some(high * radix + low),
            _ => None,
        }
    }
}

/// `text` without one plus sign at its front.
pub open spec fn without_plus(text: Seq<char>) -> Seq<char> {
    if text.len() > 0 && text[0] == '+' {
        text.drop_first()
    } else {
        text
    }
}

/// `text` as an unsigned number: an optional plus sign, then at least one digit, and a value
/// of at most `max`.
pub open spec fn number(text: Seq<char>, radix: int, max: int) -> Option<int> {
    let digits = without_plus(text);
    if digits.len() == 0 {
        None
    } else {
        match digits_value(digits, radix) {
            Some(value) if value <= max => Some(value),
            _ => None,
        }
    }
}

/// The value of `c` as a digit.
fn digit_of(c: char, radix: u32) -> (value: Option<u32>)
    requires
        2 <= radix <= 16,
    ensures
        match value {
            Some(value) => digit_value(c, radix as int) == Some(value as int) && value < radix,
            None => digit_value(c, radix as int) is None,
        },
{
    let code: u32 = c as u32;
    let value: u32 = if '0' <= c && c <= '9' {
        code - 48
    } else if 'a' <= c && c <= 'f' {
        code - 97 + 10
    } else if 'A' <= c && c <= 'F' {
        code - 65 + 10
    } else {
        radix
    };
    if value < radix {
        Some(value)
    } else {
        None
    }
}

/// More digits never make a number smaller, and no further digit mends a wrong one.
proof fn lemma_digits_grow(digits: Seq<char>, radix: int, k: int)
    requires
        2 <= radix <= 16,
        0 <= k <= digits.len(),
    ensures
        match digits_value(digits, radix) {
            Some(value) => match digits_value(digits.take(k), radix) {
                Some(part) => 0 <= part <= value,
                None => false,
            },
            None => true,
        },
    decreases digits.len(),
{
    if k == digits.len() {
        assert(digits.take(k) =~= digits);
        if digits.len() > 0 {
            lemma_digits_grow(digits.drop_last(), radix, 0);
            assert(digits.drop_last().take(0) =~= seq![]);
            match digits_value(digits.drop_last(), radix) {
                Some(high) => {
                    assert(high * radix >= 0) by (nonlinear_arith)
                        requires
                            high >= 0,
                            radix >= 2,
                    ;
                },
                None => {},
            }
        }
    } else {
        lemma_digits_grow(digits.drop_last(), radix, k);
        assert(digits.drop_last().take(k) =~= digits.take(k));
        match digits_value(digits.drop_last(), radix) {
            Some(high) => {
                assert(high * radix >= high) by (nonlinear_arith)
                    requires
                        high >= 0,
                        radix >= 2,
                ;
            },
            None => {},
        }
    }
}

/// `text` as an unsigned number of at most `max`.
pub fn parse_number(text: &[char], radix: u32, max: u32) -> (value: Option<u32>)
    requires
        2 <= radix <= 16,
    ensures
        match value {
            Some(value) => number(text@, radix as int, max as int) == Some(value as int),
            None => number(text@, radix as int, max as int) is None,
        },
{
    let from: usize = if text.len() > 0 && text[0] == '+' {
        1
    } else {
        0
    };
    let digits: &[char] = slice_subrange(text, from, text.len());
    assert(digits@ =~= without_plus(text@));
    if digits.len() == 0 {
        return None;
    }
    let mut value: u64 = 0;
    let mut i: usize = 0;
    while i < digits.len()
        invariant
            i <= digits@.len(),
            0 < digits@.len(),
            digits@ == without_plus(text@),
            2 <= radix <= 16,
            value <= max,
            digits_value(digits@.take(i as int), radix as int) == Some(value as int),
        decreases digits@.len() - i,
    {
        proof {
            assert(digits@.take(i + 1).drop_last() =~= digits@.take(i as int));
            lemma_digits_grow(digits@, radix as int, i + 1);
            assert(value * radix <= 0xffff_ffff * 16) by (nonlinear_arith)
                requires
                    value <= 0xffff_ffff,
                    radix <= 16,
            ;
        }
        match digit_of(digits[i], radix) {
            Some(digit) => {
                value = value * (radix as u64) + digit as u64;
            },
            None => {
                return None;
            },
        }
        if value > max as u64 {
            return None;
        }
        i = i + 1;
    }
    assert(digits@.take(digits@.len() as int) =~= digits@);
    Some(value as u32)
}

/// `c` with an ASCII capital letter made small.
pub open spec fn lower(c: char) -> char {
    if 'A' <= c <= 'Z' {
        (c as u32 + 32) as char
    } else {
        c
    }
}

/// `text` with every ASCII capital letter made small.
pub open spec fn lowered(text: Seq<char>) -> Seq<char> {
    Seq::new(text.len(), |i: int| lower(text[i]))
}

/// Whether `left` and `right` differ in the case of ASCII letters at most.
pub fn same_ignoring_case(left: &[char], right: &[char]) -> (same: bool)
    ensures
        same == (lowered(left@) == lowered(right@)),
{
    if left.len() != right.len() {
        assert(lowered(left@).len() != lowered(right@).len());
        return false;
    }
    let mut i: usize = 0;
    while i < left.len()
        invariant
            i <= left@.len(),
            left@.len() == right@.len(),
            forall|j: int| 0 <= j < i ==> lower(left@[j]) == lower(right@[j]),
        decreases left@.len() - i,
    {
        if lower_char(left[i]) != lower_char(right[i]) {
            assert(lowered(left@)[i as int] != lowered(right@)[i as int]);
            return false;
        }
        i = i + 1;
    }
    assert(lowered(left@) =~= lowered(right@));
    true
}

/// `c` with an ASCII capital letter made small.
fn lower_char(c: char) -> (small: char)
    ensures
        small == lower(c),
{
    match c {
        'A' => 'a',
        'B' => 'b',
        'C' => 'c',
        'D' => 'd',
        'E' => 'e',
        'F' => 'f',
        'G' => 'g',
        'H' => 'h',
        'I' => 'i',
        'J' => 'j',
        'K' => 'k',
        'L' => 'l',
        'M' => 'm',
        'N' => 'n',
        'O' => 'o',
        'P' => 'p',
        'Q' => 'q',
        'R' => 'r',
        'S' => 's',
        'T' => 't',
        'U' => 'u',
        'V' => 'v',
        'W' => 'w',
        'X' => 'x',
        'Y' => 'y',
        'Z' => 'z',
        other => other,
    }
}

/// `text` with every ASCII capital letter made small.
pub fn lower_all(text: &[char]) -> (small: Vec<char>)
    ensures
        small@ == lowered(text@),
{
    let mut small: Vec<char> = Vec::new();
    let mut i: usize = 0;
    while i < text.len()
        invariant
            i <= text@.len(),
            small@.len() == i,
            forall|k: int| 0 <= k < i ==> small@[k] == lower(text@[k]),
        decreases text@.len() - i,
    {
        small.push(lower_char(text[i]));
        i = i + 1;
    }
    assert(small@ =~= lowered(text@));
    small
}

/// The digits of `n` in base ten, without leading zeros.
pub open spec fn decimal(n: nat) -> Seq<char>
    decreases n,
{
    if n < 10 {
        seq![(48 + n) as char]
    } else {
        decimal(n / 10).push((48 + n % 10) as char)
    }
}

/// The digit character of `value`.
fn digit_char(value: u64) -> (c: char)
    requires
        value < 10,
    ensures
        c == (48 + value) as char,
{
    match value {
        0 => '0',
        1 => '1',
        2 => '2',
        3 => '3',
        4 => '4',
        5 => '5',
        6 => '6',
        7 => '7',
        8 => '8',
        _ => '9',
    }
}

/// Appends the digits of `n` to `text`.
pub fn push_decimal(text: &mut Vec<char>, n: u64)
    ensures
        final(text)@ == old(text)@ + decimal(n as nat),
    decreases n,
{
    let ghost before = text@;
    if n < 10 {
        text.push(digit_char(n));
        assert(text@ =~= before + decimal(n as nat));
    } else {
        push_decimal(text, n / 10);
        let last: char = digit_char(n % 10);
        text.push(last);
        assert(text@ =~= before + decimal(n as nat));
    }
}

// What these operations give

/// A search for a part gives a place where all of its characters stand, never behind another such
/// place, and nothing only where there is none.
pub proof fn law_found_parts_stand_there(text: Seq<char>, part: Seq<char>, place: int)
    ensures
        find(text, part) matches Some(at) ==> {
            &&& 0 <= at && at + part.len() <= text.len()
            &&& forall|k: int| 0 <= k < part.len() ==> text[at + k] == #[trigger] part[k]
        },
        0 <= place && place + part.len() <= text.len() && (forall|k: int|
            0 <= k < part.len() ==> text[place + k] == #[trigger] part[k]) ==> find(
            text,
            part,
        ) is Some && find(text, part)->Some_0 <= place,
{
    lemma_find_from_is_first(text, part, 0);
    if let Some(at) = find(text, part) {
        assert forall|k: int| 0 <= k < part.len() implies text[at + k] == #[trigger] part[k] by {
            assert(text.subrange(at, at + part.len())[k] == part[k]);
        }
    }
    if 0 <= place && place + part.len() <= text.len() && (forall|k: int|
        0 <= k < part.len() ==> text[place + k] == #[trigger] part[k]) {
        assert(text.subrange(place, place + part.len()) =~= part);
        assert(occurs_at(text, part, place));
    }
}

/// A text starts with a prefix if its first characters are those of the prefix, and ends with a
/// suffix if its last ones are those of the suffix.
pub proof fn law_prefixes_and_suffixes(text: Seq<char>, part: Seq<char>)
    ensures
        starts_with(text, part) <==> part.len() <= text.len() && forall|k: int|
            0 <= k < part.len() ==> text[k] == #[trigger] part[k],
        ends_with(text, part) <==> part.len() <= text.len() && forall|k: int|
            0 <= k < part.len() ==> text[text.len() - part.len() + k] == #[trigger] part[k],
{
    let front = text.subrange(0, part.len() as int);
    let back = text.subrange(text.len() - part.len(), text.len() as int);
    if starts_with(text, part) {
        assert forall|k: int| 0 <= k < part.len() implies text[k] == #[trigger] part[k] by {
            assert(front[k] == part[k]);
        }
    }
    if part.len() <= text.len() && forall|k: int|
        0 <= k < part.len() ==> text[k] == #[trigger] part[k] {
        assert(front =~= part);
    }
    if ends_with(text, part) {
        assert forall|k: int| 0 <= k < part.len() implies text[text.len() - part.len() + k]
            == #[trigger] part[k] by {
            assert(back[k] == part[k]);
        }
    }
    if part.len() <= text.len() && forall|k: int|
        0 <= k < part.len() ==> text[text.len() - part.len() + k] == #[trigger] part[k] {
        assert(back =~= part);
    }
}

/// What is split at a character is split at each of its occurrences: a part without it comes
/// before the first, and the rest behind that is split in the same way.
pub proof fn law_splitting(part: Seq<char>, rest: Seq<char>, c: char)
    requires
        forall|i: int| 0 <= i < part.len() ==> #[trigger] part[i] != c,
    ensures
        split(part, c) == seq![part],
        split(part + seq![c] + rest, c) == seq![part] + split(rest, c),
{
    lemma_find_char_from_is_first(part, c, 0);
    let text = part + seq![c] + rest;
    lemma_find_char_from_is_first(text, c, 0);
    assert(text[part.len() as int] == c);
    if let Some(at) = find_char(text, c) {
        if at < part.len() {
            assert(text[at] == part[at]);
        }
    }
    assert(find_char(text, c) == Some(part.len() as int));
    assert(text.take(part.len() as int) =~= part);
    assert(text.skip(part.len() as int + 1) =~= rest);
}

/// Lines end at line feeds, which are not part of them; a carriage return right before a line feed
/// is not either. What is left behind the last line feed is a line too, unless it is empty.
pub proof fn law_lines(line: Seq<char>, rest: Seq<char>)
    requires
        forall|i: int| 0 <= i < line.len() ==> #[trigger] line[i] != '\n',
    ensures
        lines(Seq::<char>::empty()) == Seq::<Seq<char>>::empty(),
        line.len() > 0 ==> lines(line) == seq![line],
        line.len() == 0 || line.last() != '\r' ==> lines(line + seq!['\n'] + rest) == seq![line]
            + lines(rest),
        line.len() > 0 && line.last() == '\r' ==> lines(line + seq!['\n'] + rest) == seq![
            line.drop_last(),
        ] + lines(rest),
{
    lemma_find_char_from_is_first(line, '\n', 0);
    let text = line + seq!['\n'] + rest;
    lemma_find_char_from_is_first(text, '\n', 0);
    assert(text[line.len() as int] == '\n');
    if let Some(at) = find_char(text, '\n') {
        if at < line.len() {
            assert(text[at] == line[at]);
        }
    }
    assert(find_char(text, '\n') == Some(line.len() as int));
    assert(text.take(line.len() as int) =~= line);
    assert(text.skip(line.len() as int + 1) =~= rest);
}

/// Trimming takes away white space at both ends and nothing else: what is left stands in the text,
/// all that stood around it is white space, and it neither begins nor ends with any.
pub proof fn law_trimming(text: Seq<char>) -> (ends: (int, int))
    ensures
        0 <= ends.0 <= ends.1 <= text.len(),
        trimmed(text) == text.subrange(ends.0, ends.1),
        forall|i: int| 0 <= i < ends.0 ==> is_white_space(#[trigger] text[i]),
        forall|i: int| ends.1 <= i < text.len() ==> is_white_space(#[trigger] text[i]),
        ends.0 < ends.1 ==> !is_white_space(text[ends.0]) && !is_white_space(text[ends.1 - 1]),
        trimmed_start(text) == text.skip(ends.0) || ends.0 == ends.1,
{
    let start = lemma_trimmed_start(text);
    let rest = text.skip(start);
    let end = lemma_trimmed_end(rest);
    assert(trimmed(text) =~= text.subrange(start, start + end));
    assert forall|i: int| start + end <= i < text.len() implies is_white_space(
        #[trigger] text[i],
    ) by {
        assert(rest[i - start] == text[i]);
    }
    if end > 0 {
        assert(rest[end - 1] == text[start + end - 1]);
        assert(rest.len() > 0);
    }
    (start, start + end)
}

proof fn lemma_trimmed_start(text: Seq<char>) -> (start: int)
    ensures
        0 <= start <= text.len(),
        trimmed_start(text) == text.skip(start),
        forall|i: int| 0 <= i < start ==> is_white_space(#[trigger] text[i]),
        start < text.len() ==> !is_white_space(text[start]),
    decreases text.len(),
{
    if text.len() > 0 && is_white_space(text[0]) {
        let rest = text.drop_first();
        let start = lemma_trimmed_start(rest);
        assert(rest.skip(start) =~= text.skip(start + 1));
        assert forall|i: int| 0 <= i < start + 1 implies is_white_space(#[trigger] text[i]) by {
            if i > 0 {
                assert(rest[i - 1] == text[i]);
            }
        }
        if start < rest.len() {
            assert(rest[start] == text[start + 1]);
        }
        start + 1
    } else {
        assert(text.skip(0) =~= text);
        0
    }
}

proof fn lemma_trimmed_end(text: Seq<char>) -> (end: int)
    ensures
        0 <= end <= text.len(),
        trimmed_end(text) == text.take(end),
        forall|i: int| end <= i < text.len() ==> is_white_space(#[trigger] text[i]),
        end > 0 ==> !is_white_space(text[end - 1]),
    decreases text.len(),
{
    if text.len() > 0 && is_white_space(text.last()) {
        let front = text.drop_last();
        let end = lemma_trimmed_end(front);
        assert(front.take(end) =~= text.take(end));
        assert forall|i: int| end <= i < text.len() implies is_white_space(#[trigger] text[i]) by {
            if i < front.len() {
                assert(front[i] == text[i]);
            }
        }
        if end > 0 {
            assert(front[end - 1] == text[end - 1]);
        }
        end
    } else {
        assert(text.take(text.len() as int) =~= text);
        text.len() as int
    }
}

/// A number in decimal is its digits from the highest on: that of a number below ten is a single
/// digit, and a further digit multiplies by ten.
pub proof fn law_decimal_digits(n: nat, digit: nat)
    requires
        digit < 10,
    ensures
        decimal(digit).len() == 1,
        decimal(digit)[0] as int == 48 + digit,
        n > 0 ==> decimal(10 * n + digit) == decimal(n) + decimal(digit),
        decimal(n).len() > 0,
        n > 0 ==> decimal(n)[0] != '0',
    decreases n,
{
    if n > 0 {
        assert((10 * n + digit) / 10 == n);
        assert((10 * n + digit) % 10 == digit);
        assert(decimal(10 * n + digit) =~= decimal(n) + decimal(digit));
        if n >= 10 {
            law_decimal_digits(n / 10, n % 10);
        }
    }
}

/// Reading a number that was written in decimal gives it back, as long as it is not above the
/// greatest one allowed.
pub proof fn law_decimal_reads_back(n: nat, max: int)
    ensures
        digits_value(decimal(n), 10) == Some(n as int),
        n <= max ==> number(decimal(n), 10, max) == Some(n as int),
        n > max ==> number(decimal(n), 10, max) is None,
{
    lemma_decimal_value(n);
    law_decimal_digits(n, 0);
    lemma_decimal_has_no_plus(n);
}

proof fn lemma_decimal_has_no_plus(n: nat)
    ensures
        decimal(n).len() > 0,
        decimal(n)[0] != '+',
    decreases n,
{
    if n >= 10 {
        lemma_decimal_has_no_plus(n / 10);
    } else {
        assert(decimal(n)[0] as int == 48 + n);
    }
}

proof fn lemma_decimal_value(n: nat)
    ensures
        digits_value(decimal(n), 10) == Some(n as int),
    decreases n,
{
    reveal_with_fuel(digits_value, 2);
    if n < 10 {
        let text = decimal(n);
        assert(text.drop_last() =~= seq![]);
        assert(text.last() as int == 48 + n);
        assert(digit_value(text.last(), 10) == Some(n as int));
    } else {
        lemma_decimal_value(n / 10);
        let text = decimal(n);
        assert(text.drop_last() =~= decimal(n / 10));
        assert(text.last() as int == 48 + n % 10);
        assert(digit_value(text.last(), 10) == Some((n % 10) as int));
        assert((n / 10) * 10 + n % 10 == n);
    }
}

/// How a number is read: a plus sign in front is passed over, every further digit multiplies by
/// the radix, and a text without digits, with another character or above the greatest number
/// allowed is none.
pub proof fn law_reading_numbers(digits: Seq<char>, last: char, radix: int, max: int)
    requires
        2 <= radix <= 16,
    ensures
        number(Seq::<char>::empty(), radix, max) is None,
        digits_value(digits.push(last), radix) is Some <==> digits_value(digits, radix) is Some
            && digit_value(last, radix) is Some,
        digits_value(digits.push(last), radix) is Some ==> digits_value(digits.push(last), radix)
            == Some(digits_value(digits, radix)->Some_0 * radix + digit_value(last, radix)->Some_0),
        number(seq!['+'] + digits, radix, max) == if digits.len() == 0 || digits_value(
            digits,
            radix,
        ) is None || digits_value(digits, radix)->Some_0 > max {
            None
        } else {
            digits_value(digits, radix)
        },
        digit_value(last, radix) matches Some(value) ==> 0 <= value < radix && (last as int == 48
            + value || (value >= 10 && (last as int == 87 + value || last as int == 55 + value))),
{
    assert(digits.push(last).drop_last() =~= digits);
    assert((seq!['+'] + digits).drop_first() =~= digits);
}

/// Text is made small letter by letter: capital letters of the basic alphabet become small ones,
/// and everything else stays.
pub proof fn law_small_letters(text: Seq<char>)
    ensures
        lowered(text).len() == text.len(),
        forall|i: int|
            0 <= i < text.len() ==> if 65 <= (#[trigger] text[i]) as int <= 90 {
                lowered(text)[i] as int == text[i] as int + 32
            } else {
                lowered(text)[i] == text[i]
            },
        lowered(lowered(text)) == lowered(text),
{
    assert(lowered(lowered(text)) =~= lowered(text));
}

} // verus!
