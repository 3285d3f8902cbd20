//! The download links of pack pages.

use vstd::prelude::*;
use vstd::slice::slice_subrange;

use crate::text::{
    char_position_from, chars_of, equals, has_prefix, parse_number, position_from, push_all,
    string_of,
};

verus! {

/// `char::from_u32` gives the character with the given code, and nothing for a code that no
/// character has.
pub assume_specification[ char::from_u32 ](code: u32) -> (c: Option<char>)
    ensures
        match c {
            Some(c) => is_scalar(code as int) && c as int == code,
            None => !is_scalar(code as int),
        },
;

/// Whether `code` is the code of a character.
pub open spec fn is_scalar(code: int) -> bool {
    0 <= code <= 0xd7ff || 0xe000 <= code <= 0x10ffff
}

/// The number in a numeric entity: hexadecimal behind `#x` or `#X`, else decimal behind `#`.
pub open spec fn entity_number(entity: Seq<char>) -> Option<int> {
    let hexadecimal = if crate::text::starts_with(entity, "#x"@) || crate::text::starts_with(
        entity,
        "#X"@,
    ) {
        crate::text::number(entity.skip(2), 16, u32::MAX as int)
    } else {
        None
    };
    if hexadecimal is Some {
        hexadecimal
    } else if crate::text::starts_with(entity, "#"@) {
        crate::text::number(entity.skip(1), 10, u32::MAX as int)
    } else {
        None
    }
}

/// The character that an entity stands for, if it is known.
pub open spec fn entity_char(entity: Seq<char>) -> Option<char> {
    if entity == "amp"@ {
        Some('&')
    } else if entity == "apos"@ || entity == "#039"@ {
        Some('\'')
    } else if entity == "quot"@ {
        Some('"')
    } else if entity == "lt"@ {
        Some('<')
    } else if entity == "gt"@ {
        Some('>')
    } else {
        match entity_number(entity) {
            Some(code) if is_scalar(code) => Some(code as char),
            _ => None,
        }
    }
}

/// What stands in the decoded text for an entity: its character, or the entity as it was.
pub open spec fn entity_text(entity: Seq<char>) -> Seq<char> {
    match entity_char(entity) {
        Some(c) => seq![c],
        None => seq!['&'] + entity + seq![';'],
    }
}

/// `text` with each known entity replaced by its character.
pub open spec fn decoded(text: Seq<char>) -> Seq<char>
    decreases text.len(),
{
    match crate::text::find_char(text, '&') {
        Some(start) if 0 <= start < text.len() => {
            let behind = text.skip(start + 1);
            match crate::text::find_char(behind, ';') {
                Some(end) if 0 <= end < behind.len() => text.take(start) + entity_text(
                    behind.take(end),
                ) + decoded(behind.skip(end + 1)),
                _ => text,
            }
        },
        _ => text,
    }
}

/// The character that an entity stands for, if it is known.
fn known_entity(entity: &[char]) -> (c: Option<char>)
    ensures
        c == entity_char(entity@),
{
    if equals(entity, "amp") {
        return Some('&');
    }
    if equals(entity, "apos") || equals(entity, "#039") {
        return Some('\'');
    }
    if equals(entity, "quot") {
        return Some('"');
    }
    if equals(entity, "lt") {
        return Some('<');
    }
    if equals(entity, "gt") {
        return Some('>');
    }
    proof {
        reveal_strlit("#x");
        reveal_strlit("#X");
        reveal_strlit("#");
    }
    let mut code: Option<u32> = None;
    if has_prefix(entity, "#x") || has_prefix(entity, "#X") {
        assert(entity@.subrange(2, entity@.len() as int) =~= entity@.skip(2));
        code = parse_number(slice_subrange(entity, 2, entity.len()), 16, u32::MAX);
    }
    if code.is_none() && has_prefix(entity, "#") {
        assert(entity@.subrange(1, entity@.len() as int) =~= entity@.skip(1));
        code = parse_number(slice_subrange(entity, 1, entity.len()), 10, u32::MAX);
    }
    match code {
        Some(code) => char::from_u32(code),
        None => None,
    }
}

/// `value` with each known HTML entity replaced by its character. What is no known entity
/// stays as it is.
pub fn decode_html_entities(value: &str) -> (text: String)
    ensures
        text@ == decoded(value@),
{
    let source: Vec<char> = chars_of(value);
    let result: Vec<char> = decode(source.as_slice());
    string_of(result.as_slice())
}

fn decode(text: &[char]) -> (result: Vec<char>)
    ensures
        result@ == decoded(text@),
{
    let mut result: Vec<char> = Vec::new();
    let mut remainder: &[char] = text;
    assert(result@ + decoded(remainder@) =~= decoded(text@));
    loop
        invariant
            result@ + decoded(remainder@) == decoded(text@),
        decreases remainder@.len(),
    {
        let ghost before = result@;
        let ghost whole = remainder@;
        let start: usize = match char_position_from(remainder, '&', 0) {
            Some(start) => start,
            None => {
                push_all(&mut result, remainder);
                return result;
            },
        };
        let count: usize = remainder.len();
        let behind: &[char] = slice_subrange(remainder, start + 1, count);
        assert(behind@ =~= whole.skip(start + 1));
        let end: usize = match char_position_from(behind, ';', 0) {
            Some(end) => end,
            None => {
                push_all(&mut result, remainder);
                return result;
            },
        };
        let front: &[char] = slice_subrange(remainder, 0, start);
        let entity: &[char] = slice_subrange(behind, 0, end);
        assert(front@ =~= whole.take(start as int));
        assert(entity@ =~= behind@.take(end as int));
        push_all(&mut result, front);
        match known_entity(entity) {
            Some(c) => result.push(c),
            None => {
                result.push('&');
                push_all(&mut result, entity);
                result.push(';');
            },
        }
        assert(result@ =~= before + front@ + entity_text(entity@));
        remainder = slice_subrange(behind, end + 1, behind.len());
        assert(remainder@ =~= behind@.skip(end + 1));
        assert(result@ + decoded(remainder@) =~= before + decoded(whole));
    }
}

/// The values of the `href` attributes in `body`, as they are written. Each ends at its
/// closing quote, and one without a closing quote before the next attribute is no value.
pub open spec fn link_values(body: Seq<char>) -> Seq<Seq<char>>
    decreases body.len(),
{
    match crate::text::find(body, "href=\""@) {
        Some(at) if 0 <= at && at + 6 <= body.len() => {
            let rest = body.skip(at + 6);
            let fragment = match crate::text::find(rest, "href=\""@) {
                Some(next) => rest.take(next),
                None => rest,
            };
            match crate::text::find_char(fragment, '"') {
                Some(quote) => seq![fragment.take(quote)] + link_values(rest),
                None => link_values(rest),
            }
        },
        _ => seq![],
    }
}

/// Whether a link leads to one of the servers that packs are downloaded from.
pub open spec fn is_download_link(url: Seq<char>) -> bool {
    crate::text::starts_with(url, "https://packs.ppy.sh/"@) || crate::text::starts_with(
        url,
        "https://dl.osu.ppy.sh/"@,
    )
}

/// The first link among `values`, from `from` on, that is a download link once decoded.
pub open spec fn first_download_link(values: Seq<Seq<char>>, from: int) -> Option<Seq<char>>
    decreases values.len() - from,
{
    if from < 0 || from >= values.len() {
        None
    } else if is_download_link(decoded(values[from])) {
        Some(decoded(values[from]))
    } else {
        first_download_link(values, from + 1)
    }
}

proof fn lemma_first_download_link_behind(first: Seq<char>, values: Seq<Seq<char>>, from: int)
    requires
        0 <= from,
    ensures
        first_download_link(seq![first] + values, from + 1) == first_download_link(values, from),
    decreases values.len() - from,
{
    if from < values.len() {
        assert((seq![first] + values)[from + 1] == values[from]);
        lemma_first_download_link_behind(first, values, from + 1);
    }
}

/// The download link on a pack page: the first link to one of the download servers, decoded.
pub fn extract_download_url(body: &str) -> (url: Option<String>)
    ensures
        match url {
            Some(url) => first_download_link(link_values(body@), 0) == Some(url@),
            None => first_download_link(link_values(body@), 0) is None,
        },
{
    let source: Vec<char> = chars_of(body);
    let marker: Vec<char> = chars_of("href=\"");
    proof {
        reveal_strlit("href=\"");
    }
    let mut rest: &[char] = source.as_slice();
    loop
        invariant
            marker@ == "href=\""@,
            marker@.len() == 6,
            first_download_link(link_values(rest@), 0) == first_download_link(
                link_values(body@),
                0,
            ),
        decreases rest@.len(),
    {
        let ghost whole = rest@;
        let at: usize = match position_from(rest, marker.as_slice(), 0) {
            Some(at) => at,
            None => {
                return None;
            },
        };
        proof {
            crate::text::lemma_find_from_is_first(whole, marker@, 0);
        }
        let count: usize = rest.len();
        rest = slice_subrange(rest, at + 6, count);
        assert(rest@ =~= whole.skip(at + 6));
        proof {
            crate::text::lemma_find_from_is_first(rest@, marker@, 0);
        }
        let to: usize = match position_from(rest, marker.as_slice(), 0) {
            Some(next) => next,
            None => rest.len(),
        };
        let fragment: &[char] = slice_subrange(rest, 0, to);
        assert(fragment@ =~= match crate::text::find(rest@, marker@) {
            Some(next) => rest@.take(next),
            None => rest@,
        });
        if let Some(quote) = char_position_from(fragment, '"', 0) {
            let value: &[char] = slice_subrange(fragment, 0, quote);
            assert(value@ =~= fragment@.take(quote as int));
            let link: Vec<char> = decode(value);
            proof {
                assert((seq![value@] + link_values(rest@))[0] == value@);
                lemma_first_download_link_behind(value@, link_values(rest@), 0);
            }
            if has_prefix(link.as_slice(), "https://packs.ppy.sh/") || has_prefix(
                link.as_slice(),
                "https://dl.osu.ppy.sh/",
            ) {
                return Some(string_of(link.as_slice()));
            }
        }
    }
}

/// Decoding leaves a text without entities as it is, so a link that needs no decoding is
/// taken over literally.
pub proof fn law_plain_text_decodes_to_itself(text: Seq<char>)
    requires
        forall|i: int| 0 <= i < text.len() ==> #[trigger] text[i] != '&',
    ensures
        decoded(text) == text,
{
    crate::text::lemma_find_char_from_is_first(text, '&', 0);
}

/// Text in front of the first entity is kept as it is, whatever stands behind it.
pub proof fn law_leading_plain_text_is_kept(plain: Seq<char>, rest: Seq<char>)
    requires
        forall|i: int| 0 <= i < plain.len() ==> #[trigger] plain[i] != '&',
    ensures
        decoded(plain + rest) == plain + decoded(rest),
{
    let text = plain + rest;
    crate::text::lemma_find_char_from_is_first(text, '&', 0);
    crate::text::lemma_find_char_from_is_first(rest, '&', 0);
    match crate::text::find_char(rest, '&') {
        Some(start) => {
            let at = crate::text::find_char(text, '&');
            assert(text[plain.len() + start] == '&');
            assert(at is Some);
            let found = at->Some_0;
            if found < plain.len() {
                assert(text[found] == plain[found]);
            } else if found < plain.len() + start {
                assert(text[found] == rest[found - plain.len()]);
            }
            assert(found == plain.len() + start);
            assert(text.skip(found + 1) =~= rest.skip(start + 1));
            assert(text.take(found) =~= plain + rest.take(start));
            let behind = rest.skip(start + 1);
            if let Some(end) = crate::text::find_char(behind, ';') {
                let entity = entity_text(behind.take(end));
                let decoded_rest = decoded(behind.skip(end + 1));
                assert((plain + rest.take(start)) + entity + decoded_rest =~= plain + (rest.take(
                    start,
                ) + entity + decoded_rest));
            }
        },
        None => {
            if let Some(found) = crate::text::find_char(text, '&') {
                if found < plain.len() {
                    assert(text[found] == plain[found]);
                } else {
                    assert(text[found] == rest[found - plain.len()]);
                }
            }
        },
    }
}

/// Decoding never makes a text longer.
pub proof fn law_decoding_never_lengthens(text: Seq<char>)
    ensures
        decoded(text).len() <= text.len(),
    decreases text.len(),
{
    crate::text::lemma_find_char_from_is_first(text, '&', 0);
    if let Some(start) = crate::text::find_char(text, '&') {
        let behind = text.skip(start + 1);
        crate::text::lemma_find_char_from_is_first(behind, ';', 0);
        if let Some(end) = crate::text::find_char(behind, ';') {
            law_decoding_never_lengthens(behind.skip(end + 1));
            assert(entity_text(behind.take(end)).len() <= end + 2);
            assert(behind.len() == text.len() - start - 1);
            assert(behind.skip(end + 1).len() == behind.len() - end - 1);
        }
    }
}

/// What is extracted is always an `https` link to one of the download servers.
pub proof fn law_extracted_link_is_a_download_link(values: Seq<Seq<char>>, from: int)
    requires
        0 <= from,
    ensures
        first_download_link(values, from) matches Some(url) ==> is_download_link(url),
    decreases values.len() - from,
{
    if from < values.len() && !is_download_link(decoded(values[from])) {
        law_extracted_link_is_a_download_link(values, from + 1);
    }
}

/// An entity is what stands between an ampersand and the next semicolon. It is decoded by itself,
/// and what follows it is decoded in the same way; without a semicolon behind it, an ampersand and
/// all that follows stay as they are.
pub proof fn law_entities_are_decoded_one_by_one(entity: Seq<char>, rest: Seq<char>)
    requires
        forall|i: int| 0 <= i < entity.len() ==> #[trigger] entity[i] != ';',
    ensures
        decoded(seq!['&'] + entity + seq![';'] + rest) == entity_text(entity) + decoded(rest),
        decoded(seq!['&'] + entity) == seq!['&'] + entity,
{
    let text = seq!['&'] + entity + seq![';'] + rest;
    crate::text::lemma_find_char_from_is_first(text, '&', 0);
    assert(text[0] == '&');
    let behind = text.skip(1);
    assert(behind =~= entity + seq![';'] + rest);
    crate::text::lemma_find_char_from_is_first(behind, ';', 0);
    assert(behind[entity.len() as int] == ';');
    if let Some(end) = crate::text::find_char(behind, ';') {
        if end < entity.len() {
            assert(behind[end] == entity[end]);
        }
    }
    assert(behind.take(entity.len() as int) =~= entity);
    assert(behind.skip(entity.len() as int + 1) =~= rest);
    assert(text.take(0) + entity_text(entity) + decoded(rest) =~= entity_text(entity) + decoded(
        rest,
    ));
    let open = seq!['&'] + entity;
    crate::text::lemma_find_char_from_is_first(open, '&', 0);
    assert(open[0] == '&');
    assert(open.skip(1) =~= entity);
    crate::text::lemma_find_char_from_is_first(entity, ';', 0);
}

/// What entities stand for: the five named ones for their characters, and any other name that is
/// not a number for itself.
pub proof fn law_named_entities(entity: Seq<char>)
    ensures
        entity_text("amp"@) == seq!['&'],
        entity_text("lt"@) == seq!['<'],
        entity_text("gt"@) == seq!['>'],
        entity_text("quot"@) == seq!['"'],
        entity_text("apos"@) == seq!['\''],
        entity_text("#039"@) == seq!['\''],
        entity.len() == 0 || entity[0] != '#' ==> entity == "amp"@ || entity == "lt"@ || entity
            == "gt"@ || entity == "quot"@ || entity == "apos"@ || entity_text(entity) == seq!['&']
            + entity + seq![';'],
{
    reveal_strlit("amp");
    reveal_strlit("apos");
    reveal_strlit("#039");
    reveal_strlit("quot");
    reveal_strlit("lt");
    reveal_strlit("gt");
    reveal_strlit("#");
    reveal_strlit("#x");
    reveal_strlit("#X");
    crate::text::law_prefixes_and_suffixes(entity, "#"@);
    crate::text::law_prefixes_and_suffixes(entity, "#x"@);
    crate::text::law_prefixes_and_suffixes(entity, "#X"@);
    assert("#"@[0] == '#');
    assert("#x"@[0] == '#');
    assert("#X"@[0] == '#');
    assert("amp"@.len() == 3 && "lt"@.len() == 2 && "gt"@.len() == 2 && "quot"@.len() == 4
        && "apos"@.len() == 4 && "#039"@.len() == 4);
    assert("quot"@[0] == 'q' && "apos"@[0] == 'a' && "#039"@[0] == '#');
    assert("lt"@[0] == 'l' && "gt"@[0] == 'g');
}

/// A number sign and a decimal number stand for the character of that code, if there is one.
pub proof fn law_numeric_entities(code: nat)
    requires
        code <= u32::MAX,
        code != 39,
    ensures
        0 <= code <= 0xd7ff || 0xe000 <= code <= 0x10ffff ==> entity_text(
            seq!['#'] + crate::text::decimal(code),
        ) == seq![code as char],
        !(0 <= code <= 0xd7ff || 0xe000 <= code <= 0x10ffff) ==> entity_text(
            seq!['#'] + crate::text::decimal(code),
        ) == seq!['&'] + (seq!['#'] + crate::text::decimal(code)) + seq![';'],
{
    reveal_strlit("amp");
    reveal_strlit("apos");
    reveal_strlit("#039");
    reveal_strlit("quot");
    reveal_strlit("lt");
    reveal_strlit("gt");
    reveal_strlit("#");
    reveal_strlit("#x");
    reveal_strlit("#X");
    let digits = crate::text::decimal(code);
    let entity = seq!['#'] + digits;
    crate::text::law_decimal_reads_back(code, u32::MAX as int);
    crate::text::law_decimal_digits(code, 0);
    lemma_decimal_is_digits(code);
    crate::text::law_prefixes_and_suffixes(entity, "#"@);
    crate::text::law_prefixes_and_suffixes(entity, "#x"@);
    crate::text::law_prefixes_and_suffixes(entity, "#X"@);
    assert("#"@[0] == '#');
    assert("#x"@[1] == 'x');
    assert("#X"@[1] == 'X');
    assert(entity[0] == '#');
    assert(entity[1] == digits[0]);
    assert(entity.skip(1) =~= digits);
    assert("amp"@[0] == 'a' && "lt"@[0] == 'l' && "gt"@[0] == 'g' && "quot"@[0] == 'q'
        && "apos"@[0] == 'a');
    assert("#039"@[1] == '0');
    if code == 0 {
        assert(digits.len() == 1);
        assert("#039"@.len() == 4);
    }
}

proof fn lemma_decimal_is_digits(n: nat)
    ensures
        forall|i: int|
            0 <= i < crate::text::decimal(n).len() ==> 48 <= (
            #[trigger] crate::text::decimal(n)[i]) as int <= 57,
    decreases n,
{
    if n >= 10 {
        lemma_decimal_is_digits(n / 10);
        let front = crate::text::decimal(n / 10);
        assert forall|i: int| 0 <= i < crate::text::decimal(n).len() implies 48 <= (
        #[trigger] crate::text::decimal(n)[i]) as int <= 57 by {
            if i < front.len() {
                assert(crate::text::decimal(n)[i] == front[i]);
            }
        }
    }
}

/// Which links a page holds: the text between the quotes of each `href`, in order. What follows a
/// link is read in the same way, and a page without `href` holds none.
pub proof fn law_links_stand_between_quotes(
    before: Seq<char>,
    value: Seq<char>,
    rest: Seq<char>,
)
    requires
        forall|i: int| 0 <= i < value.len() ==> #[trigger] value[i] != '"',
        forall|p: int|
            0 <= p < before.len() ==> !#[trigger] crate::text::occurs_at(
                before + "href=\""@ + (value + seq!['"'] + rest),
                "href=\""@,
                p,
            ),
        forall|p: int|
            0 <= p <= value.len() ==> !#[trigger] crate::text::occurs_at(
                value + seq!['"'] + rest,
                "href=\""@,
                p,
            ),
    ensures
        link_values(before + "href=\""@ + (value + seq!['"'] + rest)) == seq![value]
            + link_values(value + seq!['"'] + rest),
        crate::text::find(rest, "href=\""@) is None ==> link_values(rest).len() == 0,
{
    reveal_strlit("href=\"");
    let marker = "href=\""@;
    let tail = value + seq!['"'] + rest;
    let body = before + marker + tail;
    crate::text::lemma_find_from_is_first(body, marker, 0);
    assert(body.subrange(before.len() as int, before.len() as int + marker.len()) =~= marker);
    assert(crate::text::occurs_at(body, marker, before.len() as int));
    if let Some(at) = crate::text::find(body, marker) {
        if at < before.len() {
            assert(!crate::text::occurs_at(body, marker, at));
        }
    }
    assert(crate::text::find(body, marker) == Some(before.len() as int));
    assert(body.skip(before.len() as int + 6) =~= tail);
    crate::text::lemma_find_from_is_first(tail, marker, 0);
    let fragment = match crate::text::find(tail, marker) {
        Some(next) => tail.take(next),
        None => tail,
    };
    if let Some(next) = crate::text::find(tail, marker) {
        if next <= value.len() {
            assert(!crate::text::occurs_at(tail, marker, next));
        }
    }
    assert(fragment.len() > value.len());
    assert(fragment[value.len() as int] == '"');
    crate::text::lemma_find_char_from_is_first(fragment, '"', 0);
    if let Some(quote) = crate::text::find_char(fragment, '"') {
        if quote < value.len() {
            assert(fragment[quote] == value[quote]);
        }
    }
    assert(fragment.take(value.len() as int) =~= value);
}

/// The link that is taken is the first, once decoded, that leads to one of the two download
/// servers.
pub proof fn law_first_download_link_is_taken(values: Seq<Seq<char>>, at: int)
    requires
        0 <= at < values.len(),
        forall|i: int|
            0 <= i < at ==> !crate::text::starts_with(
                decoded(#[trigger] values[i]),
                "https://packs.ppy.sh/"@,
            ) && !crate::text::starts_with(decoded(values[i]), "https://dl.osu.ppy.sh/"@),
        crate::text::starts_with(decoded(values[at]), "https://packs.ppy.sh/"@)
            || crate::text::starts_with(decoded(values[at]), "https://dl.osu.ppy.sh/"@),
    ensures
        first_download_link(values, 0) == Some(decoded(values[at])),
{
    lemma_first_download_link_at(values, 0, at);
}

proof fn lemma_first_download_link_at(values: Seq<Seq<char>>, from: int, at: int)
    requires
        0 <= from <= at < values.len(),
        forall|i: int| from <= i < at ==> !is_download_link(decoded(#[trigger] values[i])),
        is_download_link(decoded(values[at])),
    ensures
        first_download_link(values, from) == Some(decoded(values[at])),
    decreases at - from,
{
    if from < at {
        lemma_first_download_link_at(values, from + 1, at);
    }
}

} // verus!
