//! What is read of a beatmap file before it is analysed.

use vstd::prelude::*;
use vstd::slice::slice_subrange;

use crate::text::{
    char_position_from, chars_of, lines_of, parse_number, same_ignoring_case, trim,
};

verus! {

/// The error of `std::str::from_utf8`.
#[verifier::external_type_specification]
#[verifier::external_body]
pub struct ExUtf8Error(std::str::Utf8Error);

/// `std::str::from_utf8` gives the text that the bytes encode, and an error exactly when the
/// bytes are no valid UTF-8.
pub assume_specification[ std::str::from_utf8 ](bytes: &[u8]) -> (text: Result<
    &str,
    std::str::Utf8Error,
>)
    ensures
        match text {
            Ok(text) => vstd::utf8::valid_utf8(bytes@) && text@ == vstd::utf8::decode_utf8(bytes@),
            Err(_) => !vstd::utf8::valid_utf8(bytes@),
        },
;

/// `text` without byte order marks at its front.
pub open spec fn without_marks(text: Seq<char>) -> Seq<char>
    decreases text.len(),
{
    if text.len() > 0 && text[0] == '\u{feff}' {
        without_marks(text.drop_first())
    } else {
        text
    }
}

/// The value that a line gives to the key `Mode`, if it does.
pub open spec fn mode_value(line: Seq<char>) -> Option<Seq<char>> {
    let text = without_marks(crate::text::trimmed(line));
    match crate::text::find_char(text, ':') {
        Some(colon) => if crate::text::lowered(crate::text::trimmed(text.take(colon)))
            == crate::text::lowered("Mode"@) {
            Some(crate::text::trimmed(text.skip(colon + 1)))
        } else {
            None
        },
        None => None,
    }
}

/// Whether the first line, from `from` on, that gives a mode gives standard. A value that is
/// no number counts as standard, and so does a beatmap without a mode.
pub open spec fn gives_standard(lines: Seq<Seq<char>>, from: int) -> bool
    decreases lines.len() - from,
{
    if from < 0 || from >= lines.len() {
        true
    } else {
        match mode_value(lines[from]) {
            Some(value) => match crate::text::number(value, 10, 255) {
                Some(mode) => mode == 0,
                None => true,
            },
            None => gives_standard(lines, from + 1),
        }
    }
}

/// Whether a beatmap file is for osu!standard, as far as that can be established: bytes that
/// are no valid text are left for the analysis to refuse.
pub open spec fn is_standard(bytes: Seq<u8>) -> bool {
    vstd::utf8::valid_utf8(bytes) ==> gives_standard(
        crate::text::lines(vstd::utf8::decode_utf8(bytes)),
        0,
    )
}

fn skip_marks<'a>(text: &'a [char]) -> (rest: &'a [char])
    ensures
        rest@ == without_marks(text@),
{
    let mut rest: &[char] = text;
    while rest.len() > 0 && rest[0] == '\u{feff}'
        invariant
            without_marks(rest@) == without_marks(text@),
        decreases rest@.len(),
    {
        assert(rest@.subrange(1, rest@.len() as int) =~= rest@.drop_first());
        rest = slice_subrange(rest, 1, rest.len());
    }
    rest
}

/// Whether the file is for osu!standard, or cannot be shown to be for another mode.
pub fn is_standard_beatmap(bytes: &[u8]) -> (standard: bool)
    ensures
        standard == is_standard(bytes@),
{
    let text: &str = match std::str::from_utf8(bytes) {
        Ok(text) => text,
        Err(_) => {
            return true;
        },
    };
    let source: Vec<char> = chars_of(text);
    let lines: Vec<Vec<char>> = lines_of(source.as_slice());
    let key: Vec<char> = chars_of("Mode");
    let ghost all = crate::text::views(lines@);
    let mut i: usize = 0;
    while i < lines.len()
        invariant
            i <= lines@.len(),
            key@ == "Mode"@,
            all == crate::text::views(lines@),
            vstd::utf8::valid_utf8(bytes@),
            all == crate::text::lines(vstd::utf8::decode_utf8(bytes@)),
            gives_standard(all, 0) == gives_standard(all, i as int),
        decreases lines@.len() - i,
    {
        assert(all[i as int] == lines@[i as int]@);
        let line: &[char] = skip_marks(trim(lines[i].as_slice()));
        proof {
            crate::text::lemma_find_char_from_is_first(line@, ':', 0);
        }
        if let Some(colon) = char_position_from(line, ':', 0) {
            let count: usize = line.len();
            let name: &[char] = slice_subrange(line, 0, colon);
            assert(name@ =~= line@.take(colon as int));
            if same_ignoring_case(trim(name), key.as_slice()) {
                let value: &[char] = slice_subrange(line, colon + 1, count);
                assert(value@ =~= line@.skip(colon + 1));
                return match parse_number(trim(value), 10, 255) {
                    Some(mode) => mode == 0,
                    None => true,
                };
            }
        }
        i = i + 1;
    }
    true
}

// What tells the mode of a beatmap

/// A line gives a mode if what stands before its first colon is the word for it, whatever the case
/// and the space around it, and the mode is what stands behind the colon. The line is without
/// space around it and without a byte order mark.
pub proof fn law_mode_lines(key: Seq<char>, value: Seq<char>)
    requires
        forall|i: int| 0 <= i < key.len() ==> #[trigger] key[i] != ':',
        crate::text::trimmed(key + seq![':'] + value) == key + seq![':'] + value,
        key.len() == 0 || key[0] != '\u{feff}',
    ensures
        mode_value(key + seq![':'] + value) is Some <==> crate::text::lowered(
            crate::text::trimmed(key),
        ) == crate::text::lowered("Mode"@),
        mode_value(key + seq![':'] + value) matches Some(mode) ==> mode == crate::text::trimmed(
            value,
        ),
{
    let line = key + seq![':'] + value;
    crate::text::lemma_find_char_from_is_first(line, ':', 0);
    assert(line[key.len() as int] == ':');
    if let Some(at) = crate::text::find_char(line, ':') {
        if at < key.len() {
            assert(line[at] == key[at]);
        }
    }
    assert(line.take(key.len() as int) =~= key);
    assert(line.skip(key.len() as int + 1) =~= value);
    if key.len() > 0 {
        assert(line[0] == key[0]);
    } else {
        assert(line[0] == ':');
    }
}

/// A line without a colon gives no mode.
pub proof fn law_lines_without_a_colon_give_no_mode(line: Seq<char>)
    requires
        forall|i: int| 0 <= i < line.len() ==> #[trigger] line[i] != ':',
    ensures
        mode_value(line) is None,
{
    let ends = crate::text::law_trimming(line);
    let text = crate::text::trimmed(line);
    assert forall|i: int| 0 <= i < text.len() implies #[trigger] text[i] != ':' by {
        assert(text[i] == line[ends.0 + i]);
    }
    lemma_marks_keep(text);
    crate::text::lemma_find_char_from_is_first(without_marks(text), ':', 0);
}

proof fn lemma_marks_keep(text: Seq<char>)
    requires
        forall|i: int| 0 <= i < text.len() ==> #[trigger] text[i] != ':',
    ensures
        forall|i: int|
            0 <= i < without_marks(text).len() ==> #[trigger] without_marks(text)[i] != ':',
    decreases text.len(),
{
    if text.len() > 0 && text[0] == '\u{feff}' {
        let rest = text.drop_first();
        assert forall|i: int| 0 <= i < rest.len() implies #[trigger] rest[i] != ':' by {
            assert(rest[i] == text[i + 1]);
        }
        lemma_marks_keep(rest);
        assert(without_marks(text) == without_marks(rest));
    } else {
        assert(without_marks(text) == text);
    }
}

/// The first line that gives a mode decides: the beatmap is for osu!standard if that mode is zero
/// or no number, and not if it is another number. Without any such line it is for osu!standard,
/// and so is what is no text.
pub proof fn law_first_mode_decides(lines: Seq<Seq<char>>, at: int)
    requires
        0 <= at <= lines.len(),
        forall|i: int| 0 <= i < at ==> mode_value(#[trigger] lines[i]) is None,
        at < lines.len() ==> mode_value(lines[at]) is Some,
    ensures
        at == lines.len() ==> gives_standard(lines, 0),
        at < lines.len() ==> (gives_standard(lines, 0) <==> crate::text::number(
            mode_value(lines[at])->Some_0,
            10,
            255,
        ) is None || crate::text::number(mode_value(lines[at])->Some_0, 10, 255) == Some(0int)),
{
    lemma_first_mode(lines, 0, at);
}

proof fn lemma_first_mode(lines: Seq<Seq<char>>, from: int, at: int)
    requires
        0 <= from <= at <= lines.len(),
        forall|i: int| from <= i < at ==> mode_value(#[trigger] lines[i]) is None,
        at < lines.len() ==> mode_value(lines[at]) is Some,
    ensures
        at == lines.len() ==> gives_standard(lines, from),
        at < lines.len() ==> (gives_standard(lines, from) <==> crate::text::number(
            mode_value(lines[at])->Some_0,
            10,
            255,
        ) is None || crate::text::number(mode_value(lines[at])->Some_0, 10, 255) == Some(0int)),
    decreases at - from,
{
    if from < at {
        lemma_first_mode(lines, from + 1, at);
    }
}

/// What is no text counts as a beatmap of osu!standard, and what is one is told by its lines.
pub proof fn law_texts_are_told_by_their_lines(bytes: Seq<u8>)
    ensures
        !vstd::utf8::valid_utf8(bytes) ==> is_standard(bytes),
        vstd::utf8::valid_utf8(bytes) ==> is_standard(bytes) == gives_standard(
            crate::text::lines(vstd::utf8::decode_utf8(bytes)),
            0,
        ),
{
}

} // verus!
