//! Cookie files in the Netscape format.

use vstd::prelude::*;
use vstd::slice::slice_subrange;

use crate::text::{
    chars_of, equals, has_prefix, has_suffix, lines_of, push_all, push_text, split_at_char,
    string_of, trim_start,
};

verus! {

#[derive(Clone, Copy, Debug, PartialEq, Eq, Structural)]
pub enum CookieError {
    NoCookies,
}

impl CookieError {
    pub open spec fn text(self) -> Seq<char> {
        "cookie file contains no Netscape-format osu.ppy.sh cookies; export cookies.txt again from the logged-in osu.ppy.sh tab"@
    }

    /// The error in words.
    pub fn message(&self) -> (message: String)
        ensures
            message@ == self.text(),
    {
        String::from_str(
            "cookie file contains no Netscape-format osu.ppy.sh cookies; export cookies.txt again from the logged-in osu.ppy.sh tab",
        )
    }
}

/// Whether a line carries data. A line that begins with `#` is a comment, but `#HttpOnly_` is
/// a prefix of data.
pub open spec fn is_data_line(line: Seq<char>) -> bool {
    let text = crate::text::trimmed_start(line);
    !crate::text::starts_with(text, "#"@) || crate::text::starts_with(text, "#HttpOnly_"@)
}

/// A domain without the prefixes that mark its cookie as closed to scripts.
pub open spec fn plain_domain(domain: Seq<char>) -> Seq<char>
    decreases domain.len(),
{
    if domain.len() >= 10 && crate::text::starts_with(domain, "#HttpOnly_"@) {
        plain_domain(domain.skip(10))
    } else {
        domain
    }
}

/// Whether a domain is `ppy.sh` or below it.
pub open spec fn is_osu_domain(domain: Seq<char>) -> bool {
    domain == "ppy.sh"@ || crate::text::ends_with(domain, ".ppy.sh"@)
}

/// The cookie on a line, as `name=value`, if the line has one for the osu! site.
pub open spec fn line_cookie(line: Seq<char>) -> Option<Seq<char>> {
    let parts = crate::text::split(line, '\t');
    if is_data_line(line) && parts.len() >= 7 && is_osu_domain(plain_domain(parts[0])) {
        Some(parts[5] + "="@ + parts[6])
    } else {
        None
    }
}

/// The cookies on `lines`, in order.
pub open spec fn line_cookies(lines: Seq<Seq<char>>) -> Seq<Seq<char>>
    decreases lines.len(),
{
    if lines.len() == 0 {
        seq![]
    } else {
        match line_cookie(lines.last()) {
            Some(cookie) => line_cookies(lines.drop_last()).push(cookie),
            None => line_cookies(lines.drop_last()),
        }
    }
}

/// `parts` one after another with `separator` between them.
pub open spec fn joined(parts: Seq<Seq<char>>, separator: Seq<char>) -> Seq<char>
    decreases parts.len(),
{
    if parts.len() == 0 {
        seq![]
    } else if parts.len() == 1 {
        parts[0]
    } else {
        joined(parts.drop_last(), separator) + separator + parts.last()
    }
}

fn without_prefixes<'a>(domain: &'a [char]) -> (plain: &'a [char])
    ensures
        plain@ == plain_domain(domain@),
{
    let mut plain: &[char] = domain;
    proof {
        reveal_strlit("#HttpOnly_");
    }
    while has_prefix(plain, "#HttpOnly_")
        invariant
            "#HttpOnly_"@.len() == 10,
            plain_domain(plain@) == plain_domain(domain@),
        decreases plain@.len(),
    {
        assert(plain@.subrange(10, plain@.len() as int) =~= plain@.skip(10));
        plain = slice_subrange(plain, 10, plain.len());
    }
    plain
}

/// The cookie on a line, if the line has one for the osu! site.
fn cookie_on(line: &[char]) -> (cookie: Option<Vec<char>>)
    ensures
        match cookie {
            Some(cookie) => line_cookie(line@) == Some(cookie@),
            None => line_cookie(line@) is None,
        },
{
    let text: &[char] = trim_start(line);
    if has_prefix(text, "#") && !has_prefix(text, "#HttpOnly_") {
        return None;
    }
    let parts: Vec<Vec<char>> = split_at_char(line, '\t');
    let ghost fields = crate::text::views(parts@);
    if parts.len() < 7 {
        return None;
    }
    assert(fields[0] == parts@[0]@ && fields[5] == parts@[5]@ && fields[6] == parts@[6]@);
    let domain: &[char] = without_prefixes(parts[0].as_slice());
    if !equals(domain, "ppy.sh") && !has_suffix(domain, ".ppy.sh") {
        return None;
    }
    let mut cookie: Vec<char> = Vec::new();
    push_all(&mut cookie, parts[5].as_slice());
    push_text(&mut cookie, "=");
    push_all(&mut cookie, parts[6].as_slice());
    assert(cookie@ =~= fields[5] + "="@ + fields[6]);
    Some(cookie)
}

/// The cookies for the osu! site in the text of a cookie file, as a request sends them.
pub fn read_netscape_cookie(content: &str) -> (outcome: Result<String, CookieError>)
    ensures
        ({
            let cookies = line_cookies(crate::text::lines(content@));
            match outcome {
                Ok(header) => cookies.len() > 0 && header@ == joined(cookies, "; "@),
                Err(error) => cookies.len() == 0 && error == CookieError::NoCookies,
            }
        }),
{
    let source: Vec<char> = chars_of(content);
    let lines: Vec<Vec<char>> = lines_of(source.as_slice());
    let ghost all = crate::text::views(lines@);
    let mut header: Vec<char> = Vec::new();
    let mut found: bool = false;
    let mut i: usize = 0;
    assert(all.take(0) =~= seq![]);
    while i < lines.len()
        invariant
            i <= lines@.len(),
            all == crate::text::views(lines@),
            header@ == joined(line_cookies(all.take(i as int)), "; "@),
            found == (line_cookies(all.take(i as int)).len() > 0),
        decreases lines@.len() - i,
    {
        let ghost before = line_cookies(all.take(i as int));
        let ghost after = line_cookies(all.take(i + 1));
        proof {
            assert(all.take(i + 1).drop_last() =~= all.take(i as int));
            assert(all.take(i + 1).last() == lines@[i as int]@);
        }
        if let Some(cookie) = cookie_on(lines[i].as_slice()) {
            assert(after == before.push(cookie@));
            assert(after.drop_last() =~= before);
            if found {
                push_text(&mut header, "; ");
            }
            push_all(&mut header, cookie.as_slice());
            found = true;
            proof {
                if before.len() == 0 {
                    assert(header@ =~= cookie@);
                } else {
                    assert(header@ =~= joined(before, "; "@) + "; "@ + cookie@);
                }
            }
        }
        i = i + 1;
    }
    assert(all.take(all.len() as int) =~= all);
    if !found {
        return Err(CookieError::NoCookies);
    }
    Ok(string_of(header.as_slice()))
}

/// A cookie counts whether or not its line carries the prefix that closes it to scripts.
pub proof fn law_http_only_prefix_is_transparent(domain: Seq<char>)
    ensures
        plain_domain("#HttpOnly_"@ + domain) == plain_domain(domain),
{
    reveal_strlit("#HttpOnly_");
    let marked = "#HttpOnly_"@ + domain;
    assert(marked.subrange(0, 10) =~= "#HttpOnly_"@);
    assert(marked.skip(10) =~= domain);
}

// What is read of a cookie file

/// The cookies of a file are those of its lines, in order.
pub proof fn law_cookies_come_line_by_line(lines: Seq<Seq<char>>)
    ensures
        line_cookies(lines) == lines.filter_map(|line: Seq<char>| line_cookie(line)),
    decreases lines.len(),
{
    if lines.len() > 0 {
        law_cookies_come_line_by_line(lines.drop_last());
        let front = lines.drop_last().filter_map(|line: Seq<char>| line_cookie(line));
        if let Some(cookie) = line_cookie(lines.last()) {
            assert(front + seq![cookie] =~= front.push(cookie));
        }
    }
}

/// Cookies are put behind each other with the separator between any two of them.
pub proof fn law_joining(parts: Seq<Seq<char>>, last: Seq<char>, separator: Seq<char>)
    ensures
        joined(Seq::<Seq<char>>::empty(), separator) == Seq::<char>::empty(),
        parts.len() == 0 ==> joined(parts.push(last), separator) == last,
        parts.len() > 0 ==> joined(parts.push(last), separator) == joined(parts, separator)
            + separator + last,
{
    assert(parts.push(last).drop_last() =~= parts);
}

/// A line of seven or more fields between tabs gives the cookie whose name is the sixth and whose
/// value is the seventh, if its first field, the domain, is `ppy.sh` or ends with `.ppy.sh`, and
/// else none. The line does not start with white space or a number sign.
pub proof fn law_cookie_of_a_line(fields: Seq<Seq<char>>, more: Seq<char>)
    requires
        fields.len() == 7,
        forall|f: int, i: int|
            0 <= f < 7 && 0 <= i < fields[f].len() ==> #[trigger] fields[f][i] != '\t',
        more.len() == 0 || more[0] == '\t',
        fields[0].len() > 0,
        fields[0][0] != '#',
        !crate::text::is_white_space(fields[0][0]),
    ensures
        ({
            let tab = seq!['\t'];
            let line = fields[0] + tab + (fields[1] + tab + (fields[2] + tab + (fields[3] + tab + (
            fields[4] + tab + (fields[5] + tab + (fields[6] + more))))));
            let domain = fields[0];
            line_cookie(line) == if domain == "ppy.sh"@ || (domain.len() >= 7 && domain.subrange(
                domain.len() - 7,
                domain.len() as int,
            ) == ".ppy.sh"@) {
                Some(fields[5] + "="@ + fields[6])
            } else {
                None
            }
        }),
{
    reveal_strlit("#");
    reveal_strlit("#HttpOnly_");
    reveal_strlit(".ppy.sh");
    let tab = seq!['\t'];
    let l6 = fields[6] + more;
    let l5 = fields[5] + tab + l6;
    let l4 = fields[4] + tab + l5;
    let l3 = fields[3] + tab + l4;
    let l2 = fields[2] + tab + l3;
    let l1 = fields[1] + tab + l2;
    let line = fields[0] + tab + l1;
    crate::text::law_splitting(fields[0], l1, '\t');
    crate::text::law_splitting(fields[1], l2, '\t');
    crate::text::law_splitting(fields[2], l3, '\t');
    crate::text::law_splitting(fields[3], l4, '\t');
    crate::text::law_splitting(fields[4], l5, '\t');
    crate::text::law_splitting(fields[5], l6, '\t');
    if more.len() == 0 {
        assert(l6 =~= fields[6]);
        crate::text::law_splitting(fields[6], more, '\t');
    } else {
        let rest = more.drop_first();
        assert(l6 =~= fields[6] + tab + rest);
        crate::text::law_splitting(fields[6], rest, '\t');
    }
    let parts = crate::text::split(line, '\t');
    assert(parts.len() >= 7);
    assert(parts[0] == fields[0]);
    assert(parts[5] == fields[5]);
    assert(parts[6] == fields[6]);
    assert(line[0] == fields[0][0]);
    assert(crate::text::trimmed_start(line) == line);
    crate::text::law_prefixes_and_suffixes(line, "#"@);
    crate::text::law_prefixes_and_suffixes(fields[0], "#HttpOnly_"@);
    assert("#"@[0] == '#');
    assert("#HttpOnly_"@[0] == '#');
}

/// A line that starts with a number sign is a comment, unless it goes on as a line for cookies that
/// scripts may not read.
pub proof fn law_comments_give_no_cookie(line: Seq<char>)
    requires
        line.len() > 0,
        line[0] == '#',
        !crate::text::starts_with(line, "#HttpOnly_"@),
    ensures
        line_cookie(line) is None,
{
    reveal_strlit("#");
    assert(crate::text::trimmed_start(line) == line);
    crate::text::law_prefixes_and_suffixes(line, "#"@);
    assert("#"@[0] == '#');
}

/// A line for a cookie that scripts may not read gives what it gives without its mark, wherever
/// the rest is no comment by itself and starts with no white space.
pub proof fn law_http_only_lines(line: Seq<char>)
    requires
        line.len() > 0,
        line[0] != '#',
        line[0] != '\t',
        !crate::text::is_white_space(line[0]),
    ensures
        line_cookie("#HttpOnly_"@ + line) == line_cookie(line),
{
    reveal_strlit("#HttpOnly_");
    reveal_strlit("#");
    let mark = "#HttpOnly_"@;
    let marked = mark + line;
    assert(mark.len() == 10);
    assert(mark[0] == '#');
    assert(marked[0] == '#');
    assert(!crate::text::is_white_space('#'));
    assert(crate::text::trimmed_start(marked) == marked);
    assert(crate::text::trimmed_start(line) == line);
    crate::text::law_prefixes_and_suffixes(marked, mark);
    crate::text::law_prefixes_and_suffixes(line, "#"@);
    assert("#"@[0] == '#');
    assert forall|k: int| 0 <= k < mark.len() implies marked[k] == #[trigger] mark[k] by {}
    assert(is_data_line(marked));
    assert(is_data_line(line));
    crate::text::lemma_find_char_from_is_first(line, '\t', 0);
    match crate::text::find_char(line, '\t') {
        Some(at) => {
            let part = line.take(at);
            let rest = line.skip(at + 1);
            assert(line =~= part + seq!['\t'] + rest);
            assert forall|i: int| 0 <= i < part.len() implies #[trigger] part[i] != '\t' by {
                assert(line[i] == part[i]);
            }
            crate::text::law_splitting(part, rest, '\t');
            let longer = mark + part;
            lemma_mark_has_no_tab();
            assert forall|i: int| 0 <= i < longer.len() implies #[trigger] longer[i] != '\t' by {
                if i < mark.len() {
                    assert(longer[i] == mark[i]);
                } else {
                    assert(longer[i] == part[i - mark.len()]);
                }
            }
            assert(marked =~= longer + seq!['\t'] + rest);
            crate::text::law_splitting(longer, rest, '\t');
            law_http_only_prefix_is_transparent(part);
            let a = crate::text::split(marked, '\t');
            let b = crate::text::split(line, '\t');
            assert(a.len() == b.len());
            assert(a[0] == longer && b[0] == part);
            assert(a.len() >= 7 ==> a[5] == b[5] && a[6] == b[6]);
        },
        None => {
            crate::text::law_splitting(line, seq![], '\t');
            lemma_mark_has_no_tab();
            assert forall|i: int| 0 <= i < marked.len() implies #[trigger] marked[i] != '\t' by {
                if i < mark.len() {
                    assert(marked[i] == mark[i]);
                } else {
                    assert(marked[i] == line[i - mark.len()]);
                }
            }
            crate::text::law_splitting(marked, seq![], '\t');
        },
    }
}

proof fn lemma_mark_has_no_tab()
    ensures
        forall|i: int| 0 <= i < "#HttpOnly_"@.len() ==> #[trigger] "#HttpOnly_"@[i] != '\t',
{
    reveal_strlit("#HttpOnly_");
    let mark = "#HttpOnly_"@;
    assert(mark[0] == '#' && mark[1] == 'H' && mark[2] == 't' && mark[3] == 't' && mark[4] == 'p'
        && mark[5] == 'O' && mark[6] == 'n' && mark[7] == 'l' && mark[8] == 'y' && mark[9] == '_');
}

} // verus!
