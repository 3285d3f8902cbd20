//! Where a pack is downloaded from.

use vstd::prelude::*;

use crate::html::extract_download_url;
use crate::text::{chars_of, has_prefix, push_text, string_of};

verus! {

/// The sites that a download link is asked of.
#[derive(Clone, Copy, Debug, PartialEq, Eq, Structural)]
pub enum PackDownloadSource {
    /// The official site.
    Official,
    /// A mirror first, and the official site where it has no link.
    Hinamizawa,
}

pub open spec fn pack_page_text(pack_id: Seq<char>) -> Seq<char> {
    "https://osu.ppy.sh/beatmaps/packs/"@ + pack_id
}

/// The page of a pack on the official site.
pub fn pack_page(pack_id: &str) -> (url: String)
    ensures
        url@ == pack_page_text(pack_id@),
{
    let mut text: Vec<char> = Vec::new();
    push_text(&mut text, "https://osu.ppy.sh/beatmaps/packs/");
    push_text(&mut text, pack_id);
    assert(text@ =~= pack_page_text(pack_id@));
    string_of(text.as_slice())
}

pub open spec fn mirror_query_text(pack_id: Seq<char>) -> Seq<char> {
    "https://mirror.hinamizawa.ai/v3/osu/packs/"@ + pack_id + "/cascade?format=json"@
}

/// Where the mirror is asked for the link of a pack.
pub fn mirror_query(pack_id: &str) -> (url: String)
    ensures
        url@ == mirror_query_text(pack_id@),
{
    let mut text: Vec<char> = Vec::new();
    push_text(&mut text, "https://mirror.hinamizawa.ai/v3/osu/packs/");
    push_text(&mut text, pack_id);
    push_text(&mut text, "/cascade?format=json");
    assert(text@ =~= mirror_query_text(pack_id@));
    string_of(text.as_slice())
}

/// What is wrong with an answer of the mirror.
#[derive(Clone, Copy, Debug, PartialEq, Eq, Structural)]
pub enum CascadeError {
    Unsuccessful,
    NotHttps,
}

impl CascadeError {
    pub open spec fn text(self) -> Seq<char> {
        match self {
            CascadeError::Unsuccessful => "Hinamizawa reported an unsuccessful pack cascade"@,
            CascadeError::NotHttps => "Hinamizawa returned a non-HTTPS download URL"@,
        }
    }

    /// The error in words.
    pub fn message(&self) -> (message: String)
        ensures
            message@ == self.text(),
    {
        match self {
            CascadeError::Unsuccessful => String::from_str(
                "Hinamizawa reported an unsuccessful pack cascade",
            ),
            CascadeError::NotHttps => String::from_str(
                "Hinamizawa returned a non-HTTPS download URL",
            ),
        }
    }
}

/// The link in an answer of the mirror, of which `success` and `download_url` are the fields.
pub fn extract_hinamizawa_cascade_url(success: bool, download_url: String) -> (outcome: Result<
    String,
    CascadeError,
>)
    ensures
        match outcome {
            Ok(url) => success && crate::text::starts_with(download_url@, "https://"@) && url@
                == download_url@,
            Err(CascadeError::Unsuccessful) => !success,
            Err(CascadeError::NotHttps) => success && !crate::text::starts_with(
                download_url@,
                "https://"@,
            ),
        },
{
    if !success {
        return Err(CascadeError::Unsuccessful);
    }
    let chars: Vec<char> = chars_of(download_url.as_str());
    if !has_prefix(chars.as_slice(), "https://") {
        return Err(CascadeError::NotHttps);
    }
    Ok(download_url)
}

pub open spec fn mirror_failure_text(pack_id: Seq<char>) -> Seq<char> {
    "parse Hinamizawa cascade response for "@ + pack_id
}

/// What is said of a pack whose answer from the mirror holds no link.
pub fn mirror_failure(pack_id: &str) -> (message: String)
    ensures
        message@ == mirror_failure_text(pack_id@),
{
    let mut text: Vec<char> = Vec::new();
    push_text(&mut text, "parse Hinamizawa cascade response for ");
    push_text(&mut text, pack_id);
    assert(text@ =~= mirror_failure_text(pack_id@));
    string_of(text.as_slice())
}

pub open spec fn no_link_text(pack_id: Seq<char>) -> Seq<char> {
    "official pack "@ + pack_id
        + " did not expose an authenticated download link; refresh the osu.ppy.sh Cookie file"@
}

/// The link on the official page of a pack, whose text is `page`.
pub fn official_link(pack_id: &str, page: &str) -> (outcome: Result<String, String>)
    ensures
        match crate::html::first_download_link(crate::html::link_values(page@), 0) {
            Some(url) => outcome matches Ok(link) && link@ == url,
            None => outcome matches Err(message) && message@ == no_link_text(pack_id@),
        },
{
    match extract_download_url(page) {
        Some(url) => Ok(url),
        None => {
            let mut text: Vec<char> = Vec::new();
            push_text(&mut text, "official pack ");
            push_text(&mut text, pack_id);
            push_text(
                &mut text,
                " did not expose an authenticated download link; refresh the osu.ppy.sh Cookie file",
            );
            assert(text@ =~= no_link_text(pack_id@));
            Err(string_of(text.as_slice()))
        },
    }
}

pub open spec fn both_failed_text(pack_id: Seq<char>, mirror_error: Seq<char>) -> Seq<char> {
    "Hinamizawa could not resolve official pack "@ + pack_id + ": "@ + mirror_error
        + "; official fallback also failed"@
}

/// What is said of a pack for which neither the mirror nor the official site has a link.
pub fn both_failed(pack_id: &str, mirror_error: &str) -> (message: String)
    ensures
        message@ == both_failed_text(pack_id@, mirror_error@),
{
    let mut text: Vec<char> = Vec::new();
    push_text(&mut text, "Hinamizawa could not resolve official pack ");
    push_text(&mut text, pack_id);
    push_text(&mut text, ": ");
    push_text(&mut text, mirror_error);
    push_text(&mut text, "; official fallback also failed");
    assert(text@ =~= both_failed_text(pack_id@, mirror_error@));
    string_of(text.as_slice())
}

/// What is done next to find the link of a pack.
#[derive(Clone, Copy, Debug, PartialEq, Eq, Structural)]
pub enum LinkStep {
    AskMirror,
    AskOfficial,
}

impl PackDownloadSource {
    /// Which site is asked first.
    pub fn first_step(&self) -> (step: LinkStep)
        ensures
            step == match *self {
                PackDownloadSource::Official => LinkStep::AskOfficial,
                PackDownloadSource::Hinamizawa => LinkStep::AskMirror,
            },
    {
        match self {
            PackDownloadSource::Official => LinkStep::AskOfficial,
            PackDownloadSource::Hinamizawa => LinkStep::AskMirror,
        }
    }
}

/// The link of a pack, or the error that is reported, where `mirror_error` is what the mirror
/// answered if it was asked first and `official` what the official site answered after that.
pub fn resolved_link(
    pack_id: &str,
    mirror_error: Option<String>,
    official: Result<String, String>,
) -> (outcome: Result<String, String>)
    ensures
        match official {
            Ok(url) => outcome matches Ok(link) && link@ == url@,
            Err(error) => outcome matches Err(message) && message@ == match mirror_error {
                Some(first) => both_failed_text(pack_id@, first@),
                None => error@,
            },
        },
{
    match official {
        Ok(url) => Ok(url),
        Err(error) => match mirror_error {
            Some(first) => Err(both_failed(pack_id, first.as_str())),
            None => Err(error),
        },
    }
}

/// Where packs are asked for: by their identifiers, at the pages of the official site and at the
/// mirror.
pub proof fn law_pack_addresses(pack_id: Seq<char>)
    ensures
        pack_page_text(pack_id) == "https://osu.ppy.sh/beatmaps/packs/"@ + pack_id,
        mirror_query_text(pack_id) == "https://mirror.hinamizawa.ai/v3/osu/packs/"@ + pack_id
            + "/cascade?format=json"@,
{
}

/// What is said of a pack whose link was not found names the pack, and the mirror's error where
/// there is one.
pub proof fn law_unresolved_packs_are_told(pack_id: Seq<char>, error: Seq<char>)
    ensures
        mirror_failure_text(pack_id) == "parse Hinamizawa cascade response for "@ + pack_id,
        no_link_text(pack_id) == "official pack "@ + pack_id
            + " did not expose an authenticated download link; refresh the osu.ppy.sh Cookie file"@,
        both_failed_text(pack_id, error) == "Hinamizawa could not resolve official pack "@ + pack_id
            + ": "@ + error + "; official fallback also failed"@,
{
}

} // verus!
