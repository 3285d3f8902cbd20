//! Importing one pack after another: what is done next, and what is recorded of it.

use vstd::prelude::*;

use crate::archive::{ImportError, PackImportReport};
use crate::catalog::is_known_nonstandard_pack_id;
use crate::packs::mark_once;
use crate::paths::staged_path;
use crate::source::pack_page;
use crate::store::FeatureStore;
use crate::text::{push_text, string_of};
use crate::transfer::{exhausted_message, pause_after, MAX_DOWNLOAD_ATTEMPTS};

verus! {

/// How the import of a pack starts.
#[derive(Clone, Copy, Debug, PartialEq, Eq, Structural)]
pub enum ImportStart {
    /// There is nothing to import: the report is empty.
    Nothing,
    /// An archive is there already, and is tried first.
    Staged,
    /// The archive is downloaded.
    Download,
}

/// How the import of a pack starts, where `staged` tells whether its archive is there already.
pub open spec fn import_start(
    store: FeatureStore,
    pack_id: Seq<char>,
    staged: bool,
) -> ImportStart {
    if crate::packs::is_settled(store, pack_id) || crate::catalog::is_nonstandard_pack(pack_id) {
        ImportStart::Nothing
    } else if staged {
        ImportStart::Staged
    } else {
        ImportStart::Download
    }
}

/// Starts the import of a pack. One that is known to hold no osu!standard beatmap is recorded
/// as excluded, without a request.
pub fn begin_import(store: &mut FeatureStore, pack_id: &str, staged: bool) -> (start: ImportStart)
    ensures
        start == import_start(*old(store), pack_id@, staged),
        if !crate::packs::is_settled(*old(store), pack_id@) && crate::catalog::is_nonstandard_pack(
            pack_id@,
        ) {
            crate::packs::only_marks(
                *old(store),
                *final(store),
                seq![crate::packs::exclusion(pack_id@)],
            )
        } else {
            *final(store) == *old(store)
        },
{
    if store.pack_is_complete(pack_id) || store.pack_is_excluded(pack_id) {
        return ImportStart::Nothing;
    }
    if is_known_nonstandard_pack_id(pack_id) {
        mark_once(
            store,
            pack_id,
            "catalogue-filter",
            "excluded",
            Some(String::from_str("pack contains no osu!standard beatmaps")),
        );
        return ImportStart::Nothing;
    }
    if staged {
        ImportStart::Staged
    } else {
        ImportStart::Download
    }
}

pub open spec fn pack_error_text(pack_id: Seq<char>, error: Seq<char>) -> Seq<char> {
    "official pack "@ + pack_id + ": "@ + error
}

fn pack_error(pack_id: &str, error: &str) -> (message: String)
    ensures
        message@ == pack_error_text(pack_id@, error@),
{
    let mut text: Vec<char> = Vec::new();
    push_text(&mut text, "official pack ");
    push_text(&mut text, pack_id);
    push_text(&mut text, ": ");
    push_text(&mut text, error);
    assert(text@ =~= pack_error_text(pack_id@, error@));
    string_of(text.as_slice())
}

// A staged archive

/// The mark of a pack whose staged archive is in the given state.
pub open spec fn staged_mark(
    store: FeatureStore,
    pack_id: Seq<char>,
    status: Seq<char>,
    error: Option<Seq<char>>,
) -> crate::packs::Mark {
    crate::packs::Mark {
        pack_id,
        source: crate::paths::staged_text(store.root@, pack_id),
        status,
        error,
    }
}

pub open spec fn no_archive_text(pack_id: Seq<char>) -> Seq<char> {
    "no downloaded archive exists for official pack "@ + pack_id
}

/// Starts the import of a staged archive. Gives whether there is anything to import.
pub fn begin_staged_import(store: &mut FeatureStore, pack_id: &str, staged: bool) -> (outcome:
    Result<bool, String>)
    ensures
        if crate::packs::is_settled(*old(store), pack_id@) {
            (outcome matches Ok(wanted) && !wanted) && *final(store) == *old(store)
        } else if !staged {
            (outcome matches Err(message) && message@ == no_archive_text(pack_id@))
                && *final(store) == *old(store)
        } else {
            (outcome matches Ok(wanted) && wanted) && crate::packs::only_marks(
                *old(store),
                *final(store),
                seq![staged_mark(*old(store), pack_id@, "processing"@, None)],
            )
        },
{
    if store.pack_is_complete(pack_id) || store.pack_is_excluded(pack_id) {
        return Ok(false);
    }
    if !staged {
        let mut text: Vec<char> = Vec::new();
        push_text(&mut text, "no downloaded archive exists for official pack ");
        push_text(&mut text, pack_id);
        assert(text@ =~= no_archive_text(pack_id@));
        return Err(string_of(text.as_slice()));
    }
    let source: String = staged_path(store.root(), pack_id);
    mark_once(store, pack_id, source.as_str(), "processing", None);
    Ok(true)
}

/// Why a staged archive was not imported.
#[derive(Clone, Debug, PartialEq, Eq)]
pub enum StagedFailure {
    /// What the archive holds was not imported.
    Import(ImportError),
    /// The archive could not be read.
    Unreadable { message: String },
}

impl StagedFailure {
    pub open spec fn text(self) -> Seq<char> {
        match self {
            StagedFailure::Import(error) => error.text(),
            StagedFailure::Unreadable { message } => message@,
        }
    }

    /// The failure in words.
    pub fn message(&self) -> (message: String)
        ensures
            message@ == self.text(),
    {
        match self {
            StagedFailure::Import(error) => error.message(),
            StagedFailure::Unreadable { message } => message.clone(),
        }
    }

    /// Whether beatmaps failed.
    pub open spec fn is_analysis(self) -> bool {
        self matches StagedFailure::Import(error) && error is Failures
    }
}

/// The outcome of an import. One in which a beatmap failed has failed.
pub open spec fn judged(outcome: Result<PackImportReport, StagedFailure>) -> Result<
    PackImportReport,
    StagedFailure,
> {
    match outcome {
        Ok(report) if report.failed > 0 => Err(
            StagedFailure::Import(
                ImportError::Failures { failed: report.failed, processed: report.processed },
            ),
        ),
        _ => outcome,
    }
}

/// What is recorded when the import of a staged archive has ended.
pub open spec fn staged_end_mark(
    store: FeatureStore,
    pack_id: Seq<char>,
    outcome: Result<PackImportReport, StagedFailure>,
) -> crate::packs::Mark {
    match outcome {
        Ok(_) => crate::packs::Mark {
            pack_id,
            source: "local-staged"@,
            status: "complete"@,
            error: None,
        },
        Err(failure) => staged_mark(store, pack_id, "failed"@, Some(failure.text())),
    }
}

/// Records how the import of a staged archive has ended. The archive of a failed import stays,
/// and is tried again.
pub fn end_staged_import(
    store: &mut FeatureStore,
    pack_id: &str,
    outcome: Result<PackImportReport, StagedFailure>,
) -> (result: Result<PackImportReport, String>)
    ensures
        crate::packs::only_marks(
            *old(store),
            *final(store),
            seq![staged_end_mark(*old(store), pack_id@, judged(outcome))],
        ),
        match judged(outcome) {
            Ok(report) => result matches Ok(same) && same == report,
            Err(failure) => result matches Err(message) && message@ == if failure.is_analysis() {
                pack_error_text(pack_id@, failure.text())
            } else {
                failure.text()
            },
        },
{
    let source: String = staged_path(store.root(), pack_id);
    let verdict: Result<PackImportReport, StagedFailure> = match outcome {
        Ok(report) => if report.failed > 0 {
            Err(
                StagedFailure::Import(
                    ImportError::Failures { failed: report.failed, processed: report.processed },
                ),
            )
        } else {
            Ok(report)
        },
        Err(failure) => Err(failure),
    };
    match verdict {
        Ok(report) => {
            mark_once(store, pack_id, "local-staged", "complete", None);
            Ok(report)
        },
        Err(failure) => {
            let error: String = failure.message();
            let message: String = match &failure {
                StagedFailure::Import(ImportError::Failures { .. }) => pack_error(
                    pack_id,
                    error.as_str(),
                ),
                _ => error.clone(),
            };
            mark_once(store, pack_id, source.as_str(), "failed", Some(error));
            Err(message)
        },
    }
}

pub open spec fn rar_text(error: Seq<char>) -> Seq<char> {
    "RAR archive support is unavailable: "@ + error
}

/// Decides on a staged archive whose import has failed with `error`. A RAR archive cannot be
/// read at all, so that is the end; any other may be incomplete and is downloaded again.
pub fn staged_import_failed(
    store: &mut FeatureStore,
    pack_id: &str,
    error: &str,
    is_rar: bool,
) -> (end: Option<String>)
    ensures
        if is_rar {
            (end matches Some(message) && message@ == pack_error_text(pack_id@, rar_text(error@)))
                && crate::packs::only_marks(
                *old(store),
                *final(store),
                seq![staged_mark(*old(store), pack_id@, "failed"@, Some(rar_text(error@)))],
            )
        } else {
            end is None && *final(store) == *old(store)
        },
{
    if !is_rar {
        return None;
    }
    let mut text: Vec<char> = Vec::new();
    push_text(&mut text, "RAR archive support is unavailable: ");
    push_text(&mut text, error);
    assert(text@ =~= rar_text(error@));
    let reason: String = string_of(text.as_slice());
    let message: String = pack_error(pack_id, reason.as_str());
    let source: String = staged_path(store.root(), pack_id);
    mark_once(store, pack_id, source.as_str(), "failed", Some(reason));
    Some(message)
}

// Attempts

/// Records that the archive of a pack is being downloaded from `url`.
pub fn attempt_started(store: &mut FeatureStore, pack_id: &str, url: &str)
    ensures
        crate::packs::only_marks(
            *old(store),
            *final(store),
            seq![
                crate::packs::Mark {
                    pack_id: pack_id@,
                    source: url@,
                    status: "downloading"@,
                    error: None,
                },
            ],
        ),
{
    mark_once(store, pack_id, url, "downloading", None);
}

/// Records that a pack from `url` is imported.
pub fn attempt_succeeded(store: &mut FeatureStore, pack_id: &str, url: &str)
    ensures
        crate::packs::only_marks(
            *old(store),
            *final(store),
            seq![
                crate::packs::Mark {
                    pack_id: pack_id@,
                    source: url@,
                    status: "complete"@,
                    error: None,
                },
            ],
        ),
{
    mark_once(store, pack_id, url, "complete", None);
}

/// What follows on a failed attempt.
#[derive(Clone, Debug, PartialEq, Eq)]
pub enum AttemptStep {
    /// The pack is tried again, after so many seconds if any are given.
    Retry { pause: Option<u64> },
    /// It is given up.
    GiveUp { message: String },
}

/// Whether a step is the one that follows when the given attempt has failed.
pub open spec fn follows(
    step: AttemptStep,
    pack_id: Seq<char>,
    attempt: u8,
    slow: bool,
    error: Seq<char>,
) -> bool {
    if attempt < MAX_DOWNLOAD_ATTEMPTS {
        step matches AttemptStep::Retry { pause } && match crate::transfer::pause_of(
            attempt,
            slow,
        ) {
            Some(seconds) => pause matches Some(wait) && wait == seconds,
            None => pause is None,
        }
    } else {
        step matches AttemptStep::GiveUp { message } && message@
            == crate::transfer::exhausted_text(pack_id, error)
    }
}

/// What follows when an attempt has failed: the pack is tried three times in all.
pub fn next_attempt(pack_id: &str, attempt: u8, slow: bool, error: &str) -> (step: AttemptStep)
    ensures
        follows(step, pack_id@, attempt, slow, error@),
{
    if attempt < MAX_DOWNLOAD_ATTEMPTS {
        AttemptStep::Retry { pause: pause_after(attempt, slow) }
    } else {
        AttemptStep::GiveUp { message: exhausted_message(pack_id, error) }
    }
}

/// What is recorded when an attempt has failed.
pub open spec fn attempt_mark(
    pack_id: Seq<char>,
    attempt: u8,
    error: Seq<char>,
) -> crate::packs::Mark {
    crate::packs::Mark {
        pack_id,
        source: crate::source::pack_page_text(pack_id),
        status: if attempt < MAX_DOWNLOAD_ATTEMPTS {
            "retrying"@
        } else {
            "failed"@
        },
        error: Some(error),
    }
}

/// Records that an attempt has failed with `error`, and decides what follows. `slow` tells
/// whether the transfer was given up because it was slow.
pub fn attempt_failed(
    store: &mut FeatureStore,
    pack_id: &str,
    attempt: u8,
    slow: bool,
    error: &str,
) -> (step: AttemptStep)
    ensures
        crate::packs::only_marks(
            *old(store),
            *final(store),
            seq![attempt_mark(pack_id@, attempt, error@)],
        ),
        follows(step, pack_id@, attempt, slow, error@),
{
    let status: &str = if attempt < MAX_DOWNLOAD_ATTEMPTS {
        "retrying"
    } else {
        "failed"
    };
    let page: String = pack_page(pack_id);
    mark_once(store, pack_id, page.as_str(), status, Some(String::from_str(error)));
    next_attempt(pack_id, attempt, slow, error)
}

// What holds of imports

/// A pack whose last mark says that it is complete or excluded is not imported again.
pub proof fn law_settled_pack_is_not_imported_again(
    before: FeatureStore,
    after: FeatureStore,
    mark: crate::packs::Mark,
    staged: bool,
)
    requires
        crate::packs::only_marks(before, after, seq![mark]),
        mark.status == "complete"@ || mark.status == "excluded"@,
    ensures
        import_start(after, mark.pack_id, staged) == ImportStart::Nothing,
{
    let id = mark.pack_id;
    let state = crate::packs::state_in(before, id);
    let none: Seq<crate::packs::Mark> = seq![];
    assert(seq![mark].drop_last() =~= none);
    assert(crate::packs::after_marks(state, id, none) == state);
    assert(crate::packs::state_in(after, id) == crate::packs::after_marks(state, id, seq![mark]));
}

/// No pack is tried more often than three times: whatever the reason, the third failure is the
/// last, and an earlier one never is.
pub proof fn law_third_attempt_is_the_last(
    step: AttemptStep,
    pack_id: Seq<char>,
    attempt: u8,
    slow: bool,
    error: Seq<char>,
)
    requires
        follows(step, pack_id, attempt, slow, error),
    ensures
        step is GiveUp <==> attempt >= 3,
        slow && step is Retry ==> step->pause is None,
{
}

/// A pack that has failed is tried again: no mark of a failed import settles it.
pub proof fn law_failed_pack_is_tried_again(
    before: FeatureStore,
    after: FeatureStore,
    pack_id: Seq<char>,
    attempt: u8,
    error: Seq<char>,
    staged: bool,
)
    requires
        crate::packs::only_marks(before, after, seq![attempt_mark(pack_id, attempt, error)]),
        !crate::catalog::is_nonstandard_pack(pack_id),
    ensures
        import_start(after, pack_id, staged) == if staged {
            ImportStart::Staged
        } else {
            ImportStart::Download
        },
{
    let mark = attempt_mark(pack_id, attempt, error);
    let state = crate::packs::state_in(before, pack_id);
    let none: Seq<crate::packs::Mark> = seq![];
    assert(seq![mark].drop_last() =~= none);
    assert(crate::packs::after_marks(state, pack_id, none) == state);
    assert(crate::packs::state_in(after, pack_id) == crate::packs::after_marks(
        state,
        pack_id,
        seq![mark],
    ));
    reveal_strlit("retrying");
    reveal_strlit("failed");
    reveal_strlit("complete");
    reveal_strlit("excluded");
    assert("retrying"@[0] != "complete"@[0] && "retrying"@[0] != "excluded"@[0]);
    assert("failed"@[0] != "complete"@[0] && "failed"@[0] != "excluded"@[0]);
}

// What the import of a pack does

/// How the import of a pack begins: not at all for a pack that is complete, excluded or of another
/// mode, else with the archive that is there, or with a download.
pub proof fn law_imports_begin(store: FeatureStore, pack_id: Seq<char>, staged: bool)
    ensures
        ({
            let state = crate::packs::state_in(store, pack_id);
            let settled = state is Some && (state->Some_0.status == "complete"@
                || state->Some_0.status == "excluded"@);
            let start = import_start(store, pack_id, staged);
            &&& start is Nothing <==> settled || crate::catalog::is_nonstandard_pack(pack_id)
            &&& !(start is Nothing) ==> (start is Staged <==> staged)
            &&& !(start is Nothing) ==> (start is Download <==> !staged)
        }),
{
}

/// An import succeeds only if none of its beatmaps failed; the number of failures is said.
pub proof fn law_imports_with_failures_fail(outcome: Result<PackImportReport, StagedFailure>)
    ensures
        outcome is Err ==> judged(outcome) == outcome,
        outcome is Ok && outcome->Ok_0.failed == 0 ==> judged(outcome) == outcome,
        outcome is Ok && outcome->Ok_0.failed > 0 ==> judged(outcome) == Err::<
            PackImportReport,
            StagedFailure,
        >(
            StagedFailure::Import(
                ImportError::Failures {
                    failed: outcome->Ok_0.failed,
                    processed: outcome->Ok_0.processed,
                },
            ),
        ),
{
}

/// What is recorded of an import: that the pack is complete, or that it failed and why; and of a
/// failed attempt to download, that it is retried as long as it is not the third.
pub proof fn law_import_ends_are_recorded(
    store: FeatureStore,
    pack_id: Seq<char>,
    outcome: Result<PackImportReport, StagedFailure>,
    attempt: u8,
    error: Seq<char>,
)
    ensures
        staged_end_mark(store, pack_id, outcome).pack_id == pack_id,
        outcome is Ok ==> staged_end_mark(store, pack_id, outcome).status == "complete"@
            && staged_end_mark(store, pack_id, outcome).error is None,
        outcome is Err ==> staged_end_mark(store, pack_id, outcome).status == "failed"@
            && staged_end_mark(store, pack_id, outcome).error == Some(outcome->Err_0.text()),
        attempt_mark(pack_id, attempt, error).pack_id == pack_id,
        attempt_mark(pack_id, attempt, error).error == Some(error),
        attempt < 3 ==> attempt_mark(pack_id, attempt, error).status == "retrying"@,
        attempt >= 3 ==> attempt_mark(pack_id, attempt, error).status == "failed"@,
{
}

/// After a failed attempt the pack is tried again after two or four seconds, or at once where
/// the transfer was slow; after the third it is given up.
pub proof fn law_attempts_are_spaced(
    step: AttemptStep,
    pack_id: Seq<char>,
    attempt: u8,
    slow: bool,
    error: Seq<char>,
)
    requires
        follows(step, pack_id, attempt, slow, error),
    ensures
        attempt == 1 && !slow ==> step is Retry && step->pause == Some(2u64),
        attempt == 2 && !slow ==> step is Retry && step->pause == Some(4u64),
        attempt < 3 && slow ==> step is Retry && step->pause is None,
        attempt >= 3 ==> step is GiveUp,
{
    crate::transfer::law_pauses_double(attempt);
}

/// What is recorded of an archive that is there already: the pack, its place and the status and
/// error that are given.
pub proof fn law_staged_marks(
    store: FeatureStore,
    pack_id: Seq<char>,
    status: Seq<char>,
    error: Option<Seq<char>>,
)
    ensures
        staged_mark(store, pack_id, status, error).pack_id == pack_id,
        staged_mark(store, pack_id, status, error).status == status,
        staged_mark(store, pack_id, status, error).error == error,
        staged_mark(store, pack_id, status, error).source == crate::paths::staged_text(
            store.root@,
            pack_id,
        ),
{
}

/// What is said of a staged archive that was not imported names the pack and the error. An
/// archive that could not be read is told by its own message, and only beatmaps that failed count
/// as a failed analysis.
pub proof fn law_failed_imports_are_told(
    pack_id: Seq<char>,
    error: Seq<char>,
    failure: StagedFailure,
)
    ensures
        pack_error_text(pack_id, error) == "official pack "@ + pack_id + ": "@ + error,
        no_archive_text(pack_id) == "no downloaded archive exists for official pack "@ + pack_id,
        rar_text(error) == "RAR archive support is unavailable: "@ + error,
        failure is Unreadable ==> failure.text() == failure->message@ && !failure.is_analysis(),
        failure is Import ==> failure.text() == failure->Import_0.text(),
        failure is Import ==> failure.is_analysis() == (failure->Import_0 is Failures),
{
}

} // verus!
