//! Pack archives and what is imported from them.

use std::io::Read;

use vstd::prelude::*;

use crate::text::{chars_of, push_decimal, push_text, string_of};

verus! {

/// What an import did with the beatmaps of a pack.
#[derive(Clone, Copy, Debug, PartialEq, Eq, Structural)]
pub struct PackImportReport {
    pub processed: usize,
    pub inserted: usize,
    pub skipped: usize,
    pub failed: usize,
}

impl Default for PackImportReport {
    fn default() -> (report: PackImportReport)
        ensures
            report == (PackImportReport { processed: 0, inserted: 0, skipped: 0, failed: 0 }),
    {
        PackImportReport { processed: 0, inserted: 0, skipped: 0, failed: 0 }
    }
}

/// What became of a beatmap that was handed to the analysis.
#[derive(Clone, Copy, Debug, PartialEq, Eq, Structural)]
pub enum BeatmapOutcome {
    Inserted,
    Unchanged,
    Failed,
}

impl PackImportReport {
    /// Whether every processed beatmap is counted once among the outcomes.
    pub open spec fn balanced(self) -> bool {
        self.processed == self.inserted + self.skipped + self.failed
    }

    /// The report with one more beatmap: one that is not for osu!standard is skipped, another
    /// is counted by its outcome.
    pub open spec fn with_beatmap(
        self,
        standard: bool,
        outcome: BeatmapOutcome,
    ) -> PackImportReport {
        let inserted = standard && outcome == BeatmapOutcome::Inserted;
        let failed = standard && outcome == BeatmapOutcome::Failed;
        PackImportReport {
            processed: (self.processed + 1) as usize,
            inserted: if inserted {
                (self.inserted + 1) as usize
            } else {
                self.inserted
            },
            skipped: if inserted || failed {
                self.skipped
            } else {
                (self.skipped + 1) as usize
            },
            failed: if failed {
                (self.failed + 1) as usize
            } else {
                self.failed
            },
        }
    }

    /// Whether one more beatmap can be counted.
    pub open spec fn has_room(self) -> bool {
        &&& self.processed < usize::MAX
        &&& self.inserted < usize::MAX
        &&& self.skipped < usize::MAX
        &&& self.failed < usize::MAX
    }

    /// Counts a beatmap for another mode: that is an expected exclusion.
    pub fn record_other_mode(&mut self)
        requires
            old(self).has_room(),
        ensures
            *final(self) == old(self).with_beatmap(false, BeatmapOutcome::Unchanged),
    {
        self.processed = self.processed + 1;
        self.skipped = self.skipped + 1;
    }

    /// Counts a beatmap that was analysed.
    pub fn record(&mut self, outcome: BeatmapOutcome)
        requires
            old(self).has_room(),
        ensures
            *final(self) == old(self).with_beatmap(true, outcome),
    {
        self.processed = self.processed + 1;
        match outcome {
            BeatmapOutcome::Inserted => {
                self.inserted = self.inserted + 1;
            },
            BeatmapOutcome::Unchanged => {
                self.skipped = self.skipped + 1;
            },
            BeatmapOutcome::Failed => {
                self.failed = self.failed + 1;
            },
        }
    }

    /// Counts an inner archive of a 7z pack that could not be read to its end.
    pub fn record_broken_set(&mut self)
        requires
            old(self).failed < usize::MAX,
        ensures
            *final(self) == (PackImportReport {
                failed: (old(self).failed + 1) as usize,
                ..*old(self)
            }),
    {
        self.failed = self.failed + 1;
    }
}

/// Why the import of an archive gives no report.
#[derive(Clone, Copy, Debug, PartialEq, Eq, Structural)]
pub enum ImportError {
    /// RAR archives cannot be read.
    Rar,
    /// The archive holds no beatmap.
    NoBeatmaps { seven_z: bool },
    /// Beatmaps of a pack failed, so that none of it is imported.
    Failures { failed: usize, processed: usize },
}

pub open spec fn failures_text(failed: usize, processed: usize) -> Seq<char> {
    crate::text::decimal(failed as nat) + " of "@ + crate::text::decimal(processed as nat)
        + " osu!standard beatmaps failed analysis; retained archive for retry"@
}

impl ImportError {
    pub open spec fn text(self) -> Seq<char> {
        match self {
            ImportError::Rar => "RAR archive support is unavailable"@,
            ImportError::NoBeatmaps { seven_z } => if seven_z {
                "official 7z pack archive contains no .osu beatmaps"@
            } else {
                "official pack archive contains no .osu beatmaps"@
            },
            ImportError::Failures { failed, processed } => failures_text(failed, processed),
        }
    }

    /// The error in words.
    pub fn message(&self) -> (message: String)
        ensures
            message@ == self.text(),
    {
        match self {
            ImportError::Rar => String::from_str("RAR archive support is unavailable"),
            ImportError::NoBeatmaps { seven_z } => if *seven_z {
                String::from_str("official 7z pack archive contains no .osu beatmaps")
            } else {
                String::from_str("official pack archive contains no .osu beatmaps")
            },
            ImportError::Failures { failed, processed } => {
                let mut text: Vec<char> = Vec::new();
                push_decimal(&mut text, *failed as u64);
                push_text(&mut text, " of ");
                push_decimal(&mut text, *processed as u64);
                push_text(
                    &mut text,
                    " osu!standard beatmaps failed analysis; retained archive for retry",
                );
                assert(text@ =~= failures_text(*failed, *processed));
                string_of(text.as_slice())
            },
        }
    }
}

/// The report on an archive of the given kind that was read to its end. An archive without a
/// beatmap is an error.
pub fn finish_import(report: PackImportReport, kind: ArchiveKind) -> (outcome: Result<
    PackImportReport,
    ImportError,
>)
    ensures
        outcome == if kind == ArchiveKind::Rar {
            Err::<PackImportReport, ImportError>(ImportError::Rar)
        } else if report.processed == 0 {
            Err::<PackImportReport, ImportError>(
                ImportError::NoBeatmaps { seven_z: kind == ArchiveKind::SevenZ },
            )
        } else {
            Ok::<PackImportReport, ImportError>(report)
        },
{
    match kind {
        ArchiveKind::Rar => {
            return Err(ImportError::Rar);
        },
        ArchiveKind::SevenZ => {
            if report.processed == 0 {
                return Err(ImportError::NoBeatmaps { seven_z: true });
            }
        },
        ArchiveKind::Zip => {
            if report.processed == 0 {
                return Err(ImportError::NoBeatmaps { seven_z: false });
            }
        },
    }
    Ok(report)
}

/// Every beatmap that is counted ends up under exactly one outcome.
pub proof fn law_reports_stay_balanced(
    report: PackImportReport,
    standard: bool,
    outcome: BeatmapOutcome,
)
    requires
        report.balanced(),
        report.has_room(),
    ensures
        report.with_beatmap(standard, outcome).balanced(),
{
}

/// The kinds of archive that packs come in.
#[derive(Clone, Copy, Debug, PartialEq, Eq, Structural)]
pub enum ArchiveKind {
    SevenZ,
    Rar,
    Zip,
}

/// The kind of archive that a file is, by its first six bytes. A shorter file has no kind, and
/// what is neither 7z nor RAR is taken for ZIP.
pub open spec fn kind_of(bytes: Seq<u8>) -> Option<ArchiveKind> {
    if bytes.len() < 6 {
        None
    } else if bytes.take(6) == seq![0x37u8, 0x7a, 0xbc, 0xaf, 0x27, 0x1c] {
        Some(ArchiveKind::SevenZ)
    } else if bytes.take(6) == seq![0x52u8, 0x61, 0x72, 0x21, 0x1a, 0x07] {
        Some(ArchiveKind::Rar)
    } else {
        Some(ArchiveKind::Zip)
    }
}

/// The kind of archive that a file is.
pub fn archive_kind(bytes: &[u8]) -> (kind: Option<ArchiveKind>)
    ensures
        kind == kind_of(bytes@),
{
    if bytes.len() < 6 {
        return None;
    }
    let ghost signature = bytes@.take(6);
    let ghost seven = seq![0x37u8, 0x7a, 0xbc, 0xaf, 0x27, 0x1c];
    let ghost rar = seq![0x52u8, 0x61, 0x72, 0x21, 0x1a, 0x07];
    if bytes[0] == 0x37 && bytes[1] == 0x7a && bytes[2] == 0xbc && bytes[3] == 0xaf && bytes[4]
        == 0x27 && bytes[5] == 0x1c {
        assert(signature =~= seven);
        return Some(ArchiveKind::SevenZ);
    }
    proof {
        if signature == seven {
            assert(signature[0] == seven[0] && signature[1] == seven[1] && signature[2] == seven[2]
                && signature[3] == seven[3] && signature[4] == seven[4] && signature[5]
                == seven[5]);
        }
    }
    if bytes[0] == 0x52 && bytes[1] == 0x61 && bytes[2] == 0x72 && bytes[3] == 0x21 && bytes[4]
        == 0x1a && bytes[5] == 0x07 {
        assert(signature =~= rar);
        return Some(ArchiveKind::Rar);
    }
    proof {
        if signature == rar {
            assert(signature[0] == rar[0] && signature[1] == rar[1] && signature[2] == rar[2]
                && signature[3] == rar[3] && signature[4] == rar[4] && signature[5] == rar[5]);
        }
    }
    Some(ArchiveKind::Zip)
}

/// The kinds of archive entries that matter.
#[derive(Clone, Copy, Debug, PartialEq, Eq, Structural)]
pub enum EntryKind {
    Beatmap,
    BeatmapSet,
    Other,
}

/// The kind of an entry, by the end of its name in whatever case.
pub open spec fn entry_kind_of(name: Seq<char>) -> EntryKind {
    if crate::text::ends_with(crate::text::lowered(name), ".osu"@) {
        EntryKind::Beatmap
    } else if crate::text::ends_with(crate::text::lowered(name), ".osz"@) {
        EntryKind::BeatmapSet
    } else {
        EntryKind::Other
    }
}

/// The kind of an archive entry.
pub fn entry_kind(name: &str) -> (kind: EntryKind)
    ensures
        kind == entry_kind_of(name@),
{
    let name: Vec<char> = chars_of(name);
    let lowered: Vec<char> = crate::text::lower_all(name.as_slice());
    if crate::text::has_suffix(lowered.as_slice(), ".osu") {
        EntryKind::Beatmap
    } else if crate::text::has_suffix(lowered.as_slice(), ".osz") {
        EntryKind::BeatmapSet
    } else {
        EntryKind::Other
    }
}

/// The error of the `zip` crate.
#[verifier::external_type_specification]
#[verifier::external_body]
pub struct ExZipError(zip::result::ZipError);

/// How many entries the ZIP archive in `bytes` has, if it can be opened.
pub uninterp spec fn zip_count(bytes: Seq<u8>) -> Option<nat>;

/// The name of an entry of the ZIP archive in `bytes`, if the entry can be opened.
pub uninterp spec fn zip_name(bytes: Seq<u8>, index: int) -> Option<Seq<char>>;

/// What an entry of the ZIP archive in `bytes` holds, if it can be read to its end.
pub uninterp spec fn zip_contents(bytes: Seq<u8>, index: int) -> Option<Seq<u8>>;

/// `zip::ZipArchive::new` and `ZipArchive::len`: the number of entries of the archive that the
/// bytes hold, or an error where they hold none. Both depend on the bytes alone.
#[verifier::external_body]
fn entry_count(bytes: &[u8]) -> (count: Result<usize, zip::result::ZipError>)
    ensures
        match count {
            Ok(count) => zip_count(bytes@) == Some(count as nat),
            Err(_) => zip_count(bytes@) is None,
        },
{
    Ok(zip::ZipArchive::new(std::io::Cursor::new(bytes))?.len())
}

/// `ZipArchive::by_index` and `ZipFile::name`: the name of one entry, or an error where the
/// archive or the entry cannot be opened. Both depend on the bytes and the index alone.
#[verifier::external_body]
fn entry_name(bytes: &[u8], index: usize) -> (name: Result<String, zip::result::ZipError>)
    ensures
        match name {
            Ok(name) => zip_name(bytes@, index as int) == Some(name@),
            Err(_) => zip_name(bytes@, index as int) is None,
        },
{
    let mut archive = zip::ZipArchive::new(std::io::Cursor::new(bytes))?;
    let entry = archive.by_index(index)?;
    Ok(entry.name().to_owned())
}

/// `ZipArchive::by_index` and `read_to_end` on the entry: what one entry holds, or an error
/// where it cannot be read to its end. Both depend on the bytes and the index alone.
#[verifier::external_body]
fn entry_contents(bytes: &[u8], index: usize) -> (contents: Result<Vec<u8>, zip::result::ZipError>)
    ensures
        match contents {
            Ok(contents) => zip_contents(bytes@, index as int) == Some(contents@),
            Err(_) => zip_contents(bytes@, index as int) is None,
        },
{
    let mut archive = zip::ZipArchive::new(std::io::Cursor::new(bytes))?;
    let mut entry = archive.by_index(index)?;
    let mut contents = Vec::new();
    entry.read_to_end(&mut contents)?;
    Ok(contents)
}

/// What the byte vectors in `files` hold.
pub open spec fn contents_of(files: Seq<Vec<u8>>) -> Seq<Seq<u8>> {
    Seq::new(files.len(), |i: int| files[i]@)
}

/// The beatmap files that were read from an archive, in order, and whether reading ended at
/// the end of the archive.
pub struct WalkedFiles {
    pub files: Seq<Seq<u8>>,
    pub complete: bool,
}

/// The walk whose first files are `files`, followed by those of `rest`.
pub open spec fn followed_by(files: Seq<Seq<u8>>, rest: WalkedFiles) -> WalkedFiles {
    WalkedFiles { files: files + rest.files, complete: rest.complete }
}

/// The beatmap files of a beatmap set archive from entry `from` on.
pub open spec fn walk_set_from(bytes: Seq<u8>, from: nat, count: nat) -> WalkedFiles
    decreases count - from,
{
    if from >= count {
        WalkedFiles { files: seq![], complete: true }
    } else {
        match zip_name(bytes, from as int) {
            None => WalkedFiles { files: seq![], complete: false },
            Some(name) => if entry_kind_of(name) == EntryKind::Beatmap {
                match zip_contents(bytes, from as int) {
                    None => WalkedFiles { files: seq![], complete: false },
                    Some(contents) => followed_by(
                        seq![contents],
                        walk_set_from(bytes, from + 1, count),
                    ),
                }
            } else {
                walk_set_from(bytes, from + 1, count)
            },
        }
    }
}

/// The beatmap files of a beatmap set archive.
pub open spec fn walk_set(bytes: Seq<u8>) -> WalkedFiles {
    match zip_count(bytes) {
        Some(count) => walk_set_from(bytes, 0, count),
        None => WalkedFiles { files: seq![], complete: false },
    }
}

/// The beatmap files of a ZIP pack from entry `from` on: its own and those of the beatmap sets
/// in it.
pub open spec fn walk_pack_from(bytes: Seq<u8>, from: nat, count: nat) -> WalkedFiles
    decreases count - from,
{
    if from >= count {
        WalkedFiles { files: seq![], complete: true }
    } else {
        match zip_name(bytes, from as int) {
            None => WalkedFiles { files: seq![], complete: false },
            Some(name) => match entry_kind_of(name) {
                EntryKind::Other => walk_pack_from(bytes, from + 1, count),
                EntryKind::Beatmap => match zip_contents(bytes, from as int) {
                    None => WalkedFiles { files: seq![], complete: false },
                    Some(contents) => followed_by(
                        seq![contents],
                        walk_pack_from(bytes, from + 1, count),
                    ),
                },
                EntryKind::BeatmapSet => match zip_contents(bytes, from as int) {
                    None => WalkedFiles { files: seq![], complete: false },
                    Some(contents) => {
                        let inner = walk_set(contents);
                        if inner.complete {
                            followed_by(inner.files, walk_pack_from(bytes, from + 1, count))
                        } else {
                            inner
                        }
                    },
                },
            },
        }
    }
}

/// The beatmap files of a ZIP pack: its own and those of the beatmap sets in it.
pub open spec fn walk_pack(bytes: Seq<u8>) -> WalkedFiles {
    match zip_count(bytes) {
        Some(count) => walk_pack_from(bytes, 0, count),
        None => WalkedFiles { files: seq![], complete: false },
    }
}

/// The beatmap files that were read from an archive, in order, up to the first failure.
pub struct BeatmapFiles {
    pub files: Vec<Vec<u8>>,
    pub failure: Option<zip::result::ZipError>,
}

impl BeatmapFiles {
    pub open spec fn walked(&self) -> WalkedFiles {
        WalkedFiles { files: contents_of(self.files@), complete: self.failure is None }
    }
}

/// The beatmap files of a beatmap set archive.
pub fn set_beatmaps(bytes: &[u8]) -> (found: BeatmapFiles)
    ensures
        found.walked() == walk_set(bytes@),
{
    let mut files: Vec<Vec<u8>> = Vec::new();
    assert(contents_of(files@) =~= seq![]);
    let count: usize = match entry_count(bytes) {
        Ok(count) => count,
        Err(error) => {
            return BeatmapFiles { files, failure: Some(error) };
        },
    };
    let mut i: usize = 0;
    assert(followed_by(contents_of(files@), walk_set(bytes@)).files =~= walk_set(bytes@).files);
    while i < count
        invariant
            i <= count,
            followed_by(
                contents_of(files@),
                walk_set_from(bytes@, i as nat, count as nat),
            ) == walk_set(bytes@),
        decreases count - i,
    {
        let ghost before = files@;
        let ghost rest = walk_set_from(bytes@, i as nat, count as nat);
        let name: String = match entry_name(bytes, i) {
            Ok(name) => name,
            Err(error) => {
                assert(contents_of(files@) + rest.files =~= contents_of(files@));
                return BeatmapFiles { files, failure: Some(error) };
            },
        };
        if matches!(entry_kind(name.as_str()), EntryKind::Beatmap) {
            let contents: Vec<u8> = match entry_contents(bytes, i) {
                Ok(contents) => contents,
                Err(error) => {
                    assert(contents_of(files@) + rest.files =~= contents_of(files@));
                    return BeatmapFiles { files, failure: Some(error) };
                },
            };
            files.push(contents);
            proof {
                let further = walk_set_from(bytes@, (i + 1) as nat, count as nat);
                assert(contents_of(files@) =~= contents_of(before).push(contents@));
                assert(contents_of(files@) + further.files =~= contents_of(before) + rest.files);
            }
        }
        i = i + 1;
    }
    assert(contents_of(files@) + Seq::<Seq<u8>>::empty() =~= contents_of(files@));
    BeatmapFiles { files, failure: None }
}

/// The beatmap files of a ZIP pack: its own and those of the beatmap sets in it.
pub fn pack_beatmaps(bytes: &[u8]) -> (found: BeatmapFiles)
    ensures
        found.walked() == walk_pack(bytes@),
{
    let mut files: Vec<Vec<u8>> = Vec::new();
    assert(contents_of(files@) =~= seq![]);
    let count: usize = match entry_count(bytes) {
        Ok(count) => count,
        Err(error) => {
            return BeatmapFiles { files, failure: Some(error) };
        },
    };
    let mut i: usize = 0;
    assert(followed_by(contents_of(files@), walk_pack(bytes@)).files =~= walk_pack(bytes@).files);
    while i < count
        invariant
            i <= count,
            followed_by(
                contents_of(files@),
                walk_pack_from(bytes@, i as nat, count as nat),
            ) == walk_pack(bytes@),
        decreases count - i,
    {
        let ghost before = files@;
        let ghost rest = walk_pack_from(bytes@, i as nat, count as nat);
        let ghost further = walk_pack_from(bytes@, (i + 1) as nat, count as nat);
        let name: String = match entry_name(bytes, i) {
            Ok(name) => name,
            Err(error) => {
                assert(contents_of(files@) + rest.files =~= contents_of(files@));
                return BeatmapFiles { files, failure: Some(error) };
            },
        };
        match entry_kind(name.as_str()) {
            EntryKind::Other => {},
            EntryKind::Beatmap => {
                let contents: Vec<u8> = match entry_contents(bytes, i) {
                    Ok(contents) => contents,
                    Err(error) => {
                        assert(contents_of(files@) + rest.files =~= contents_of(files@));
                        return BeatmapFiles { files, failure: Some(error) };
                    },
                };
                files.push(contents);
                proof {
                    assert(contents_of(files@) =~= contents_of(before).push(contents@));
                    assert(contents_of(files@) + further.files =~= contents_of(before)
                        + rest.files);
                }
            },
            EntryKind::BeatmapSet => {
                let contents: Vec<u8> = match entry_contents(bytes, i) {
                    Ok(contents) => contents,
                    Err(error) => {
                        assert(contents_of(files@) + rest.files =~= contents_of(files@));
                        return BeatmapFiles { files, failure: Some(error) };
                    },
                };
                let inner: BeatmapFiles = set_beatmaps(contents.as_slice());
                let ghost inner_walk = inner.walked();
                let mut inner_files: Vec<Vec<u8>> = inner.files;
                let ghost added = inner_files@;
                files.append(&mut inner_files);
                assert(contents_of(files@) =~= contents_of(before) + contents_of(added));
                if let Some(error) = inner.failure {
                    return BeatmapFiles { files, failure: Some(error) };
                }
                assert(contents_of(files@) + further.files =~= contents_of(before) + rest.files);
            },
        }
        i = i + 1;
    }
    assert(contents_of(files@) + Seq::<Seq<u8>>::empty() =~= contents_of(files@));
    BeatmapFiles { files, failure: None }
}

// 7z packs

/// What is done with an entry of a 7z pack.
#[derive(Clone, Copy, Debug, PartialEq, Eq, Structural)]
pub enum EntryPlan {
    /// A directory is passed over.
    Pass,
    /// What is neither a beatmap nor a set of beatmaps is read to its end and dropped.
    Drain,
    /// A beatmap or a set of beatmaps is read.
    Read,
}

/// What is done with an entry of a 7z pack.
pub fn entry_plan(name: &str, is_directory: bool) -> (plan: EntryPlan)
    ensures
        plan == if is_directory {
            EntryPlan::Pass
        } else if entry_kind_of(name@) == EntryKind::Other {
            EntryPlan::Drain
        } else {
            EntryPlan::Read
        },
{
    if is_directory {
        return EntryPlan::Pass;
    }
    match entry_kind(name) {
        EntryKind::Other => EntryPlan::Drain,
        EntryKind::Beatmap => EntryPlan::Read,
        EntryKind::BeatmapSet => EntryPlan::Read,
    }
}

/// The beatmap files of a 7z pack, in order, and how many of its beatmap sets could not be
/// read to their end.
pub struct SevenZFiles {
    pub files: Seq<Seq<u8>>,
    pub broken_sets: int,
}

/// The files of a 7z pack after one more entry: a beatmap is a file, a set of beatmaps gives
/// those that can be read from it.
pub open spec fn after_entry(
    found: SevenZFiles,
    name: Seq<char>,
    contents: Seq<u8>,
) -> SevenZFiles {
    match entry_kind_of(name) {
        EntryKind::Other => found,
        EntryKind::Beatmap => SevenZFiles { files: found.files.push(contents), ..found },
        EntryKind::BeatmapSet => {
            let inner = walk_set(contents);
            SevenZFiles {
                files: found.files + inner.files,
                broken_sets: found.broken_sets + if inner.complete {
                    0int
                } else {
                    1int
                },
            }
        },
    }
}

/// The beatmap files of a 7z pack, as far as its entries have been read.
pub struct SevenZWalk {
    pub files: Vec<Vec<u8>>,
    pub broken_sets: usize,
}

impl View for SevenZWalk {
    type V = SevenZFiles;

    open spec fn view(&self) -> SevenZFiles {
        SevenZFiles { files: contents_of(self.files@), broken_sets: self.broken_sets as int }
    }
}

impl SevenZWalk {
    pub fn new() -> (walk: SevenZWalk)
        ensures
            walk.files@ == Seq::<Vec<u8>>::empty(),
            walk.broken_sets == 0,
    {
        SevenZWalk { files: Vec::new(), broken_sets: 0 }
    }

    /// Takes over an entry that was read.
    pub fn add_entry(&mut self, name: &str, contents: Vec<u8>)
        requires
            old(self).broken_sets < usize::MAX,
        ensures
            final(self)@ == after_entry(old(self)@, name@, contents@),
    {
        let ghost before = self.files@;
        match entry_kind(name) {
            EntryKind::Other => {},
            EntryKind::Beatmap => {
                self.files.push(contents);
                assert(contents_of(self.files@) =~= contents_of(before).push(contents@));
            },
            EntryKind::BeatmapSet => {
                let inner: BeatmapFiles = set_beatmaps(contents.as_slice());
                let mut files: Vec<Vec<u8>> = inner.files;
                let ghost added = files@;
                self.files.append(&mut files);
                assert(contents_of(self.files@) =~= contents_of(before) + contents_of(added));
                if inner.failure.is_some() {
                    self.broken_sets = self.broken_sets + 1;
                }
            },
        }
    }
}

/// Whether the ZIP archive in `bytes` can be opened and every entry of it read to its end.
pub open spec fn zip_is_complete(bytes: Seq<u8>) -> bool {
    match zip_count(bytes) {
        Some(count) => forall|i: int| 0 <= i < count ==> #[trigger] zip_contents(bytes, i) is Some,
        None => false,
    }
}

/// Checks that a ZIP archive was downloaded to its end: every entry of it can be read.
pub fn verify_zip_complete(bytes: &[u8]) -> (outcome: Result<(), zip::result::ZipError>)
    ensures
        outcome is Ok == zip_is_complete(bytes@),
{
    let count: usize = match entry_count(bytes) {
        Ok(count) => count,
        Err(error) => {
            return Err(error);
        },
    };
    let mut i: usize = 0;
    while i < count
        invariant
            i <= count,
            zip_count(bytes@) == Some(count as nat),
            forall|k: int| 0 <= k < i ==> #[trigger] zip_contents(bytes@, k) is Some,
        decreases count - i,
    {
        match entry_contents(bytes, i) {
            Ok(_) => {},
            Err(error) => {
                return Err(error);
            },
        }
        i = i + 1;
    }
    Ok(())
}

// What archives give

/// How beatmaps are counted: each counts once as processed and once more as inserted, skipped or
/// failed. One of another mode is skipped, and so is one that is stored already.
pub proof fn law_beatmaps_are_counted(report: PackImportReport, outcome: BeatmapOutcome)
    requires
        report.has_room(),
    ensures
        ({
            let other = report.with_beatmap(false, outcome);
            &&& other.processed == report.processed + 1
            &&& other.inserted == report.inserted
            &&& other.skipped == report.skipped + 1
            &&& other.failed == report.failed
        }),
        ({
            let standard = report.with_beatmap(true, outcome);
            &&& standard.processed == report.processed + 1
            &&& standard.inserted == report.inserted + if outcome is Inserted {
                1int
            } else {
                0int
            }
            &&& standard.skipped == report.skipped + if outcome is Unchanged {
                1int
            } else {
                0int
            }
            &&& standard.failed == report.failed + if outcome is Failed {
                1int
            } else {
                0int
            }
        }),
{
}

/// Archives are told apart by their first six bytes: those of 7z, those of RAR, and any others for
/// a ZIP archive. Fewer bytes tell nothing.
pub proof fn law_archives_are_told_by_their_first_bytes(bytes: Seq<u8>)
    ensures
        kind_of(bytes) is None <==> bytes.len() < 6,
        kind_of(bytes) == Some(ArchiveKind::SevenZ) <==> bytes.len() >= 6 && bytes[0] == 0x37
            && bytes[1] == 0x7a && bytes[2] == 0xbc && bytes[3] == 0xaf && bytes[4] == 0x27
            && bytes[5] == 0x1c,
        kind_of(bytes) == Some(ArchiveKind::Rar) <==> bytes.len() >= 6 && bytes[0] == 0x52
            && bytes[1] == 0x61 && bytes[2] == 0x72 && bytes[3] == 0x21 && bytes[4] == 0x1a
            && bytes[5] == 0x07,
{
    if bytes.len() >= 6 {
        let start = bytes.take(6);
        let seven = seq![0x37u8, 0x7a, 0xbc, 0xaf, 0x27, 0x1c];
        let rar = seq![0x52u8, 0x61, 0x72, 0x21, 0x1a, 0x07];
        assert(start[0] == bytes[0] && start[1] == bytes[1] && start[2] == bytes[2] && start[3]
            == bytes[3] && start[4] == bytes[4] && start[5] == bytes[5]);
        assert(seven[0] == 0x37 && seven[1] == 0x7a && seven[2] == 0xbc && seven[3] == 0xaf
            && seven[4] == 0x27 && seven[5] == 0x1c);
        assert(rar[0] == 0x52 && rar[1] == 0x61 && rar[2] == 0x72 && rar[3] == 0x21 && rar[4]
            == 0x1a && rar[5] == 0x07);
        if bytes[0] == 0x37 && bytes[1] == 0x7a && bytes[2] == 0xbc && bytes[3] == 0xaf && bytes[4]
            == 0x27 && bytes[5] == 0x1c {
            assert(start =~= seven);
        }
        if bytes[0] == 0x52 && bytes[1] == 0x61 && bytes[2] == 0x72 && bytes[3] == 0x21 && bytes[4]
            == 0x1a && bytes[5] == 0x07 {
            assert(start =~= rar);
        }
    }
}

/// Entries are told apart by the ends of their names, whatever the case: `.osu` is a beatmap,
/// `.osz` a set of beatmaps, and anything else neither.
pub proof fn law_entries_are_told_by_their_names(name: Seq<char>)
    ensures
        ({
            let n = name.len() as int;
            let stem = n >= 4 && name[n - 4] == '.' && (name[n - 3] == 'o' || name[n - 3] == 'O')
                && (name[n - 2] == 's' || name[n - 2] == 'S');
            &&& entry_kind_of(name) is Beatmap <==> stem && (name[n - 1] == 'u' || name[n - 1]
                == 'U')
            &&& entry_kind_of(name) is BeatmapSet <==> stem && (name[n - 1] == 'z' || name[n - 1]
                == 'Z')
        }),
{
    reveal_strlit(".osu");
    reveal_strlit(".osz");
    let small = crate::text::lowered(name);
    crate::text::law_small_letters(name);
    crate::text::law_prefixes_and_suffixes(small, ".osu"@);
    crate::text::law_prefixes_and_suffixes(small, ".osz"@);
    let u = ".osu"@;
    let z = ".osz"@;
    assert(u[0] == '.' && u[1] == 'o' && u[2] == 's' && u[3] == 'u');
    assert(z[0] == '.' && z[1] == 'o' && z[2] == 's' && z[3] == 'z');
    let n = name.len() as int;
    if n >= 4 {
        lemma_small_letter(name, n - 4, '.', '.');
        lemma_small_letter(name, n - 3, 'o', 'O');
        lemma_small_letter(name, n - 2, 's', 'S');
        lemma_small_letter(name, n - 1, 'u', 'U');
        lemma_small_letter(name, n - 1, 'z', 'Z');
        assert(small[small.len() - 4 + 0] == small[n - 4]);
        assert(small[small.len() - 4 + 1] == small[n - 3]);
        assert(small[small.len() - 4 + 2] == small[n - 2]);
        assert(small[small.len() - 4 + 3] == small[n - 1]);
        if crate::text::ends_with(small, u) {
            assert(small[small.len() - 4 + 0] == u[0]);
            assert(small[small.len() - 4 + 1] == u[1]);
            assert(small[small.len() - 4 + 2] == u[2]);
            assert(small[small.len() - 4 + 3] == u[3]);
        }
        if crate::text::ends_with(small, z) {
            assert(small[small.len() - 4 + 0] == z[0]);
            assert(small[small.len() - 4 + 1] == z[1]);
            assert(small[small.len() - 4 + 2] == z[2]);
            assert(small[small.len() - 4 + 3] == z[3]);
        }
        if small[n - 4] == '.' && small[n - 3] == 'o' && small[n - 2] == 's' && small[n - 1]
            == 'u' {
            assert forall|k: int| 0 <= k < u.len() implies small[small.len() - u.len() + k]
                == #[trigger] u[k] by {}
        }
        if small[n - 4] == '.' && small[n - 3] == 'o' && small[n - 2] == 's' && small[n - 1]
            == 'z' {
            assert forall|k: int| 0 <= k < z.len() implies small[small.len() - z.len() + k]
                == #[trigger] z[k] by {}
        }
    }
}

proof fn lemma_small_letter(name: Seq<char>, at: int, small: char, capital: char)
    requires
        0 <= at < name.len(),
        (97 <= small as int <= 122 && capital as int == small as int - 32) || (small == capital && (
        (small as int) < 65)),
    ensures
        crate::text::lowered(name)[at] == small <==> name[at] == small || name[at] == capital,
{
    crate::text::law_small_letters(name);
    let c = name[at];
    if 65 <= c as int <= 90 {
        assert(crate::text::lowered(name)[at] as int == c as int + 32);
    } else {
        assert(crate::text::lowered(name)[at] == c);
    }
}

/// A set of beatmaps that can be read to its end gives the contents of its beatmap entries, all of
/// them and in order, and nothing of its other entries.
pub proof fn law_sets_give_their_beatmaps(bytes: Seq<u8>)
    requires
        walk_set(bytes).complete,
    ensures
        zip_count(bytes) is Some,
        walk_set(bytes).files == Seq::new(zip_count(bytes)->Some_0, |i: int| i).filter(
            |i: int| entry_kind_of(zip_name(bytes, i)->Some_0) is Beatmap,
        ).map_values(|i: int| zip_contents(bytes, i)->Some_0),
        forall|i: int|
            0 <= i < zip_count(bytes)->Some_0 ==> (#[trigger] zip_name(bytes, i)) is Some,
{
    let count = zip_count(bytes)->Some_0;
    lemma_set_walk(bytes, count, count);
    assert(walk_set(bytes).files =~= Seq::new(count, |i: int| i).filter(
        |i: int| entry_kind_of(zip_name(bytes, i)->Some_0) is Beatmap,
    ).map_values(|i: int| zip_contents(bytes, i)->Some_0));
}

/// The beatmaps of the first `upto` entries, in front of those that come behind them.
proof fn lemma_set_walk(bytes: Seq<u8>, upto: nat, count: nat)
    requires
        upto <= count,
        walk_set_from(bytes, 0, count).complete,
    ensures
        walk_set_from(bytes, upto, count).complete,
        walk_set_from(bytes, 0, count).files == Seq::new(upto, |i: int| i).filter(
            |i: int| entry_kind_of(zip_name(bytes, i)->Some_0) is Beatmap,
        ).map_values(|i: int| zip_contents(bytes, i)->Some_0) + walk_set_from(
            bytes,
            upto,
            count,
        ).files,
        forall|i: int| 0 <= i < upto ==> (#[trigger] zip_name(bytes, i)) is Some,
    decreases upto,
{
    reveal(Seq::filter);
    let test = |i: int| entry_kind_of(zip_name(bytes, i)->Some_0) is Beatmap;
    let inside = |i: int| zip_contents(bytes, i)->Some_0;
    let all = Seq::new(upto, |i: int| i);
    if upto > 0 {
        let before = (upto - 1) as nat;
        lemma_set_walk(bytes, before, count);
        let front = Seq::new(before, |i: int| i);
        assert(all.drop_last() =~= front);
        assert(all.last() == before);
        assert(zip_name(bytes, before as int) is Some);
        let rest = walk_set_from(bytes, upto, count);
        let so_far = front.filter(test).map_values(inside);
        if test(before as int) {
            assert(all.filter(test).map_values(inside) =~= so_far.push(inside(before as int)));
            assert(so_far + (seq![inside(before as int)] + rest.files) =~= so_far.push(
                inside(before as int),
            ) + rest.files);
        } else {
            assert(all.filter(test).map_values(inside) =~= so_far);
        }
    } else {
        assert(all.filter(test).map_values(inside) + walk_set_from(bytes, 0, count).files
            =~= walk_set_from(bytes, 0, count).files);
    }
}

/// A pack that can be read to its end gives, entry by entry and in order, the contents of each
/// beatmap, and of each set of beatmaps all that the set gives.
pub proof fn law_packs_give_their_beatmaps(bytes: Seq<u8>)
    requires
        walk_pack(bytes).complete,
    ensures
        zip_count(bytes) is Some,
        walk_pack(bytes).files == Seq::new(
            zip_count(bytes)->Some_0,
            |i: int|
                match entry_kind_of(zip_name(bytes, i)->Some_0) {
                    EntryKind::Beatmap => seq![zip_contents(bytes, i)->Some_0],
                    EntryKind::BeatmapSet => walk_set(zip_contents(bytes, i)->Some_0).files,
                    EntryKind::Other => Seq::<Seq<u8>>::empty(),
                },
        ).flatten(),
{
    let count = zip_count(bytes)->Some_0;
    lemma_pack_walk(bytes, 0, count);
    let parts = Seq::new(
        count,
        |i: int|
            match entry_kind_of(zip_name(bytes, i)->Some_0) {
                EntryKind::Beatmap => seq![zip_contents(bytes, i)->Some_0],
                EntryKind::BeatmapSet => walk_set(zip_contents(bytes, i)->Some_0).files,
                EntryKind::Other => Seq::<Seq<u8>>::empty(),
            },
    );
    assert(parts.skip(0) =~= parts);
}

proof fn lemma_pack_walk(bytes: Seq<u8>, from: nat, count: nat)
    requires
        from <= count,
        walk_pack_from(bytes, from, count).complete,
    ensures
        walk_pack_from(bytes, from, count).files == Seq::new(
            count,
            |i: int|
                match entry_kind_of(zip_name(bytes, i)->Some_0) {
                    EntryKind::Beatmap => seq![zip_contents(bytes, i)->Some_0],
                    EntryKind::BeatmapSet => walk_set(zip_contents(bytes, i)->Some_0).files,
                    EntryKind::Other => Seq::<Seq<u8>>::empty(),
                },
        ).skip(from as int).flatten(),
    decreases count - from,
{
    let parts = Seq::new(
        count,
        |i: int|
            match entry_kind_of(zip_name(bytes, i)->Some_0) {
                EntryKind::Beatmap => seq![zip_contents(bytes, i)->Some_0],
                EntryKind::BeatmapSet => walk_set(zip_contents(bytes, i)->Some_0).files,
                EntryKind::Other => Seq::<Seq<u8>>::empty(),
            },
    );
    let here = parts.skip(from as int);
    if from < count {
        lemma_pack_walk(bytes, from + 1, count);
        assert(here.drop_first() =~= parts.skip(from as int + 1));
        assert(here.first() == parts[from as int]);
        let rest = walk_pack_from(bytes, from + 1, count).files;
        assert(Seq::<Seq<u8>>::empty() + rest =~= rest);
    } else {
        assert(here =~= Seq::<Seq<Seq<u8>>>::empty());
    }
}

/// What cannot be read stops the reading: an archive is read to its end exactly if its entries can
/// be counted, every name can be read, and so can the contents of every beatmap, and in a pack
/// also of every set, which must be readable to its end itself.
pub proof fn law_reading_stops_at_what_is_broken(bytes: Seq<u8>)
    ensures
        walk_set(bytes).complete <==> zip_count(bytes) is Some && forall|i: int|
            0 <= i < zip_count(bytes)->Some_0 ==> (#[trigger] zip_name(bytes, i)) is Some && (
            entry_kind_of(zip_name(bytes, i)->Some_0) is Beatmap ==> zip_contents(
                bytes,
                i,
            ) is Some),
        walk_pack(bytes).complete <==> zip_count(bytes) is Some && forall|i: int|
            0 <= i < zip_count(bytes)->Some_0 ==> (#[trigger] zip_name(bytes, i)) is Some && (
            !(entry_kind_of(zip_name(bytes, i)->Some_0) is Other) ==> zip_contents(
                bytes,
                i,
            ) is Some) && (entry_kind_of(zip_name(bytes, i)->Some_0) is BeatmapSet ==> walk_set(
                zip_contents(bytes, i)->Some_0,
            ).complete),
{
    if let Some(count) = zip_count(bytes) {
        lemma_set_completes(bytes, 0, count);
        lemma_pack_completes(bytes, 0, count);
    }
}

proof fn lemma_set_completes(bytes: Seq<u8>, from: nat, count: nat)
    ensures
        walk_set_from(bytes, from, count).complete <==> forall|i: int|
            from <= i < count ==> (#[trigger] zip_name(bytes, i)) is Some && (entry_kind_of(
                zip_name(bytes, i)->Some_0,
            ) is Beatmap ==> zip_contents(bytes, i) is Some),
    decreases count - from,
{
    if from < count {
        lemma_set_completes(bytes, from + 1, count);
        assert(zip_name(bytes, from as int) is Some || zip_name(bytes, from as int) is None);
    }
}

proof fn lemma_pack_completes(bytes: Seq<u8>, from: nat, count: nat)
    ensures
        walk_pack_from(bytes, from, count).complete <==> forall|i: int|
            from <= i < count ==> (#[trigger] zip_name(bytes, i)) is Some && (!(entry_kind_of(
                zip_name(bytes, i)->Some_0,
            ) is Other) ==> zip_contents(bytes, i) is Some) && (entry_kind_of(
                zip_name(bytes, i)->Some_0,
            ) is BeatmapSet ==> walk_set(zip_contents(bytes, i)->Some_0).complete),
    decreases count - from,
{
    if from < count {
        lemma_pack_completes(bytes, from + 1, count);
        assert(zip_name(bytes, from as int) is Some || zip_name(bytes, from as int) is None);
    }
}

/// What an entry of a 7z archive adds: a beatmap its contents, a set what it gives, counted as
/// broken where it cannot be read to its end, and anything else nothing.
pub proof fn law_seven_z_entries_add_their_beatmaps(
    found: SevenZFiles,
    name: Seq<char>,
    contents: Seq<u8>,
)
    ensures
        entry_kind_of(name) is Beatmap ==> after_entry(found, name, contents).files == found.files
            + seq![contents] && after_entry(found, name, contents).broken_sets
            == found.broken_sets,
        entry_kind_of(name) is BeatmapSet ==> after_entry(found, name, contents).files
            == found.files + walk_set(contents).files,
        entry_kind_of(name) is BeatmapSet && walk_set(contents).complete ==> after_entry(
            found,
            name,
            contents,
        ).broken_sets == found.broken_sets,
        entry_kind_of(name) is BeatmapSet && !walk_set(contents).complete ==> after_entry(
            found,
            name,
            contents,
        ).broken_sets == found.broken_sets + 1,
        entry_kind_of(name) is Other ==> after_entry(found, name, contents) == found,
{
    assert(found.files.push(contents) =~= found.files + seq![contents]);
}

/// A downloaded ZIP archive is complete if its entries can be counted and every one of them can be
/// read.
pub proof fn law_complete_archives_can_be_read(bytes: Seq<u8>, i: int)
    ensures
        zip_is_complete(bytes) && zip_count(bytes) is Some && 0 <= i < zip_count(bytes)->Some_0
            ==> zip_contents(bytes, i) is Some,
        zip_count(bytes) is None ==> !zip_is_complete(bytes),
        zip_count(bytes) is Some && 0 <= i < zip_count(bytes)->Some_0 && zip_contents(
            bytes,
            i,
        ) is None ==> !zip_is_complete(bytes),
        zip_count(bytes) is Some && (forall|k: int|
            0 <= k < zip_count(bytes)->Some_0 ==> (#[trigger] zip_contents(bytes, k)) is Some)
            ==> zip_is_complete(bytes),
{
}

/// An import in which beatmaps failed says how many of those it processed did.
pub proof fn law_failures_are_told(error: ImportError)
    ensures
        error is Failures ==> error.text() == crate::text::decimal(error->failed as nat) + " of "@
            + crate::text::decimal(error->processed as nat)
            + " osu!standard beatmaps failed analysis; retained archive for retry"@,
        error is Rar ==> error.text() == "RAR archive support is unavailable"@,
        error is NoBeatmaps && error->seven_z ==> error.text()
            == "official 7z pack archive contains no .osu beatmaps"@,
        error is NoBeatmaps && !error->seven_z ==> error.text()
            == "official pack archive contains no .osu beatmaps"@,
{
}

} // verus!
