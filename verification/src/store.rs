//! The feature store of the osu!standard dataset.
//!
//! The store knows every beatmap and its analyses, the published normalized records and their
//! statistics, and the state of every pack. Whoever owns the database and the files hands
//! their contents over as `Tables` and carries out every change that an operation reports.

use std::collections::BTreeMap;

use vstd::prelude::*;

use crate::float_bits::F64;
use crate::ordered::keys128;
use crate::records::{
    append_raw_record, raw_header, read_normalized_record, read_raw_record, HEADER_LEN,
    NORMALIZED_RECORD_SIZE,
};
use crate::text::{push_decimal, push_text, same_text, string_of};
use crate::types::{
    BeatmapFeatureRecord, BeatmapMetadata, RawFeatureRecord, StarSectionStats,
    ANALYZER_ALGORITHM_ID, ANALYZER_VERSION, OVERLAP_ALGORITHM_VERSION, READING_ALGORITHM_VERSION,
    ROSU_PP_VERSION,
};

verus! {

broadcast use vstd::std_specs::btree::group_btree_axioms;

/// What is known of a beatmap.
#[derive(Clone, Debug, PartialEq, Eq)]
pub struct BeatmapRow {
    pub beatmapset_id: u64,
    pub checksum: String,
    pub artist: String,
    pub title: String,
    pub version: String,
    pub creator: String,
    pub online_url: String,
    /// Missing in data that was stored before star ratings were.
    pub star_rating: Option<F64>,
    pub star_section: Option<i64>,
}

/// One analysis of a beatmap without mods. Its status is 1 once the raw features are stored
/// and 2 once the normalized ones are published.
#[derive(Clone, Copy, Debug, PartialEq, Eq, Structural)]
pub struct AnalysisRow {
    pub normalization_version: u32,
    pub record_offset: u64,
    pub normalized_offset: Option<u64>,
    pub status: u8,
}

/// The snapshot of algorithms that an analyzer version was computed with.
#[derive(Clone, Debug)]
pub struct VersionRow {
    pub algorithm_id: String,
    pub rosu_pp_version: String,
    pub reading_version: String,
    pub overlap_version: String,
}

/// The import state of a pack.
#[derive(Clone, Debug)]
pub struct PackRow {
    pub pack_id: String,
    pub source_url: String,
    pub status: String,
    pub last_error: Option<String>,
}

/// A row of published statistics. Rows from before base parameters were counted lack these.
#[derive(Clone, Copy, Debug, PartialEq, Eq, Structural)]
pub struct StatsRow {
    pub stats: StarSectionStats,
    pub complete: bool,
}

/// The contents of the database and of the feature files.
pub struct Tables {
    /// The beatmaps by identifier.
    pub beatmaps: BTreeMap<u64, BeatmapRow>,
    /// The analyses by beatmap and analyzer version, as `analysis_key` combines them.
    pub analyses: BTreeMap<u128, AnalysisRow>,
    /// The snapshots by analyzer version.
    pub versions: BTreeMap<u64, VersionRow>,
    pub packs: Vec<PackRow>,
    pub stats: Vec<StatsRow>,
    /// The raw feature file.
    pub raw: Vec<u8>,
    /// The published feature files by normalization version.
    pub normalized: BTreeMap<u64, Vec<u8>>,
}

impl Tables {
    /// The contents of a store that holds nothing: its raw feature file is a mere header.
    pub fn new() -> (tables: Tables)
        ensures
            tables.beatmaps@ == Map::<u64, BeatmapRow>::empty(),
            tables.analyses@ == Map::<u128, AnalysisRow>::empty(),
            tables.versions@ == Map::<u64, VersionRow>::empty(),
            tables.packs@ == Seq::<PackRow>::empty(),
            tables.stats@ == Seq::<StatsRow>::empty(),
            tables.raw@ == crate::records::header_bytes(crate::records::raw_magic()),
            tables.normalized@ == Map::<u64, Vec<u8>>::empty(),
    {
        Tables {
            beatmaps: BTreeMap::new(),
            analyses: BTreeMap::new(),
            versions: BTreeMap::new(),
            packs: Vec::new(),
            stats: Vec::new(),
            raw: raw_header(),
            normalized: BTreeMap::new(),
        }
    }
}

pub struct FeatureStore {
    pub root: String,
    pub tables: Tables,
}

/// How many records a published feature file may hold, so that every offset can be written
/// down.
pub const MAX_RECORDS: u64 = 0x1_0000_0000_0000;

#[derive(Clone, Copy, Debug, PartialEq, Eq, Structural)]
pub enum StoreError {
    SnapshotMismatch,
    ModProfile,
    StarRating,
    MissingStars { count: u64 },
    MissingRecord { offset: u64 },
    UnknownBeatmap,
    EmptyDataset,
    NormalizedModProfile,
    RecordVersion { beatmap_id: u64, declared: u32, expected: u32 },
    DuplicateRecord { beatmap_id: u64 },
    NonFiniteDifficulty { beatmap_id: u64 },
    NonFiniteBase { beatmap_id: u64 },
    MissingStarMetadata { beatmap_id: u64 },
    InconsistentStars { beatmap_id: u64 },
    IncompleteStats,
    StatsMismatch,
    InconsistentRecord { beatmap_id: u64 },
    UnknownNormalized,
    UnknownMetadata,
}

impl StoreError {
    pub open spec fn text(self) -> Seq<char> {
        match self {
            StoreError::SnapshotMismatch => "Analyzer v"@ + crate::text::decimal(
                ANALYZER_VERSION as nat,
            ) + " snapshot does not match "@ + ROSU_PP_VERSION@
                + "; run reanalyze before generating or reading derived data"@,
            StoreError::ModProfile => "only NoMod (mod_profile=0) is supported"@,
            StoreError::StarRating => "star rating must be a finite non-negative value"@,
            StoreError::MissingStars { count } => crate::text::decimal(count as nat)
                + " active Analyzer v"@ + crate::text::decimal(ANALYZER_VERSION as nat)
                + " records have no star rating; run reanalyze before fitting a normalizer"@,
            StoreError::MissingRecord { offset } => "no feature record at offset "@
                + crate::text::decimal(offset as nat),
            StoreError::UnknownBeatmap => "unknown beatmap ID"@,
            StoreError::EmptyDataset => "cannot write an empty normalized dataset"@,
            StoreError::NormalizedModProfile => "only NoMod normalized records can be published"@,
            StoreError::RecordVersion { beatmap_id, declared, expected } => "record "@
                + crate::text::decimal(beatmap_id as nat) + " declares normalization v"@
                + crate::text::decimal(declared as nat) + ", expected v"@ + crate::text::decimal(
                expected as nat,
            ),
            StoreError::DuplicateRecord { beatmap_id } =>
                "duplicate normalized record for beatmap "@ + crate::text::decimal(
                    beatmap_id as nat,
                ),
            StoreError::NonFiniteDifficulty { beatmap_id } => "record "@ + crate::text::decimal(
                beatmap_id as nat,
            ) + " has a non-finite difficulty value"@,
            StoreError::NonFiniteBase { beatmap_id } => "record "@ + crate::text::decimal(
                beatmap_id as nat,
            ) + " has a non-finite AR, CS, or OD value"@,
            StoreError::MissingStarMetadata { beatmap_id } => "normalized record "@
                + crate::text::decimal(beatmap_id as nat)
                + " is missing valid star metadata or analysis state"@,
            StoreError::InconsistentStars { beatmap_id } => "beatmap "@ + crate::text::decimal(
                beatmap_id as nat,
            ) + " has inconsistent star_rating/star_section metadata"@,
            StoreError::IncompleteStats =>
                "star-section statistics lack base parameters; publish the normalizer again"@,
            StoreError::StatsMismatch =>
                "star-section statistics do not match active normalized records"@,
            StoreError::InconsistentRecord { beatmap_id } => "normalized feature record "@
                + crate::text::decimal(beatmap_id as nat)
                + " has version/profile metadata inconsistent with SQLite"@,
            StoreError::UnknownNormalized => "unknown normalized beatmap ID"@,
            StoreError::UnknownMetadata => "unknown beatmap metadata or missing star rating"@,
        }
    }

    /// The error in words.
    pub fn message(&self) -> (message: String)
        ensures
            message@ == self.text(),
    {
        let mut text: Vec<char> = Vec::new();
        match self {
            StoreError::SnapshotMismatch => {
                push_text(&mut text, "Analyzer v");
                push_decimal(&mut text, ANALYZER_VERSION as u64);
                push_text(&mut text, " snapshot does not match ");
                push_text(&mut text, ROSU_PP_VERSION);
                push_text(
                    &mut text,
                    "; run reanalyze before generating or reading derived data",
                );
            },
            StoreError::ModProfile => push_text(
                &mut text,
                "only NoMod (mod_profile=0) is supported",
            ),
            StoreError::StarRating => push_text(
                &mut text,
                "star rating must be a finite non-negative value",
            ),
            StoreError::MissingStars { count } => {
                push_decimal(&mut text, *count);
                push_text(&mut text, " active Analyzer v");
                push_decimal(&mut text, ANALYZER_VERSION as u64);
                push_text(
                    &mut text,
                    " records have no star rating; run reanalyze before fitting a normalizer",
                );
            },
            StoreError::MissingRecord { offset } => {
                push_text(&mut text, "no feature record at offset ");
                push_decimal(&mut text, *offset);
            },
            StoreError::UnknownBeatmap => push_text(&mut text, "unknown beatmap ID"),
            StoreError::EmptyDataset => push_text(
                &mut text,
                "cannot write an empty normalized dataset",
            ),
            StoreError::NormalizedModProfile => push_text(
                &mut text,
                "only NoMod normalized records can be published",
            ),
            StoreError::RecordVersion { beatmap_id, declared, expected } => {
                push_text(&mut text, "record ");
                push_decimal(&mut text, *beatmap_id);
                push_text(&mut text, " declares normalization v");
                push_decimal(&mut text, *declared as u64);
                push_text(&mut text, ", expected v");
                push_decimal(&mut text, *expected as u64);
            },
            StoreError::DuplicateRecord { beatmap_id } => {
                push_text(&mut text, "duplicate normalized record for beatmap ");
                push_decimal(&mut text, *beatmap_id);
            },
            StoreError::NonFiniteDifficulty { beatmap_id } => {
                push_text(&mut text, "record ");
                push_decimal(&mut text, *beatmap_id);
                push_text(&mut text, " has a non-finite difficulty value");
            },
            StoreError::NonFiniteBase { beatmap_id } => {
                push_text(&mut text, "record ");
                push_decimal(&mut text, *beatmap_id);
                push_text(&mut text, " has a non-finite AR, CS, or OD value");
            },
            StoreError::MissingStarMetadata { beatmap_id } => {
                push_text(&mut text, "normalized record ");
                push_decimal(&mut text, *beatmap_id);
                push_text(&mut text, " is missing valid star metadata or analysis state");
            },
            StoreError::InconsistentStars { beatmap_id } => {
                push_text(&mut text, "beatmap ");
                push_decimal(&mut text, *beatmap_id);
                push_text(&mut text, " has inconsistent star_rating/star_section metadata");
            },
            StoreError::IncompleteStats => push_text(
                &mut text,
                "star-section statistics lack base parameters; publish the normalizer again",
            ),
            StoreError::StatsMismatch => push_text(
                &mut text,
                "star-section statistics do not match active normalized records",
            ),
            StoreError::InconsistentRecord { beatmap_id } => {
                push_text(&mut text, "normalized feature record ");
                push_decimal(&mut text, *beatmap_id);
                push_text(
                    &mut text,
                    " has version/profile metadata inconsistent with SQLite",
                );
            },
            StoreError::UnknownNormalized => push_text(&mut text, "unknown normalized beatmap ID"),
            StoreError::UnknownMetadata => push_text(
                &mut text,
                "unknown beatmap metadata or missing star rating",
            ),
        }
        assert(text@ =~= self.text());
        string_of(text.as_slice())
    }
}

/// The key of an analysis: the beatmap's identifier, then the analyzer version.
pub open spec fn key_of(beatmap_id: u64, analyzer_version: u32) -> u128 {
    (beatmap_id * 0x1_0000_0000 + analyzer_version) as u128
}

/// The beatmap of an analysis.
pub open spec fn beatmap_of(key: u128) -> u64 {
    (key / 0x1_0000_0000) as u64
}

/// The analyzer version of an analysis.
pub open spec fn analyzer_of(key: u128) -> u32 {
    (key % 0x1_0000_0000) as u32
}

/// The key of an analysis: the beatmap's identifier, then the analyzer version.
pub fn analysis_key(beatmap_id: u64, analyzer_version: u32) -> (key: u128)
    ensures
        key == key_of(beatmap_id, analyzer_version),
        beatmap_of(key) == beatmap_id,
        analyzer_of(key) == analyzer_version,
{
    proof {
        lemma_key_parts(beatmap_id, analyzer_version);
    }
    (beatmap_id as u128) * 0x1_0000_0000 + analyzer_version as u128
}

pub proof fn lemma_key_parts(beatmap_id: u64, analyzer_version: u32)
    ensures
        key_of(beatmap_id, analyzer_version) == beatmap_id * 0x1_0000_0000 + analyzer_version,
        beatmap_of(key_of(beatmap_id, analyzer_version)) == beatmap_id,
        analyzer_of(key_of(beatmap_id, analyzer_version)) == analyzer_version,
{
    assert(beatmap_id * 0x1_0000_0000 + analyzer_version <= u128::MAX);
}

// Snapshots

/// Whether a snapshot is the one that this library works with.
pub open spec fn is_current(row: VersionRow) -> bool {
    &&& row.algorithm_id@ == ANALYZER_ALGORITHM_ID@
    &&& row.rosu_pp_version@ == ROSU_PP_VERSION@
    &&& row.reading_version@ == READING_ALGORITHM_VERSION@
    &&& row.overlap_version@ == OVERLAP_ALGORITHM_VERSION@
}

impl Tables {
    /// Whether the current analyzer version was computed with the current snapshot.
    pub open spec fn snapshot_current(&self) -> bool {
        self.versions@.contains_key(ANALYZER_VERSION as u64) && is_current(
            self.versions@[ANALYZER_VERSION as u64],
        )
    }

    /// Whether there is an analysis of the given analyzer version.
    pub open spec fn has_analysis_of(&self, analyzer_version: u32) -> bool {
        exists|key: u128| #[trigger]
            self.analyses@.contains_key(key) && analyzer_of(key) == analyzer_version
    }

    /// Whether nothing but the snapshots differs.
    pub open spec fn same_but_versions(&self, other: &Tables) -> bool {
        &&& self.beatmaps@ == other.beatmaps@
        &&& self.analyses@ == other.analyses@
        &&& self.packs@ == other.packs@
        &&& self.stats@ == other.stats@
        &&& self.raw@ == other.raw@
        &&& self.normalized@ == other.normalized@
    }
}

/// The snapshot that this library works with.
fn current_snapshot() -> (row: VersionRow)
    ensures
        is_current(row),
{
    VersionRow {
        algorithm_id: String::from_str(ANALYZER_ALGORITHM_ID),
        rosu_pp_version: String::from_str(ROSU_PP_VERSION),
        reading_version: String::from_str(READING_ALGORITHM_VERSION),
        overlap_version: String::from_str(OVERLAP_ALGORITHM_VERSION),
    }
}

impl FeatureStore {
    fn any_analysis_of(&self, analyzer_version: u32) -> (found: bool)
        ensures
            found == self.tables.has_analysis_of(analyzer_version),
    {
        let keys: Vec<u128> = keys128(&self.tables.analyses);
        let ghost listed = crate::ordered::list128(keys@);
        proof {
            crate::ordered::lemma_increasing_lists(
                crate::ordered::ints128(self.tables.analyses@.dom()),
            );
        }
        let mut i: usize = 0;
        while i < keys.len()
            invariant
                i <= keys@.len(),
                forall|k: int|
                    0 <= k < keys@.len() ==> self.tables.analyses@.contains_key(
                        #[trigger] keys@[k],
                    ),
                forall|k: int| 0 <= k < i ==> analyzer_of(#[trigger] keys@[k]) != analyzer_version,
            decreases keys@.len() - i,
        {
            if (keys[i] % 0x1_0000_0000) as u32 == analyzer_version {
                assert(self.tables.analyses@.contains_key(keys@[i as int]));
                return true;
            }
            i = i + 1;
        }
        proof {
            if self.tables.has_analysis_of(analyzer_version) {
                let key = choose|key: u128| #[trigger]
                    self.tables.analyses@.contains_key(key) && analyzer_of(key)
                        == analyzer_version;
                assert(crate::ordered::ints128(self.tables.analyses@.dom()).contains(key as int));
                assert(listed.contains(key as int));
                let k = choose|k: int| 0 <= k < listed.len() && listed[k] == key;
                assert(keys@[k] == key);
            }
        }
        false
    }

    /// Opens a store. A store that knows nothing of the current analyzer version, neither its
    /// snapshot nor an analysis, takes the current snapshot for it. One that has analyses but
    /// lost the snapshot is left alone, so that only an explicit reanalysis claims them.
    pub fn open(root: String, tables: Tables) -> (store: FeatureStore)
        ensures
            store.root == root,
            store.tables.same_but_versions(&tables),
            tables.versions@.contains_key(ANALYZER_VERSION as u64) || tables.has_analysis_of(
                ANALYZER_VERSION,
            ) ==> store.tables.versions@ == tables.versions@,
            !tables.versions@.contains_key(ANALYZER_VERSION as u64) && !tables.has_analysis_of(
                ANALYZER_VERSION,
            ) ==> store.tables.snapshot_current() && store.tables.versions@.remove(
                ANALYZER_VERSION as u64,
            ) == tables.versions@,
    {
        let mut store: FeatureStore = FeatureStore { root, tables };
        let version: u64 = ANALYZER_VERSION as u64;
        let registered: bool = store.tables.versions.contains_key(&version);
        if !registered && !store.any_analysis_of(ANALYZER_VERSION) {
            store.tables.versions.insert(version, current_snapshot());
            assert(store.tables.versions@.remove(version) =~= tables.versions@);
        }
        store
    }

    /// The directory of the store.
    pub fn root(&self) -> (root: &str)
        ensures
            root@ == self.root@,
    {
        self.root.as_str()
    }

    /// Whether the current analyzer version was computed with exactly the snapshot of
    /// algorithms that this library works with.
    pub fn algorithm_snapshot_matches(&self) -> (matches: bool)
        ensures
            matches == self.tables.snapshot_current(),
    {
        let version: u64 = ANALYZER_VERSION as u64;
        match self.tables.versions.get(&version) {
            Some(row) => same_text(row.algorithm_id.as_str(), ANALYZER_ALGORITHM_ID) && same_text(
                row.rosu_pp_version.as_str(),
                ROSU_PP_VERSION,
            ) && same_text(row.reading_version.as_str(), READING_ALGORITHM_VERSION) && same_text(
                row.overlap_version.as_str(),
                OVERLAP_ALGORITHM_VERSION,
            ),
            None => false,
        }
    }
}

// Reanalysis

/// Whether the current analyzer version has to be computed again: its snapshot has changed, or
/// an index is published although there is no analysis that it could have been built of.
pub open spec fn reanalysis_due(tables: Tables, has_published_index: bool) -> bool {
    !tables.snapshot_current() || (!tables.has_analysis_of(ANALYZER_VERSION)
        && has_published_index)
}

/// `analyses` without those of one analyzer version.
pub open spec fn analyses_without(
    analyses: Map<u128, AnalysisRow>,
    analyzer_version: u32,
) -> Map<u128, AnalysisRow> {
    Map::new(
        |key: u128| analyses.contains_key(key) && analyzer_of(key) != analyzer_version,
        |key: u128| analyses[key],
    )
}

/// `stats` without those of one analyzer version, in order.
pub open spec fn stats_without(stats: Seq<StatsRow>, analyzer_version: u32) -> Seq<StatsRow>
    decreases stats.len(),
{
    if stats.len() == 0 {
        stats
    } else {
        let front = stats_without(stats.drop_last(), analyzer_version);
        if stats.last().stats.analyzer_version != analyzer_version {
            front.push(stats.last())
        } else {
            front
        }
    }
}

fn drop_analyses(analyses: &mut BTreeMap<u128, AnalysisRow>, analyzer_version: u32)
    ensures
        final(analyses)@ == analyses_without(old(analyses)@, analyzer_version),
{
    let ghost before = analyses@;
    let keys: Vec<u128> = keys128(analyses);
    let ghost listed = crate::ordered::list128(keys@);
    proof {
        crate::ordered::lemma_increasing_lists(crate::ordered::ints128(before.dom()));
    }
    let mut i: usize = 0;
    while i < keys.len()
        invariant
            i <= keys@.len(),
            listed == crate::ordered::list128(keys@),
            crate::ordered::lists(listed, crate::ordered::ints128(before.dom())),
            forall|key: u128|
                #![trigger analyses@.contains_key(key)]
                analyses@.contains_key(key) <==> before.contains_key(key) && !(analyzer_of(key)
                    == analyzer_version && listed.take(i as int).contains(key as int)),
            forall|key: u128|
                analyses@.contains_key(key) ==> #[trigger] analyses@[key] == before[key],
        decreases keys@.len() - i,
    {
        let key: u128 = keys[i];
        let ghost earlier = analyses@;
        proof {
            let now = listed.take(i + 1);
            let past = listed.take(i as int);
            assert(now =~= past.push(key as int));
            assert forall|other: u128| now.contains(other as int) <==> past.contains(other as int)
                || other == key by {
                if past.contains(other as int) {
                    let p = choose|p: int| 0 <= p < past.len() && past[p] == other;
                    assert(now[p] == other);
                }
                if other == key {
                    assert(now[i as int] == other);
                }
                if now.contains(other as int) {
                    let p = choose|p: int| 0 <= p < now.len() && now[p] == other;
                    if p < i {
                        assert(past[p] == other);
                    }
                }
            }
        }
        if (key % 0x1_0000_0000) as u32 == analyzer_version {
            analyses.remove(&key);
            assert(analyses@ == earlier.remove(key));
        }
        i = i + 1;
    }
    proof {
        assert(listed.take(listed.len() as int) =~= listed);
        let wanted = analyses_without(before, analyzer_version);
        assert forall|key: u128| analyses@.contains_key(key) == wanted.contains_key(key) by {
            if before.contains_key(key) {
                assert(crate::ordered::ints128(before.dom()).contains(key as int));
                assert(listed.contains(key as int));
            }
        }
        assert(analyses@ =~= wanted);
    }
}

fn drop_stats(stats: &mut Vec<StatsRow>, analyzer_version: u32)
    ensures
        final(stats)@ == stats_without(old(stats)@, analyzer_version),
{
    let ghost before = stats@;
    let mut kept: Vec<StatsRow> = Vec::new();
    let mut i: usize = 0;
    assert(before.take(0) =~= seq![]);
    while i < stats.len()
        invariant
            i <= stats@.len(),
            stats@ == before,
            kept@ == stats_without(before.take(i as int), analyzer_version),
        decreases stats@.len() - i,
    {
        assert(before.take(i + 1).drop_last() =~= before.take(i as int));
        let row: StatsRow = stats[i];
        if row.stats.analyzer_version != analyzer_version {
            kept.push(row);
        }
        i = i + 1;
    }
    assert(before.take(before.len() as int) =~= before);
    *stats = kept;
}

impl FeatureStore {
    /// Prepares the current analyzer version for being computed again, and says whether that
    /// is due. If its snapshot has changed, its analyses and statistics are given up and the
    /// current snapshot takes its place; those of other versions stay. Whenever the answer is
    /// yes, the published index files have to go too.
    pub fn prepare_reanalysis(&mut self, has_published_index: bool) -> (due: bool)
        ensures
            due == reanalysis_due(old(self).tables, has_published_index),
            final(self).root == old(self).root,
            final(self).tables.beatmaps@ == old(self).tables.beatmaps@,
            final(self).tables.packs@ == old(self).tables.packs@,
            final(self).tables.raw@ == old(self).tables.raw@,
            final(self).tables.normalized@ == old(self).tables.normalized@,
            final(self).tables.snapshot_current(),
            old(self).tables.snapshot_current() ==> {
                &&& final(self).tables.analyses@ == old(self).tables.analyses@
                &&& final(self).tables.stats@ == old(self).tables.stats@
                &&& final(self).tables.versions@ == old(self).tables.versions@
            },
            !old(self).tables.snapshot_current() ==> {
                &&& final(self).tables.analyses@ == analyses_without(
                    old(self).tables.analyses@,
                    ANALYZER_VERSION,
                )
                &&& final(self).tables.stats@ == stats_without(
                    old(self).tables.stats@,
                    ANALYZER_VERSION,
                )
                &&& final(self).tables.versions@.remove(ANALYZER_VERSION as u64)
                    == old(self).tables.versions@.remove(ANALYZER_VERSION as u64)
            },
    {
        let ghost before = self.tables.versions@;
        if self.algorithm_snapshot_matches() {
            return !self.any_analysis_of(ANALYZER_VERSION) && has_published_index;
        }
        drop_analyses(&mut self.tables.analyses, ANALYZER_VERSION);
        drop_stats(&mut self.tables.stats, ANALYZER_VERSION);
        let version: u64 = ANALYZER_VERSION as u64;
        self.tables.versions.insert(version, current_snapshot());
        assert(self.tables.versions@.remove(version) =~= before.remove(version));
        true
    }
}

/// After a reanalysis was prepared, the current snapshot is in place and nothing of an old one
/// is left to be published: preparing again has nothing to do once the index files are gone.
pub proof fn law_preparing_reanalysis_settles(before: Tables, after: Tables)
    requires
        !before.snapshot_current(),
        after.snapshot_current(),
        after.analyses@ == analyses_without(before.analyses@, ANALYZER_VERSION),
    ensures
        !after.has_analysis_of(ANALYZER_VERSION),
        !reanalysis_due(after, false),
        forall|key: u128|
            before.analyses@.contains_key(key) && analyzer_of(key) != ANALYZER_VERSION
                ==> after.analyses@.contains_key(key) && #[trigger] after.analyses@[key]
                == before.analyses@[key],
{
    if after.has_analysis_of(ANALYZER_VERSION) {
        let key = choose|key: u128| #[trigger]
            after.analyses@.contains_key(key) && analyzer_of(key) == ANALYZER_VERSION;
        assert(false);
    }
}

// Packs

/// The import state of a pack as plain text.
pub struct PackState {
    pub source_url: Seq<char>,
    pub status: Seq<char>,
    pub last_error: Option<Seq<char>>,
}

/// The text in an optional string.
pub open spec fn optional_text(text: Option<String>) -> Option<Seq<char>> {
    match text {
        Some(text) => Some(text@),
        None => None,
    }
}

/// The state in a row.
pub open spec fn state_of(row: PackRow) -> PackState {
    PackState {
        source_url: row.source_url@,
        status: row.status@,
        last_error: optional_text(row.last_error),
    }
}

/// The first row, from `from` on, of the pack `id`.
pub open spec fn pack_row(packs: Seq<PackRow>, id: Seq<char>, from: int) -> Option<int>
    decreases packs.len() - from,
{
    if from < 0 || from >= packs.len() {
        None
    } else if packs[from].pack_id@ == id {
        Some(from)
    } else {
        pack_row(packs, id, from + 1)
    }
}

/// The state of the pack `id`, if it is known.
pub open spec fn pack_state(packs: Seq<PackRow>, id: Seq<char>) -> Option<PackState> {
    match pack_row(packs, id, 0) {
        Some(at) => Some(state_of(packs[at])),
        None => None,
    }
}

/// Whether the pack `id` is known with the given status.
pub open spec fn has_status(packs: Seq<PackRow>, id: Seq<char>, status: Seq<char>) -> bool {
    match pack_state(packs, id) {
        Some(state) => state.status == status,
        None => false,
    }
}

proof fn lemma_pack_row(packs: Seq<PackRow>, id: Seq<char>, from: int)
    requires
        0 <= from,
    ensures
        match pack_row(packs, id, from) {
            Some(at) => from <= at < packs.len() && packs[at].pack_id@ == id && forall|i: int|
                from <= i < at ==> (#[trigger] packs[i]).pack_id@ != id,
            None => forall|i: int| from <= i < packs.len() ==> (#[trigger] packs[i]).pack_id@ != id,
        },
    decreases packs.len() - from,
{
    if from < packs.len() && packs[from].pack_id@ != id {
        lemma_pack_row(packs, id, from + 1);
    }
}

/// Where rows up to a place have the same identifiers, a pack is found at the same place.
proof fn lemma_pack_row_found(packs: Seq<PackRow>, id: Seq<char>, from: int, at: int)
    requires
        0 <= from <= at < packs.len(),
        packs[at].pack_id@ == id,
        forall|i: int| from <= i < at ==> (#[trigger] packs[i]).pack_id@ != id,
    ensures
        pack_row(packs, id, from) == Some(at),
    decreases at - from,
{
    if from < at {
        lemma_pack_row_found(packs, id, from + 1, at);
    }
}

proof fn lemma_pack_row_missing(packs: Seq<PackRow>, id: Seq<char>, from: int)
    requires
        0 <= from,
        forall|i: int| from <= i < packs.len() ==> (#[trigger] packs[i]).pack_id@ != id,
    ensures
        pack_row(packs, id, from) is None,
    decreases packs.len() - from,
{
    if from < packs.len() {
        lemma_pack_row_missing(packs, id, from + 1);
    }
}

impl FeatureStore {
    fn find_pack(&self, id: &str) -> (found: Option<usize>)
        ensures
            match found {
                Some(at) => pack_row(self.tables.packs@, id@, 0) == Some(at as int) && at
                    < self.tables.packs@.len(),
                None => pack_row(self.tables.packs@, id@, 0) is None,
            },
    {
        let mut i: usize = 0;
        while i < self.tables.packs.len()
            invariant
                i <= self.tables.packs@.len(),
                pack_row(self.tables.packs@, id@, 0) == pack_row(
                    self.tables.packs@,
                    id@,
                    i as int,
                ),
            decreases self.tables.packs@.len() - i,
        {
            if same_text(self.tables.packs[i].pack_id.as_str(), id) {
                return Some(i);
            }
            i = i + 1;
        }
        None
    }

    /// Records the state of a pack. A pack that is already known keeps the source that was
    /// recorded first.
    pub fn mark_pack(&mut self, id: &str, source_url: &str, status: &str, error: Option<String>)
        ensures
            final(self).root == old(self).root,
            final(self).tables.beatmaps@ == old(self).tables.beatmaps@,
            final(self).tables.analyses@ == old(self).tables.analyses@,
            final(self).tables.versions@ == old(self).tables.versions@,
            final(self).tables.stats@ == old(self).tables.stats@,
            final(self).tables.raw@ == old(self).tables.raw@,
            final(self).tables.normalized@ == old(self).tables.normalized@,
            pack_state(final(self).tables.packs@, id@) == Some(
                PackState {
                    source_url: match pack_state(old(self).tables.packs@, id@) {
                        Some(state) => state.source_url,
                        None => source_url@,
                    },
                    status: status@,
                    last_error: optional_text(error),
                },
            ),
            forall|other: Seq<char>|
                other != id@ ==> #[trigger] pack_state(final(self).tables.packs@, other)
                    == pack_state(old(self).tables.packs@, other),
    {
        let ghost before = self.tables.packs@;
        match self.find_pack(id) {
            Some(at) => {
                let row: PackRow = PackRow {
                    pack_id: self.tables.packs[at].pack_id.clone(),
                    source_url: self.tables.packs[at].source_url.clone(),
                    status: String::from_str(status),
                    last_error: error,
                };
                self.tables.packs.set(at, row);
                proof {
                    let after = self.tables.packs@;
                    lemma_pack_row(before, id@, 0);
                    assert forall|i: int| 0 <= i < after.len() implies (
                    #[trigger] after[i]).pack_id@ == before[i].pack_id@ by {}
                    lemma_pack_row_found(after, id@, 0, at as int);
                    assert forall|other: Seq<char>| other != id@ implies #[trigger] pack_state(
                        after,
                        other,
                    ) == pack_state(before, other) by {
                        lemma_pack_row(before, other, 0);
                        match pack_row(before, other, 0) {
                            Some(place) => {
                                lemma_pack_row_found(after, other, 0, place);
                            },
                            None => {
                                lemma_pack_row_missing(after, other, 0);
                            },
                        }
                    }
                }
            },
            None => {
                self.tables.packs.push(
                    PackRow {
                        pack_id: String::from_str(id),
                        source_url: String::from_str(source_url),
                        status: String::from_str(status),
                        last_error: error,
                    },
                );
                proof {
                    let after = self.tables.packs@;
                    lemma_pack_row(before, id@, 0);
                    lemma_pack_row_found(after, id@, 0, before.len() as int);
                    assert forall|other: Seq<char>| other != id@ implies #[trigger] pack_state(
                        after,
                        other,
                    ) == pack_state(before, other) by {
                        lemma_pack_row(before, other, 0);
                        match pack_row(before, other, 0) {
                            Some(place) => {
                                lemma_pack_row_found(after, other, 0, place);
                            },
                            None => {
                                lemma_pack_row_missing(after, other, 0);
                            },
                        }
                    }
                }
            },
        }
    }

    fn pack_has_status(&self, id: &str, status: &str) -> (answer: bool)
        ensures
            answer == has_status(self.tables.packs@, id@, status@),
    {
        match self.find_pack(id) {
            Some(at) => same_text(self.tables.packs[at].status.as_str(), status),
            None => false,
        }
    }

    /// Whether a pack was imported completely.
    pub fn pack_is_complete(&self, id: &str) -> (answer: bool)
        ensures
            answer == has_status(self.tables.packs@, id@, "complete"@),
    {
        self.pack_has_status(id, "complete")
    }

    /// Whether a pack was excluded because it holds no osu!standard beatmap.
    pub fn pack_is_excluded(&self, id: &str) -> (answer: bool)
        ensures
            answer == has_status(self.tables.packs@, id@, "excluded"@),
    {
        self.pack_has_status(id, "excluded")
    }
}

// Raw records

/// Whether an analysis counts: its raw features are stored.
pub open spec fn is_active(row: AnalysisRow) -> bool {
    row.status == 1 || row.status == 2
}

/// Whether a star rating can be stored.
pub open spec fn is_star_rating(rating: F64) -> bool {
    rating.finite() && rating.at_least_zero()
}

/// Where the record at position `index` of a published feature file stands.
pub open spec fn normalized_offset(index: int) -> int {
    HEADER_LEN + index * NORMALIZED_RECORD_SIZE
}

/// Whether a row holds the given metadata in the given star section.
pub open spec fn holds_metadata(row: BeatmapRow, metadata: BeatmapMetadata, section: i64) -> bool {
    &&& row.beatmapset_id == metadata.beatmapset_id
    &&& row.checksum@ == metadata.checksum@
    &&& row.artist@ == metadata.artist@
    &&& row.title@ == metadata.title@
    &&& row.version@ == metadata.version@
    &&& row.creator@ == metadata.creator@
    &&& row.online_url@ == metadata.online_url@
    &&& row.star_rating == Some(metadata.star_rating)
    &&& row.star_section == Some(section)
}

/// What appending an analysed beatmap does.
#[derive(Clone, Copy, Debug, PartialEq, Eq, Structural)]
pub enum Appended {
    /// The same beatmap is already stored.
    Unchanged,
    /// The beatmap is stored, but its star rating is not or differs: its metadata is replaced.
    Refreshed,
    /// The beatmap is new or has changed: its record is appended at the offset.
    Inserted { offset: u64 },
}

impl Tables {
    /// Whether the beatmap of a record is stored with an analysis of the record's version.
    pub open spec fn stored(&self, record: RawFeatureRecord) -> bool {
        self.beatmaps@.contains_key(record.beatmap_id) && self.analyses@.contains_key(
            key_of(record.beatmap_id, record.analyzer_version),
        )
    }

    /// Why a record cannot be appended.
    pub open spec fn append_refusal(
        &self,
        metadata: BeatmapMetadata,
        record: RawFeatureRecord,
    ) -> Option<StoreError> {
        if !self.snapshot_current() {
            Some(StoreError::SnapshotMismatch)
        } else if record.mod_profile != 0 {
            Some(StoreError::ModProfile)
        } else if !is_star_rating(metadata.star_rating) {
            Some(StoreError::StarRating)
        } else {
            None
        }
    }

    /// What appending a record does when it is not refused.
    pub open spec fn append_effect(
        &self,
        metadata: BeatmapMetadata,
        record: RawFeatureRecord,
        section: i64,
    ) -> Appended {
        let row = self.beatmaps@[record.beatmap_id];
        if self.stored(record) && row.checksum@ == metadata.checksum@ {
            if row.star_rating matches Some(rating) && rating.finite() && row.star_section == Some(
                section,
            ) {
                Appended::Unchanged
            } else {
                Appended::Refreshed
            }
        } else {
            Appended::Inserted { offset: self.raw@.len() as u64 }
        }
    }

    /// Whether nothing differs.
    pub open spec fn same(&self, other: &Tables) -> bool {
        self.same_but_versions(other) && self.versions@ == other.versions@
    }
}

/// Whether `after` is what `before` becomes when a record that is not refused is appended.
pub open spec fn appends(
    before: Tables,
    after: Tables,
    metadata: BeatmapMetadata,
    record: RawFeatureRecord,
    section: i64,
) -> bool {
    let id = metadata.beatmap_id;
    &&& after.versions@ == before.versions@
    &&& after.packs@ == before.packs@
    &&& after.normalized@ == before.normalized@
    &&& match before.append_effect(metadata, record, section) {
        Appended::Unchanged => after.same(&before),
        Appended::Refreshed => {
            &&& after.raw@ == before.raw@
            &&& after.analyses@ == before.analyses@
            &&& after.stats@ == Seq::<StatsRow>::empty()
            &&& after.beatmaps@.dom() == before.beatmaps@.dom()
            &&& after.beatmaps@.remove(id) == before.beatmaps@.remove(id)
            &&& before.beatmaps@.contains_key(id) ==> holds_metadata(
                after.beatmaps@[id],
                metadata,
                section,
            )
        },
        Appended::Inserted { offset } => {
            &&& after.raw@ == before.raw@ + crate::records::raw_bytes(record)
            &&& after.analyses@ == before.analyses@.insert(
                key_of(record.beatmap_id, record.analyzer_version),
                (AnalysisRow {
                    normalization_version: 0,
                    record_offset: offset,
                    normalized_offset: None,
                    status: 1,
                }),
            )
            &&& after.stats@ == Seq::<StatsRow>::empty()
            &&& after.beatmaps@.contains_key(id)
            &&& after.beatmaps@.remove(id) == before.beatmaps@.remove(id)
            &&& holds_metadata(after.beatmaps@[id], metadata, section)
        },
    }
}

impl FeatureStore {
    /// Whether a record cannot be appended.
    pub(crate) fn refuses(&self, metadata: &BeatmapMetadata, record: &RawFeatureRecord) -> (refused:
        bool)
        ensures
            refused == (self.tables.append_refusal(*metadata, *record) is Some),
    {
        !self.algorithm_snapshot_matches() || record.mod_profile != 0
            || !metadata.star_rating.is_finite() || !metadata.star_rating.is_at_least_zero()
    }

    /// Appends an analysed beatmap in the given star section, and says what that does. New
    /// data and new star ratings make the published statistics obsolete, so these are cleared.
    pub fn append_raw(
        &mut self,
        metadata: &BeatmapMetadata,
        record: &RawFeatureRecord,
        section: i64,
    ) -> (outcome: Result<Appended, StoreError>)
        ensures
            final(self).root == old(self).root,
            match old(self).tables.append_refusal(*metadata, *record) {
                Some(error) => outcome == Err::<Appended, StoreError>(error)
                    && final(self).tables.same(&old(self).tables),
                None => outcome == Ok::<Appended, StoreError>(
                    old(self).tables.append_effect(*metadata, *record, section),
                ) && appends(
                    old(self).tables,
                    final(self).tables,
                    *metadata,
                    *record,
                    section,
                ),
            },
    {
        if !self.algorithm_snapshot_matches() {
            return Err(StoreError::SnapshotMismatch);
        }
        if record.mod_profile != 0 {
            return Err(StoreError::ModProfile);
        }
        if !metadata.star_rating.is_finite() || !metadata.star_rating.is_at_least_zero() {
            return Err(StoreError::StarRating);
        }
        let key: u128 = analysis_key(record.beatmap_id, record.analyzer_version);
        let analysed: bool = self.tables.analyses.contains_key(&key);
        let mut same_file: bool = false;
        let mut same_stars: bool = false;
        if analysed {
            if let Some(row) = self.tables.beatmaps.get(&record.beatmap_id) {
                same_file = same_text(row.checksum.as_str(), metadata.checksum.as_str());
                let rated: bool = match &row.star_rating {
                    Some(rating) => rating.is_finite(),
                    None => false,
                };
                let sectioned: bool = match row.star_section {
                    Some(stored) => stored == section,
                    None => false,
                };
                same_stars = rated && sectioned;
            }
        }
        if same_file && same_stars {
            return Ok(Appended::Unchanged);
        }
        let ghost before = self.tables.beatmaps@;
        let row: BeatmapRow = BeatmapRow {
            beatmapset_id: metadata.beatmapset_id,
            checksum: metadata.checksum.clone(),
            artist: metadata.artist.clone(),
            title: metadata.title.clone(),
            version: metadata.version.clone(),
            creator: metadata.creator.clone(),
            online_url: metadata.online_url.clone(),
            star_rating: Some(metadata.star_rating),
            star_section: Some(section),
        };
        if same_file {
            if self.tables.beatmaps.contains_key(&metadata.beatmap_id) {
                self.tables.beatmaps.insert(metadata.beatmap_id, row);
                assert(self.tables.beatmaps@.dom() =~= before.dom());
                assert(self.tables.beatmaps@.remove(metadata.beatmap_id) =~= before.remove(
                    metadata.beatmap_id,
                ));
            }
            self.tables.stats.clear();
            return Ok(Appended::Refreshed);
        }
        let offset: u64 = self.tables.raw.len() as u64;
        append_raw_record(&mut self.tables.raw, record);
        self.tables.beatmaps.insert(metadata.beatmap_id, row);
        assert(self.tables.beatmaps@.remove(metadata.beatmap_id) =~= before.remove(
            metadata.beatmap_id,
        ));
        self.tables.analyses.insert(
            key,
            AnalysisRow {
                normalization_version: 0,
                record_offset: offset,
                normalized_offset: None,
                status: 1,
            },
        );
        self.tables.stats.clear();
        Ok(Appended::Inserted { offset })
    }

    /// Whether the current analyzer version has an active analysis of exactly this source. Then
    /// the beatmap need not be analysed again.
    pub fn current_analysis_matches(&self, beatmap_id: u64, checksum: &str) -> (outcome: Result<
        bool,
        StoreError,
    >)
        ensures
            match outcome {
                Ok(answer) => {
                    let key = key_of(beatmap_id, ANALYZER_VERSION);
                    &&& self.tables.snapshot_current()
                    &&& answer == (self.tables.analyses@.contains_key(key) && is_active(
                        self.tables.analyses@[key],
                    ) && self.tables.beatmaps@.contains_key(beatmap_id)
                        && self.tables.beatmaps@[beatmap_id].checksum@ == checksum@)
                },
                Err(error) => !self.tables.snapshot_current() && error
                    == StoreError::SnapshotMismatch,
            },
    {
        if !self.algorithm_snapshot_matches() {
            return Err(StoreError::SnapshotMismatch);
        }
        let key: u128 = analysis_key(beatmap_id, ANALYZER_VERSION);
        let active: bool = match self.tables.analyses.get(&key) {
            Some(row) => row.status == 1 || row.status == 2,
            None => false,
        };
        let same_file: bool = match self.tables.beatmaps.get(&beatmap_id) {
            Some(row) => same_text(row.checksum.as_str(), checksum),
            None => false,
        };
        Ok(active && same_file)
    }

    /// The metadata of a beatmap whose star rating is known.
    pub fn metadata_for(&self, beatmap_id: u64) -> (outcome: Result<BeatmapMetadata, StoreError>)
        ensures
            match outcome {
                Ok(metadata) => {
                    &&& self.tables.beatmaps@.contains_key(beatmap_id)
                    &&& metadata.beatmap_id == beatmap_id
                    &&& self.tables.beatmaps@[beatmap_id].star_rating == Some(metadata.star_rating)
                    &&& ({
                        let row = self.tables.beatmaps@[beatmap_id];
                        &&& metadata.beatmapset_id == row.beatmapset_id
                        &&& metadata.checksum@ == row.checksum@
                        &&& metadata.artist@ == row.artist@
                        &&& metadata.title@ == row.title@
                        &&& metadata.version@ == row.version@
                        &&& metadata.creator@ == row.creator@
                        &&& metadata.online_url@ == row.online_url@
                    })
                },
                Err(error) => {
                    &&& error == StoreError::UnknownMetadata
                    &&& !(self.tables.beatmaps@.contains_key(beatmap_id)
                        && self.tables.beatmaps@[beatmap_id].star_rating is Some)
                },
            },
    {
        match self.tables.beatmaps.get(&beatmap_id) {
            Some(row) => match row.star_rating {
                Some(star_rating) => Ok(
                    BeatmapMetadata {
                        beatmap_id,
                        beatmapset_id: row.beatmapset_id,
                        checksum: row.checksum.clone(),
                        artist: row.artist.clone(),
                        title: row.title.clone(),
                        version: row.version.clone(),
                        creator: row.creator.clone(),
                        online_url: row.online_url.clone(),
                        star_rating,
                    },
                ),
                None => Err(StoreError::UnknownMetadata),
            },
            None => Err(StoreError::UnknownMetadata),
        }
    }
}

/// Appending the same beatmap again changes nothing.
pub proof fn law_appending_again_changes_nothing(
    after: Tables,
    metadata: BeatmapMetadata,
    record: RawFeatureRecord,
    section: i64,
)
    requires
        after.append_refusal(metadata, record) is None,
        metadata.beatmap_id == record.beatmap_id,
        after.beatmaps@.contains_key(metadata.beatmap_id),
        holds_metadata(after.beatmaps@[metadata.beatmap_id], metadata, section),
        after.analyses@.contains_key(key_of(record.beatmap_id, record.analyzer_version)),
    ensures
        after.append_effect(metadata, record, section) == Appended::Unchanged,
{
}

// Reading records

/// The analyses of one analyzer version that count: the active ones, or the published ones of
/// one normalization version.
pub open spec fn selected(
    analyses: Map<u128, AnalysisRow>,
    analyzer_version: u32,
    normalization: Option<u32>,
) -> Set<int> {
    Set::new(
        |key: int|
            0 <= key <= u128::MAX && analyses.contains_key(key as u128) && analyzer_of(key as u128)
                == analyzer_version && matches_normalization(analyses[key as u128], normalization),
    )
}

/// Whether an analysis is active, or published in the given normalization version.
pub open spec fn matches_normalization(row: AnalysisRow, normalization: Option<u32>) -> bool {
    match normalization {
        None => is_active(row),
        Some(version) => row.status == 2 && row.normalization_version == version,
    }
}

/// The selected analyses by increasing beatmap identifier.
pub open spec fn selected_keys(
    analyses: Map<u128, AnalysisRow>,
    analyzer_version: u32,
    normalization: Option<u32>,
) -> Seq<int> {
    crate::ordered::increasing(selected(analyses, analyzer_version, normalization))
}

fn row_matches(row: &AnalysisRow, normalization: Option<u32>) -> (answer: bool)
    ensures
        answer == matches_normalization(*row, normalization),
{
    match normalization {
        None => row.status == 1 || row.status == 2,
        Some(version) => row.status == 2 && row.normalization_version == version,
    }
}

impl FeatureStore {
    /// The selected analyses by increasing beatmap identifier.
    pub(crate) fn select(&self, analyzer_version: u32, normalization: Option<u32>) -> (keys: Vec<
        u128,
    >)
        ensures
            crate::ordered::list128(keys@) == selected_keys(
                self.tables.analyses@,
                analyzer_version,
                normalization,
            ),
            forall|k: int|
                0 <= k < keys@.len() ==> self.tables.analyses@.contains_key(#[trigger] keys@[k]),
    {
        let all: Vec<u128> = keys128(&self.tables.analyses);
        let ghost wanted = selected(self.tables.analyses@, analyzer_version, normalization);
        let ghost listed = crate::ordered::list128(all@);
        proof {
            crate::ordered::lemma_increasing_lists(
                crate::ordered::ints128(self.tables.analyses@.dom()),
            );
        }
        let mut keys: Vec<u128> = Vec::new();
        let mut i: usize = 0;
        while i < all.len()
            invariant
                i <= all@.len(),
                wanted == selected(self.tables.analyses@, analyzer_version, normalization),
                listed == crate::ordered::list128(all@),
                crate::ordered::lists(
                    listed,
                    crate::ordered::ints128(self.tables.analyses@.dom()),
                ),
                forall|k: int|
                    0 <= k < all@.len() ==> self.tables.analyses@.contains_key(#[trigger] all@[k]),
                forall|k: int|
                    0 <= k < keys@.len() ==> wanted.contains((#[trigger] keys@[k]) as int),
                forall|k: int|
                    0 <= k < keys@.len() && i < all@.len() ==> #[trigger] keys@[k] < all@[i as int],
                forall|a: int, b: int|
                    0 <= a < b < keys@.len() ==> #[trigger] keys@[a] < #[trigger] keys@[b],
                forall|k: int|
                    0 <= k < i && wanted.contains(all@[k] as int) ==> keys@.contains(
                        #[trigger] all@[k],
                    ),
            decreases all@.len() - i,
        {
            let key: u128 = all[i];
            let ghost before = keys@;
            assert(self.tables.analyses@.contains_key(all@[i as int]));
            if i + 1 < all.len() {
                assert(listed[i as int] < listed[i + 1]);
            }
            if (key % 0x1_0000_0000) as u32 == analyzer_version {
                if let Some(row) = self.tables.analyses.get(&key) {
                    if row_matches(row, normalization) {
                        keys.push(key);
                        proof {
                            assert(keys@[before.len() as int] == key);
                            assert forall|v: u128| before.contains(v) implies keys@.contains(v) by {
                                let p = choose|p: int| 0 <= p < before.len() && before[p] == v;
                                assert(keys@[p] == v);
                            }
                        }
                    }
                }
            }
            i = i + 1;
        }
        proof {
            let result = crate::ordered::list128(keys@);
            assert forall|id: int| #[trigger] result.contains(id) <==> wanted.contains(id) by {
                if result.contains(id) {
                    let p = choose|p: int| 0 <= p < result.len() && result[p] == id;
                    assert(wanted.contains(keys@[p] as int));
                }
                if wanted.contains(id) {
                    assert(crate::ordered::ints128(self.tables.analyses@.dom()).contains(id));
                    assert(listed.contains(id));
                    let p = choose|p: int| 0 <= p < listed.len() && listed[p] == id;
                    assert(keys@.contains(all@[p]));
                    let q = choose|q: int| 0 <= q < keys@.len() && keys@[q] == all@[p];
                    assert(result[q] == id);
                }
            }
            crate::ordered::lemma_increasing_lists(wanted);
            crate::ordered::lemma_lists_is_unique(
                result,
                crate::ordered::increasing(wanted),
                wanted,
            );
            assert forall|k: int| 0 <= k < keys@.len() implies self.tables.analyses@.contains_key(
                #[trigger] keys@[k],
            ) by {
                assert(wanted.contains(keys@[k] as int));
            }
        }
        keys
    }
}

/// Whether the beatmap of an analysis is stored without a star rating or section.
pub open spec fn lacks_stars(beatmaps: Map<u64, BeatmapRow>, key: int) -> bool {
    let id = beatmap_of(key as u128);
    beatmaps.contains_key(id) && (beatmaps[id].star_rating is None
        || beatmaps[id].star_section is None)
}

/// How many of the analyses `keys` are of a beatmap that lacks stars.
pub open spec fn lacking_stars(beatmaps: Map<u64, BeatmapRow>, keys: Seq<int>) -> nat
    decreases keys.len(),
{
    if keys.len() == 0 {
        0
    } else {
        lacking_stars(beatmaps, keys.drop_last()) + if lacks_stars(beatmaps, keys.last()) {
            1nat
        } else {
            0nat
        }
    }
}

/// The first of the analyses `keys`, from `from` on, whose raw record cannot be read.
pub open spec fn first_raw_missing(tables: Tables, keys: Seq<int>, from: int) -> Option<int>
    decreases keys.len() - from,
{
    if from < 0 || from >= keys.len() {
        None
    } else if crate::records::raw_at(
        tables.raw@,
        tables.analyses@[keys[from] as u128].record_offset,
    ) is None {
        Some(from)
    } else {
        first_raw_missing(tables, keys, from + 1)
    }
}

/// What reading all raw records of the current analyzer version gives.
pub open spec fn raw_outcome(tables: Tables) -> Result<Seq<RawFeatureRecord>, StoreError> {
    let keys = selected_keys(tables.analyses@, ANALYZER_VERSION, None);
    if !tables.snapshot_current() {
        Err(StoreError::SnapshotMismatch)
    } else if lacking_stars(tables.beatmaps@, keys) > 0 {
        Err(StoreError::MissingStars { count: lacking_stars(tables.beatmaps@, keys) as u64 })
    } else {
        match first_raw_missing(tables, keys, 0) {
            Some(i) => Err(
                StoreError::MissingRecord {
                    offset: tables.analyses@[keys[i] as u128].record_offset,
                },
            ),
            None => Ok(
                Seq::new(
                    keys.len(),
                    |i: int|
                        crate::records::raw_at(
                            tables.raw@,
                            tables.analyses@[keys[i] as u128].record_offset,
                        )->0,
                ),
            ),
        }
    }
}

/// The normalized record that stands at `offset` in the file of a version, if there is one.
pub open spec fn normalized_at(
    normalized: Map<u64, Vec<u8>>,
    version: u32,
    offset: u64,
) -> Option<BeatmapFeatureRecord> {
    if normalized.contains_key(version as u64) {
        crate::records::normalized_at(normalized[version as u64]@, offset)
    } else {
        None
    }
}

impl FeatureStore {
    pub(crate) fn read_normalized(&self, version: u32, offset: u64) -> (record: Option<
        BeatmapFeatureRecord,
    >)
        ensures
            record == normalized_at(self.tables.normalized@, version, offset),
    {
        let file: u64 = version as u64;
        match self.tables.normalized.get(&file) {
            Some(bytes) => read_normalized_record(bytes, offset),
            None => None,
        }
    }

    /// The raw records of all active analyses of the current analyzer version, by increasing
    /// beatmap identifier. All of them must have a star rating.
    pub fn raw_records(&self) -> (outcome: Result<Vec<RawFeatureRecord>, StoreError>)
        ensures
            match (outcome, raw_outcome(self.tables)) {
                (Ok(records), Ok(expected)) => records@ == expected,
                (Err(error), Err(expected)) => error == expected,
                _ => false,
            },
    {
        if !self.algorithm_snapshot_matches() {
            return Err(StoreError::SnapshotMismatch);
        }
        let keys: Vec<u128> = self.select(ANALYZER_VERSION, None);
        let ghost listed = crate::ordered::list128(keys@);
        let mut missing: u64 = 0;
        let mut i: usize = 0;
        assert(listed.take(0) =~= seq![]);
        while i < keys.len()
            invariant
                i <= keys@.len(),
                listed == crate::ordered::list128(keys@),
                missing <= i,
                missing == lacking_stars(self.tables.beatmaps@, listed.take(i as int)),
            decreases keys@.len() - i,
        {
            assert(listed.take(i + 1).drop_last() =~= listed.take(i as int));
            assert(listed.take(i + 1).last() == keys@[i as int]);
            let beatmap_id: u64 = (keys[i] / 0x1_0000_0000) as u64;
            if let Some(row) = self.tables.beatmaps.get(&beatmap_id) {
                if row.star_rating.is_none() || row.star_section.is_none() {
                    missing = missing + 1;
                }
            }
            i = i + 1;
        }
        assert(listed.take(listed.len() as int) =~= listed);
        if missing > 0 {
            return Err(StoreError::MissingStars { count: missing });
        }
        let mut records: Vec<RawFeatureRecord> = Vec::new();
        let mut k: usize = 0;
        while k < keys.len()
            invariant
                k <= keys@.len(),
                listed == crate::ordered::list128(keys@),
                listed == selected_keys(self.tables.analyses@, ANALYZER_VERSION, None),
                self.tables.snapshot_current(),
                lacking_stars(self.tables.beatmaps@, listed) == 0,
                forall|j: int|
                    0 <= j < keys@.len() ==> self.tables.analyses@.contains_key(
                        #[trigger] keys@[j],
                    ),
                first_raw_missing(self.tables, listed, 0) == first_raw_missing(
                    self.tables,
                    listed,
                    k as int,
                ),
                records@.len() == k,
                forall|j: int|
                    0 <= j < k ==> records@[j] == crate::records::raw_at(
                        self.tables.raw@,
                        self.tables.analyses@[listed[j] as u128].record_offset,
                    )->0,
            decreases keys@.len() - k,
        {
            assert(self.tables.analyses@.contains_key(keys@[k as int]));
            assert(listed[k as int] == keys@[k as int]);
            if let Some(row) = self.tables.analyses.get(&keys[k]) {
                match read_raw_record(&self.tables.raw, row.record_offset) {
                    Some(record) => {
                        records.push(record);
                    },
                    None => {
                        return Err(StoreError::MissingRecord { offset: row.record_offset });
                    },
                }
            }
            k = k + 1;
        }
        proof {
            assert(raw_outcome(self.tables) matches Ok(expected) && records@ =~= expected);
        }
        Ok(records)
    }
}

/// The normalized record that an analysis points to in the file of a version.
pub open spec fn published_at(tables: Tables, version: u32, key: u128) -> Result<
    BeatmapFeatureRecord,
    StoreError,
> {
    match tables.analyses@[key].normalized_offset {
        Some(offset) => match normalized_at(tables.normalized@, version, offset) {
            Some(record) => Ok(record),
            None => Err(StoreError::MissingRecord { offset }),
        },
        None => Err(StoreError::UnknownNormalized),
    }
}

/// The analyses of one beatmap: all of them, or the published ones of a normalization version.
pub open spec fn analyses_for(
    analyses: Map<u128, AnalysisRow>,
    beatmap_id: u64,
    normalization: Option<u32>,
) -> Set<int> {
    Set::new(
        |key: int|
            0 <= key <= u128::MAX && analyses.contains_key(key as u128) && beatmap_of(key as u128)
                == beatmap_id && (normalization is Some ==> matches_normalization(
                analyses[key as u128],
                normalization,
            )),
    )
}

/// The last of `keys`: for one beatmap, the analysis of the latest analyzer version.
pub open spec fn latest_of(keys: Set<int>) -> Option<u128> {
    let listed = crate::ordered::increasing(keys);
    if listed.len() == 0 {
        None
    } else {
        Some(listed.last() as u128)
    }
}

/// The raw record of a beatmap, of the latest analyzer version that has one.
pub open spec fn raw_for(tables: Tables, beatmap_id: u64) -> Result<RawFeatureRecord, StoreError> {
    match latest_of(analyses_for(tables.analyses@, beatmap_id, None)) {
        Some(key) => {
            let offset = tables.analyses@[key].record_offset;
            match crate::records::raw_at(tables.raw@, offset) {
                Some(record) => Ok(record),
                None => Err(StoreError::MissingRecord { offset }),
            }
        },
        None => Err(StoreError::UnknownBeatmap),
    }
}

/// The normalized record of a beatmap, of the latest analyzer version that has one.
pub open spec fn normalized_for(tables: Tables, version: u32, beatmap_id: u64) -> Result<
    BeatmapFeatureRecord,
    StoreError,
> {
    match latest_of(analyses_for(tables.analyses@, beatmap_id, Some(version))) {
        Some(key) => published_at(tables, version, key),
        None => Err(StoreError::UnknownNormalized),
    }
}

impl FeatureStore {
    /// The latest analysis of one beatmap, or its latest published one.
    fn latest(&self, beatmap_id: u64, normalization: Option<u32>) -> (found: Option<u128>)
        ensures
            found == latest_of(analyses_for(self.tables.analyses@, beatmap_id, normalization)),
            found matches Some(key) ==> self.tables.analyses@.contains_key(key),
    {
        let all: Vec<u128> = keys128(&self.tables.analyses);
        let ghost wanted = analyses_for(self.tables.analyses@, beatmap_id, normalization);
        let ghost listed = crate::ordered::list128(all@);
        proof {
            crate::ordered::lemma_increasing_lists(
                crate::ordered::ints128(self.tables.analyses@.dom()),
            );
        }
        let mut found: Option<u128> = None;
        let mut i: usize = 0;
        while i < all.len()
            invariant
                i <= all@.len(),
                wanted == analyses_for(self.tables.analyses@, beatmap_id, normalization),
                listed == crate::ordered::list128(all@),
                crate::ordered::lists(
                    listed,
                    crate::ordered::ints128(self.tables.analyses@.dom()),
                ),
                forall|k: int|
                    0 <= k < all@.len() ==> self.tables.analyses@.contains_key(#[trigger] all@[k]),
                match found {
                    Some(key) => wanted.contains(key as int) && forall|k: int|
                        0 <= k < i && wanted.contains(all@[k] as int) ==> #[trigger] all@[k] <= key,
                    None => forall|k: int|
                        0 <= k < i ==> !wanted.contains((#[trigger] all@[k]) as int),
                },
            decreases all@.len() - i,
        {
            let key: u128 = all[i];
            assert(self.tables.analyses@.contains_key(all@[i as int]));
            assert forall|k: int| 0 <= k < i implies #[trigger] all@[k] <= key by {
                assert(listed[k] < listed[i as int]);
            }
            if (key / 0x1_0000_0000) as u64 == beatmap_id {
                if let Some(row) = self.tables.analyses.get(&key) {
                    if normalization.is_none() || row_matches(row, normalization) {
                        found = Some(key);
                    }
                }
            }
            i = i + 1;
        }
        proof {
            assert forall|other: int| #[trigger] wanted.contains(other) implies exists|k: int|
                0 <= k < all@.len() && #[trigger] all@[k] == other by {
                assert(crate::ordered::ints128(self.tables.analyses@.dom()).contains(other));
                assert(listed.contains(other));
                let k = choose|k: int| 0 <= k < listed.len() && listed[k] == other;
                assert(all@[k] == other);
            }
            crate::ordered::lemma_increasing_lists(wanted);
            let order = crate::ordered::increasing(wanted);
            match found {
                Some(key) => {
                    assert(order.contains(key as int));
                    let p = choose|p: int| 0 <= p < order.len() && order[p] == key;
                    assert(order.contains(order.last()));
                    assert(wanted.contains(order.last()));
                    let k = choose|k: int|
                        0 <= k < all@.len() && #[trigger] all@[k] == order.last();
                    assert(all@[k] <= key);
                    if p < order.len() - 1 {
                        assert(order[p] < order[order.len() - 1]);
                    }
                },
                None => {
                    if order.len() > 0 {
                        assert(order.contains(order[0]));
                        assert(wanted.contains(order[0]));
                        let k = choose|k: int|
                            0 <= k < all@.len() && #[trigger] all@[k] == order[0];
                        assert(!wanted.contains(all@[k] as int));
                    }
                },
            }
        }
        found
    }

    /// The raw record of a beatmap, of the latest analyzer version that has one.
    pub fn raw_for_id(&self, beatmap_id: u64) -> (outcome: Result<RawFeatureRecord, StoreError>)
        ensures
            outcome == raw_for(self.tables, beatmap_id),
    {
        match self.latest(beatmap_id, None) {
            Some(key) => {
                let offset: u64 = match self.tables.analyses.get(&key) {
                    Some(row) => row.record_offset,
                    None => {
                        return Err(StoreError::UnknownBeatmap);
                    },
                };
                match read_raw_record(&self.tables.raw, offset) {
                    Some(record) => Ok(record),
                    None => Err(StoreError::MissingRecord { offset }),
                }
            },
            None => Err(StoreError::UnknownBeatmap),
        }
    }

    /// The normalized record of a beatmap, of the latest analyzer version that has one.
    pub fn normalized_for_id(&self, version: u32, beatmap_id: u64) -> (outcome: Result<
        BeatmapFeatureRecord,
        StoreError,
    >)
        ensures
            outcome == normalized_for(self.tables, version, beatmap_id),
    {
        match self.latest(beatmap_id, Some(version)) {
            Some(key) => {
                let offset: Option<u64> = match self.tables.analyses.get(&key) {
                    Some(row) => row.normalized_offset,
                    None => None,
                };
                match offset {
                    Some(offset) => match self.read_normalized(version, offset) {
                        Some(record) => Ok(record),
                        None => Err(StoreError::MissingRecord { offset }),
                    },
                    None => Err(StoreError::UnknownNormalized),
                }
            },
            None => Err(StoreError::UnknownNormalized),
        }
    }
}

// What storing and reading give

/// Whether every key is that of a beatmap and an analyzer version.
pub open spec fn keys_fit(analyses: Map<u128, AnalysisRow>) -> bool {
    forall|key: u128| #[trigger] analyses.contains_key(key) ==> key / 0x1_0000_0000 <= u64::MAX
}

/// A beatmap that is new, whose file has changed or that was not analysed by this analyzer version
/// is stored anew: its record is what the analysis of that version reads from then on, its
/// metadata and star section are those that were given, it waits to be published, and no
/// statistics are left. Unless a later analyzer version has analysed it, looking the beatmap up
/// gives the record.
pub proof fn law_new_and_changed_beatmaps_are_stored(
    before: Tables,
    after: Tables,
    metadata: BeatmapMetadata,
    record: RawFeatureRecord,
    section: i64,
)
    requires
        before.append_refusal(metadata, record) is None,
        appends(before, after, metadata, record, section),
        metadata.beatmap_id == record.beatmap_id,
        before.raw@.len() <= u64::MAX,
        keys_fit(before.analyses@),
        !before.beatmaps@.contains_key(record.beatmap_id)
            || before.beatmaps@[record.beatmap_id].checksum@ != metadata.checksum@
            || !before.analyses@.contains_key(
            key_of(record.beatmap_id, record.analyzer_version),
        ),
    ensures
        before.append_effect(metadata, record, section) == (Appended::Inserted {
            offset: before.raw@.len() as u64,
        }),
        ({
            let key = key_of(record.beatmap_id, record.analyzer_version);
            let analysis = after.analyses@[key];
            let row = after.beatmaps@[record.beatmap_id];
            &&& after.analyses@.contains_key(key)
            &&& crate::records::raw_at(after.raw@, analysis.record_offset) == Some(record)
            &&& analysis.status == 1
            &&& analysis.normalized_offset is None
            &&& after.beatmaps@.contains_key(record.beatmap_id)
            &&& row.beatmapset_id == metadata.beatmapset_id
            &&& row.checksum@ == metadata.checksum@
            &&& row.artist@ == metadata.artist@
            &&& row.title@ == metadata.title@
            &&& row.version@ == metadata.version@
            &&& row.creator@ == metadata.creator@
            &&& row.online_url@ == metadata.online_url@
            &&& row.star_rating == Some(metadata.star_rating)
            &&& row.star_section == Some(section)
        }),
        after.stats@.len() == 0,
        (forall|later: u32|
            record.analyzer_version < later ==> !before.analyses@.contains_key(
                #[trigger] key_of(record.beatmap_id, later),
            )) ==> raw_for(after, record.beatmap_id) == Ok::<RawFeatureRecord, StoreError>(record),
{
    let key = key_of(record.beatmap_id, record.analyzer_version);
    crate::records::law_appended_record_reads_back(before.raw@, record);
    if forall|later: u32|
        record.analyzer_version < later ==> !before.analyses@.contains_key(
            #[trigger] key_of(record.beatmap_id, later),
        ) {
        assert forall|later: u32| record.analyzer_version < later implies !(
        after.analyses@.contains_key(#[trigger] key_of(record.beatmap_id, later))) by {
            lemma_key_parts(record.beatmap_id, later);
            lemma_key_parts(record.beatmap_id, record.analyzer_version);
        }
        assert(keys_fit(after.analyses@)) by {
            lemma_key_parts(record.beatmap_id, record.analyzer_version);
        }
        law_latest_raw_record_is_found(after, record.beatmap_id, record.analyzer_version);
    }
}

/// Whatever appending does, the stored file is then the one that was given: its checksum and star
/// section are. A beatmap that is left unchanged had them already, together with an analysis of
/// this version and a finite rating, and nothing at all changes; a beatmap whose stars alone were
/// missing or different keeps its record.
pub proof fn law_appended_beatmaps_have_the_given_file(
    before: Tables,
    after: Tables,
    metadata: BeatmapMetadata,
    record: RawFeatureRecord,
    section: i64,
)
    requires
        before.append_refusal(metadata, record) is None,
        appends(before, after, metadata, record, section),
        metadata.beatmap_id == record.beatmap_id,
    ensures
        after.beatmaps@.contains_key(record.beatmap_id),
        after.beatmaps@[record.beatmap_id].checksum@ == metadata.checksum@,
        after.beatmaps@[record.beatmap_id].star_section == Some(section),
        after.analyses@.contains_key(key_of(record.beatmap_id, record.analyzer_version)),
        before.append_effect(metadata, record, section) is Unchanged <==> {
            &&& before.beatmaps@.contains_key(record.beatmap_id)
            &&& before.analyses@.contains_key(key_of(record.beatmap_id, record.analyzer_version))
            &&& before.beatmaps@[record.beatmap_id].checksum@ == metadata.checksum@
            &&& before.beatmaps@[record.beatmap_id].star_rating is Some
            &&& before.beatmaps@[record.beatmap_id].star_rating->Some_0.finite()
            &&& before.beatmaps@[record.beatmap_id].star_section == Some(section)
        },
        before.append_effect(metadata, record, section) is Unchanged ==> {
            &&& after.beatmaps@ == before.beatmaps@
            &&& after.analyses@ == before.analyses@
            &&& after.raw@ == before.raw@
            &&& after.stats@ == before.stats@
        },
        before.append_effect(metadata, record, section) is Refreshed ==> {
            &&& after.analyses@ == before.analyses@
            &&& after.raw@ == before.raw@
            &&& after.stats@.len() == 0
            &&& after.beatmaps@[record.beatmap_id].star_rating == Some(metadata.star_rating)
        },
{
}

/// Appending a beatmap leaves all others as they are: their rows, their analyses and what these
/// read, and nothing of packs, snapshots or published files changes.
pub proof fn law_appending_leaves_other_beatmaps(
    before: Tables,
    after: Tables,
    metadata: BeatmapMetadata,
    record: RawFeatureRecord,
    section: i64,
    other: u64,
    analyzer_version: u32,
)
    requires
        before.append_refusal(metadata, record) is None,
        appends(before, after, metadata, record, section),
        metadata.beatmap_id == record.beatmap_id,
        before.raw@.len() <= u64::MAX,
        other != record.beatmap_id,
    ensures
        after.beatmaps@.contains_key(other) == before.beatmaps@.contains_key(other),
        before.beatmaps@.contains_key(other) ==> after.beatmaps@[other] == before.beatmaps@[other],
        ({
            let key = key_of(other, analyzer_version);
            &&& after.analyses@.contains_key(key) == before.analyses@.contains_key(key)
            &&& before.analyses@.contains_key(key) ==> after.analyses@[key]
                == before.analyses@[key]
            &&& before.analyses@.contains_key(key) && crate::records::raw_at(
                before.raw@,
                before.analyses@[key].record_offset,
            ) is Some ==> crate::records::raw_at(after.raw@, after.analyses@[key].record_offset)
                == crate::records::raw_at(before.raw@, before.analyses@[key].record_offset)
        }),
        after.packs@ == before.packs@,
        after.versions@ == before.versions@,
        after.normalized@ == before.normalized@,
{
    let key = key_of(other, analyzer_version);
    lemma_key_parts(other, analyzer_version);
    lemma_key_parts(record.beatmap_id, record.analyzer_version);
    crate::records::law_appended_record_reads_back(before.raw@, record);
    assert(after.beatmaps@.remove(record.beatmap_id).contains_key(other)
        == after.beatmaps@.contains_key(other));
    assert(before.beatmaps@.remove(record.beatmap_id).contains_key(other)
        == before.beatmaps@.contains_key(other));
    assert(after.beatmaps@.remove(record.beatmap_id)[other] == after.beatmaps@[other]
        || !after.beatmaps@.contains_key(other));
    assert(before.beatmaps@.remove(record.beatmap_id)[other] == before.beatmaps@[other]
        || !before.beatmaps@.contains_key(other));
}

/// What can be appended: a record without mods whose beatmap has a finite rating of at least zero,
/// to a store whose snapshot is the current one.
pub proof fn law_only_plain_rated_records_are_appended(
    tables: Tables,
    metadata: BeatmapMetadata,
    record: RawFeatureRecord,
)
    ensures
        tables.append_refusal(metadata, record) is None <==> tables.snapshot_current()
            && record.mod_profile == 0 && (metadata.star_rating.bits < 0x7ff0_0000_0000_0000
            || metadata.star_rating.bits == 0x8000_0000_0000_0000),
        !tables.snapshot_current() ==> tables.append_refusal(metadata, record) == Some(
            StoreError::SnapshotMismatch,
        ),
        tables.snapshot_current() && record.mod_profile != 0 ==> tables.append_refusal(
            metadata,
            record,
        ) == Some(StoreError::ModProfile),
{
}

proof fn lemma_latest(
    analyses: Map<u128, AnalysisRow>,
    beatmap_id: u64,
    normalization: Option<u32>,
    analyzer_version: u32,
)
    requires
        keys_fit(analyses),
        analyses.contains_key(key_of(beatmap_id, analyzer_version)),
        normalization is Some ==> matches_normalization(
            analyses[key_of(beatmap_id, analyzer_version)],
            normalization,
        ),
        forall|later: u32|
            analyzer_version < later && analyses.contains_key(#[trigger] key_of(beatmap_id, later))
                ==> normalization is Some && !matches_normalization(
                analyses[key_of(beatmap_id, later)],
                normalization,
            ),
    ensures
        latest_of(analyses_for(analyses, beatmap_id, normalization)) == Some(
            key_of(beatmap_id, analyzer_version),
        ),
{
    let set = analyses_for(analyses, beatmap_id, normalization);
    let listed = crate::ordered::increasing(set);
    let key = key_of(beatmap_id, analyzer_version);
    crate::ordered::lemma_increasing_lists(set);
    lemma_key_parts(beatmap_id, analyzer_version);
    assert(set.contains(key as int));
    assert(listed.contains(key as int));
    let p = choose|p: int| 0 <= p < listed.len() && listed[p] == key;
    let last = listed.len() - 1;
    if p < last {
        assert(listed[p] < listed[last]);
        assert(listed.contains(listed[last]));
        assert(set.contains(listed[last]));
        let other = listed[last] as u128;
        let later = analyzer_of(other);
        assert(analyses.contains_key(other));
        assert(beatmap_of(other) == beatmap_id);
        lemma_key_whole(other);
        assert(other == key_of(beatmap_id, later));
        assert(analyzer_version < later);
    }
}

proof fn lemma_key_whole(key: u128)
    requires
        key / 0x1_0000_0000 <= u64::MAX,
    ensures
        key_of(beatmap_of(key), analyzer_of(key)) == key,
{
    lemma_key_parts(beatmap_of(key), analyzer_of(key));
    assert(key == (key / 0x1_0000_0000) * 0x1_0000_0000 + key % 0x1_0000_0000);
}

/// Looking up the raw record of a beatmap gives that of its latest analyzer version.
pub proof fn law_latest_raw_record_is_found(tables: Tables, beatmap_id: u64, analyzer_version: u32)
    requires
        tables.analyses@.contains_key(key_of(beatmap_id, analyzer_version)),
        forall|later: u32|
            analyzer_version < later ==> !tables.analyses@.contains_key(
                #[trigger] key_of(beatmap_id, later),
            ),
        keys_fit(tables.analyses@),
    ensures
        ({
            let offset = tables.analyses@[key_of(beatmap_id, analyzer_version)].record_offset;
            match crate::records::raw_at(tables.raw@, offset) {
                Some(record) => raw_for(tables, beatmap_id) == Ok::<RawFeatureRecord, StoreError>(
                    record,
                ),
                None => raw_for(tables, beatmap_id) == Err::<RawFeatureRecord, StoreError>(
                    StoreError::MissingRecord { offset },
                ),
            }
        }),
{
    lemma_latest(tables.analyses@, beatmap_id, None, analyzer_version);
}

/// Looking up the published record of a beatmap gives that of the latest analyzer version that is
/// published in the normalization version asked for.
pub proof fn law_latest_published_record_is_found(
    tables: Tables,
    version: u32,
    beatmap_id: u64,
    analyzer_version: u32,
)
    requires
        keys_fit(tables.analyses@),
        tables.analyses@.contains_key(key_of(beatmap_id, analyzer_version)),
        tables.analyses@[key_of(beatmap_id, analyzer_version)].status == 2,
        tables.analyses@[key_of(beatmap_id, analyzer_version)].normalization_version == version,
        tables.analyses@[key_of(beatmap_id, analyzer_version)].normalized_offset is Some,
        forall|later: u32|
            analyzer_version < later && tables.analyses@.contains_key(
                #[trigger] key_of(beatmap_id, later),
            ) ==> tables.analyses@[key_of(beatmap_id, later)].status != 2
                || tables.analyses@[key_of(beatmap_id, later)].normalization_version != version,
    ensures
        ({
            let analysis = tables.analyses@[key_of(beatmap_id, analyzer_version)];
            let offset = analysis.normalized_offset->Some_0;
            let file = tables.normalized@[version as u64]@;
            &&& tables.normalized@.contains_key(version as u64) && crate::records::normalized_at(
                file,
                offset,
            ) is Some ==> normalized_for(tables, version, beatmap_id) == Ok::<
                BeatmapFeatureRecord,
                StoreError,
            >(crate::records::normalized_at(file, offset)->Some_0)
            &&& !tables.normalized@.contains_key(version as u64) || crate::records::normalized_at(
                file,
                offset,
            ) is None ==> normalized_for(tables, version, beatmap_id) is Err
        }),
{
    lemma_latest(tables.analyses@, beatmap_id, Some(version), analyzer_version);
}

/// A beatmap that no analyzer version has analysed is unknown, and one that none has published in
/// a normalization version is unknown there.
pub proof fn law_unknown_beatmaps_are_not_found(tables: Tables, version: u32, beatmap_id: u64)
    requires
        keys_fit(tables.analyses@),
    ensures
        (forall|analyzer_version: u32|
            !tables.analyses@.contains_key(#[trigger] key_of(beatmap_id, analyzer_version)))
            ==> raw_for(tables, beatmap_id) == Err::<RawFeatureRecord, StoreError>(
            StoreError::UnknownBeatmap,
        ),
        (forall|analyzer_version: u32|
            tables.analyses@.contains_key(#[trigger] key_of(beatmap_id, analyzer_version))
                ==> tables.analyses@[key_of(beatmap_id, analyzer_version)].status != 2
                || tables.analyses@[key_of(beatmap_id, analyzer_version)].normalization_version
                != version) ==> normalized_for(tables, version, beatmap_id) == Err::<
            BeatmapFeatureRecord,
            StoreError,
        >(StoreError::UnknownNormalized),
{
    let all = analyses_for(tables.analyses@, beatmap_id, None);
    let published = analyses_for(tables.analyses@, beatmap_id, Some(version));
    crate::ordered::lemma_increasing_lists(all);
    crate::ordered::lemma_increasing_lists(published);
    let listed = crate::ordered::increasing(all);
    let shown = crate::ordered::increasing(published);
    if listed.len() > 0 {
        assert(listed.contains(listed[0]));
        assert(all.contains(listed[0]));
        let key = listed[0] as u128;
        assert(tables.analyses@.contains_key(key));
        lemma_key_whole(key);
        assert(tables.analyses@.contains_key(key_of(beatmap_id, analyzer_of(key))));
    }
    if shown.len() > 0 {
        assert(shown.contains(shown[0]));
        assert(published.contains(shown[0]));
        let key = shown[0] as u128;
        assert(tables.analyses@.contains_key(key));
        lemma_key_whole(key);
        assert(tables.analyses@.contains_key(key_of(beatmap_id, analyzer_of(key))));
    }
}

/// Which analyses are listed: those of one analyzer version whose raw features are stored, or
/// those that are published in a normalization version, by increasing key and each once.
pub proof fn law_selected_analyses(
    analyses: Map<u128, AnalysisRow>,
    analyzer_version: u32,
    normalization: Option<u32>,
    key: u128,
)
    ensures
        selected_keys(analyses, analyzer_version, normalization).contains(key as int) <==> {
            &&& analyses.contains_key(key)
            &&& key % 0x1_0000_0000 == analyzer_version
            &&& normalization is None ==> analyses[key].status == 1 || analyses[key].status == 2
            &&& normalization is Some ==> analyses[key].status == 2
                && analyses[key].normalization_version == normalization->Some_0
        },
        forall|i: int, j: int|
            0 <= i < j < selected_keys(analyses, analyzer_version, normalization).len() ==> (
            #[trigger] selected_keys(analyses, analyzer_version, normalization)[i]) < (
            #[trigger] selected_keys(analyses, analyzer_version, normalization)[j]),
{
    let set = selected(analyses, analyzer_version, normalization);
    crate::ordered::lemma_increasing_lists(set);
    assert(set.contains(key as int) <==> selected_keys(
        analyses,
        analyzer_version,
        normalization,
    ).contains(key as int));
}

/// Reading the raw records gives, for each analysis of the current analyzer version whose features
/// are stored, what it points to in the raw file, in the order in which the analyses are listed.
/// It fails where the snapshot is not current, where one of their beatmaps has no stars, or where
/// a record is missing, and only there.
pub proof fn law_raw_records_are_those_of_the_active_analyses(tables: Tables)
    ensures
        raw_outcome(tables) matches Ok(records) ==> {
            let keys = selected_keys(tables.analyses@, ANALYZER_VERSION, None);
            &&& records.len() == keys.len()
            &&& forall|i: int|
                0 <= i < keys.len() ==> crate::records::raw_at(
                    tables.raw@,
                    tables.analyses@[(#[trigger] keys[i]) as u128].record_offset,
                ) == Some(records[i])
        },
        raw_outcome(tables) is Ok <==> {
            let keys = selected_keys(tables.analyses@, ANALYZER_VERSION, None);
            &&& tables.snapshot_current()
            &&& forall|i: int|
                0 <= i < keys.len() ==> !lacks_stars(tables.beatmaps@, #[trigger] keys[i])
            &&& forall|i: int|
                0 <= i < keys.len() ==> crate::records::raw_at(
                    tables.raw@,
                    tables.analyses@[(#[trigger] keys[i]) as u128].record_offset,
                ) is Some
        },
        forall|key: int| #[trigger]
            lacks_stars(tables.beatmaps@, key) <==> ({
                let id = ((key as u128) / 0x1_0000_0000) as u64;
                &&& tables.beatmaps@.contains_key(id)
                &&& tables.beatmaps@[id].star_rating is None
                    || tables.beatmaps@[id].star_section is None
            }),
{
    let keys = selected_keys(tables.analyses@, ANALYZER_VERSION, None);
    lemma_lacking_stars(tables.beatmaps@, keys);
    lemma_first_raw_missing(tables, keys, 0);
}

proof fn lemma_lacking_stars(beatmaps: Map<u64, BeatmapRow>, keys: Seq<int>)
    ensures
        lacking_stars(beatmaps, keys) == 0 <==> forall|i: int|
            0 <= i < keys.len() ==> !lacks_stars(beatmaps, #[trigger] keys[i]),
        lacking_stars(beatmaps, keys) == keys.filter(
            |key: int| lacks_stars(beatmaps, key),
        ).len(),
    decreases keys.len(),
{
    reveal(Seq::filter);
    if keys.len() > 0 {
        lemma_lacking_stars(beatmaps, keys.drop_last());
        if lacking_stars(beatmaps, keys) == 0 {
            assert forall|i: int| 0 <= i < keys.len() implies !lacks_stars(
                beatmaps,
                #[trigger] keys[i],
            ) by {
                if i < keys.len() - 1 {
                    assert(keys.drop_last()[i] == keys[i]);
                }
            }
        }
        if forall|i: int| 0 <= i < keys.len() ==> !lacks_stars(beatmaps, #[trigger] keys[i]) {
            assert(!lacks_stars(beatmaps, keys[keys.len() - 1]));
            assert forall|i: int| 0 <= i < keys.drop_last().len() implies !lacks_stars(
                beatmaps,
                #[trigger] keys.drop_last()[i],
            ) by {
                assert(keys[i] == keys.drop_last()[i]);
            }
        }
    }
}

/// How many records lack stars is said exactly.
pub proof fn law_missing_stars_are_counted(tables: Tables)
    ensures
        raw_outcome(tables) matches Err(StoreError::MissingStars { count }) ==> {
            let keys = selected_keys(tables.analyses@, ANALYZER_VERSION, None);
            count == keys.filter(|key: int| lacks_stars(tables.beatmaps@, key)).len() as u64
        },
{
    lemma_lacking_stars(
        tables.beatmaps@,
        selected_keys(tables.analyses@, ANALYZER_VERSION, None),
    );
}

proof fn lemma_first_raw_missing(tables: Tables, keys: Seq<int>, from: int)
    requires
        0 <= from,
    ensures
        first_raw_missing(tables, keys, from) is None <==> forall|i: int|
            from <= i < keys.len() ==> crate::records::raw_at(
                tables.raw@,
                tables.analyses@[(#[trigger] keys[i]) as u128].record_offset,
            ) is Some,
    decreases keys.len() - from,
{
    if from < keys.len() {
        lemma_first_raw_missing(tables, keys, from + 1);
    }
}

/// What a reanalysis gives up: exactly the analyses and statistics of the current analyzer
/// version. All others stay as they are and in order.
pub proof fn law_reanalysis_gives_up_one_version(
    analyses: Map<u128, AnalysisRow>,
    stats: Seq<StatsRow>,
    analyzer_version: u32,
)
    ensures
        forall|key: u128| #[trigger]
            analyses_without(analyses, analyzer_version).contains_key(key)
                <==> analyses.contains_key(key) && key % 0x1_0000_0000 != analyzer_version,
        forall|key: u128| #[trigger]
            analyses_without(analyses, analyzer_version).contains_key(key) ==> analyses_without(
                analyses,
                analyzer_version,
            )[key] == analyses[key],
        stats_without(stats, analyzer_version) == stats.filter(
            |row: StatsRow| row.stats.analyzer_version != analyzer_version,
        ),
    decreases stats.len(),
{
    reveal(Seq::filter);
    if stats.len() > 0 {
        law_reanalysis_gives_up_one_version(analyses, stats.drop_last(), analyzer_version);
    }
}

/// When a reanalysis is due: whenever the stored snapshot is not the current one, and, with an
/// index published, also while the current analyzer version has no analysis.
pub proof fn law_reanalysis_is_due(tables: Tables, has_published_index: bool)
    ensures
        reanalysis_due(tables, has_published_index) <==> !tables.snapshot_current() || (
        has_published_index && forall|key: u128| #[trigger]
            tables.analyses@.contains_key(key) ==> key % 0x1_0000_0000 != ANALYZER_VERSION),
        tables.snapshot_current() <==> tables.versions@.contains_key(ANALYZER_VERSION as u64)
            && tables.versions@[ANALYZER_VERSION as u64].algorithm_id@ == ANALYZER_ALGORITHM_ID@
            && tables.versions@[ANALYZER_VERSION as u64].rosu_pp_version@ == ROSU_PP_VERSION@
            && tables.versions@[ANALYZER_VERSION as u64].reading_version@
            == READING_ALGORITHM_VERSION@
            && tables.versions@[ANALYZER_VERSION as u64].overlap_version@
            == OVERLAP_ALGORITHM_VERSION@,
{
    if has_published_index && forall|key: u128| #[trigger]
        tables.analyses@.contains_key(key) ==> key % 0x1_0000_0000 != ANALYZER_VERSION {
        if tables.has_analysis_of(ANALYZER_VERSION) {
            let key = choose|key: u128| #[trigger]
                tables.analyses@.contains_key(key) && analyzer_of(key) == ANALYZER_VERSION;
            assert(tables.analyses@.contains_key(key));
        }
    }
    if !tables.has_analysis_of(ANALYZER_VERSION) {
        assert forall|key: u128| #[trigger] tables.analyses@.contains_key(key) implies key
            % 0x1_0000_0000 != ANALYZER_VERSION by {
            assert(analyzer_of(key) != ANALYZER_VERSION);
        }
    }
}

/// The state of a pack is that of the first row with its identifier, and a pack without a row has
/// none.
pub proof fn law_packs_are_found_by_identifier(packs: Seq<PackRow>, id: Seq<char>, at: int)
    requires
        0 <= at <= packs.len(),
        forall|i: int| 0 <= i < at ==> (#[trigger] packs[i]).pack_id@ != id,
        at < packs.len() ==> packs[at].pack_id@ == id,
    ensures
        at == packs.len() ==> pack_state(packs, id) is None,
        at < packs.len() ==> {
            &&& pack_state(packs, id) is Some
            &&& pack_state(packs, id)->Some_0.source_url == packs[at].source_url@
            &&& pack_state(packs, id)->Some_0.status == packs[at].status@
            &&& pack_state(packs, id)->Some_0.last_error is Some == packs[at].last_error is Some
            &&& packs[at].last_error is Some ==> pack_state(packs, id)->Some_0.last_error == Some(
                packs[at].last_error->Some_0@,
            )
        },
{
    if at < packs.len() {
        lemma_pack_row_found(packs, id, 0, at);
    } else {
        lemma_pack_row_missing(packs, id, 0);
    }
}

} // verus!
