//! Publishing normalized records and their statistics.
//!
//! Statistics are kept per tenth of a star and analyzer version. Which records belong
//! together is decided here; the sums over them are floating-point work of the caller.

use std::collections::BTreeMap;

use vstd::prelude::*;

use crate::float_bits::F64;
use crate::ordered::keys128;
use crate::records::{normalized_file, HEADER_LEN, NORMALIZED_RECORD_SIZE};
use crate::sorting::{order_of, Sortable};
use crate::store::{
    analysis_key, AnalysisRow, FeatureStore, StatsRow, StoreError, Tables, MAX_RECORDS,
};
use crate::types::{
    BeatmapFeatureRecord, BeatmapMetadata, DimensionSums, RawFeatureRecord, StarSectionStats,
    ANALYZER_VERSION,
};

verus! {

broadcast use vstd::std_specs::btree::group_btree_axioms;

// Reading published records

/// Whether a record is what the store says it is.
pub open spec fn is_consistent(record: BeatmapFeatureRecord, version: u32) -> bool {
    &&& record.analyzer_version == ANALYZER_VERSION
    &&& record.normalization_version == version
    &&& record.mod_profile == 0
}

/// The first of the analyses `keys`, from `from` on, that points to no normalized record.
pub open spec fn first_without_offset(
    analyses: Map<u128, AnalysisRow>,
    keys: Seq<int>,
    from: int,
) -> Option<int>
    decreases keys.len() - from,
{
    if from < 0 || from >= keys.len() {
        None
    } else if analyses[keys[from] as u128].normalized_offset is None {
        Some(from)
    } else {
        first_without_offset(analyses, keys, from + 1)
    }
}

/// The first of the analyses `keys`, from `from` on, whose normalized record cannot be read.
pub open spec fn first_unreadable(
    tables: Tables,
    version: u32,
    keys: Seq<int>,
    from: int,
) -> Option<int>
    decreases keys.len() - from,
{
    if from < 0 || from >= keys.len() {
        None
    } else if crate::store::published_at(tables, version, keys[from] as u128) is Err {
        Some(from)
    } else {
        first_unreadable(tables, version, keys, from + 1)
    }
}

/// The first of `records`, from `from` on, that is not what the store says it is.
pub open spec fn first_inconsistent(
    records: Seq<BeatmapFeatureRecord>,
    version: u32,
    from: int,
) -> Option<int>
    decreases records.len() - from,
{
    if from < 0 || from >= records.len() {
        None
    } else if !is_consistent(records[from], version) {
        Some(from)
    } else {
        first_inconsistent(records, version, from + 1)
    }
}

/// The normalized records that the analyses `keys` point to.
pub open spec fn published_records(
    tables: Tables,
    version: u32,
    keys: Seq<int>,
) -> Seq<BeatmapFeatureRecord> {
    Seq::new(
        keys.len(),
        |i: int| crate::store::published_at(tables, version, keys[i] as u128)->Ok_0,
    )
}

/// What reading all published records of a normalization version gives.
pub open spec fn normalized_outcome(tables: Tables, version: u32) -> Result<
    Seq<BeatmapFeatureRecord>,
    StoreError,
> {
    let keys = crate::store::selected_keys(tables.analyses@, ANALYZER_VERSION, Some(version));
    let records = published_records(tables, version, keys);
    if !tables.snapshot_current() {
        Err(StoreError::SnapshotMismatch)
    } else if first_without_offset(tables.analyses@, keys, 0) is Some {
        Err(StoreError::UnknownNormalized)
    } else {
        match first_unreadable(tables, version, keys, 0) {
            Some(i) => Err(
                crate::store::published_at(tables, version, keys[i] as u128)->Err_0,
            ),
            None => match first_inconsistent(records, version, 0) {
                Some(i) => Err(
                    StoreError::InconsistentRecord { beatmap_id: records[i].beatmap_id },
                ),
                None => Ok(records),
            },
        }
    }
}

impl FeatureStore {
    /// The published records of a normalization version, by increasing beatmap identifier.
    pub fn normalized_records(&self, version: u32) -> (outcome: Result<
        Vec<BeatmapFeatureRecord>,
        StoreError,
    >)
        ensures
            match (outcome, normalized_outcome(self.tables, version)) {
                (Ok(records), Ok(expected)) => records@ == expected,
                (Err(error), Err(expected)) => error == expected,
                _ => false,
            },
    {
        if !self.algorithm_snapshot_matches() {
            return Err(StoreError::SnapshotMismatch);
        }
        let keys: Vec<u128> = self.select(ANALYZER_VERSION, Some(version));
        let ghost listed = crate::ordered::list128(keys@);
        let mut offsets: Vec<u64> = Vec::new();
        let mut i: usize = 0;
        while i < keys.len()
            invariant
                i <= keys@.len(),
                listed == crate::ordered::list128(keys@),
                listed == crate::store::selected_keys(
                    self.tables.analyses@,
                    ANALYZER_VERSION,
                    Some(version),
                ),
                self.tables.snapshot_current(),
                forall|j: int|
                    0 <= j < keys@.len() ==> self.tables.analyses@.contains_key(
                        #[trigger] keys@[j],
                    ),
                first_without_offset(self.tables.analyses@, listed, 0) == first_without_offset(
                    self.tables.analyses@,
                    listed,
                    i as int,
                ),
                offsets@.len() == i,
                forall|j: int|
                    0 <= j < i ==> self.tables.analyses@[keys@[j]].normalized_offset == Some(
                        #[trigger] offsets@[j],
                    ),
            decreases keys@.len() - i,
        {
            assert(self.tables.analyses@.contains_key(keys@[i as int]));
            assert(listed[i as int] == keys@[i as int]);
            if let Some(row) = self.tables.analyses.get(&keys[i]) {
                match row.normalized_offset {
                    Some(offset) => {
                        offsets.push(offset);
                    },
                    None => {
                        return Err(StoreError::UnknownNormalized);
                    },
                }
            }
            i = i + 1;
        }
        let mut records: Vec<BeatmapFeatureRecord> = Vec::new();
        let mut k: usize = 0;
        while k < offsets.len()
            invariant
                k <= offsets@.len(),
                offsets@.len() == keys@.len(),
                listed == crate::ordered::list128(keys@),
                listed == crate::store::selected_keys(
                    self.tables.analyses@,
                    ANALYZER_VERSION,
                    Some(version),
                ),
                self.tables.snapshot_current(),
                first_without_offset(self.tables.analyses@, listed, 0) is None,
                forall|j: int|
                    0 <= j < offsets@.len() ==> self.tables.analyses@[keys@[j]].normalized_offset
                        == Some(#[trigger] offsets@[j]),
                first_unreadable(self.tables, version, listed, 0) == first_unreadable(
                    self.tables,
                    version,
                    listed,
                    k as int,
                ),
                records@.len() == k,
                forall|j: int|
                    0 <= j < k ==> records@[j] == crate::store::published_at(
                        self.tables,
                        version,
                        listed[j] as u128,
                    )->Ok_0,
            decreases offsets@.len() - k,
        {
            assert(listed[k as int] == keys@[k as int]);
            let offset: u64 = offsets[k];
            assert(self.tables.analyses@[keys@[k as int]].normalized_offset == Some(
                offsets@[k as int],
            ));
            match self.read_normalized(version, offset) {
                Some(record) => {
                    records.push(record);
                },
                None => {
                    return Err(StoreError::MissingRecord { offset });
                },
            }
            k = k + 1;
        }
        assert(records@ =~= published_records(self.tables, version, listed));
        let mut r: usize = 0;
        while r < records.len()
            invariant
                r <= records@.len(),
                listed == crate::store::selected_keys(
                    self.tables.analyses@,
                    ANALYZER_VERSION,
                    Some(version),
                ),
                self.tables.snapshot_current(),
                first_without_offset(self.tables.analyses@, listed, 0) is None,
                first_unreadable(self.tables, version, listed, 0) is None,
                records@ == published_records(self.tables, version, listed),
                first_inconsistent(records@, version, 0) == first_inconsistent(
                    records@,
                    version,
                    r as int,
                ),
            decreases records@.len() - r,
        {
            let record: &BeatmapFeatureRecord = &records[r];
            if record.analyzer_version != ANALYZER_VERSION || record.normalization_version
                != version || record.mod_profile != 0 {
                return Err(StoreError::InconsistentRecord { beatmap_id: record.beatmap_id });
            }
            r = r + 1;
        }
        Ok(records)
    }
}

// Grouping

/// The stored rating and section of a record's beatmap, if it has an active analysis.
pub open spec fn stored_stars(tables: Tables, record: BeatmapFeatureRecord) -> Option<(F64, i64)> {
    let key = crate::store::key_of(record.beatmap_id, record.analyzer_version);
    if tables.beatmaps@.contains_key(record.beatmap_id) && tables.analyses@.contains_key(key)
        && crate::store::is_active(tables.analyses@[key]) {
        let row = tables.beatmaps@[record.beatmap_id];
        match (row.star_rating, row.star_section) {
            (Some(rating), Some(section)) => Some((rating, section)),
            _ => None,
        }
    } else {
        None
    }
}

/// Whether two records are of the same analysis.
pub open spec fn same_analysis(left: BeatmapFeatureRecord, right: BeatmapFeatureRecord) -> bool {
    left.beatmap_id == right.beatmap_id && left.analyzer_version == right.analyzer_version
}

/// Whether the record at `i` is of the same analysis as an earlier one.
pub open spec fn is_repeated(records: Seq<BeatmapFeatureRecord>, i: int) -> bool {
    exists|j: int| 0 <= j < i && same_analysis(#[trigger] records[j], records[i])
}

/// Whether every dimension of the difficulty is finite.
pub open spec fn finite_difficulty(record: BeatmapFeatureRecord) -> bool {
    &&& record.difficulty.aim.finite()
    &&& record.difficulty.speed.finite()
    &&& record.difficulty.reading.finite()
    &&& record.difficulty.slider.finite()
    &&& record.difficulty.overlap.finite()
}

/// Whether the base parameters that are counted are finite.
pub open spec fn finite_base(record: BeatmapFeatureRecord) -> bool {
    record.base.ar.finite() && record.base.cs.finite() && record.base.od.finite()
}

/// Why the record at `i` cannot be published, where `sections` are the star sections that the
/// stored ratings of the records belong to.
pub open spec fn record_fault(
    tables: Tables,
    version: u32,
    records: Seq<BeatmapFeatureRecord>,
    sections: Seq<i64>,
    i: int,
) -> Option<StoreError> {
    let record = records[i];
    let beatmap_id = record.beatmap_id;
    if record.mod_profile != 0 {
        Some(StoreError::NormalizedModProfile)
    } else if record.normalization_version != version {
        Some(
            StoreError::RecordVersion {
                beatmap_id,
                declared: record.normalization_version,
                expected: version,
            },
        )
    } else if is_repeated(records, i) {
        Some(StoreError::DuplicateRecord { beatmap_id })
    } else if !finite_difficulty(record) {
        Some(StoreError::NonFiniteDifficulty { beatmap_id })
    } else if !finite_base(record) {
        Some(StoreError::NonFiniteBase { beatmap_id })
    } else {
        match stored_stars(tables, record) {
            None => Some(StoreError::MissingStarMetadata { beatmap_id }),
            Some((rating, section)) => if !crate::store::is_star_rating(rating) {
                Some(StoreError::StarRating)
            } else if sections[i] != section {
                Some(StoreError::InconsistentStars { beatmap_id })
            } else {
                None
            },
        }
    }
}

/// What is wrong with the first record, from `from` on, that cannot be published.
pub open spec fn first_fault(
    tables: Tables,
    version: u32,
    records: Seq<BeatmapFeatureRecord>,
    sections: Seq<i64>,
    from: int,
) -> Option<StoreError>
    decreases records.len() - from,
{
    if from < 0 || from >= records.len() {
        None
    } else {
        match record_fault(tables, version, records, sections, from) {
            Some(error) => Some(error),
            None => first_fault(tables, version, records, sections, from + 1),
        }
    }
}

/// The rank of a group of statistics: by star section, then by analyzer version.
pub open spec fn group_code(section: i64, analyzer_version: u32) -> int {
    (section + 0x8000_0000_0000_0000) * 0x1_0000_0000 + analyzer_version
}

/// The rank of the group of each record.
pub open spec fn codes_of(records: Seq<BeatmapFeatureRecord>, sections: Seq<i64>) -> Seq<int> {
    Seq::new(records.len(), |i: int| group_code(sections[i], records[i].analyzer_version))
}

/// The ranks that occur, in increasing order.
pub open spec fn group_codes(codes: Seq<int>) -> Seq<int> {
    crate::ordered::increasing(codes.to_set())
}

/// The positions at which `code` stands, in increasing order.
pub open spec fn members_of(codes: Seq<int>, code: int) -> Seq<int>
    decreases codes.len(),
{
    if codes.len() == 0 {
        seq![]
    } else if codes.last() == code {
        members_of(codes.drop_last(), code).push(codes.len() - 1)
    } else {
        members_of(codes.drop_last(), code)
    }
}

/// The records of one star section and analyzer version, by their positions.
pub struct StarGroup {
    pub star_section: i64,
    pub analyzer_version: u32,
    pub members: Vec<usize>,
}

/// Whether `groups` are the groups of records with the given ranks, in increasing order.
pub open spec fn groups_records(codes: Seq<int>, groups: Seq<StarGroup>) -> bool {
    &&& groups.len() == group_codes(codes).len()
    &&& forall|g: int|
        0 <= g < groups.len() ==> group_code(
            (#[trigger] groups[g]).star_section,
            groups[g].analyzer_version,
        ) == group_codes(codes)[g] && crate::sorting::positions(groups[g].members@) == members_of(
            codes,
            group_codes(codes)[g],
        )
}

fn group_key(section: i64, analyzer_version: u32) -> (key: u128)
    ensures
        key == group_code(section, analyzer_version),
{
    (((section as i128) + 0x8000_0000_0000_0000) as u128) * 0x1_0000_0000 + analyzer_version as u128
}

impl FeatureStore {
    /// The stored star rating of a record's beatmap, if it has an active analysis.
    pub fn stored_rating(&self, record: &BeatmapFeatureRecord) -> (rating: Option<F64>)
        ensures
            rating == match stored_stars(self.tables, *record) {
                Some(stars) => Some(stars.0),
                None => None,
            },
    {
        match self.stars_of(record) {
            Some(stars) => Some(stars.0),
            None => None,
        }
    }

    fn stars_of(&self, record: &BeatmapFeatureRecord) -> (stars: Option<(F64, i64)>)
        ensures
            stars == stored_stars(self.tables, *record),
    {
        let key: u128 = analysis_key(record.beatmap_id, record.analyzer_version);
        let active: bool = match self.tables.analyses.get(&key) {
            Some(row) => row.status == 1 || row.status == 2,
            None => false,
        };
        if !active {
            return None;
        }
        match self.tables.beatmaps.get(&record.beatmap_id) {
            Some(row) => match (row.star_rating, row.star_section) {
                (Some(rating), Some(section)) => Some((rating, section)),
                _ => None,
            },
            None => None,
        }
    }

    /// What is wrong with one record, apart from being repeated.
    fn fault_of(
        &self,
        version: u32,
        record: &BeatmapFeatureRecord,
        repeated: bool,
        section: i64,
        Ghost(records): Ghost<Seq<BeatmapFeatureRecord>>,
        Ghost(sections): Ghost<Seq<i64>>,
        Ghost(i): Ghost<int>,
    ) -> (fault: Option<StoreError>)
        requires
            records[i] == *record,
            sections[i] == section,
            record.mod_profile == 0 ==> repeated == is_repeated(records, i),
        ensures
            fault == record_fault(self.tables, version, records, sections, i),
    {
        let beatmap_id: u64 = record.beatmap_id;
        if record.mod_profile != 0 {
            return Some(StoreError::NormalizedModProfile);
        }
        if record.normalization_version != version {
            return Some(
                StoreError::RecordVersion {
                    beatmap_id,
                    declared: record.normalization_version,
                    expected: version,
                },
            );
        }
        if repeated {
            return Some(StoreError::DuplicateRecord { beatmap_id });
        }
        if !record.difficulty.aim.is_finite() || !record.difficulty.speed.is_finite()
            || !record.difficulty.reading.is_finite() || !record.difficulty.slider.is_finite()
            || !record.difficulty.overlap.is_finite() {
            return Some(StoreError::NonFiniteDifficulty { beatmap_id });
        }
        if !record.base.ar.is_finite() || !record.base.cs.is_finite()
            || !record.base.od.is_finite() {
            return Some(StoreError::NonFiniteBase { beatmap_id });
        }
        match self.stars_of(record) {
            None => Some(StoreError::MissingStarMetadata { beatmap_id }),
            Some(stars) => {
                if !stars.0.is_finite() || !stars.0.is_at_least_zero() {
                    return Some(StoreError::StarRating);
                }
                if section != stars.1 {
                    return Some(StoreError::InconsistentStars { beatmap_id });
                }
                None
            },
        }
    }

    /// Checks that `records` can be published, where `sections` are the star sections that
    /// their stored ratings belong to.
    fn check_records(
        &self,
        version: u32,
        records: &Vec<BeatmapFeatureRecord>,
        sections: &Vec<i64>,
    ) -> (fault: Option<StoreError>)
        requires
            sections@.len() == records@.len(),
        ensures
            fault == first_fault(self.tables, version, records@, sections@, 0),
    {
        let mut seen: BTreeMap<u128, bool> = BTreeMap::new();
        let mut i: usize = 0;
        while i < records.len()
            invariant
                i <= records@.len(),
                sections@.len() == records@.len(),
                first_fault(self.tables, version, records@, sections@, 0) == first_fault(
                    self.tables,
                    version,
                    records@,
                    sections@,
                    i as int,
                ),
                forall|key: u128| #[trigger]
                    seen@.contains_key(key) <==> exists|j: int|
                        0 <= j < i && crate::store::key_of(
                            (#[trigger] records@[j]).beatmap_id,
                            records@[j].analyzer_version,
                        ) == key,
            decreases records@.len() - i,
        {
            let record: &BeatmapFeatureRecord = &records[i];
            let key: u128 = analysis_key(record.beatmap_id, record.analyzer_version);
            let ghost before = seen@;
            let repeated: bool = seen.contains_key(&key);
            proof {
                if repeated {
                    let j = choose|j: int|
                        0 <= j < i && crate::store::key_of(
                            (#[trigger] records@[j]).beatmap_id,
                            records@[j].analyzer_version,
                        ) == key;
                    crate::store::lemma_key_parts(
                        records@[j].beatmap_id,
                        records@[j].analyzer_version,
                    );
                    assert(same_analysis(records@[j], records@[i as int]));
                }
                if is_repeated(records@, i as int) {
                    let j = choose|j: int|
                        0 <= j < i && same_analysis(#[trigger] records@[j], records@[i as int]);
                    assert(crate::store::key_of(
                        records@[j].beatmap_id,
                        records@[j].analyzer_version,
                    ) == key);
                }
            }
            if let Some(error) = self.fault_of(
                version,
                record,
                repeated,
                sections[i],
                Ghost(records@),
                Ghost(sections@),
                Ghost(i as int),
            ) {
                return Some(error);
            }
            seen.insert(key, true);
            proof {
                assert forall|other: u128| #[trigger] seen@.contains_key(other) <==> exists|j: int|
                    0 <= j < i + 1 && crate::store::key_of(
                        (#[trigger] records@[j]).beatmap_id,
                        records@[j].analyzer_version,
                    ) == other by {
                    if seen@.contains_key(other) {
                        if other == key {
                            assert(crate::store::key_of(
                                records@[i as int].beatmap_id,
                                records@[i as int].analyzer_version,
                            ) == other);
                        } else {
                            assert(before.contains_key(other));
                        }
                    }
                    if exists|j: int|
                        0 <= j < i + 1 && crate::store::key_of(
                            (#[trigger] records@[j]).beatmap_id,
                            records@[j].analyzer_version,
                        ) == other {
                        let j = choose|j: int|
                            0 <= j < i + 1 && crate::store::key_of(
                                (#[trigger] records@[j]).beatmap_id,
                                records@[j].analyzer_version,
                            ) == other;
                        if j < i {
                            assert(before.contains_key(other));
                        }
                    }
                }
            }
            i = i + 1;
        }
        None
    }
}

/// Groups records by star section and analyzer version.
fn group_records(records: &Vec<BeatmapFeatureRecord>, sections: &Vec<i64>) -> (groups: Vec<
    StarGroup,
>)
    requires
        sections@.len() == records@.len(),
    ensures
        groups_records(codes_of(records@, sections@), groups@),
{
    let ghost codes = codes_of(records@, sections@);
    let mut found: BTreeMap<u128, Vec<usize>> = BTreeMap::new();
    let mut i: usize = 0;
    assert(codes.take(0) =~= seq![]);
    while i < records.len()
        invariant
            i <= records@.len(),
            sections@.len() == records@.len(),
            codes == codes_of(records@, sections@),
            forall|key: u128|
                #![trigger found@.contains_key(key)]
                found@.contains_key(key) == (members_of(codes.take(i as int), key as int).len()
                    > 0) && (found@.contains_key(key) ==> crate::sorting::positions(found@[key]@)
                    == members_of(codes.take(i as int), key as int)),
        decreases records@.len() - i,
    {
        let key: u128 = group_key(sections[i], records[i].analyzer_version);
        let ghost before = found@;
        proof {
            assert(codes.take(i + 1).drop_last() =~= codes.take(i as int));
            assert(codes.take(i + 1).last() == key);
        }
        let mut members: Vec<usize> = match found.remove(&key) {
            Some(members) => members,
            None => Vec::new(),
        };
        let ghost earlier = members@;
        members.push(i);
        found.insert(key, members);
        proof {
            assert forall|other: u128|
                #![trigger found@.contains_key(other)]
                found@.contains_key(other) == (members_of(codes.take(i + 1), other as int).len()
                    > 0) && (found@.contains_key(other) ==> crate::sorting::positions(
                    found@[other]@,
                ) == members_of(codes.take(i + 1), other as int)) by {
                let old_members = members_of(codes.take(i as int), other as int);
                assert(before.contains_key(other) == (old_members.len() > 0));
                if other == key {
                    if !before.contains_key(key) {
                        assert(old_members =~= seq![]);
                    }
                    assert(crate::sorting::positions(earlier) =~= old_members);
                    assert(crate::sorting::positions(found@[other]@) =~= old_members.push(
                        i as int,
                    ));
                } else {
                    assert(found@.contains_key(other) == before.contains_key(other));
                }
            }
        }
        i = i + 1;
    }
    assert(codes.take(codes.len() as int) =~= codes);
    let keys: Vec<u128> = keys128(&found);
    let ghost listed = crate::ordered::list128(keys@);
    proof {
        let ids = crate::ordered::ints128(found@.dom());
        assert forall|code: int| ids.contains(code) == codes.to_set().contains(code) by {
            lemma_members_exist(codes, code);
            if codes.contains(code) {
                let p = choose|p: int| 0 <= p < codes.len() && codes[p] == code;
                assert(0 <= code <= u128::MAX);
                assert(found@.contains_key(code as u128) == (members_of(
                    codes,
                    code as u128 as int,
                ).len() > 0));
            }
            if ids.contains(code) {
                assert(found@.contains_key(code as u128));
            }
        }
        assert(ids =~= codes.to_set());
    }
    let mut groups: Vec<StarGroup> = Vec::new();
    let mut k: usize = 0;
    while k < keys.len()
        invariant
            k <= keys@.len(),
            listed == crate::ordered::list128(keys@),
            listed == group_codes(codes),
            forall|j: int| 0 <= j < keys@.len() ==> found@.contains_key(#[trigger] keys@[j]),
            forall|key: u128|
                #![trigger found@.contains_key(key)]
                found@.contains_key(key) == (members_of(codes, key as int).len() > 0) && (
                found@.contains_key(key) ==> crate::sorting::positions(found@[key]@) == members_of(
                    codes,
                    key as int,
                )),
            codes == codes_of(records@, sections@),
            groups@.len() == k,
            forall|g: int|
                0 <= g < k ==> group_code(
                    (#[trigger] groups@[g]).star_section,
                    groups@[g].analyzer_version,
                ) == listed[g] && crate::sorting::positions(groups@[g].members@) == members_of(
                    codes,
                    listed[g],
                ),
        decreases keys@.len() - k,
    {
        let key: u128 = keys[k];
        assert(found@.contains_key(keys@[k as int]));
        assert(listed[k as int] == key);
        proof {
            lemma_members_exist(codes, key as int);
            let p = choose|p: int| 0 <= p < codes.len() && codes[p] == key;
            assert(key == group_code(sections@[p], records@[p].analyzer_version));
        }
        let shifted: u128 = key / 0x1_0000_0000;
        let star_section: i64 = ((shifted as i128) - 0x8000_0000_0000_0000) as i64;
        let analyzer_version: u32 = (key % 0x1_0000_0000) as u32;
        if let Some(found_members) = found.get(&key) {
            let mut members: Vec<usize> = Vec::new();
            let mut m: usize = 0;
            while m < found_members.len()
                invariant
                    m <= found_members@.len(),
                    members@ == found_members@.take(m as int),
                decreases found_members@.len() - m,
            {
                members.push(found_members[m]);
                assert(found_members@.take(m + 1) =~= found_members@.take(m as int).push(
                    found_members@[m as int],
                ));
                m = m + 1;
            }
            assert(members@ =~= found_members@);
            groups.push(StarGroup { star_section, analyzer_version, members });
        }
        k = k + 1;
    }
    groups
}

/// A code has members exactly when it occurs.
proof fn lemma_members_exist(codes: Seq<int>, code: int)
    ensures
        members_of(codes, code).len() > 0 <==> codes.contains(code),
    decreases codes.len(),
{
    if codes.len() > 0 {
        let front = codes.drop_last();
        lemma_members_exist(front, code);
        if codes.contains(code) {
            let p = choose|p: int| 0 <= p < codes.len() && codes[p] == code;
            if p < front.len() {
                assert(front[p] == code);
            }
        }
        if front.contains(code) {
            let p = choose|p: int| 0 <= p < front.len() && front[p] == code;
            assert(codes[p] == code);
        }
        if codes.last() == code {
            assert(codes[codes.len() - 1] == code);
        }
    }
}

impl FeatureStore {
    /// The records that belong together in the statistics of `records`, by their positions, or
    /// what keeps these from being published. `sections` are the star sections that the stored
    /// ratings of the records belong to.
    pub fn aggregate_star_section_stats(
        &self,
        version: u32,
        records: &Vec<BeatmapFeatureRecord>,
        sections: &Vec<i64>,
    ) -> (outcome: Result<Vec<StarGroup>, StoreError>)
        requires
            sections@.len() == records@.len(),
        ensures
            match first_fault(self.tables, version, records@, sections@, 0) {
                Some(error) => outcome matches Err(reported) && reported == error,
                None => outcome matches Ok(groups) && groups_records(
                    codes_of(records@, sections@),
                    groups@,
                ),
            },
    {
        match self.check_records(version, records, sections) {
            Some(error) => Err(error),
            None => Ok(group_records(records, sections)),
        }
    }
}

// Statistics

/// The sums over the records of one group, and over their squares.
#[derive(Clone, Copy, Debug, PartialEq, Eq, Structural)]
pub struct SectionSums {
    pub sums: DimensionSums,
    pub sum_squares: DimensionSums,
    pub ar_sum: F64,
    pub cs_sum: F64,
    pub od_sum: F64,
    pub ar_sum_squares: F64,
    pub cs_sum_squares: F64,
    pub od_sum_squares: F64,
}

/// The star section of a group.
pub open spec fn code_section(code: int) -> i64 {
    (code / 0x1_0000_0000 - 0x8000_0000_0000_0000) as i64
}

/// The analyzer version of a group.
pub open spec fn code_analyzer(code: int) -> u32 {
    (code % 0x1_0000_0000) as u32
}

/// The statistics of one group.
pub open spec fn stats_of_group(
    codes: Seq<int>,
    code: int,
    version: u32,
    sums: SectionSums,
) -> StarSectionStats {
    StarSectionStats {
        star_section: code_section(code),
        analyzer_version: code_analyzer(code),
        normalization_version: version,
        sample_count: members_of(codes, code).len() as u64,
        sums: sums.sums,
        sum_squares: sums.sum_squares,
        ar_sum: sums.ar_sum,
        cs_sum: sums.cs_sum,
        od_sum: sums.od_sum,
        ar_sum_squares: sums.ar_sum_squares,
        cs_sum_squares: sums.cs_sum_squares,
        od_sum_squares: sums.od_sum_squares,
    }
}

/// The statistics of all groups, in increasing order.
pub open spec fn stats_of_records(
    codes: Seq<int>,
    version: u32,
    sums: Seq<SectionSums>,
) -> Seq<StarSectionStats> {
    Seq::new(
        group_codes(codes).len(),
        |g: int| stats_of_group(codes, group_codes(codes)[g], version, sums[g]),
    )
}

fn stats_from(
    version: u32,
    groups: &Vec<StarGroup>,
    sums: &Vec<SectionSums>,
    Ghost(codes): Ghost<Seq<int>>,
) -> (stats: Vec<StarSectionStats>)
    requires
        groups_records(codes, groups@),
        sums@.len() == groups@.len(),
    ensures
        stats@ == stats_of_records(codes, version, sums@),
{
    let mut stats: Vec<StarSectionStats> = Vec::new();
    let mut g: usize = 0;
    while g < groups.len()
        invariant
            g <= groups@.len(),
            groups_records(codes, groups@),
            sums@.len() == groups@.len(),
            stats@.len() == g,
            forall|k: int|
                0 <= k < g ==> stats@[k] == stats_of_group(
                    codes,
                    group_codes(codes)[k],
                    version,
                    sums@[k],
                ),
        decreases groups@.len() - g,
    {
        let group: &StarGroup = &groups[g];
        let sum: SectionSums = sums[g];
        proof {
            let code = group_codes(codes)[g as int];
            assert(group_code(group.star_section, group.analyzer_version) == code);
            assert(crate::sorting::positions(group.members@).len() == members_of(codes, code).len());
        }
        stats.push(
            StarSectionStats {
                star_section: group.star_section,
                analyzer_version: group.analyzer_version,
                normalization_version: version,
                sample_count: group.members.len() as u64,
                sums: sum.sums,
                sum_squares: sum.sum_squares,
                ar_sum: sum.ar_sum,
                cs_sum: sum.cs_sum,
                od_sum: sum.od_sum,
                ar_sum_squares: sum.ar_sum_squares,
                cs_sum_squares: sum.cs_sum_squares,
                od_sum_squares: sum.od_sum_squares,
            },
        );
        g = g + 1;
    }
    assert(stats@ =~= stats_of_records(codes, version, sums@));
    stats
}

/// Whether one of `records` is of the given analyzer version.
pub open spec fn uses_analyzer(
    records: Seq<BeatmapFeatureRecord>,
    analyzer_version: u32,
) -> bool {
    exists|i: int| 0 <= i < records.len() && (#[trigger] records[i]).analyzer_version
        == analyzer_version
}

/// `row` as it was before it was published.
pub open spec fn unpublished(row: AnalysisRow) -> AnalysisRow {
    AnalysisRow { normalization_version: 0, normalized_offset: None, status: 1, ..row }
}

/// `analyses` with nothing published of the analyzer versions of `records`.
pub open spec fn withdrawn(
    analyses: Map<u128, AnalysisRow>,
    records: Seq<BeatmapFeatureRecord>,
) -> Map<u128, AnalysisRow> {
    Map::new(
        |key: u128| analyses.contains_key(key),
        |key: u128|
            if analyses[key].status == 2 && uses_analyzer(records, crate::store::analyzer_of(key)) {
                unpublished(analyses[key])
            } else {
                analyses[key]
            },
    )
}

/// The key of the analysis that a record is of.
pub open spec fn record_key(record: BeatmapFeatureRecord) -> u128 {
    crate::store::key_of(record.beatmap_id, record.analyzer_version)
}

/// `analyses` with the first `count` of `records` published at their offsets.
pub open spec fn with_published(
    analyses: Map<u128, AnalysisRow>,
    version: u32,
    records: Seq<BeatmapFeatureRecord>,
    count: nat,
) -> Map<u128, AnalysisRow>
    decreases count,
{
    if count == 0 {
        analyses
    } else {
        let before = with_published(analyses, version, records, (count - 1) as nat);
        let key = record_key(records[count - 1]);
        before.insert(
            key,
            AnalysisRow {
                normalization_version: version,
                record_offset: before[key].record_offset,
                normalized_offset: Some(
                    crate::store::normalized_offset(count - 1) as u64,
                ),
                status: 2,
            },
        )
    }
}

/// The analyses after `records` were published.
pub open spec fn published_analyses(
    analyses: Map<u128, AnalysisRow>,
    version: u32,
    records: Seq<BeatmapFeatureRecord>,
) -> Map<u128, AnalysisRow> {
    with_published(withdrawn(analyses, records), version, records, records.len())
}

/// `stats` without those of the analyzer versions of `records`, in order.
pub open spec fn other_stats(
    stats: Seq<StatsRow>,
    records: Seq<BeatmapFeatureRecord>,
) -> Seq<StatsRow>
    decreases stats.len(),
{
    if stats.len() == 0 {
        stats
    } else {
        let front = other_stats(stats.drop_last(), records);
        if uses_analyzer(records, stats.last().stats.analyzer_version) {
            front
        } else {
            front.push(stats.last())
        }
    }
}

/// Rows that hold `stats` completely.
pub open spec fn complete_rows(stats: Seq<StarSectionStats>) -> Seq<StatsRow> {
    Seq::new(stats.len(), |i: int| StatsRow { stats: stats[i], complete: true })
}

/// The analyzer versions of `records`.
fn analyzers_of(records: &Vec<BeatmapFeatureRecord>) -> (versions: Vec<u32>)
    ensures
        forall|v: u32| #[trigger] versions@.contains(v) <==> uses_analyzer(records@, v),
{
    let mut versions: Vec<u32> = Vec::new();
    let mut i: usize = 0;
    while i < records.len()
        invariant
            i <= records@.len(),
            forall|v: u32| #[trigger]
                versions@.contains(v) <==> exists|k: int|
                    0 <= k < i && (#[trigger] records@[k]).analyzer_version == v,
        decreases records@.len() - i,
    {
        let version: u32 = records[i].analyzer_version;
        let ghost before = versions@;
        if !contains(&versions, version) {
            versions.push(version);
            proof {
                assert forall|v: u32| before.contains(v) implies versions@.contains(v) by {
                    let p = choose|p: int| 0 <= p < before.len() && before[p] == v;
                    assert(versions@[p] == v);
                }
                assert(versions@[before.len() as int] == version);
            }
        }
        proof {
            assert forall|v: u32| #[trigger] versions@.contains(v) <==> exists|k: int|
                0 <= k < i + 1 && (#[trigger] records@[k]).analyzer_version == v by {
                if versions@.contains(v) {
                    if v == version {
                        assert(records@[i as int].analyzer_version == v);
                    } else {
                        let p = choose|p: int| 0 <= p < versions@.len() && versions@[p] == v;
                        assert(before[p] == v);
                        assert(before.contains(v));
                    }
                }
                if exists|k: int| 0 <= k < i + 1 && (#[trigger] records@[k]).analyzer_version == v {
                    let k = choose|k: int|
                        0 <= k < i + 1 && (#[trigger] records@[k]).analyzer_version == v;
                    if k < i {
                        assert(before.contains(v));
                    }
                }
            }
        }
        i = i + 1;
    }
    versions
}

fn contains(versions: &Vec<u32>, version: u32) -> (found: bool)
    ensures
        found == versions@.contains(version),
{
    let mut i: usize = 0;
    while i < versions.len()
        invariant
            i <= versions@.len(),
            forall|k: int| 0 <= k < i ==> versions@[k] != version,
        decreases versions@.len() - i,
    {
        if versions[i] == version {
            assert(versions@[i as int] == version);
            return true;
        }
        i = i + 1;
    }
    false
}

/// Withdraws what is published of the given analyzer versions.
fn withdraw(
    analyses: &mut BTreeMap<u128, AnalysisRow>,
    versions: &Vec<u32>,
    Ghost(records): Ghost<Seq<BeatmapFeatureRecord>>,
)
    requires
        forall|v: u32| #[trigger] versions@.contains(v) <==> uses_analyzer(records, v),
    ensures
        final(analyses)@ == withdrawn(old(analyses)@, records),
{
    let ghost before = analyses@;
    let ghost wanted = withdrawn(before, records);
    let keys: Vec<u128> = keys128(analyses);
    let ghost listed = crate::ordered::list128(keys@);
    proof {
        crate::ordered::lemma_increasing_lists(crate::ordered::ints128(before.dom()));
    }
    let mut i: usize = 0;
    while i < keys.len()
        invariant
            i <= keys@.len(),
            wanted == withdrawn(before, records),
            listed == crate::ordered::list128(keys@),
            crate::ordered::lists(listed, crate::ordered::ints128(before.dom())),
            forall|v: u32| #[trigger] versions@.contains(v) <==> uses_analyzer(records, v),
            forall|k: int| 0 <= k < keys@.len() ==> before.contains_key(#[trigger] keys@[k]),
            forall|key: u128| #[trigger] analyses@.contains_key(key) <==> before.contains_key(key),
            forall|k: int|
                0 <= k < i ==> analyses@[#[trigger] keys@[k]] == wanted[keys@[k]],
            forall|k: int|
                i <= k < keys@.len() ==> analyses@[#[trigger] keys@[k]] == before[keys@[k]],
        decreases keys@.len() - i,
    {
        let key: u128 = keys[i];
        let ghost earlier = analyses@;
        assert(before.contains_key(keys@[i as int]));
        assert(analyses@.contains_key(key));
        assert forall|k: int| 0 <= k < keys@.len() && k != i implies #[trigger] keys@[k] != key by {
            if k < i {
                assert(listed[k] < listed[i as int]);
            } else {
                assert(listed[i as int] < listed[k]);
            }
        }
        let row: AnalysisRow = match analyses.get(&key) {
            Some(row) => *row,
            None => AnalysisRow {
                normalization_version: 0,
                record_offset: 0,
                normalized_offset: None,
                status: 0,
            },
        };
        if row.status == 2 && contains(versions, (key % 0x1_0000_0000) as u32) {
            analyses.insert(
                key,
                AnalysisRow {
                    normalization_version: 0,
                    record_offset: row.record_offset,
                    normalized_offset: None,
                    status: 1,
                },
            );
        }
        i = i + 1;
    }
    proof {
        assert forall|key: u128| #[trigger] before.contains_key(key) implies analyses@[key]
            == wanted[key] by {
            assert(crate::ordered::ints128(before.dom()).contains(key as int));
            assert(listed.contains(key as int));
            let k = choose|k: int| 0 <= k < listed.len() && listed[k] == key;
            assert(keys@[k] == key);
        }
        assert(analyses@ =~= wanted);
    }
}

fn without_analyzers(
    stats: &Vec<StatsRow>,
    versions: &Vec<u32>,
    Ghost(records): Ghost<Seq<BeatmapFeatureRecord>>,
) -> (kept: Vec<StatsRow>)
    requires
        forall|v: u32| #[trigger] versions@.contains(v) <==> uses_analyzer(records, v),
    ensures
        kept@ == other_stats(stats@, records),
{
    let mut kept: Vec<StatsRow> = Vec::new();
    let mut i: usize = 0;
    assert(stats@.take(0) =~= seq![]);
    while i < stats.len()
        invariant
            i <= stats@.len(),
            forall|v: u32| #[trigger] versions@.contains(v) <==> uses_analyzer(records, v),
            kept@ == other_stats(stats@.take(i as int), records),
        decreases stats@.len() - i,
    {
        assert(stats@.take(i + 1).drop_last() =~= stats@.take(i as int));
        let row: StatsRow = stats[i];
        if !contains(versions, row.stats.analyzer_version) {
            kept.push(row);
        }
        i = i + 1;
    }
    assert(stats@.take(stats@.len() as int) =~= stats@);
    kept
}

/// Why `records` cannot be published.
pub open spec fn publish_refusal(
    tables: Tables,
    version: u32,
    records: Seq<BeatmapFeatureRecord>,
    sections: Seq<i64>,
) -> Option<StoreError> {
    if records.len() == 0 {
        Some(StoreError::EmptyDataset)
    } else {
        first_fault(tables, version, records, sections, 0)
    }
}

impl FeatureStore {
    /// Publishes normalized records as the feature file of a version, with the statistics that
    /// `sums` give for their groups. What was published of the same analyzer versions before is
    /// withdrawn. Records that cannot be published leave everything as it was.
    pub fn write_normalized(
        &mut self,
        version: u32,
        records: &Vec<BeatmapFeatureRecord>,
        sections: &Vec<i64>,
        sums: &Vec<SectionSums>,
    ) -> (outcome: Result<Vec<StarSectionStats>, StoreError>)
        requires
            sections@.len() == records@.len(),
            records@.len() <= MAX_RECORDS,
            publish_refusal(old(self).tables, version, records@, sections@) is None
                ==> sums@.len() == group_codes(codes_of(records@, sections@)).len(),
        ensures
            final(self).root == old(self).root,
            match publish_refusal(old(self).tables, version, records@, sections@) {
                Some(error) => outcome matches Err(reported) && reported == error && final(
                    self).tables.same(&old(self).tables),
                None => {
                    let stats = stats_of_records(codes_of(records@, sections@), version, sums@);
                    &&& outcome matches Ok(published) && published@ == stats
                    &&& final(self).tables.beatmaps@ == old(self).tables.beatmaps@
                    &&& final(self).tables.versions@ == old(self).tables.versions@
                    &&& final(self).tables.packs@ == old(self).tables.packs@
                    &&& final(self).tables.raw@ == old(self).tables.raw@
                    &&& final(self).tables.analyses@ == published_analyses(
                        old(self).tables.analyses@,
                        version,
                        records@,
                    )
                    &&& final(self).tables.stats@ == other_stats(
                        old(self).tables.stats@,
                        records@,
                    ) + complete_rows(stats)
                    &&& final(self).tables.normalized@.contains_key(version as u64)
                    &&& final(self).tables.normalized@[version as u64]@
                        == crate::records::normalized_file_bytes(records@)
                    &&& final(self).tables.normalized@.remove(version as u64) == old(
                        self).tables.normalized@.remove(version as u64)
                },
            },
    {
        if records.len() == 0 {
            return Err(StoreError::EmptyDataset);
        }
        let groups: Vec<StarGroup> = match self.aggregate_star_section_stats(
            version,
            records,
            sections,
        ) {
            Ok(groups) => groups,
            Err(error) => {
                return Err(error);
            },
        };
        let ghost before = self.tables;
        let stats: Vec<StarSectionStats> = stats_from(
            version,
            &groups,
            sums,
            Ghost(codes_of(records@, sections@)),
        );
        let versions: Vec<u32> = analyzers_of(records);
        withdraw(&mut self.tables.analyses, &versions, Ghost(records@));
        let mut i: usize = 0;
        while i < records.len()
            invariant
                i <= records@.len(),
                records@.len() <= MAX_RECORDS,
                self.root == old(self).root,
                self.tables.beatmaps@ == before.beatmaps@,
                self.tables.versions@ == before.versions@,
                self.tables.packs@ == before.packs@,
                self.tables.raw@ == before.raw@,
                self.tables.stats@ == before.stats@,
                self.tables.normalized@ == before.normalized@,
                self.tables.analyses@ == with_published(
                    withdrawn(before.analyses@, records@),
                    version,
                    records@,
                    i as nat,
                ),
                first_fault(before, version, records@, sections@, 0) is None,
                sections@.len() == records@.len(),
            decreases records@.len() - i,
        {
            let record: BeatmapFeatureRecord = records[i];
            let key: u128 = analysis_key(record.beatmap_id, record.analyzer_version);
            proof {
                lemma_no_fault(before, version, records@, sections@, 0, i as int);
                lemma_with_published_keys(
                    withdrawn(before.analyses@, records@),
                    version,
                    records@,
                    i as nat,
                    key,
                );
            }
            assert(self.tables.analyses@.contains_key(key));
            let record_offset: u64 = match self.tables.analyses.get(&key) {
                Some(row) => row.record_offset,
                None => 0,
            };
            self.tables.analyses.insert(
                key,
                AnalysisRow {
                    normalization_version: version,
                    record_offset,
                    normalized_offset: Some(HEADER_LEN + (i as u64) * NORMALIZED_RECORD_SIZE),
                    status: 2,
                },
            );
            i = i + 1;
        }
        let mut rows: Vec<StatsRow> = without_analyzers(
            &self.tables.stats,
            &versions,
            Ghost(records@),
        );
        let ghost kept = rows@;
        let mut s: usize = 0;
        while s < stats.len()
            invariant
                s <= stats@.len(),
                rows@ == kept + complete_rows(stats@).take(s as int),
            decreases stats@.len() - s,
        {
            rows.push(StatsRow { stats: stats[s], complete: true });
            assert(complete_rows(stats@).take(s + 1) =~= complete_rows(stats@).take(s as int).push(
                complete_rows(stats@)[s as int],
            ));
            assert(rows@ =~= kept + complete_rows(stats@).take(s + 1));
            s = s + 1;
        }
        assert(complete_rows(stats@).take(stats@.len() as int) =~= complete_rows(stats@));
        self.tables.stats = rows;
        let name: u64 = version as u64;
        self.tables.normalized.insert(name, normalized_file(records));
        assert(self.tables.normalized@.remove(name) =~= before.normalized@.remove(name));
        Ok(stats)
    }
}

proof fn lemma_no_fault(
    tables: Tables,
    version: u32,
    records: Seq<BeatmapFeatureRecord>,
    sections: Seq<i64>,
    from: int,
    at: int,
)
    requires
        0 <= from <= at < records.len(),
        first_fault(tables, version, records, sections, from) is None,
    ensures
        record_fault(tables, version, records, sections, at) is None,
    decreases at - from,
{
    if from < at {
        lemma_no_fault(tables, version, records, sections, from + 1, at);
    }
}

proof fn lemma_with_published_keys(
    analyses: Map<u128, AnalysisRow>,
    version: u32,
    records: Seq<BeatmapFeatureRecord>,
    count: nat,
    key: u128,
)
    requires
        count <= records.len(),
        analyses.contains_key(key),
    ensures
        with_published(analyses, version, records, count).contains_key(key),
    decreases count,
{
    if count > 0 {
        lemma_with_published_keys(analyses, version, records, (count - 1) as nat, key);
    }
}

// Reading statistics

/// The key by which statistics are listed: the star section, then the analyzer version.
pub open spec fn stats_key(stats: StarSectionStats) -> Seq<int> {
    seq![stats.star_section as int, stats.analyzer_version as int]
}

impl Sortable for StarSectionStats {
    open spec fn key(&self) -> Seq<int> {
        stats_key(*self)
    }

    fn at_most(&self, other: &Self) -> (answer: bool) {
        proof {
            assert(self.key().drop_first() =~= seq![self.analyzer_version as int]);
            assert(other.key().drop_first() =~= seq![other.analyzer_version as int]);
            assert(self.key().drop_first().drop_first() =~= seq![]);
            reveal_with_fuel(crate::sorting::lex_le, 3);
        }
        if self.star_section == other.star_section {
            self.analyzer_version <= other.analyzer_version
        } else {
            self.star_section < other.star_section
        }
    }
}

/// The statistics of one normalization version, in the order in which they are stored.
pub open spec fn stats_of_version(stats: Seq<StatsRow>, version: u32) -> Seq<StarSectionStats>
    decreases stats.len(),
{
    if stats.len() == 0 {
        seq![]
    } else {
        let front = stats_of_version(stats.drop_last(), version);
        if stats.last().stats.normalization_version == version {
            front.push(stats.last().stats)
        } else {
            front
        }
    }
}

/// Whether statistics of the version are stored incompletely.
pub open spec fn has_incomplete(stats: Seq<StatsRow>, version: u32) -> bool {
    exists|i: int|
        0 <= i < stats.len() && (#[trigger] stats[i]).stats.normalization_version == version
            && !stats[i].complete
}

/// The statistics of one normalization version by star section and analyzer version.
pub open spec fn listed_stats(stats: Seq<StatsRow>, version: u32) -> Seq<StarSectionStats> {
    let found = stats_of_version(stats, version);
    crate::sorting::sorted_by(found, crate::sorting::keys_of(found))
}

/// What reading the published statistics of a normalization version gives.
pub open spec fn stats_outcome(tables: Tables, version: u32) -> Result<
    Seq<StarSectionStats>,
    StoreError,
> {
    if has_incomplete(tables.stats@, version) {
        Err(StoreError::IncompleteStats)
    } else {
        Ok(listed_stats(tables.stats@, version))
    }
}

impl FeatureStore {
    /// The published statistics of a normalization version, by star section and analyzer
    /// version.
    pub fn star_section_stats(&self, version: u32) -> (outcome: Result<
        Vec<StarSectionStats>,
        StoreError,
    >)
        ensures
            match (outcome, stats_outcome(self.tables, version)) {
                (Ok(stats), Ok(expected)) => stats@ == expected,
                (Err(error), Err(expected)) => error == expected,
                _ => false,
            },
    {
        let ghost all = self.tables.stats@;
        let mut found: Vec<StarSectionStats> = Vec::new();
        let mut i: usize = 0;
        assert(all.take(0) =~= seq![]);
        while i < self.tables.stats.len()
            invariant
                i <= self.tables.stats@.len(),
                all == self.tables.stats@,
                found@ == stats_of_version(all.take(i as int), version),
                forall|k: int|
                    0 <= k < i && (#[trigger] all[k]).stats.normalization_version == version
                        ==> all[k].complete,
            decreases self.tables.stats@.len() - i,
        {
            assert(all.take(i + 1).drop_last() =~= all.take(i as int));
            let row: StatsRow = self.tables.stats[i];
            if row.stats.normalization_version == version {
                if !row.complete {
                    assert(all[i as int] == row);
                    return Err(StoreError::IncompleteStats);
                }
                found.push(row.stats);
            }
            i = i + 1;
        }
        assert(all.take(all.len() as int) =~= all);
        let order: Vec<usize> = order_of(&found);
        let mut sorted: Vec<StarSectionStats> = Vec::new();
        let mut k: usize = 0;
        while k < order.len()
            invariant
                k <= order@.len(),
                forall|j: int| 0 <= j < order@.len() ==> #[trigger] order@[j] < found@.len(),
                sorted@.len() == k,
                forall|j: int| 0 <= j < k ==> sorted@[j] == found@[order@[j] as int],
            decreases order@.len() - k,
        {
            sorted.push(found[order[k]]);
            k = k + 1;
        }
        proof {
            let keys = crate::sorting::keys_of(found@);
            let stable = crate::sorting::stable_order(keys);
            assert forall|j: int| 0 <= j < order@.len() implies stable[j] == order@[j] by {
                assert(stable[j] == crate::sorting::positions(order@)[j]);
            }
            assert(stable.len() == order@.len());
            assert(sorted@ =~= listed_stats(all, version));
        }
        Ok(sorted)
    }
}

/// Whether two sums agree in every dimension.
pub open spec fn same_sums(left: DimensionSums, right: DimensionSums) -> bool {
    &&& left.aim.numeric_eq(right.aim)
    &&& left.speed.numeric_eq(right.speed)
    &&& left.reading.numeric_eq(right.reading)
    &&& left.slider.numeric_eq(right.slider)
    &&& left.overlap.numeric_eq(right.overlap)
}

/// Whether two statistics agree.
pub open spec fn same_stats(left: StarSectionStats, right: StarSectionStats) -> bool {
    &&& left.star_section == right.star_section
    &&& left.analyzer_version == right.analyzer_version
    &&& left.normalization_version == right.normalization_version
    &&& left.sample_count == right.sample_count
    &&& same_sums(left.sums, right.sums)
    &&& same_sums(left.sum_squares, right.sum_squares)
    &&& left.ar_sum.numeric_eq(right.ar_sum)
    &&& left.cs_sum.numeric_eq(right.cs_sum)
    &&& left.od_sum.numeric_eq(right.od_sum)
    &&& left.ar_sum_squares.numeric_eq(right.ar_sum_squares)
    &&& left.cs_sum_squares.numeric_eq(right.cs_sum_squares)
    &&& left.od_sum_squares.numeric_eq(right.od_sum_squares)
}

/// Whether two lists of statistics agree.
pub open spec fn same_listing(
    left: Seq<StarSectionStats>,
    right: Seq<StarSectionStats>,
) -> bool {
    left.len() == right.len() && forall|i: int|
        0 <= i < left.len() ==> same_stats(#[trigger] left[i], right[i])
}

fn sums_agree(left: &DimensionSums, right: &DimensionSums) -> (answer: bool)
    ensures
        answer == same_sums(*left, *right),
{
    left.aim.equals(&right.aim) && left.speed.equals(&right.speed) && left.reading.equals(
        &right.reading,
    ) && left.slider.equals(&right.slider) && left.overlap.equals(&right.overlap)
}

fn stats_agree(left: &StarSectionStats, right: &StarSectionStats) -> (answer: bool)
    ensures
        answer == same_stats(*left, *right),
{
    left.star_section == right.star_section && left.analyzer_version == right.analyzer_version
        && left.normalization_version == right.normalization_version && left.sample_count
        == right.sample_count && sums_agree(&left.sums, &right.sums) && sums_agree(
        &left.sum_squares,
        &right.sum_squares,
    ) && left.ar_sum.equals(&right.ar_sum) && left.cs_sum.equals(&right.cs_sum)
        && left.od_sum.equals(&right.od_sum) && left.ar_sum_squares.equals(&right.ar_sum_squares)
        && left.cs_sum_squares.equals(&right.cs_sum_squares) && left.od_sum_squares.equals(
        &right.od_sum_squares,
    )
}

/// What checking the published statistics of a version finds, where `sections` are the star
/// sections of the published records and `sums` the sums over their groups.
pub open spec fn validation(
    tables: Tables,
    version: u32,
    sections: Seq<i64>,
    sums: Seq<SectionSums>,
) -> Result<(), StoreError> {
    match normalized_outcome(tables, version) {
        Err(error) => Err(error),
        Ok(records) => match first_fault(tables, version, records, sections, 0) {
            Some(error) => Err(error),
            None => if has_incomplete(tables.stats@, version) {
                Err(StoreError::IncompleteStats)
            } else if same_listing(
                listed_stats(tables.stats@, version),
                stats_of_records(codes_of(records, sections), version, sums),
            ) {
                Ok(())
            } else {
                Err(StoreError::StatsMismatch)
            },
        },
    }
}

impl FeatureStore {
    /// Checks that the published statistics of a version are those of its published records,
    /// where `sections` are the star sections that the stored ratings of these records belong
    /// to and `sums` the sums over their groups.
    pub fn validate_star_section_stats(
        &self,
        version: u32,
        sections: &Vec<i64>,
        sums: &Vec<SectionSums>,
    ) -> (outcome: Result<(), StoreError>)
        requires
            normalized_outcome(self.tables, version) matches Ok(records) ==> sections@.len()
                == records.len() && (first_fault(
                self.tables,
                version,
                records,
                sections@,
                0,
            ) is None ==> sums@.len() == group_codes(codes_of(records, sections@)).len()),
        ensures
            outcome == validation(self.tables, version, sections@, sums@),
    {
        let records: Vec<BeatmapFeatureRecord> = match self.normalized_records(version) {
            Ok(records) => records,
            Err(error) => {
                return Err(error);
            },
        };
        let groups: Vec<StarGroup> = match self.aggregate_star_section_stats(
            version,
            &records,
            sections,
        ) {
            Ok(groups) => groups,
            Err(error) => {
                return Err(error);
            },
        };
        let expected: Vec<StarSectionStats> = stats_from(
            version,
            &groups,
            sums,
            Ghost(codes_of(records@, sections@)),
        );
        let actual: Vec<StarSectionStats> = match self.star_section_stats(version) {
            Ok(stats) => stats,
            Err(error) => {
                return Err(error);
            },
        };
        if actual.len() != expected.len() {
            return Err(StoreError::StatsMismatch);
        }
        let mut i: usize = 0;
        while i < actual.len()
            invariant
                i <= actual@.len(),
                actual@.len() == expected@.len(),
                normalized_outcome(self.tables, version) == Ok::<
                    Seq<BeatmapFeatureRecord>,
                    StoreError,
                >(records@),
                first_fault(self.tables, version, records@, sections@, 0) is None,
                !has_incomplete(self.tables.stats@, version),
                actual@ == listed_stats(self.tables.stats@, version),
                expected@ == stats_of_records(codes_of(records@, sections@), version, sums@),
                forall|k: int| 0 <= k < i ==> same_stats(#[trigger] actual@[k], expected@[k]),
            decreases actual@.len() - i,
        {
            if !stats_agree(&actual[i], &expected[i]) {
                assert(!same_stats(actual@[i as int], expected@[i as int]));
                return Err(StoreError::StatsMismatch);
            }
            i = i + 1;
        }
        Ok(())
    }
}

// Laws

/// Whether `after` is what `before` becomes when `records` are published with `sums`.
pub open spec fn publishes(
    before: Tables,
    after: Tables,
    version: u32,
    records: Seq<BeatmapFeatureRecord>,
    sections: Seq<i64>,
    sums: Seq<SectionSums>,
) -> bool {
    &&& publish_refusal(before, version, records, sections) is None
    &&& after.beatmaps@ == before.beatmaps@
    &&& after.versions@ == before.versions@
    &&& after.analyses@ == published_analyses(before.analyses@, version, records)
    &&& after.stats@ == other_stats(before.stats@, records) + complete_rows(
        stats_of_records(codes_of(records, sections), version, sums),
    )
    &&& after.normalized@.contains_key(version as u64)
    &&& after.normalized@[version as u64]@ == crate::records::normalized_file_bytes(records)
}

/// Whether records are in the order of their beatmaps.
pub open spec fn by_beatmap(records: Seq<BeatmapFeatureRecord>) -> bool {
    forall|i: int, j: int|
        0 <= i < j < records.len() ==> (#[trigger] records[i]).beatmap_id < (
        #[trigger] records[j]).beatmap_id
}

/// Whether all records are of the current analyzer version.
pub open spec fn all_current(records: Seq<BeatmapFeatureRecord>) -> bool {
    forall|i: int|
        0 <= i < records.len() ==> (#[trigger] records[i]).analyzer_version == ANALYZER_VERSION
}

/// Whether all statistics of a version are of analyzer versions of the records.
pub open spec fn no_other_stats(
    stats: Seq<StatsRow>,
    version: u32,
    records: Seq<BeatmapFeatureRecord>,
) -> bool {
    forall|i: int|
        0 <= i < stats.len() && (#[trigger] stats[i]).stats.normalization_version == version
            ==> uses_analyzer(records, stats[i].stats.analyzer_version)
}

/// Whether `sections` are the star sections that are stored for the published records of a
/// version, in the order in which these are read.
pub open spec fn read_sections(tables: Tables, version: u32, sections: Seq<i64>) -> bool {
    normalized_outcome(tables, version) matches Ok(read) && sections.len() == read.len() && forall|
        i: int,
    |
        0 <= i < read.len() ==> (stored_stars(tables, #[trigger] read[i]) matches Some(stars)
            && stars.1 == sections[i])
}

proof fn lemma_distinct_keys(
    tables: Tables,
    version: u32,
    records: Seq<BeatmapFeatureRecord>,
    sections: Seq<i64>,
    i: int,
    j: int,
)
    requires
        first_fault(tables, version, records, sections, 0) is None,
        0 <= i < j < records.len(),
    ensures
        record_key(records[i]) != record_key(records[j]),
{
    lemma_no_fault(tables, version, records, sections, 0, j);
    crate::store::lemma_key_parts(records[i].beatmap_id, records[i].analyzer_version);
    crate::store::lemma_key_parts(records[j].beatmap_id, records[j].analyzer_version);
    assert(!is_repeated(records, j));
    assert(!same_analysis(records[i], records[j]));
}

/// The row of an analysis whose record was published.
spec fn published_row(
    analyses: Map<u128, AnalysisRow>,
    version: u32,
    record: BeatmapFeatureRecord,
    i: int,
) -> AnalysisRow {
    AnalysisRow {
        normalization_version: version,
        record_offset: analyses[record_key(record)].record_offset,
        normalized_offset: Some(crate::store::normalized_offset(i) as u64),
        status: 2,
    }
}

proof fn lemma_with_published_rows(
    analyses: Map<u128, AnalysisRow>,
    version: u32,
    records: Seq<BeatmapFeatureRecord>,
    count: nat,
)
    requires
        count <= records.len(),
        forall|i: int, j: int|
            0 <= i < j < records.len() ==> record_key(#[trigger] records[i]) != record_key(
                #[trigger] records[j],
            ),
    ensures
        forall|i: int|
            0 <= i < count ==> with_published(analyses, version, records, count)[record_key(
                #[trigger] records[i],
            )] == published_row(analyses, version, records[i], i),
        forall|key: u128|
            (forall|i: int| 0 <= i < count ==> record_key(#[trigger] records[i]) != key)
                ==> #[trigger] with_published(analyses, version, records, count)[key]
                == analyses[key],
        forall|key: u128| #[trigger]
            with_published(analyses, version, records, count).contains_key(key)
                <==> analyses.contains_key(key) || exists|i: int|
                0 <= i < count && record_key(#[trigger] records[i]) == key,
    decreases count,
{
    if count > 0 {
        let last = count - 1;
        let before = with_published(analyses, version, records, last as nat);
        let after = with_published(analyses, version, records, count);
        let key = record_key(records[last]);
        lemma_with_published_rows(analyses, version, records, last as nat);
        assert forall|i: int| 0 <= i < last implies record_key(#[trigger] records[i]) != key by {}
        assert(before[key] == analyses[key]);
        assert forall|i: int| 0 <= i < count implies after[record_key(#[trigger] records[i])]
            == published_row(analyses, version, records[i], i) by {
            if i < last {
                assert(record_key(records[i]) != key);
            }
        }
        assert forall|other: u128|
            (forall|i: int| 0 <= i < count ==> record_key(#[trigger] records[i])
                != other) implies #[trigger] after[other] == analyses[other] by {
            assert(record_key(records[last]) != other);
            assert(before[other] == analyses[other]);
        }
        assert forall|other: u128| #[trigger] after.contains_key(other)
            <==> analyses.contains_key(other) || exists|i: int|
            0 <= i < count && record_key(#[trigger] records[i]) == other by {
            if after.contains_key(other) && other != key {
                assert(before.contains_key(other));
            }
            if other == key {
                assert(record_key(records[last]) == other);
            }
            if exists|i: int| 0 <= i < count && record_key(#[trigger] records[i]) == other {
                let i = choose|i: int|
                    0 <= i < count && record_key(#[trigger] records[i]) == other;
                if i < last {
                    assert(before.contains_key(other));
                }
            }
        }
    }
}

/// A published record is found where its analysis points to.
proof fn lemma_published_at(
    before: Tables,
    after: Tables,
    version: u32,
    records: Seq<BeatmapFeatureRecord>,
    sections: Seq<i64>,
    sums: Seq<SectionSums>,
    j: int,
)
    requires
        publishes(before, after, version, records, sections, sums),
        records.len() <= MAX_RECORDS,
        0 <= j < records.len(),
    ensures
        after.analyses@.contains_key(record_key(records[j])),
        after.analyses@[record_key(records[j])].status == 2,
        after.analyses@[record_key(records[j])].normalization_version == version,
        after.analyses@[record_key(records[j])].normalized_offset is Some,
        crate::store::published_at(after, version, record_key(records[j])) == Ok::<
            BeatmapFeatureRecord,
            StoreError,
        >(records[j]),
{
    assert forall|a: int, b: int| 0 <= a < b < records.len() implies record_key(
        #[trigger] records[a],
    ) != record_key(#[trigger] records[b]) by {
        lemma_distinct_keys(before, version, records, sections, a, b);
    }
    lemma_with_published_rows(
        withdrawn(before.analyses@, records),
        version,
        records,
        records.len(),
    );
    crate::records::law_written_records_read_back(records, j);
}

/// The published analyses of the version are then exactly those of the records.
proof fn lemma_selected_after_publishing(
    before: Tables,
    after: Tables,
    version: u32,
    records: Seq<BeatmapFeatureRecord>,
    sections: Seq<i64>,
    sums: Seq<SectionSums>,
    key: int,
)
    requires
        publishes(before, after, version, records, sections, sums),
        records.len() <= MAX_RECORDS,
        all_current(records),
    ensures
        crate::store::selected(after.analyses@, ANALYZER_VERSION, Some(version)).contains(key)
            <==> exists|j: int|
            0 <= j < records.len() && record_key(#[trigger] records[j]) == key,
{
    let base = withdrawn(before.analyses@, records);
    assert forall|a: int, b: int| 0 <= a < b < records.len() implies record_key(
        #[trigger] records[a],
    ) != record_key(#[trigger] records[b]) by {
        lemma_distinct_keys(before, version, records, sections, a, b);
    }
    lemma_with_published_rows(base, version, records, records.len());
    let set = crate::store::selected(after.analyses@, ANALYZER_VERSION, Some(version));
    assert(uses_analyzer(records, ANALYZER_VERSION)) by {
        assert(records[0].analyzer_version == ANALYZER_VERSION);
    }
    if set.contains(key) {
        let k = key as u128;
        if forall|j: int| 0 <= j < records.len() ==> record_key(#[trigger] records[j]) != k {
            assert(after.analyses@[k] == base[k]);
            assert(base.contains_key(k));
            assert(false);
        }
        let j = choose|j: int| 0 <= j < records.len() && record_key(#[trigger] records[j]) == k;
        assert(record_key(records[j]) == key);
    }
    if exists|j: int| 0 <= j < records.len() && record_key(#[trigger] records[j]) == key {
        let j = choose|j: int| 0 <= j < records.len() && record_key(#[trigger] records[j]) == key;
        lemma_published_at(before, after, version, records, sections, sums, j);
        crate::store::lemma_key_parts(records[j].beatmap_id, records[j].analyzer_version);
    }
}

/// Which record each of the published analyses was made of: each record once.
proof fn lemma_published_origin(
    before: Tables,
    after: Tables,
    version: u32,
    records: Seq<BeatmapFeatureRecord>,
    sections: Seq<i64>,
    sums: Seq<SectionSums>,
) -> (origin: Seq<int>)
    requires
        publishes(before, after, version, records, sections, sums),
        records.len() <= MAX_RECORDS,
        all_current(records),
    ensures
        ({
            let keys = crate::store::selected_keys(
                after.analyses@,
                ANALYZER_VERSION,
                Some(version),
            );
            &&& origin.len() == keys.len()
            &&& origin.len() == records.len()
            &&& forall|i: int|
                0 <= i < keys.len() ==> 0 <= #[trigger] origin[i] < records.len() && record_key(
                    records[origin[i]],
                ) == keys[i]
            &&& forall|i: int, j: int|
                0 <= i < j < keys.len() ==> record_key(records[#[trigger] origin[i]]) < record_key(
                    records[#[trigger] origin[j]],
                )
            &&& forall|j: int| 0 <= j < records.len() ==> #[trigger] origin.contains(j)
        }),
{
    let set = crate::store::selected(after.analyses@, ANALYZER_VERSION, Some(version));
    let keys = crate::store::selected_keys(after.analyses@, ANALYZER_VERSION, Some(version));
    crate::ordered::lemma_increasing_lists(set);
    let origin = Seq::new(
        keys.len(),
        |i: int|
            choose|j: int| 0 <= j < records.len() && record_key(#[trigger] records[j]) == keys[i],
    );
    assert forall|i: int| 0 <= i < keys.len() implies 0 <= #[trigger] origin[i] < records.len()
        && record_key(records[origin[i]]) == keys[i] by {
        assert(keys.contains(keys[i]));
        assert(set.contains(keys[i]));
        lemma_selected_after_publishing(before, after, version, records, sections, sums, keys[i]);
    }
    assert forall|i: int, j: int| 0 <= i < j < keys.len() implies record_key(
        records[#[trigger] origin[i]],
    ) < record_key(records[#[trigger] origin[j]]) by {
        assert(keys[i] < keys[j]);
    }
    assert forall|j: int| 0 <= j < records.len() implies #[trigger] origin.contains(j) by {
        let key = record_key(records[j]) as int;
        lemma_selected_after_publishing(before, after, version, records, sections, sums, key);
        assert(record_key(records[j]) == key);
        assert(set.contains(key));
        assert(keys.contains(key));
        let i = choose|i: int| 0 <= i < keys.len() && keys[i] == key;
        if origin[i] < j {
            lemma_distinct_keys(before, version, records, sections, origin[i], j);
        } else if origin[i] > j {
            lemma_distinct_keys(before, version, records, sections, j, origin[i]);
        }
        assert(origin[i] == j);
    }
    lemma_same_length(origin, records.len());
    origin
}

/// Reading the published records gives each of the records once, by increasing beatmap
/// identifier.
proof fn lemma_read_origin(
    before: Tables,
    after: Tables,
    version: u32,
    records: Seq<BeatmapFeatureRecord>,
    sections: Seq<i64>,
    sums: Seq<SectionSums>,
) -> (origin: Seq<int>)
    requires
        publishes(before, after, version, records, sections, sums),
        records.len() <= MAX_RECORDS,
        before.snapshot_current(),
        all_current(records),
    ensures
        origin.len() == records.len(),
        forall|i: int| 0 <= i < origin.len() ==> 0 <= #[trigger] origin[i] < records.len(),
        forall|i: int, j: int|
            0 <= i < j < origin.len() ==> records[#[trigger] origin[i]].beatmap_id
                < records[#[trigger] origin[j]].beatmap_id,
        forall|j: int| 0 <= j < records.len() ==> #[trigger] origin.contains(j),
        normalized_outcome(after, version) == Ok::<Seq<BeatmapFeatureRecord>, StoreError>(
            crate::sorting::arranged(records, origin),
        ),
{
    let keys = crate::store::selected_keys(after.analyses@, ANALYZER_VERSION, Some(version));
    let origin = lemma_published_origin(before, after, version, records, sections, sums);
    let read = published_records(after, version, keys);
    assert forall|i: int| 0 <= i < keys.len() implies crate::store::published_at(
        after,
        version,
        (#[trigger] keys[i]) as u128,
    ) == Ok::<BeatmapFeatureRecord, StoreError>(records[origin[i]])
        && after.analyses@[keys[i] as u128].normalized_offset is Some by {
        assert(0 <= origin[i] < records.len());
        lemma_published_at(before, after, version, records, sections, sums, origin[i]);
    }
    lemma_nothing_missing(after, version, keys, 0);
    assert forall|i: int| 0 <= i < read.len() implies is_consistent(#[trigger] read[i], version)
        && read[i] == records[origin[i]] by {
        assert(crate::store::published_at(after, version, keys[i] as u128) is Ok);
        lemma_no_fault(before, version, records, sections, 0, origin[i]);
    }
    lemma_all_consistent(read, version, 0);
    assert forall|i: int, j: int| 0 <= i < j < origin.len() implies records[
    #[trigger] origin[i]].beatmap_id < records[#[trigger] origin[j]].beatmap_id by {
        let a = records[origin[i]];
        let b = records[origin[j]];
        assert(record_key(a) < record_key(b));
        crate::store::lemma_key_parts(a.beatmap_id, a.analyzer_version);
        crate::store::lemma_key_parts(b.beatmap_id, b.analyzer_version);
    }
    assert(read =~= crate::sorting::arranged(records, origin));
    origin
}

/// What is published reads back: the published records of the version are then exactly these,
/// by increasing beatmap identifier.
pub proof fn law_published_records_read_back(
    before: Tables,
    after: Tables,
    version: u32,
    records: Seq<BeatmapFeatureRecord>,
    sections: Seq<i64>,
    sums: Seq<SectionSums>,
)
    requires
        publishes(before, after, version, records, sections, sums),
        records.len() <= MAX_RECORDS,
        before.snapshot_current(),
        all_current(records),
    ensures
        normalized_outcome(after, version) matches Ok(read) && read.len() == records.len()
            && by_beatmap(read) && (forall|i: int|
            0 <= i < read.len() ==> records.contains(#[trigger] read[i])) && (forall|j: int|
            0 <= j < records.len() ==> read.contains(#[trigger] records[j])),
{
    let origin = lemma_read_origin(before, after, version, records, sections, sums);
    let read = crate::sorting::arranged(records, origin);
    assert forall|i: int, j: int| 0 <= i < j < read.len() implies (#[trigger] read[i]).beatmap_id
        < (#[trigger] read[j]).beatmap_id by {
        assert(records[origin[i]].beatmap_id < records[origin[j]].beatmap_id);
    }
    assert forall|i: int| 0 <= i < read.len() implies records.contains(#[trigger] read[i]) by {
        assert(records[origin[i]] == read[i]);
    }
    assert forall|j: int| 0 <= j < records.len() implies read.contains(#[trigger] records[j]) by {
        assert(origin.contains(j));
        let i = choose|i: int| 0 <= i < origin.len() && origin[i] == j;
        assert(read[i] == records[j]);
    }
}

/// A list of positions below `count` that names each once is `count` long.
proof fn lemma_same_length(origin: Seq<int>, count: nat)
    requires
        forall|i: int| 0 <= i < origin.len() ==> 0 <= #[trigger] origin[i] < count,
        forall|j: int| 0 <= j < count ==> #[trigger] origin.contains(j),
        forall|i: int, j: int|
            0 <= i < j < origin.len() ==> #[trigger] origin[i] != #[trigger] origin[j],
    ensures
        origin.len() == count,
{
    let all = vstd::set_lib::set_int_range(0, count as int);
    vstd::set_lib::lemma_int_range(0, count as int);
    assert(origin.no_duplicates());
    origin.unique_seq_to_set();
    assert(origin.to_set() =~= all) by {
        assert forall|j: int| origin.to_set().contains(j) == all.contains(j) by {
            if origin.to_set().contains(j) {
                let p = choose|p: int| 0 <= p < origin.len() && origin[p] == j;
                assert(0 <= origin[p] < count);
            }
            if all.contains(j) {
                assert(origin.contains(j));
            }
        }
    }
}

proof fn lemma_nothing_missing(tables: Tables, version: u32, keys: Seq<int>, from: int)
    requires
        0 <= from,
        forall|i: int|
            0 <= i < keys.len() ==> crate::store::published_at(
                tables,
                version,
                (#[trigger] keys[i]) as u128,
            ) is Ok && tables.analyses@[keys[i] as u128].normalized_offset is Some,
    ensures
        first_without_offset(tables.analyses@, keys, from) is None,
        first_unreadable(tables, version, keys, from) is None,
    decreases keys.len() - from,
{
    if from < keys.len() {
        assert(crate::store::published_at(tables, version, keys[from] as u128) is Ok);
        lemma_nothing_missing(tables, version, keys, from + 1);
    }
}

proof fn lemma_all_consistent(records: Seq<BeatmapFeatureRecord>, version: u32, from: int)
    requires
        0 <= from,
        forall|i: int| 0 <= i < records.len() ==> is_consistent(#[trigger] records[i], version),
    ensures
        first_inconsistent(records, version, from) is None,
    decreases records.len() - from,
{
    if from < records.len() {
        assert(is_consistent(records[from], version));
        lemma_all_consistent(records, version, from + 1);
    }
}

/// Statistics of other analyzer versions stay, new ones take the place of the old.
proof fn lemma_other_stats_settle(
    stats: Seq<StatsRow>,
    added: Seq<StatsRow>,
    records: Seq<BeatmapFeatureRecord>,
)
    requires
        forall|i: int|
            0 <= i < added.len() ==> uses_analyzer(
                records,
                (#[trigger] added[i]).stats.analyzer_version,
            ),
    ensures
        other_stats(other_stats(stats, records) + added, records) == other_stats(stats, records),
    decreases stats.len() + added.len(),
{
    let kept = other_stats(stats, records);
    if added.len() > 0 {
        let whole = kept + added;
        assert(whole.drop_last() =~= kept + added.drop_last());
        assert(whole.last() == added[added.len() - 1]);
        assert forall|i: int| 0 <= i < added.drop_last().len() implies uses_analyzer(
            records,
            (#[trigger] added.drop_last()[i]).stats.analyzer_version,
        ) by {
            assert(added[i] == added.drop_last()[i]);
        }
        lemma_other_stats_settle(stats, added.drop_last(), records);
    } else {
        assert(kept + added =~= kept);
        if stats.len() > 0 {
            lemma_other_stats_settle(stats.drop_last(), added, records);
            let front = other_stats(stats.drop_last(), records);
            assert(front + added =~= front);
            if !uses_analyzer(records, stats.last().stats.analyzer_version) {
                assert(kept.drop_last() =~= front);
            }
        }
    }
}

proof fn lemma_new_stats_are_of_used_analyzers(
    records: Seq<BeatmapFeatureRecord>,
    sections: Seq<i64>,
    version: u32,
    sums: Seq<SectionSums>,
    g: int,
)
    requires
        sections.len() == records.len(),
        0 <= g < group_codes(codes_of(records, sections)).len(),
    ensures
        uses_analyzer(
            records,
            stats_of_records(codes_of(records, sections), version, sums)[g].analyzer_version,
        ),
        exists|p: int|
            0 <= p < records.len() && group_code(
                sections[p],
                (#[trigger] records[p]).analyzer_version,
            ) == group_codes(codes_of(records, sections))[g],
{
    let codes = codes_of(records, sections);
    lemma_codes_fit(records, sections);
    crate::ordered::lemma_increasing_lists(codes.to_set());
    let code = group_codes(codes)[g];
    assert(group_codes(codes).contains(code));
    assert(codes.contains(code));
    let p = choose|p: int| 0 <= p < codes.len() && codes[p] == code;
    assert(group_code(sections[p], records[p].analyzer_version) == code);
    assert(code_analyzer(code) == records[p].analyzer_version);
}

proof fn lemma_codes_fit(records: Seq<BeatmapFeatureRecord>, sections: Seq<i64>)
    ensures
        forall|code: int| #[trigger]
            codes_of(records, sections).to_set().contains(code) ==> 0 <= code <= u128::MAX,
{
    let codes = codes_of(records, sections);
    assert forall|code: int| #[trigger] codes.to_set().contains(code) implies 0 <= code
        <= u128::MAX by {
        let p = choose|p: int| 0 <= p < codes.len() && codes[p] == code;
        assert(code == group_code(sections[p], records[p].analyzer_version));
    }
}

/// Records that were published can be published again: nothing that publishing did makes it
/// refuse them.
pub proof fn law_published_records_can_be_published_again(
    before: Tables,
    once: Tables,
    version: u32,
    records: Seq<BeatmapFeatureRecord>,
    sections: Seq<i64>,
    sums: Seq<SectionSums>,
)
    requires
        publishes(before, once, version, records, sections, sums),
        records.len() <= MAX_RECORDS,
    ensures
        publish_refusal(once, version, records, sections) is None,
{
    assert forall|i: int| 0 <= i < records.len() implies record_fault(
        once,
        version,
        records,
        sections,
        i,
    ) is None by {
        lemma_no_fault(before, version, records, sections, 0, i);
        lemma_published_at(before, once, version, records, sections, sums, i);
    }
    lemma_faultless(once, version, records, sections, 0);
}

/// Publishing the same records with the same sums a second time succeeds and changes nothing:
/// the analyses, the statistics and the feature file stay as they are, and so does what reading
/// the statistics gives. `twice` is what publishing leaves where it does not refuse.
pub proof fn law_publishing_again_changes_nothing(
    before: Tables,
    once: Tables,
    twice: Tables,
    version: u32,
    records: Seq<BeatmapFeatureRecord>,
    sections: Seq<i64>,
    sums: Seq<SectionSums>,
)
    requires
        sections.len() == records.len(),
        records.len() <= MAX_RECORDS,
        publishes(before, once, version, records, sections, sums),
        publish_refusal(once, version, records, sections) is None ==> publishes(
            once,
            twice,
            version,
            records,
            sections,
            sums,
        ),
    ensures
        publish_refusal(once, version, records, sections) is None,
        publishes(once, twice, version, records, sections, sums),
        twice.analyses@ == once.analyses@,
        twice.stats@ == once.stats@,
        twice.normalized@[version as u64]@ == once.normalized@[version as u64]@,
        stats_outcome(twice, version) == stats_outcome(once, version),
{
    law_published_records_can_be_published_again(before, once, version, records, sections, sums);
    let codes = codes_of(records, sections);
    let added = complete_rows(stats_of_records(codes, version, sums));
    assert forall|i: int| 0 <= i < added.len() implies uses_analyzer(
        records,
        (#[trigger] added[i]).stats.analyzer_version,
    ) by {
        lemma_new_stats_are_of_used_analyzers(records, sections, version, sums, i);
    }
    lemma_other_stats_settle(before.stats@, added, records);
    assert forall|a: int, b: int| 0 <= a < b < records.len() implies record_key(
        #[trigger] records[a],
    ) != record_key(#[trigger] records[b]) by {
        lemma_distinct_keys(before, version, records, sections, a, b);
    }
    let first = withdrawn(before.analyses@, records);
    let second = withdrawn(once.analyses@, records);
    lemma_with_published_rows(first, version, records, records.len());
    lemma_with_published_rows(second, version, records, records.len());
    assert forall|key: u128| #[trigger] once.analyses@.contains_key(key)
        == twice.analyses@.contains_key(key) && (once.analyses@.contains_key(key)
        ==> once.analyses@[key] == twice.analyses@[key]) by {
        if exists|i: int| 0 <= i < records.len() && record_key(#[trigger] records[i]) == key {
            let i = choose|i: int| 0 <= i < records.len() && record_key(#[trigger] records[i])
                == key;
            crate::store::lemma_key_parts(records[i].beatmap_id, records[i].analyzer_version);
            assert(once.analyses@[key] == published_row(first, version, records[i], i));
            assert(uses_analyzer(records, records[i].analyzer_version));
            assert(second[key] == unpublished(once.analyses@[key]));
            assert(twice.analyses@[key] == published_row(second, version, records[i], i));
        } else if once.analyses@.contains_key(key) {
            assert(once.analyses@[key] == first[key]);
            assert(first.contains_key(key));
            assert(second[key] == once.analyses@[key]);
            assert(twice.analyses@[key] == second[key]);
        }
    }
    assert(once.analyses@ =~= twice.analyses@);
}

/// Whether none of the sums is a NaN.
pub open spec fn sums_are_numbers(sums: DimensionSums) -> bool {
    &&& !sums.aim.nan()
    &&& !sums.speed.nan()
    &&& !sums.reading.nan()
    &&& !sums.slider.nan()
    &&& !sums.overlap.nan()
}

/// Whether none of the sums of a group is a NaN.
pub open spec fn are_numbers(sums: SectionSums) -> bool {
    &&& sums_are_numbers(sums.sums)
    &&& sums_are_numbers(sums.sum_squares)
    &&& !sums.ar_sum.nan()
    &&& !sums.cs_sum.nan()
    &&& !sums.od_sum.nan()
    &&& !sums.ar_sum_squares.nan()
    &&& !sums.cs_sum_squares.nan()
    &&& !sums.od_sum_squares.nan()
}

/// Sorting what is already sorted leaves it as it is.
proof fn lemma_sorted_already(stats: Seq<StarSectionStats>)
    requires
        forall|i: int, j: int|
            0 <= i < j < stats.len() ==> crate::sorting::lex_le(
                stats_key(#[trigger] stats[i]),
                stats_key(#[trigger] stats[j]),
            ),
    ensures
        crate::sorting::sorted_by(stats, crate::sorting::keys_of(stats)) == stats,
{
    let keys = crate::sorting::keys_of(stats);
    let identity = Seq::new(stats.len(), |i: int| i);
    assert forall|i: int, j: int| 0 <= i < j < identity.len() implies crate::sorting::comes_before(
        keys,
        #[trigger] identity[i],
        #[trigger] identity[j],
    ) by {
        assert(crate::sorting::lex_le(stats_key(stats[i]), stats_key(stats[j])));
    }
    assert forall|position: int| 0 <= position < stats.len() implies #[trigger] identity.contains(
        position,
    ) by {
        assert(identity[position] == position);
    }
    crate::sorting::lemma_stable_order(keys);
    crate::sorting::lemma_stable_order_is_unique(
        keys,
        identity,
        crate::sorting::stable_order(keys),
    );
    assert(crate::sorting::sorted_by(stats, keys) =~= stats);
}

proof fn lemma_stats_of_version_split(left: Seq<StatsRow>, right: Seq<StatsRow>, version: u32)
    ensures
        stats_of_version(left + right, version) == stats_of_version(left, version)
            + stats_of_version(right, version),
    decreases right.len(),
{
    if right.len() == 0 {
        assert(left + right =~= left);
        assert(stats_of_version(left, version) + stats_of_version(right, version)
            =~= stats_of_version(left, version));
    } else {
        assert((left + right).drop_last() =~= left + right.drop_last());
        lemma_stats_of_version_split(left, right.drop_last(), version);
        assert(stats_of_version(left + right, version) =~= stats_of_version(left, version)
            + stats_of_version(right, version));
    }
}

proof fn lemma_stats_of_version_none(stats: Seq<StatsRow>, version: u32)
    requires
        forall|i: int|
            0 <= i < stats.len() ==> (#[trigger] stats[i]).stats.normalization_version != version,
    ensures
        stats_of_version(stats, version) == Seq::<StarSectionStats>::empty(),
    decreases stats.len(),
{
    if stats.len() > 0 {
        assert(stats[stats.len() - 1].stats.normalization_version != version);
        assert forall|i: int| 0 <= i < stats.drop_last().len() implies (
        #[trigger] stats.drop_last()[i]).stats.normalization_version != version by {
            assert(stats[i].stats.normalization_version != version);
        }
        lemma_stats_of_version_none(stats.drop_last(), version);
    }
}

proof fn lemma_stats_of_version_all(stats: Seq<StarSectionStats>, version: u32)
    requires
        forall|i: int|
            0 <= i < stats.len() ==> (#[trigger] stats[i]).normalization_version == version,
    ensures
        stats_of_version(complete_rows(stats), version) == stats,
    decreases stats.len(),
{
    if stats.len() > 0 {
        assert(stats[stats.len() - 1].normalization_version == version);
        assert(complete_rows(stats).drop_last() =~= complete_rows(stats.drop_last()));
        assert forall|i: int| 0 <= i < stats.drop_last().len() implies (
        #[trigger] stats.drop_last()[i]).normalization_version == version by {
            assert(stats[i].normalization_version == version);
        }
        lemma_stats_of_version_all(stats.drop_last(), version);
        assert(stats =~= stats.drop_last().push(stats.last()));
    } else {
        assert(complete_rows(stats) =~= seq![]);
        assert(stats =~= seq![]);
    }
}

proof fn lemma_other_stats_subset(
    stats: Seq<StatsRow>,
    records: Seq<BeatmapFeatureRecord>,
    i: int,
)
    requires
        0 <= i < other_stats(stats, records).len(),
    ensures
        exists|p: int| 0 <= p < stats.len() && #[trigger] stats[p] == other_stats(stats, records)[i],
        !uses_analyzer(records, other_stats(stats, records)[i].stats.analyzer_version),
    decreases stats.len(),
{
    if stats.len() > 0 {
        let front = other_stats(stats.drop_last(), records);
        if i < front.len() {
            lemma_other_stats_subset(stats.drop_last(), records, i);
            let p = choose|p: int|
                0 <= p < stats.drop_last().len() && #[trigger] stats.drop_last()[p] == front[i];
            assert(stats[p] == front[i]);
        } else {
            assert(stats[stats.len() - 1] == other_stats(stats, records)[i]);
        }
    }
}

/// The statistics of a version, once it is published and no other analyzer version has
/// statistics of the same version, are those of the published groups.
/// The statistics of the records come by star section, then by analyzer version.
proof fn lemma_stats_are_ordered(
    records: Seq<BeatmapFeatureRecord>,
    sections: Seq<i64>,
    version: u32,
    sums: Seq<SectionSums>,
    i: int,
    j: int,
)
    requires
        sections.len() == records.len(),
        0 <= i < j < stats_of_records(codes_of(records, sections), version, sums).len(),
    ensures
        crate::sorting::lex_le(
            stats_key(stats_of_records(codes_of(records, sections), version, sums)[i]),
            stats_key(stats_of_records(codes_of(records, sections), version, sums)[j]),
        ),
{
    let codes = codes_of(records, sections);
    let stats = stats_of_records(codes, version, sums);
    lemma_codes_fit(records, sections);
    crate::ordered::lemma_increasing_lists(codes.to_set());
    let order = group_codes(codes);
    assert(order[i] < order[j]);
    lemma_new_stats_are_of_used_analyzers(records, sections, version, sums, i);
    lemma_new_stats_are_of_used_analyzers(records, sections, version, sums, j);
    let p = choose|p: int|
        0 <= p < records.len() && group_code(
            sections[p],
            (#[trigger] records[p]).analyzer_version,
        ) == order[i];
    let q = choose|q: int|
        0 <= q < records.len() && group_code(
            sections[q],
            (#[trigger] records[q]).analyzer_version,
        ) == order[j];
    assert(stats[i].star_section == sections[p] && stats[i].analyzer_version
        == records[p].analyzer_version);
    assert(stats[j].star_section == sections[q] && stats[j].analyzer_version
        == records[q].analyzer_version);
    assert(stats_key(stats[i]).drop_first() =~= seq![stats[i].analyzer_version as int]);
    assert(stats_key(stats[j]).drop_first() =~= seq![stats[j].analyzer_version as int]);
    reveal_with_fuel(crate::sorting::lex_le, 3);
}

proof fn lemma_listed_after_publishing(
    before: Tables,
    after: Tables,
    version: u32,
    records: Seq<BeatmapFeatureRecord>,
    sections: Seq<i64>,
    sums: Seq<SectionSums>,
)
    requires
        sections.len() == records.len(),
        publishes(before, after, version, records, sections, sums),
        no_other_stats(before.stats@, version, records),
    ensures
        listed_stats(after.stats@, version) == stats_of_records(
            codes_of(records, sections),
            version,
            sums,
        ),
        !has_incomplete(after.stats@, version),
{
    let codes = codes_of(records, sections);
    let stats = stats_of_records(codes, version, sums);
    let kept = other_stats(before.stats@, records);
    assert forall|i: int| 0 <= i < kept.len() implies (
    #[trigger] kept[i]).stats.normalization_version != version by {
        lemma_other_stats_subset(before.stats@, records, i);
        let p = choose|p: int|
            0 <= p < before.stats@.len() && #[trigger] before.stats@[p] == kept[i];
        assert(before.stats@[p] == kept[i]);
    }
    lemma_stats_of_version_none(kept, version);
    lemma_stats_of_version_all(stats, version);
    lemma_stats_of_version_split(kept, complete_rows(stats), version);
    assert(stats_of_version(after.stats@, version) =~= stats);
    assert forall|i: int, j: int| 0 <= i < j < stats.len() implies crate::sorting::lex_le(
        stats_key(#[trigger] stats[i]),
        stats_key(#[trigger] stats[j]),
    ) by {
        lemma_stats_are_ordered(records, sections, version, sums, i, j);
    }
    lemma_sorted_already(stats);
    if has_incomplete(after.stats@, version) {
        let i = choose|i: int|
            0 <= i < after.stats@.len() && (
            #[trigger] after.stats@[i]).stats.normalization_version == version
                && !after.stats@[i].complete;
        if i < kept.len() {
            assert(kept[i] == after.stats@[i]);
        } else {
            assert(complete_rows(stats)[i - kept.len()] == after.stats@[i]);
        }
    }
}

/// Without statistics, as newly appended data leaves a store, none are listed for any version,
/// and a dataset with a published record is not valid until it is published again.
pub proof fn law_missing_statistics_are_not_valid(
    tables: Tables,
    version: u32,
    records: Seq<BeatmapFeatureRecord>,
    sections: Seq<i64>,
    sums: Seq<SectionSums>,
)
    requires
        tables.stats@.len() == 0,
        normalized_outcome(tables, version) == Ok::<Seq<BeatmapFeatureRecord>, StoreError>(records),
        records.len() > 0,
        sections.len() == records.len(),
        first_fault(tables, version, records, sections, 0) is None,
    ensures
        listed_stats(tables.stats@, version).len() == 0,
        validation(tables, version, sections, sums) == Err::<(), StoreError>(
            StoreError::StatsMismatch,
        ),
{
    let codes = codes_of(records, sections);
    let found = stats_of_version(tables.stats@, version);
    crate::sorting::lemma_stable_order(crate::sorting::keys_of(found));
    lemma_codes_fit(records, sections);
    crate::ordered::lemma_increasing_lists(codes.to_set());
    assert(codes.contains(codes[0]));
    assert(codes.to_set().contains(codes[0]));
    assert(group_codes(codes).contains(codes[0]));
}

/// A group has as many members as its code occurs.
proof fn lemma_members_count(codes: Seq<int>, code: int)
    ensures
        members_of(codes, code).len() == codes.to_multiset().count(code),
    decreases codes.len(),
{
    broadcast use vstd::seq_lib::group_to_multiset_ensures;

    if codes.len() > 0 {
        lemma_members_count(codes.drop_last(), code);
        assert(codes.drop_last().push(codes.last()) =~= codes);
    }
}

/// The same codes in another order make the same groups, so the same sums give the same
/// statistics.
proof fn lemma_stats_of_rearranged(
    codes: Seq<int>,
    other: Seq<int>,
    version: u32,
    sums: Seq<SectionSums>,
)
    requires
        codes.to_multiset() == other.to_multiset(),
    ensures
        group_codes(codes) == group_codes(other),
        stats_of_records(codes, version, sums) == stats_of_records(other, version, sums),
{
    assert forall|code: int| #[trigger] codes.to_set().contains(code) == other.to_set().contains(
        code,
    ) by {
        vstd::seq_lib::to_multiset_contains(codes, code);
        vstd::seq_lib::to_multiset_contains(other, code);
    }
    assert(codes.to_set() =~= other.to_set());
    assert forall|code: int| #[trigger] members_of(codes, code).len() == members_of(
        other,
        code,
    ).len() by {
        lemma_members_count(codes, code);
        lemma_members_count(other, code);
    }
    assert(stats_of_records(codes, version, sums) =~= stats_of_records(other, version, sums));
}

/// Right after records were published, their statistics are valid: for records of the current
/// analyzer version whose sums are numbers and are the same when the records are added up in the
/// order in which they are read back, and as long as no other analyzer version has statistics of
/// the same normalization version.
pub proof fn law_published_statistics_are_valid(
    before: Tables,
    after: Tables,
    version: u32,
    records: Seq<BeatmapFeatureRecord>,
    sections: Seq<i64>,
    sums: Seq<SectionSums>,
    stored: Seq<i64>,
)
    requires
        sections.len() == records.len(),
        sums.len() == group_codes(codes_of(records, sections)).len(),
        records.len() <= MAX_RECORDS,
        publishes(before, after, version, records, sections, sums),
        before.snapshot_current(),
        all_current(records),
        read_sections(after, version, stored),
        forall|g: int| 0 <= g < sums.len() ==> are_numbers(#[trigger] sums[g]),
        no_other_stats(before.stats@, version, records),
    ensures
        validation(after, version, stored, sums) == Ok::<(), StoreError>(()),
{
    let origin = lemma_read_origin(before, after, version, records, sections, sums);
    let read = crate::sorting::arranged(records, origin);
    law_published_records_can_be_published_again(before, after, version, records, sections, sums);
    assert forall|i: int| 0 <= i < read.len() implies sections[origin[i]] == #[trigger] stored[i]
        && record_fault(after, version, read, stored, i) is None by {
        lemma_no_fault(after, version, records, sections, 0, origin[i]);
        assert(read[i] == records[origin[i]]);
        assert(stored_stars(after, read[i]) is Some);
        assert(!is_repeated(read, i)) by {
            if is_repeated(read, i) {
                let k = choose|k: int| 0 <= k < i && same_analysis(#[trigger] read[k], read[i]);
                assert(records[origin[k]].beatmap_id < records[origin[i]].beatmap_id);
            }
        }
    }
    assert forall|i: int| 0 <= i < read.len() implies #[trigger] record_fault(
        after,
        version,
        read,
        stored,
        i,
    ) is None by {
        assert(sections[origin[i]] == stored[i]);
    }
    lemma_faultless(after, version, read, stored, 0);
    lemma_listed_after_publishing(before, after, version, records, sections, sums);
    let codes = codes_of(records, sections);
    assert forall|i: int, j: int| 0 <= i < j < origin.len() implies #[trigger] origin[i]
        != #[trigger] origin[j] by {
        assert(records[origin[i]].beatmap_id < records[origin[j]].beatmap_id);
    }
    crate::sorting::lemma_arranged_multiset(codes, origin);
    assert(codes_of(read, stored) =~= crate::sorting::arranged(codes, origin)) by {
        assert forall|i: int| 0 <= i < read.len() implies codes_of(read, stored)[i]
            == crate::sorting::arranged(codes, origin)[i] by {
            assert(sections[origin[i]] == stored[i]);
        }
    }
    lemma_stats_of_rearranged(codes_of(read, stored), codes, version, sums);
    let stats = stats_of_records(codes, version, sums);
    assert forall|g: int| 0 <= g < stats.len() implies same_stats(#[trigger] stats[g], stats[g]) by {
        assert(are_numbers(sums[g]));
    }
}

/// Records that are published in the order of their beatmaps are read back in that order, so
/// there the sections and sums that they were published with are those that are read.
pub proof fn law_ordered_records_are_valid_as_published(
    before: Tables,
    after: Tables,
    version: u32,
    records: Seq<BeatmapFeatureRecord>,
    sections: Seq<i64>,
    sums: Seq<SectionSums>,
)
    requires
        sections.len() == records.len(),
        sums.len() == group_codes(codes_of(records, sections)).len(),
        records.len() <= MAX_RECORDS,
        publishes(before, after, version, records, sections, sums),
        before.snapshot_current(),
        all_current(records),
        by_beatmap(records),
        forall|g: int| 0 <= g < sums.len() ==> are_numbers(#[trigger] sums[g]),
        no_other_stats(before.stats@, version, records),
    ensures
        normalized_outcome(after, version) == Ok::<Seq<BeatmapFeatureRecord>, StoreError>(records),
        validation(after, version, sections, sums) == Ok::<(), StoreError>(()),
{
    law_published_records_read_back(before, after, version, records, sections, sums);
    let read = normalized_outcome(after, version)->Ok_0;
    lemma_same_records(read, records);
    law_published_records_can_be_published_again(before, after, version, records, sections, sums);
    assert forall|i: int| 0 <= i < read.len() implies (stored_stars(
        after,
        #[trigger] read[i],
    ) matches Some(stars) && stars.1 == sections[i]) by {
        lemma_no_fault(after, version, records, sections, 0, i);
    }
    law_published_statistics_are_valid(before, after, version, records, sections, sums, sections);
}

/// Publishing a dataset of the current analyzer version a second time succeeds and leaves it
/// published and valid: the statistics that are read are those of the first time, they are valid,
/// and the records that are read are the same ones by increasing beatmap identifier.
pub proof fn law_republished_dataset_is_valid(
    before: Tables,
    once: Tables,
    twice: Tables,
    version: u32,
    records: Seq<BeatmapFeatureRecord>,
    sections: Seq<i64>,
    sums: Seq<SectionSums>,
    stored: Seq<i64>,
)
    requires
        sections.len() == records.len(),
        sums.len() == group_codes(codes_of(records, sections)).len(),
        records.len() <= MAX_RECORDS,
        publishes(before, once, version, records, sections, sums),
        publish_refusal(once, version, records, sections) is None ==> publishes(
            once,
            twice,
            version,
            records,
            sections,
            sums,
        ),
        before.snapshot_current(),
        all_current(records),
        read_sections(twice, version, stored),
        forall|g: int| 0 <= g < sums.len() ==> are_numbers(#[trigger] sums[g]),
        no_other_stats(before.stats@, version, records),
    ensures
        publish_refusal(once, version, records, sections) is None,
        publishes(once, twice, version, records, sections, sums),
        stats_outcome(twice, version) is Ok,
        stats_outcome(twice, version) == stats_outcome(once, version),
        validation(twice, version, stored, sums) == Ok::<(), StoreError>(()),
        normalized_outcome(twice, version) == normalized_outcome(once, version),
        normalized_outcome(twice, version) matches Ok(read) && read.len() == records.len()
            && by_beatmap(read) && (forall|i: int|
            0 <= i < read.len() ==> records.contains(#[trigger] read[i])) && (forall|j: int|
            0 <= j < records.len() ==> read.contains(#[trigger] records[j])),
{
    law_publishing_again_changes_nothing(before, once, twice, version, records, sections, sums);
    assert(no_other_stats(once.stats@, version, records)) by {
        let kept = other_stats(before.stats@, records);
        let added = complete_rows(
            stats_of_records(codes_of(records, sections), version, sums),
        );
        assert forall|i: int|
            0 <= i < once.stats@.len() && (
            #[trigger] once.stats@[i]).stats.normalization_version == version implies uses_analyzer(
            records,
            once.stats@[i].stats.analyzer_version,
        ) by {
            if i < kept.len() {
                assert(once.stats@[i] == kept[i]);
                lemma_other_stats_subset(before.stats@, records, i);
                let p = choose|p: int|
                    0 <= p < before.stats@.len() && #[trigger] before.stats@[p] == kept[i];
                assert(before.stats@[p] == kept[i]);
            } else {
                assert(once.stats@[i] == added[i - kept.len()]);
                lemma_new_stats_are_of_used_analyzers(
                    records,
                    sections,
                    version,
                    sums,
                    i - kept.len(),
                );
            }
        }
    }
    law_published_statistics_are_valid(once, twice, version, records, sections, sums, stored);
    law_published_records_read_back(before, once, version, records, sections, sums);
    law_published_records_read_back(once, twice, version, records, sections, sums);
    let first = normalized_outcome(once, version)->Ok_0;
    let second = normalized_outcome(twice, version)->Ok_0;
    assert forall|i: int| 0 <= i < first.len() implies second.contains(#[trigger] first[i]) by {
        assert(records.contains(first[i]));
        let j = choose|j: int| 0 <= j < records.len() && records[j] == first[i];
        assert(second.contains(records[j]));
    }
    assert forall|i: int| 0 <= i < second.len() implies first.contains(#[trigger] second[i]) by {
        assert(records.contains(second[i]));
        let j = choose|j: int| 0 <= j < records.len() && records[j] == second[i];
        assert(first.contains(records[j]));
    }
    lemma_same_records(first, second);
}

proof fn lemma_faultless(
    tables: Tables,
    version: u32,
    records: Seq<BeatmapFeatureRecord>,
    sections: Seq<i64>,
    from: int,
)
    requires
        0 <= from,
        forall|i: int|
            0 <= i < records.len() ==> #[trigger] record_fault(
                tables,
                version,
                records,
                sections,
                i,
            ) is None,
    ensures
        first_fault(tables, version, records, sections, from) is None,
    decreases records.len() - from,
{
    if from < records.len() {
        assert(record_fault(tables, version, records, sections, from) is None);
        lemma_faultless(tables, version, records, sections, from + 1);
    }
}

/// Two lists of the same records in the order of their beatmaps are the same.
proof fn lemma_same_records(
    left: Seq<BeatmapFeatureRecord>,
    right: Seq<BeatmapFeatureRecord>,
)
    requires
        by_beatmap(left),
        by_beatmap(right),
        forall|i: int| 0 <= i < left.len() ==> right.contains(#[trigger] left[i]),
        forall|j: int| 0 <= j < right.len() ==> left.contains(#[trigger] right[j]),
    ensures
        left == right,
{
    let a = Seq::new(left.len(), |i: int| left[i].beatmap_id as int);
    let b = Seq::new(right.len(), |i: int| right[i].beatmap_id as int);
    let ids = a.to_set();
    assert forall|id: int| #[trigger] b.contains(id) <==> ids.contains(id) by {
        if b.contains(id) {
            let j = choose|j: int| 0 <= j < b.len() && b[j] == id;
            assert(left.contains(right[j]));
            let i = choose|i: int| 0 <= i < left.len() && left[i] == right[j];
            assert(a[i] == id);
        }
        if ids.contains(id) {
            let i = choose|i: int| 0 <= i < a.len() && a[i] == id;
            assert(right.contains(left[i]));
            let j = choose|j: int| 0 <= j < right.len() && right[j] == left[i];
            assert(b[j] == id);
        }
    }
    assert forall|i: int, j: int| 0 <= i < j < a.len() implies #[trigger] a[i] < #[trigger] a[j] by {
        assert(left[i].beatmap_id < left[j].beatmap_id);
    }
    assert forall|i: int, j: int| 0 <= i < j < b.len() implies #[trigger] b[i] < #[trigger] b[j] by {
        assert(right[i].beatmap_id < right[j].beatmap_id);
    }
    crate::ordered::lemma_lists_is_unique(a, b, ids);
    assert forall|i: int| 0 <= i < left.len() implies left[i] == right[i] by {
        assert(right.contains(left[i]));
        let j = choose|j: int| 0 <= j < right.len() && right[j] == left[i];
        assert(a[i] == b[i]);
        assert(b[j] == b[i]);
        if j < i {
            assert(right[j].beatmap_id < right[i].beatmap_id);
        } else if i < j {
            assert(right[i].beatmap_id < right[j].beatmap_id);
        }
    }
    assert(left =~= right);
}

/// Statistics from before base parameters were counted are refused until the dataset is built
/// again: opening the store leaves them, so they can neither be read nor be valid. A new beatmap
/// clears them, and publishing records then gives statistics that are valid, where their sums are
/// numbers that do not depend on the order of the records.
pub proof fn law_legacy_statistics_are_refused_until_rebuilt(
    legacy: Tables,
    opened: Tables,
    appended: Tables,
    published: Tables,
    metadata: BeatmapMetadata,
    raw: RawFeatureRecord,
    section: i64,
    version: u32,
    records: Seq<BeatmapFeatureRecord>,
    sections: Seq<i64>,
    sums: Seq<SectionSums>,
    stored: Seq<i64>,
)
    requires
        has_incomplete(legacy.stats@, version),
        opened.same_but_versions(&legacy),
        opened.append_refusal(metadata, raw) is None,
        !(opened.append_effect(metadata, raw, section) is Unchanged),
        crate::store::appends(opened, appended, metadata, raw, section),
        publishes(appended, published, version, records, sections, sums),
        sections.len() == records.len(),
        sums.len() == group_codes(codes_of(records, sections)).len(),
        records.len() <= MAX_RECORDS,
        all_current(records),
        read_sections(published, version, stored),
        forall|g: int| 0 <= g < sums.len() ==> are_numbers(#[trigger] sums[g]),
    ensures
        stats_outcome(opened, version) == Err::<Seq<StarSectionStats>, StoreError>(
            StoreError::IncompleteStats,
        ),
        forall|some_sections: Seq<i64>, some_sums: Seq<SectionSums>| #[trigger]
            validation(opened, version, some_sections, some_sums) is Err,
        stats_outcome(appended, version) == Ok::<Seq<StarSectionStats>, StoreError>(seq![]),
        stats_outcome(published, version) is Ok,
        validation(published, version, stored, sums) == Ok::<(), StoreError>(()),
{
    let none = stats_of_version(appended.stats@, version);
    assert(none =~= seq![]);
    crate::sorting::lemma_stable_order(crate::sorting::keys_of(none));
    assert(listed_stats(appended.stats@, version) =~= seq![]);
    law_published_statistics_are_valid(
        appended,
        published,
        version,
        records,
        sections,
        sums,
        stored,
    );
}

/// How many members the first `count` groups of `order` have together.
pub open spec fn members_total(codes: Seq<int>, order: Seq<int>, count: nat) -> nat
    decreases count,
{
    if count == 0 {
        0
    } else {
        members_total(codes, order, (count - 1) as nat) + members_of(codes, order[count - 1]).len()
    }
}

proof fn lemma_members_total_grows(codes: Seq<int>, order: Seq<int>, count: nat)
    requires
        codes.len() > 0,
        count <= order.len(),
        forall|i: int, j: int|
            0 <= i < j < order.len() ==> #[trigger] order[i] < #[trigger] order[j],
    ensures
        members_total(codes, order, count) == members_total(codes.drop_last(), order, count)
            + if order.take(count as int).contains(codes.last()) {
            1nat
        } else {
            0nat
        },
    decreases count,
{
    if count > 0 {
        let last = count - 1;
        lemma_members_total_grows(codes, order, last as nat);
        let now = order.take(count as int);
        let past = order.take(last as int);
        assert(now =~= past.push(order[last]));
        if past.contains(codes.last()) {
            let p = choose|p: int| 0 <= p < past.len() && past[p] == codes.last();
            assert(now[p] == codes.last());
            assert(order[p] < order[last]);
        }
        if order[last] == codes.last() {
            assert(now[last as int] == codes.last());
        }
        if now.contains(codes.last()) && order[last] != codes.last() {
            let p = choose|p: int| 0 <= p < now.len() && now[p] == codes.last();
            assert(past[p] == codes.last());
        }
    } else {
        assert(order.take(0) =~= seq![]);
    }
}

proof fn lemma_members_total(codes: Seq<int>, order: Seq<int>)
    requires
        forall|i: int, j: int|
            0 <= i < j < order.len() ==> #[trigger] order[i] < #[trigger] order[j],
        forall|i: int| 0 <= i < codes.len() ==> order.contains(#[trigger] codes[i]),
    ensures
        members_total(codes, order, order.len()) == codes.len(),
    decreases codes.len(),
{
    if codes.len() > 0 {
        lemma_members_total_grows(codes, order, order.len());
        assert(order.take(order.len() as int) =~= order);
        assert(order.contains(codes[codes.len() - 1]));
        assert forall|i: int| 0 <= i < codes.drop_last().len() implies order.contains(
            #[trigger] codes.drop_last()[i],
        ) by {
            assert(order.contains(codes[i]));
        }
        lemma_members_total(codes.drop_last(), order);
    } else {
        assert(codes =~= seq![]);
        lemma_no_members(order, order.len());
    }
}

proof fn lemma_no_members(order: Seq<int>, count: nat)
    ensures
        members_total(seq![], order, count) == 0,
    decreases count,
{
    if count > 0 {
        lemma_no_members(order, (count - 1) as nat);
    }
}

/// Every published record is counted in the statistics exactly once: the sample counts of all
/// groups add up to the number of records.
pub proof fn law_statistics_count_every_record_once(
    records: Seq<BeatmapFeatureRecord>,
    sections: Seq<i64>,
)
    requires
        sections.len() == records.len(),
    ensures
        ({
            let codes = codes_of(records, sections);
            let order = group_codes(codes);
            members_total(codes, order, order.len()) == records.len()
        }),
{
    let codes = codes_of(records, sections);
    let order = group_codes(codes);
    lemma_codes_fit(records, sections);
    crate::ordered::lemma_increasing_lists(codes.to_set());
    assert forall|i: int| 0 <= i < codes.len() implies order.contains(#[trigger] codes[i]) by {
        assert(codes.to_set().contains(codes[i]));
    }
    lemma_members_total(codes, order);
}

// What publishing does

proof fn lemma_first_fault(
    tables: Tables,
    version: u32,
    records: Seq<BeatmapFeatureRecord>,
    sections: Seq<i64>,
    from: int,
)
    requires
        0 <= from,
    ensures
        first_fault(tables, version, records, sections, from) is None <==> forall|i: int|
            from <= i < records.len() ==> #[trigger] record_fault(
                tables,
                version,
                records,
                sections,
                i,
            ) is None,
    decreases records.len() - from,
{
    if from < records.len() {
        lemma_first_fault(tables, version, records, sections, from + 1);
        if forall|i: int|
            from <= i < records.len() ==> #[trigger] record_fault(
                tables,
                version,
                records,
                sections,
                i,
            ) is None {
            assert(record_fault(tables, version, records, sections, from) is None);
        }
    }
}

/// What can be published: at least one record, and of each record that it is without mods and
/// declares the version, that its five difficulties, its approach rate, circle size and overall
/// difficulty are finite, that no record before it is of the same beatmap and analyzer version,
/// that its beatmap is stored with stars and a stored analysis, and that its section is the stored
/// one. Nothing else is asked, and nothing less.
pub proof fn law_publishable_records(
    tables: Tables,
    version: u32,
    records: Seq<BeatmapFeatureRecord>,
    sections: Seq<i64>,
)
    ensures
        publish_refusal(tables, version, records, sections) is None <==> records.len() > 0
            && forall|i: int|
            0 <= i < records.len() ==> {
                let record = #[trigger] records[i];
                let key = crate::store::key_of(record.beatmap_id, record.analyzer_version);
                let row = tables.beatmaps@[record.beatmap_id];
                &&& record.mod_profile == 0
                &&& record.normalization_version == version
                &&& record.difficulty.aim.finite()
                &&& record.difficulty.speed.finite()
                &&& record.difficulty.reading.finite()
                &&& record.difficulty.slider.finite()
                &&& record.difficulty.overlap.finite()
                &&& record.base.ar.finite()
                &&& record.base.cs.finite()
                &&& record.base.od.finite()
                &&& forall|j: int|
                    0 <= j < i ==> (#[trigger] records[j]).beatmap_id != record.beatmap_id
                        || records[j].analyzer_version != record.analyzer_version
                &&& tables.beatmaps@.contains_key(record.beatmap_id)
                &&& tables.analyses@.contains_key(key)
                &&& tables.analyses@[key].status == 1 || tables.analyses@[key].status == 2
                &&& row.star_rating is Some
                &&& row.star_rating->Some_0.finite()
                &&& row.star_rating->Some_0.at_least_zero()
                &&& row.star_section == Some(sections[i])
            },
        records.len() == 0 ==> publish_refusal(tables, version, records, sections) == Some(
            StoreError::EmptyDataset,
        ),
{
    lemma_first_fault(tables, version, records, sections, 0);
    if publish_refusal(tables, version, records, sections) is None {
        assert forall|i: int| 0 <= i < records.len() implies {
            let record = #[trigger] records[i];
            let key = crate::store::key_of(record.beatmap_id, record.analyzer_version);
            let row = tables.beatmaps@[record.beatmap_id];
            &&& record.mod_profile == 0
            &&& record.normalization_version == version
            &&& record.difficulty.aim.finite()
            &&& record.difficulty.speed.finite()
            &&& record.difficulty.reading.finite()
            &&& record.difficulty.slider.finite()
            &&& record.difficulty.overlap.finite()
            &&& record.base.ar.finite()
            &&& record.base.cs.finite()
            &&& record.base.od.finite()
            &&& forall|j: int|
                0 <= j < i ==> (#[trigger] records[j]).beatmap_id != record.beatmap_id
                    || records[j].analyzer_version != record.analyzer_version
            &&& tables.beatmaps@.contains_key(record.beatmap_id)
            &&& tables.analyses@.contains_key(key)
            &&& tables.analyses@[key].status == 1 || tables.analyses@[key].status == 2
            &&& row.star_rating is Some
            &&& row.star_rating->Some_0.finite()
            &&& row.star_rating->Some_0.at_least_zero()
            &&& row.star_section == Some(sections[i])
        } by {
            assert(record_fault(tables, version, records, sections, i) is None);
            assert(!is_repeated(records, i));
            assert forall|j: int| 0 <= j < i implies (#[trigger] records[j]).beatmap_id
                != records[i].beatmap_id || records[j].analyzer_version
                != records[i].analyzer_version by {
                assert(!same_analysis(records[j], records[i]));
            }
        }
    }
    if records.len() > 0 && forall|i: int|
        0 <= i < records.len() ==> {
            let record = #[trigger] records[i];
            let key = crate::store::key_of(record.beatmap_id, record.analyzer_version);
            let row = tables.beatmaps@[record.beatmap_id];
            &&& record.mod_profile == 0
            &&& record.normalization_version == version
            &&& record.difficulty.aim.finite()
            &&& record.difficulty.speed.finite()
            &&& record.difficulty.reading.finite()
            &&& record.difficulty.slider.finite()
            &&& record.difficulty.overlap.finite()
            &&& record.base.ar.finite()
            &&& record.base.cs.finite()
            &&& record.base.od.finite()
            &&& forall|j: int|
                0 <= j < i ==> (#[trigger] records[j]).beatmap_id != record.beatmap_id
                    || records[j].analyzer_version != record.analyzer_version
            &&& tables.beatmaps@.contains_key(record.beatmap_id)
            &&& tables.analyses@.contains_key(key)
            &&& tables.analyses@[key].status == 1 || tables.analyses@[key].status == 2
            &&& row.star_rating is Some
            &&& row.star_rating->Some_0.finite()
            &&& row.star_rating->Some_0.at_least_zero()
            &&& row.star_section == Some(sections[i])
        } {
        assert forall|i: int| 0 <= i < records.len() implies #[trigger] record_fault(
            tables,
            version,
            records,
            sections,
            i,
        ) is None by {
            let record = records[i];
            if is_repeated(records, i) {
                let j = choose|j: int|
                    0 <= j < i && same_analysis(#[trigger] records[j], records[i]);
                assert(records[j].beatmap_id != record.beatmap_id || records[j].analyzer_version
                    != record.analyzer_version);
            }
        }
    }
}

/// What publishing makes of the analyses: that of each record is then published in the version and
/// points to the record's place in the feature file, and keeps its raw record. What else of the
/// same analyzer versions was published is so no longer. All other analyses stay, and none comes
/// or goes.
pub proof fn law_publishing_moves_the_analyses(
    before: Tables,
    after: Tables,
    version: u32,
    records: Seq<BeatmapFeatureRecord>,
    sections: Seq<i64>,
    sums: Seq<SectionSums>,
)
    requires
        publishes(before, after, version, records, sections, sums),
        records.len() <= MAX_RECORDS,
    ensures
        forall|i: int|
            0 <= i < records.len() ==> {
                let record = #[trigger] records[i];
                let key = crate::store::key_of(record.beatmap_id, record.analyzer_version);
                let row = after.analyses@[key];
                &&& row.status == 2
                &&& row.normalization_version == version
                &&& row.normalized_offset == Some((32 + 124 * i) as u64)
                &&& row.record_offset == before.analyses@[key].record_offset
            },
        forall|key: u128| #[trigger]
            after.analyses@.contains_key(key) <==> before.analyses@.contains_key(key),
        forall|key: u128|
            before.analyses@.contains_key(key) && (forall|i: int|
                0 <= i < records.len() ==> key != crate::store::key_of(
                    (#[trigger] records[i]).beatmap_id,
                    records[i].analyzer_version,
                )) ==> {
                let row = #[trigger] after.analyses@[key];
                let old_row = before.analyses@[key];
                if old_row.status == 2 && exists|i: int|
                    0 <= i < records.len() && (#[trigger] records[i]).analyzer_version == key
                        % 0x1_0000_0000 {
                    &&& row.status == 1
                    &&& row.normalization_version == 0
                    &&& row.normalized_offset is None
                    &&& row.record_offset == old_row.record_offset
                } else {
                    row == old_row
                }
            },
{
    let base = withdrawn(before.analyses@, records);
    assert forall|a: int, b: int| 0 <= a < b < records.len() implies record_key(
        #[trigger] records[a],
    ) != record_key(#[trigger] records[b]) by {
        lemma_distinct_keys(before, version, records, sections, a, b);
    }
    lemma_with_published_rows(base, version, records, records.len());
    assert forall|i: int| 0 <= i < records.len() implies before.analyses@.contains_key(
        record_key(#[trigger] records[i]),
    ) by {
        lemma_no_fault(before, version, records, sections, 0, i);
    }
    assert forall|i: int| 0 <= i < records.len() implies {
        let record = #[trigger] records[i];
        let key = crate::store::key_of(record.beatmap_id, record.analyzer_version);
        let row = after.analyses@[key];
        &&& row.status == 2
        &&& row.normalization_version == version
        &&& row.normalized_offset == Some((32 + 124 * i) as u64)
        &&& row.record_offset == before.analyses@[key].record_offset
    } by {
        assert(before.analyses@.contains_key(record_key(records[i])));
        assert(after.analyses@[record_key(records[i])] == published_row(
            base,
            version,
            records[i],
            i,
        ));
    }
    assert forall|key: u128| #[trigger] after.analyses@.contains_key(key)
        <==> before.analyses@.contains_key(key) by {
        if exists|i: int| 0 <= i < records.len() && record_key(#[trigger] records[i]) == key {
            let i = choose|i: int| 0 <= i < records.len() && record_key(#[trigger] records[i])
                == key;
            assert(before.analyses@.contains_key(record_key(records[i])));
        }
        assert(base.contains_key(key) == before.analyses@.contains_key(key));
    }
    assert forall|key: u128|
        before.analyses@.contains_key(key) && (forall|i: int|
            0 <= i < records.len() ==> key != crate::store::key_of(
                (#[trigger] records[i]).beatmap_id,
                records[i].analyzer_version,
            )) implies {
        let row = #[trigger] after.analyses@[key];
        let old_row = before.analyses@[key];
        if old_row.status == 2 && exists|i: int|
            0 <= i < records.len() && (#[trigger] records[i]).analyzer_version == key
                % 0x1_0000_0000 {
            &&& row.status == 1
            &&& row.normalization_version == 0
            &&& row.normalized_offset is None
            &&& row.record_offset == old_row.record_offset
        } else {
            row == old_row
        }
    } by {
        assert(after.analyses@[key] == base[key]);
        let analyzer = crate::store::analyzer_of(key);
        if exists|i: int|
            0 <= i < records.len() && (#[trigger] records[i]).analyzer_version == key
                % 0x1_0000_0000 {
            let i = choose|i: int|
                0 <= i < records.len() && (#[trigger] records[i]).analyzer_version == key
                    % 0x1_0000_0000;
            assert(records[i].analyzer_version == analyzer);
            assert(uses_analyzer(records, analyzer));
        } else if uses_analyzer(records, analyzer) {
            let i = choose|i: int|
                0 <= i < records.len() && (#[trigger] records[i]).analyzer_version == analyzer;
            assert(records[i].analyzer_version == key % 0x1_0000_0000);
        }
    }
}

/// What publishing makes of the statistics: those of the analyzer versions of the records go, all
/// others stay in order, and the new ones are added behind them, all with base parameters.
pub proof fn law_publishing_replaces_statistics(
    stats: Seq<StatsRow>,
    records: Seq<BeatmapFeatureRecord>,
)
    ensures
        other_stats(stats, records) == stats.filter(
            |row: StatsRow|
                forall|i: int|
                    0 <= i < records.len() ==> (#[trigger] records[i]).analyzer_version
                        != row.stats.analyzer_version,
        ),
    decreases stats.len(),
{
    reveal(Seq::filter);
    if stats.len() > 0 {
        law_publishing_replaces_statistics(stats.drop_last(), records);
        let row = stats.last();
        if !uses_analyzer(records, row.stats.analyzer_version) {
            assert forall|i: int| 0 <= i < records.len() implies (
            #[trigger] records[i]).analyzer_version != row.stats.analyzer_version by {}
        }
    }
}

proof fn lemma_members_are(codes: Seq<int>, code: int)
    ensures
        forall|m: int|
            0 <= m < members_of(codes, code).len() ==> 0 <= #[trigger] members_of(
                codes,
                code,
            )[m] < codes.len() && codes[members_of(codes, code)[m]] == code,
        forall|p: int|
            0 <= p < codes.len() && codes[p] == code ==> #[trigger] members_of(
                codes,
                code,
            ).contains(p),
        forall|m: int, n: int|
            0 <= m < n < members_of(codes, code).len() ==> (#[trigger] members_of(codes, code)[m])
                < (#[trigger] members_of(codes, code)[n]),
    decreases codes.len(),
{
    if codes.len() > 0 {
        let front = codes.drop_last();
        let some = members_of(front, code);
        let all = members_of(codes, code);
        lemma_members_are(front, code);
        assert forall|m: int| 0 <= m < all.len() implies 0 <= #[trigger] all[m] < codes.len()
            && codes[all[m]] == code by {
            if m < some.len() {
                assert(all[m] == some[m]);
                assert(front[some[m]] == codes[some[m]]);
            }
        }
        assert forall|p: int| 0 <= p < codes.len() && codes[p] == code implies #[trigger]
            all.contains(p) by {
            if p < front.len() {
                assert(front[p] == code);
                assert(some.contains(p));
                let m = choose|m: int| 0 <= m < some.len() && some[m] == p;
                assert(all[m] == p);
            } else {
                assert(all[all.len() - 1] == p);
            }
        }
        assert forall|m: int, n: int| 0 <= m < n < all.len() implies (#[trigger] all[m]) < (
        #[trigger] all[n]) by {
            assert(all[m] == some[m]);
            assert(0 <= some[m] < front.len());
            if n < some.len() {
                assert(all[n] == some[n]);
            }
        }
    }
}

/// How records are grouped: one group for every star section and analyzer version that occurs,
/// by section, then by analyzer version. A group has the positions of exactly the records of its
/// section and analyzer version, in increasing order.
pub proof fn law_groups_are_by_section_and_analyzer(
    records: Seq<BeatmapFeatureRecord>,
    sections: Seq<i64>,
    groups: Seq<StarGroup>,
)
    requires
        sections.len() == records.len(),
        groups_records(codes_of(records, sections), groups),
    ensures
        forall|g: int, m: int|
            0 <= g < groups.len() && 0 <= m < groups[g].members@.len() ==> (
            #[trigger] groups[g].members@[m]) < records.len() && sections[groups[g].members@[m]
                as int] == groups[g].star_section && records[groups[g].members@[m]
                as int].analyzer_version == groups[g].analyzer_version,
        forall|g: int, m: int, n: int|
            0 <= g < groups.len() && 0 <= m < n < groups[g].members@.len() ==> (
            #[trigger] groups[g].members@[m]) < (#[trigger] groups[g].members@[n]),
        forall|g: int, h: int|
            0 <= g < h < groups.len() ==> {
                let left = #[trigger] groups[g];
                let right = #[trigger] groups[h];
                left.star_section < right.star_section || (left.star_section
                    == right.star_section && left.analyzer_version < right.analyzer_version)
            },
        forall|g: int| 0 <= g < groups.len() ==> (#[trigger] groups[g]).members@.len() > 0,
{
    let codes = codes_of(records, sections);
    let order = group_codes(codes);
    lemma_codes_fit(records, sections);
    crate::ordered::lemma_increasing_lists(codes.to_set());
    assert forall|g: int, m: int|
        0 <= g < groups.len() && 0 <= m < groups[g].members@.len() implies (
    #[trigger] groups[g].members@[m]) < records.len() && sections[groups[g].members@[m] as int]
        == groups[g].star_section && records[groups[g].members@[m] as int].analyzer_version
        == groups[g].analyzer_version by {
        lemma_members_are(codes, order[g]);
        let listed = members_of(codes, order[g]);
        assert(crate::sorting::positions(groups[g].members@) == listed);
        assert(crate::sorting::positions(groups[g].members@)[m] == groups[g].members@[m]);
        assert(codes[listed[m]] == order[g]);
        lemma_codes_tell_apart(
            sections[listed[m]],
            records[listed[m]].analyzer_version,
            groups[g].star_section,
            groups[g].analyzer_version,
        );
    }
    assert forall|g: int, m: int, n: int|
        0 <= g < groups.len() && 0 <= m < n < groups[g].members@.len() implies (
    #[trigger] groups[g].members@[m]) < (#[trigger] groups[g].members@[n]) by {
        lemma_members_are(codes, order[g]);
        let listed = members_of(codes, order[g]);
        assert(crate::sorting::positions(groups[g].members@) == listed);
        assert(crate::sorting::positions(groups[g].members@)[m] == groups[g].members@[m]);
        assert(crate::sorting::positions(groups[g].members@)[n] == groups[g].members@[n]);
        assert(listed[m] < listed[n]);
    }
    assert forall|g: int, h: int| 0 <= g < h < groups.len() implies {
        let left = #[trigger] groups[g];
        let right = #[trigger] groups[h];
        left.star_section < right.star_section || (left.star_section == right.star_section
            && left.analyzer_version < right.analyzer_version)
    } by {
        assert(order[g] < order[h]);
    }
    assert forall|g: int| 0 <= g < groups.len() implies (
    #[trigger] groups[g]).members@.len() > 0 by {
        lemma_members_exist(codes, order[g]);
        assert(order.contains(order[g]));
        assert(codes.to_set().contains(order[g]));
        assert(crate::sorting::positions(groups[g].members@) == members_of(codes, order[g]));
    }
}

/// Every record is in the group of its own section and analyzer version.
pub proof fn law_every_record_is_in_its_group(
    records: Seq<BeatmapFeatureRecord>,
    sections: Seq<i64>,
    groups: Seq<StarGroup>,
    p: int,
) -> (place: (int, int))
    requires
        sections.len() == records.len(),
        groups_records(codes_of(records, sections), groups),
        0 <= p < records.len(),
    ensures
        0 <= place.0 < groups.len(),
        0 <= place.1 < groups[place.0].members@.len(),
        groups[place.0].members@[place.1] == p,
        groups[place.0].star_section == sections[p],
        groups[place.0].analyzer_version == records[p].analyzer_version,
{
    let codes = codes_of(records, sections);
    let order = group_codes(codes);
    lemma_codes_fit(records, sections);
    crate::ordered::lemma_increasing_lists(codes.to_set());
    assert(codes[p] == group_code(sections[p], records[p].analyzer_version));
    assert(codes.to_set().contains(codes[p]));
    assert(order.contains(codes[p]));
    let g = choose|g: int| 0 <= g < order.len() && order[g] == codes[p];
    lemma_members_are(codes, order[g]);
    let listed = members_of(codes, order[g]);
    assert(listed.contains(p));
    let m = choose|m: int| 0 <= m < listed.len() && listed[m] == p;
    assert(crate::sorting::positions(groups[g].members@) == listed);
    assert(crate::sorting::positions(groups[g].members@)[m] == groups[g].members@[m]);
    lemma_codes_tell_apart(
        sections[p],
        records[p].analyzer_version,
        groups[g].star_section,
        groups[g].analyzer_version,
    );
    (g, m)
}

proof fn lemma_codes_tell_apart(left: i64, left_version: u32, right: i64, right_version: u32)
    requires
        group_code(left, left_version) == group_code(right, right_version),
    ensures
        left == right,
        left_version == right_version,
{
}

/// What the statistics of the groups say: each has the section and analyzer version of its group,
/// the version that was asked for, the number of records of that section and analyzer version,
/// and the sums of its group, field by field. They come by section, then by analyzer version.
pub proof fn law_statistics_describe_their_groups(
    records: Seq<BeatmapFeatureRecord>,
    sections: Seq<i64>,
    version: u32,
    sums: Seq<SectionSums>,
    g: int,
)
    requires
        sections.len() == records.len(),
        records.len() <= u64::MAX,
        0 <= g < stats_of_records(codes_of(records, sections), version, sums).len(),
    ensures
        ({
            let stats = stats_of_records(codes_of(records, sections), version, sums)[g];
            let positions = Seq::new(records.len(), |i: int| i);
            &&& stats.normalization_version == version
            &&& stats.sample_count == positions.filter(
                |i: int|
                    sections[i] == stats.star_section && records[i].analyzer_version
                        == stats.analyzer_version,
            ).len()
            &&& stats.sample_count > 0
            &&& stats.sums == sums[g].sums
            &&& stats.sum_squares == sums[g].sum_squares
            &&& stats.ar_sum == sums[g].ar_sum
            &&& stats.cs_sum == sums[g].cs_sum
            &&& stats.od_sum == sums[g].od_sum
            &&& stats.ar_sum_squares == sums[g].ar_sum_squares
            &&& stats.cs_sum_squares == sums[g].cs_sum_squares
            &&& stats.od_sum_squares == sums[g].od_sum_squares
        }),
        forall|h: int|
            g < h < stats_of_records(codes_of(records, sections), version, sums).len() ==> {
                let left = stats_of_records(codes_of(records, sections), version, sums)[g];
                let right = #[trigger] stats_of_records(
                    codes_of(records, sections),
                    version,
                    sums,
                )[h];
                left.star_section < right.star_section || (left.star_section
                    == right.star_section && left.analyzer_version < right.analyzer_version)
            },
{
    let codes = codes_of(records, sections);
    let order = group_codes(codes);
    let all = stats_of_records(codes, version, sums);
    let stats = all[g];
    lemma_codes_fit(records, sections);
    crate::ordered::lemma_increasing_lists(codes.to_set());
    lemma_new_stats_are_of_used_analyzers(records, sections, version, sums, g);
    let p = choose|p: int|
        0 <= p < records.len() && group_code(
            sections[p],
            (#[trigger] records[p]).analyzer_version,
        ) == order[g];
    assert(stats.star_section == sections[p] && stats.analyzer_version
        == records[p].analyzer_version);
    lemma_members_filter(records, sections, stats.star_section, stats.analyzer_version);
    lemma_members_length(codes, order[g]);
    assert(codes[p] == order[g]);
    assert(codes.contains(order[g]));
    lemma_members_exist(codes, order[g]);
    assert forall|h: int| g < h < all.len() implies {
        let left = all[g];
        let right = #[trigger] all[h];
        left.star_section < right.star_section || (left.star_section == right.star_section
            && left.analyzer_version < right.analyzer_version)
    } by {
        assert(order[g] < order[h]);
        lemma_new_stats_are_of_used_analyzers(records, sections, version, sums, h);
        let q = choose|q: int|
            0 <= q < records.len() && group_code(
                sections[q],
                (#[trigger] records[q]).analyzer_version,
            ) == order[h];
        assert(all[h].star_section == sections[q] && all[h].analyzer_version
            == records[q].analyzer_version);
    }
}

proof fn lemma_members_length(codes: Seq<int>, code: int)
    ensures
        members_of(codes, code).len() <= codes.len(),
    decreases codes.len(),
{
    if codes.len() > 0 {
        lemma_members_length(codes.drop_last(), code);
    }
}

proof fn lemma_members_filter(
    records: Seq<BeatmapFeatureRecord>,
    sections: Seq<i64>,
    section: i64,
    analyzer_version: u32,
)
    requires
        sections.len() == records.len(),
    ensures
        members_of(codes_of(records, sections), group_code(section, analyzer_version)).len()
            == Seq::new(records.len(), |i: int| i).filter(
            |i: int|
                sections[i] == section && records[i].analyzer_version == analyzer_version,
        ).len(),
{
    let test = |i: int|
        sections[i] == section && records[i].analyzer_version == analyzer_version;
    lemma_members_filter_of(
        records,
        sections,
        section,
        analyzer_version,
        records.len(),
        test,
    );
    assert(codes_of(records, sections).take(records.len() as int) =~= codes_of(records, sections));
}

proof fn lemma_members_filter_of(
    records: Seq<BeatmapFeatureRecord>,
    sections: Seq<i64>,
    section: i64,
    analyzer_version: u32,
    count: nat,
    test: spec_fn(int) -> bool,
)
    requires
        sections.len() == records.len(),
        count <= records.len(),
        forall|i: int|
            0 <= i < records.len() ==> (#[trigger] test(i) <==> sections[i] == section
                && records[i].analyzer_version == analyzer_version),
    ensures
        members_of(
            codes_of(records, sections).take(count as int),
            group_code(section, analyzer_version),
        ).len() == Seq::new(count, |i: int| i).filter(test).len(),
    decreases count,
{
    reveal(Seq::filter);
    if count > 0 {
        let codes = codes_of(records, sections);
        lemma_members_filter_of(
            records,
            sections,
            section,
            analyzer_version,
            (count - 1) as nat,
            test,
        );
        assert(codes.take(count as int).drop_last() =~= codes.take(count - 1));
        let positions = Seq::new(count, |i: int| i);
        assert(positions.drop_last() =~= Seq::new((count - 1) as nat, |i: int| i));
        assert(codes.take(count as int).last() == group_code(
            sections[count - 1],
            records[count - 1].analyzer_version,
        ));
        if codes.take(count as int).last() == group_code(section, analyzer_version) {
            lemma_codes_tell_apart(
                sections[count - 1],
                records[count - 1].analyzer_version,
                section,
                analyzer_version,
            );
        }
        assert(positions.last() == count - 1);
        assert(test(count - 1) <==> sections[count - 1] == section && records[count
            - 1].analyzer_version == analyzer_version);
    }
}

/// Which statistics are listed for a version: exactly those of that version, by section, then by
/// analyzer version; and none are, where any of them lacks base parameters.
pub proof fn law_listed_statistics_are_those_of_the_version(tables: Tables, version: u32)
    ensures
        stats_outcome(tables, version) matches Ok(listed) ==> {
            &&& listed.to_multiset() == tables.stats@.filter(
                |row: StatsRow| row.stats.normalization_version == version,
            ).map_values(|row: StatsRow| row.stats).to_multiset()
            &&& forall|i: int, j: int|
                0 <= i < j < listed.len() ==> (#[trigger] listed[i]).star_section < (
                #[trigger] listed[j]).star_section || (listed[i].star_section
                    == listed[j].star_section && listed[i].analyzer_version
                    <= listed[j].analyzer_version)
        },
        stats_outcome(tables, version) is Err <==> exists|i: int|
            0 <= i < tables.stats@.len() && (
            #[trigger] tables.stats@[i]).stats.normalization_version == version
                && !tables.stats@[i].complete,
        stats_outcome(tables, version) is Err ==> stats_outcome(tables, version) == Err::<
            Seq<StarSectionStats>,
            StoreError,
        >(StoreError::IncompleteStats),
{
    let found = stats_of_version(tables.stats@, version);
    let keys = crate::sorting::keys_of(found);
    let order = crate::sorting::stable_order(keys);
    let listed = listed_stats(tables.stats@, version);
    lemma_stats_of_version_filter(tables.stats@, version);
    crate::sorting::lemma_sorted_multiset(found, keys);
    crate::sorting::lemma_stable_order(keys);
    assert forall|i: int, j: int| 0 <= i < j < listed.len() implies (
    #[trigger] listed[i]).star_section < (#[trigger] listed[j]).star_section || (
    listed[i].star_section == listed[j].star_section && listed[i].analyzer_version
        <= listed[j].analyzer_version) by {
        assert(crate::sorting::comes_before(keys, order[i], order[j]));
        assert(0 <= order[i] < found.len() && 0 <= order[j] < found.len());
        assert(keys[order[i]] == stats_key(found[order[i]]));
        assert(keys[order[j]] == stats_key(found[order[j]]));
        assert(keys[order[i]].drop_first() =~= seq![listed[i].analyzer_version as int]);
        assert(keys[order[j]].drop_first() =~= seq![listed[j].analyzer_version as int]);
        reveal_with_fuel(crate::sorting::lex_le, 3);
    }
}

proof fn lemma_stats_of_version_filter(stats: Seq<StatsRow>, version: u32)
    ensures
        stats_of_version(stats, version) == stats.filter(
            |row: StatsRow| row.stats.normalization_version == version,
        ).map_values(|row: StatsRow| row.stats),
    decreases stats.len(),
{
    reveal(Seq::filter);
    let test = |row: StatsRow| row.stats.normalization_version == version;
    let inner = |row: StatsRow| row.stats;
    if stats.len() > 0 {
        lemma_stats_of_version_filter(stats.drop_last(), version);
    }
    assert(stats_of_version(stats, version) =~= stats.filter(test).map_values(inner));
}

/// Valid statistics are complete and agree with those of the published records in every count and
/// every sum, group by group; statistics that differ in any of them are not valid.
pub proof fn law_valid_statistics_agree_in_every_sum(
    tables: Tables,
    version: u32,
    records: Seq<BeatmapFeatureRecord>,
    sections: Seq<i64>,
    sums: Seq<SectionSums>,
)
    requires
        normalized_outcome(tables, version) == Ok::<Seq<BeatmapFeatureRecord>, StoreError>(records),
        validation(tables, version, sections, sums) is Ok,
    ensures
        stats_outcome(tables, version) is Ok,
        first_fault(tables, version, records, sections, 0) is None,
        ({
            let actual = stats_outcome(tables, version)->Ok_0;
            let expected = stats_of_records(codes_of(records, sections), version, sums);
            &&& actual.len() == expected.len()
            &&& forall|g: int|
                0 <= g < actual.len() ==> {
                    let left = #[trigger] actual[g];
                    let right = expected[g];
                    &&& left.star_section == right.star_section
                    &&& left.analyzer_version == right.analyzer_version
                    &&& left.normalization_version == right.normalization_version
                    &&& left.sample_count == right.sample_count
                    &&& left.sums.aim.numeric_eq(right.sums.aim)
                    &&& left.sums.speed.numeric_eq(right.sums.speed)
                    &&& left.sums.reading.numeric_eq(right.sums.reading)
                    &&& left.sums.slider.numeric_eq(right.sums.slider)
                    &&& left.sums.overlap.numeric_eq(right.sums.overlap)
                    &&& left.sum_squares.aim.numeric_eq(right.sum_squares.aim)
                    &&& left.sum_squares.speed.numeric_eq(right.sum_squares.speed)
                    &&& left.sum_squares.reading.numeric_eq(right.sum_squares.reading)
                    &&& left.sum_squares.slider.numeric_eq(right.sum_squares.slider)
                    &&& left.sum_squares.overlap.numeric_eq(right.sum_squares.overlap)
                    &&& left.ar_sum.numeric_eq(right.ar_sum)
                    &&& left.cs_sum.numeric_eq(right.cs_sum)
                    &&& left.od_sum.numeric_eq(right.od_sum)
                    &&& left.ar_sum_squares.numeric_eq(right.ar_sum_squares)
                    &&& left.cs_sum_squares.numeric_eq(right.cs_sum_squares)
                    &&& left.od_sum_squares.numeric_eq(right.od_sum_squares)
                }
        }),
{
}

/// Which records are read for a version: for each analysis of the current analyzer version that is
/// published in it, what its place in the feature file holds, in the order of the analyses. Each
/// of them is of the current analyzer version, of the version asked for, and without mods; where
/// the snapshot is not current, nothing is read.
pub proof fn law_published_records_are_those_of_the_analyses(tables: Tables, version: u32)
    ensures
        normalized_outcome(tables, version) matches Ok(records) ==> {
            let keys = crate::store::selected_keys(
                tables.analyses@,
                ANALYZER_VERSION,
                Some(version),
            );
            &&& tables.snapshot_current()
            &&& records.len() == keys.len()
            &&& forall|i: int|
                0 <= i < keys.len() ==> {
                    let row = tables.analyses@[(#[trigger] keys[i]) as u128];
                    &&& row.normalized_offset is Some
                    &&& tables.normalized@.contains_key(version as u64)
                    &&& crate::records::normalized_at(
                        tables.normalized@[version as u64]@,
                        row.normalized_offset->Some_0,
                    ) == Some(records[i])
                    &&& records[i].analyzer_version == ANALYZER_VERSION
                    &&& records[i].normalization_version == version
                    &&& records[i].mod_profile == 0
                }
        },
        !tables.snapshot_current() ==> normalized_outcome(tables, version) == Err::<
            Seq<BeatmapFeatureRecord>,
            StoreError,
        >(StoreError::SnapshotMismatch),
{
    let keys = crate::store::selected_keys(tables.analyses@, ANALYZER_VERSION, Some(version));
    if let Ok(records) = normalized_outcome(tables, version) {
        assert forall|i: int| 0 <= i < keys.len() implies {
            let row = tables.analyses@[(#[trigger] keys[i]) as u128];
            &&& row.normalized_offset is Some
            &&& tables.normalized@.contains_key(version as u64)
            &&& crate::records::normalized_at(
                tables.normalized@[version as u64]@,
                row.normalized_offset->Some_0,
            ) == Some(records[i])
            &&& records[i].analyzer_version == ANALYZER_VERSION
            &&& records[i].normalization_version == version
            &&& records[i].mod_profile == 0
        } by {
            lemma_readable(tables, version, keys, 0, i);
            lemma_consistent(records, version, 0, i);
        }
    }
}

proof fn lemma_readable(tables: Tables, version: u32, keys: Seq<int>, from: int, at: int)
    requires
        0 <= from <= at < keys.len(),
        first_unreadable(tables, version, keys, from) is None,
    ensures
        crate::store::published_at(tables, version, keys[at] as u128) is Ok,
    decreases at - from,
{
    if from < at {
        lemma_readable(tables, version, keys, from + 1, at);
    }
}

proof fn lemma_consistent(records: Seq<BeatmapFeatureRecord>, version: u32, from: int, at: int)
    requires
        0 <= from <= at < records.len(),
        first_inconsistent(records, version, from) is None,
    ensures
        is_consistent(records[at], version),
    decreases at - from,
{
    if from < at {
        lemma_consistent(records, version, from + 1, at);
    }
}

} // verus!
