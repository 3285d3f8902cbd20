//! The similarity index of the osu!standard dataset.
//!
//! The graphs of the main and the delta index give the candidates of a query by label, that is
//! by beatmap identifier. Everything around that search is decided here.

use std::collections::BTreeMap;

use vstd::prelude::*;

use crate::float_bits::F32;
use crate::ordered::keys64;
use crate::paths::join;
use crate::publish::SectionSums;
use crate::sorting::{order_of, RankKey};
use crate::store::{FeatureStore, StoreError, Tables};
use crate::text::{push_decimal, push_text, string_of};
use crate::types::{
    BaseFeatures, BeatmapFeatureRecord, QueryFilters, SimilarityQuery, SimilarityResult,
};

verus! {

broadcast use vstd::std_specs::btree::group_btree_axioms;

/// What is known of an index file apart from its graph.
pub struct IndexLabels {
    pub normalization_version: u32,
    pub labels: Vec<u64>,
}

#[derive(Clone, Copy, Debug, PartialEq, Eq, Structural)]
pub enum IndexError {
    Store { error: StoreError },
    MainMissing,
    IndexMissing { delta: bool },
    DatasetVersion,
    QueryVersion,
    DuplicateBeatmap { beatmap_id: u64 },
    Coverage,
    LabelOrder,
    ModProfile,
}

/// Where the main or the delta index of the data directory `root` is kept.
pub open spec fn index_file_text(root: Seq<char>, delta: bool) -> Seq<char> {
    crate::paths::joined(
        crate::paths::joined(root, "indexes"@),
        if delta {
            "difficulty-delta.hnsw"@
        } else {
            "difficulty-main.hnsw"@
        },
    )
}

/// Where the main or the delta index of the data directory `root` is kept.
pub fn index_file(root: &str, delta: bool) -> (path: String)
    ensures
        path@ == index_file_text(root@, delta),
{
    let directory: String = join(root, "indexes");
    if delta {
        join(directory.as_str(), "difficulty-delta.hnsw")
    } else {
        join(directory.as_str(), "difficulty-main.hnsw")
    }
}

impl IndexError {
    /// The error in words, where the index is in the data directory `root`.
    pub open spec fn text(self, root: Seq<char>) -> Seq<char> {
        match self {
            IndexError::Store { error } => error.text(),
            IndexError::MainMissing => "main index is missing; run index build first"@,
            IndexError::IndexMissing { delta } => "index is missing: "@ + index_file_text(
                root,
                delta,
            ),
            IndexError::DatasetVersion => "index normalization version does not match dataset"@,
            IndexError::QueryVersion => "index normalization version does not match query"@,
            IndexError::DuplicateBeatmap { beatmap_id } => "beatmap "@ + crate::text::decimal(
                beatmap_id as nat,
            ) + " occurs in both main/delta index data"@,
            IndexError::Coverage =>
                "main/delta index records do not match active normalized records"@,
            IndexError::LabelOrder => "HNSW label order is not contiguous"@,
            IndexError::ModProfile => "only NoMod (mod_profile=0) is supported"@,
        }
    }

    /// The error in words, where the index is in the data directory `root`.
    pub fn message(&self, root: &str) -> (message: String)
        ensures
            message@ == self.text(root@),
    {
        let mut text: Vec<char> = Vec::new();
        match self {
            IndexError::Store { error } => {
                return error.message();
            },
            IndexError::MainMissing => push_text(
                &mut text,
                "main index is missing; run index build first",
            ),
            IndexError::IndexMissing { delta } => {
                let path: String = index_file(root, *delta);
                push_text(&mut text, "index is missing: ");
                push_text(&mut text, path.as_str());
            },
            IndexError::DatasetVersion => push_text(
                &mut text,
                "index normalization version does not match dataset",
            ),
            IndexError::QueryVersion => push_text(
                &mut text,
                "index normalization version does not match query",
            ),
            IndexError::DuplicateBeatmap { beatmap_id } => {
                push_text(&mut text, "beatmap ");
                push_decimal(&mut text, *beatmap_id);
                push_text(&mut text, " occurs in both main/delta index data");
            },
            IndexError::Coverage => push_text(
                &mut text,
                "main/delta index records do not match active normalized records",
            ),
            IndexError::LabelOrder => push_text(&mut text, "HNSW label order is not contiguous"),
            IndexError::ModProfile => push_text(
                &mut text,
                "only NoMod (mod_profile=0) is supported",
            ),
        }
        assert(text@ =~= self.text(root@));
        string_of(text.as_slice())
    }
}

// Building

/// The records that the main index is built of, in the order in which they are inserted. They
/// are the published ones, and their statistics must be valid.
pub fn records_to_index(
    store: &FeatureStore,
    version: u32,
    sections: &Vec<i64>,
    sums: &Vec<SectionSums>,
) -> (outcome: Result<Vec<BeatmapFeatureRecord>, IndexError>)
    requires
        crate::publish::normalized_outcome(store.tables, version) matches Ok(records)
            ==> sections@.len() == records.len() && (crate::publish::first_fault(
            store.tables,
            version,
            records,
            sections@,
            0,
        ) is None ==> sums@.len() == crate::publish::group_codes(
            crate::publish::codes_of(records, sections@),
        ).len()),
    ensures
        match crate::publish::validation(store.tables, version, sections@, sums@) {
            Ok(_) => outcome matches Ok(records) && crate::publish::normalized_outcome(
                store.tables,
                version,
            ) == Ok::<Seq<BeatmapFeatureRecord>, StoreError>(records@),
            Err(error) => outcome matches Err(reported) && reported == (IndexError::Store {
                error,
            }),
        },
{
    match store.validate_star_section_stats(version, sections, sums) {
        Ok(_) => {},
        Err(error) => {
            return Err(IndexError::Store { error });
        },
    }
    match store.normalized_records(version) {
        Ok(records) => Ok(records),
        Err(error) => Err(IndexError::Store { error }),
    }
}

/// Adds the label of a record that the graph has put at `index`. Labels are found by these
/// positions again, so the positions must be contiguous.
pub fn add_label(labels: &mut Vec<u64>, index: usize, beatmap_id: u64) -> (outcome: Result<
    (),
    IndexError,
>)
    ensures
        match outcome {
            Ok(_) => index == old(labels)@.len() && final(labels)@ == old(labels)@.push(beatmap_id),
            Err(error) => index != old(labels)@.len() && error == IndexError::LabelOrder
                && final(labels)@ == old(labels)@,
        },
{
    if index != labels.len() {
        return Err(IndexError::LabelOrder);
    }
    labels.push(beatmap_id);
    Ok(())
}

// Coverage

/// Whether the label at `at` stands at an earlier position too.
pub open spec fn repeats(labels: Seq<u64>, at: int) -> bool {
    exists|earlier: int| 0 <= earlier < at && #[trigger] labels[earlier] == labels[at]
}

/// The first position, from `from` on, whose label stands at an earlier position too.
pub open spec fn first_repeat(labels: Seq<u64>, from: int) -> Option<int>
    decreases labels.len() - from,
{
    if from < 0 || from >= labels.len() {
        None
    } else if repeats(labels, from) {
        Some(from)
    } else {
        first_repeat(labels, from + 1)
    }
}

/// The beatmaps of `records`.
pub open spec fn beatmaps_of(records: Seq<BeatmapFeatureRecord>) -> Set<u64> {
    Set::new(
        |id: u64|
            exists|i: int| 0 <= i < records.len() && (#[trigger] records[i]).beatmap_id == id,
    )
}

/// What checking the index files against the published records finds.
pub open spec fn coverage(
    tables: Tables,
    version: u32,
    main: Option<IndexLabels>,
    delta: Option<IndexLabels>,
) -> Result<(), IndexError> {
    match crate::publish::normalized_outcome(tables, version) {
        Err(error) => Err(IndexError::Store { error }),
        Ok(records) => match main {
            None => Err(IndexError::IndexMissing { delta: false }),
            Some(main) => if main.normalization_version != version {
                Err(IndexError::DatasetVersion)
            } else {
                match first_repeat(main.labels@, 0) {
                    Some(at) => Err(IndexError::DuplicateBeatmap { beatmap_id: main.labels@[at] }),
                    None => match delta {
                        None => Err(IndexError::IndexMissing { delta: true }),
                        Some(delta) => if delta.normalization_version != version {
                            Err(IndexError::DatasetVersion)
                        } else {
                            let labels = main.labels@ + delta.labels@;
                            match first_repeat(labels, main.labels@.len() as int) {
                                Some(at) => Err(
                                    IndexError::DuplicateBeatmap { beatmap_id: labels[at] },
                                ),
                                None => if labels.to_set() == beatmaps_of(records) {
                                    Ok(())
                                } else {
                                    Err(IndexError::Coverage)
                                },
                            }
                        },
                    },
                }
            },
        },
    }
}

/// Adds labels to those that were found before, up to the first that was found already.
fn add_found(
    found: &mut BTreeMap<u64, bool>,
    labels: &Vec<u64>,
    Ghost(earlier): Ghost<Seq<u64>>,
) -> (repeated: Option<u64>)
    requires
        forall|id: u64| #[trigger] old(found)@.contains_key(id) <==> earlier.contains(id),
    ensures
        match repeated {
            Some(id) => first_repeat(earlier + labels@, earlier.len() as int) matches Some(at) && (
            earlier + labels@)[at] == id,
            None => first_repeat(earlier + labels@, earlier.len() as int) is None && forall|id: u64|
             #[trigger]
                final(found)@.contains_key(id) <==> (earlier + labels@).contains(id),
        },
{
    let ghost all = earlier + labels@;
    let mut i: usize = 0;
    assert(all.take(earlier.len() as int) =~= earlier);
    while i < labels.len()
        invariant
            i <= labels@.len(),
            all == earlier + labels@,
            forall|id: u64| #[trigger]
                found@.contains_key(id) <==> all.take(earlier.len() + i).contains(id),
            first_repeat(all, earlier.len() as int) == first_repeat(all, earlier.len() + i),
        decreases labels@.len() - i,
    {
        let id: u64 = labels[i];
        let ghost at = earlier.len() + i;
        let ghost past = all.take(at as int);
        let ghost now = all.take(at + 1);
        let ghost before = found@;
        proof {
            assert(all[at as int] == id);
            assert(now =~= past.push(id));
            if repeats(all, at as int) {
                let e = choose|e: int| 0 <= e < at && #[trigger] all[e] == all[at as int];
                assert(past[e] == id);
            }
            if past.contains(id) {
                let e = choose|e: int| 0 <= e < past.len() && past[e] == id;
                assert(all[e] == all[at as int]);
            }
        }
        if found.contains_key(&id) {
            return Some(id);
        }
        found.insert(id, true);
        proof {
            assert forall|other: u64| #[trigger] found@.contains_key(other) <==> now.contains(
                other,
            ) by {
                if now.contains(other) {
                    let p = choose|p: int| 0 <= p < now.len() && now[p] == other;
                    if p < at {
                        assert(past[p] == other);
                    }
                }
                if past.contains(other) {
                    let p = choose|p: int| 0 <= p < past.len() && past[p] == other;
                    assert(now[p] == other);
                }
                if other == id {
                    assert(now[at as int] == other);
                }
                assert(before.contains_key(other) <==> past.contains(other));
            }
        }
        i = i + 1;
    }
    assert(all.take(all.len() as int) =~= all);
    None
}

/// Whether every key of `inner` is a key of `outer`.
fn keys_within(inner: &BTreeMap<u64, bool>, outer: &BTreeMap<u64, bool>) -> (within: bool)
    ensures
        within == (forall|id: u64| #[trigger] inner@.contains_key(id) ==> outer@.contains_key(id)),
{
    let ids: Vec<u64> = keys64(inner);
    let ghost listed = crate::ordered::list64(ids@);
    proof {
        crate::ordered::lemma_increasing_lists(crate::ordered::ints64(inner@.dom()));
    }
    let mut i: usize = 0;
    while i < ids.len()
        invariant
            i <= ids@.len(),
            forall|k: int| 0 <= k < ids@.len() ==> inner@.contains_key(#[trigger] ids@[k]),
            forall|k: int| 0 <= k < i ==> outer@.contains_key(#[trigger] ids@[k]),
        decreases ids@.len() - i,
    {
        assert(inner@.contains_key(ids@[i as int]));
        if !outer.contains_key(&ids[i]) {
            return false;
        }
        i = i + 1;
    }
    proof {
        assert forall|id: u64| #[trigger] inner@.contains_key(id) implies outer@.contains_key(
            id,
        ) by {
            assert(crate::ordered::ints64(inner@.dom()).contains(id as int));
            assert(listed.contains(id as int));
            let k = choose|k: int| 0 <= k < listed.len() && listed[k] == id;
            assert(ids@[k] == id);
        }
    }
    true
}

fn beatmap_keys(records: &Vec<BeatmapFeatureRecord>) -> (keys: BTreeMap<u64, bool>)
    ensures
        forall|id: u64| #[trigger]
            keys@.contains_key(id) <==> beatmaps_of(records@).contains(id),
{
    let mut keys: BTreeMap<u64, bool> = BTreeMap::new();
    let mut i: usize = 0;
    while i < records.len()
        invariant
            i <= records@.len(),
            forall|id: u64| #[trigger]
                keys@.contains_key(id) <==> exists|k: int|
                    0 <= k < i && (#[trigger] records@[k]).beatmap_id == id,
        decreases records@.len() - i,
    {
        let ghost before = keys@;
        let id: u64 = records[i].beatmap_id;
        keys.insert(id, true);
        proof {
            assert forall|other: u64| #[trigger] keys@.contains_key(other) <==> exists|k: int|
                0 <= k < i + 1 && (#[trigger] records@[k]).beatmap_id == other by {
                if keys@.contains_key(other) {
                    if other == id {
                        assert(records@[i as int].beatmap_id == other);
                    } else {
                        assert(before.contains_key(other));
                    }
                }
                if exists|k: int| 0 <= k < i + 1 && (#[trigger] records@[k]).beatmap_id == other {
                    let k = choose|k: int|
                        0 <= k < i + 1 && (#[trigger] records@[k]).beatmap_id == other;
                    if k < i {
                        assert(before.contains_key(other));
                    }
                }
            }
        }
        i = i + 1;
    }
    keys
}

/// Checks that the main and the delta index together hold exactly the published records, each
/// in one of them and once.
pub fn validate_index_coverage(
    store: &FeatureStore,
    version: u32,
    main: &Option<IndexLabels>,
    delta: &Option<IndexLabels>,
) -> (outcome: Result<(), IndexError>)
    ensures
        outcome == coverage(store.tables, version, *main, *delta),
{
    let records: Vec<BeatmapFeatureRecord> = match store.normalized_records(version) {
        Ok(records) => records,
        Err(error) => {
            return Err(IndexError::Store { error });
        },
    };
    let main: &IndexLabels = match main {
        Some(main) => main,
        None => {
            return Err(IndexError::IndexMissing { delta: false });
        },
    };
    if main.normalization_version != version {
        return Err(IndexError::DatasetVersion);
    }
    let mut found: BTreeMap<u64, bool> = BTreeMap::new();
    let ghost none: Seq<u64> = seq![];
    assert(none + main.labels@ =~= main.labels@);
    if let Some(beatmap_id) = add_found(&mut found, &main.labels, Ghost(none)) {
        return Err(IndexError::DuplicateBeatmap { beatmap_id });
    }
    let delta: &IndexLabels = match delta {
        Some(delta) => delta,
        None => {
            return Err(IndexError::IndexMissing { delta: true });
        },
    };
    if delta.normalization_version != version {
        return Err(IndexError::DatasetVersion);
    }
    if let Some(beatmap_id) = add_found(&mut found, &delta.labels, Ghost(main.labels@)) {
        return Err(IndexError::DuplicateBeatmap { beatmap_id });
    }
    let ghost labels = main.labels@ + delta.labels@;
    let expected: BTreeMap<u64, bool> = beatmap_keys(&records);
    if !keys_within(&found, &expected) {
        proof {
            let id = choose|id: u64| #[trigger]
                found@.contains_key(id) && !expected@.contains_key(id);
            assert(labels.to_set().contains(id));
            assert(!beatmaps_of(records@).contains(id));
        }
        return Err(IndexError::Coverage);
    }
    if !keys_within(&expected, &found) {
        proof {
            let id = choose|id: u64| #[trigger]
                expected@.contains_key(id) && !found@.contains_key(id);
            assert(!labels.contains(id));
            assert(!labels.to_set().contains(id));
            assert(beatmaps_of(records@).contains(id));
        }
        return Err(IndexError::Coverage);
    }
    proof {
        assert forall|id: u64| labels.to_set().contains(id) == beatmaps_of(records@).contains(
            id,
        ) by {
            assert(found@.contains_key(id) <==> labels.contains(id));
            assert(expected@.contains_key(id) <==> beatmaps_of(records@).contains(id));
        }
        assert(labels.to_set() =~= beatmaps_of(records@));
    }
    Ok(())
}

// Queries

/// The index of one normalization version, ready for queries.
pub struct SimilarityStore {
    root: String,
    normalization_version: u32,
}

/// The distances of a candidate from the target of a query.
#[derive(Clone, Copy, Debug, PartialEq, Eq, Structural)]
pub struct SimilarityDistance {
    pub final_distance: F32,
    pub difficulty_distance: F32,
    pub base_distance: F32,
}

/// A candidate of a query.
#[derive(Clone, Copy, Debug, PartialEq, Eq, Structural)]
pub struct Candidate {
    pub beatmap_id: u64,
    pub record: BeatmapFeatureRecord,
}

/// Whether a record passes the filters of a query.
pub open spec fn passes(base: BaseFeatures, beatmapset_id: u64, filters: QueryFilters) -> bool {
    &&& filters.min_ar matches Some(least) ==> least.numeric_le(base.ar)
    &&& filters.max_ar matches Some(most) ==> base.ar.numeric_le(most)
    &&& filters.min_bpm matches Some(least) ==> least.numeric_le(base.bpm)
    &&& filters.max_bpm matches Some(most) ==> base.bpm.numeric_le(most)
    &&& filters.beatmapset_id matches Some(id) ==> beatmapset_id == id
}

/// Whether a record passes the filters of a query.
pub fn matches_filters(base: &BaseFeatures, beatmapset_id: u64, filters: &QueryFilters) -> (answer:
    bool)
    ensures
        answer == passes(*base, beatmapset_id, *filters),
{
    if let Some(least) = filters.min_ar {
        if !least.at_most(&base.ar) {
            return false;
        }
    }
    if let Some(most) = filters.max_ar {
        if !base.ar.at_most(&most) {
            return false;
        }
    }
    if let Some(least) = filters.min_bpm {
        if !least.at_most(&base.bpm) {
            return false;
        }
    }
    if let Some(most) = filters.max_bpm {
        if !base.bpm.at_most(&most) {
            return false;
        }
    }
    if let Some(id) = filters.beatmapset_id {
        if beatmapset_id != id {
            return false;
        }
    }
    true
}

/// How many neighbours are asked of a graph with `labels` labels, and how wide it is searched.
pub fn search_extent(limit: usize, labels: usize) -> (extent: (usize, usize))
    ensures
        extent.0 == if limit == 0 || labels == 0 {
            1
        } else if limit < labels {
            limit
        } else {
            labels
        },
        extent.1 == if limit < 64 {
            64
        } else if limit > 128 {
            128
        } else {
            limit
        },
{
    let least: usize = if limit < labels {
        limit
    } else {
        labels
    };
    let count: usize = if least < 1 {
        1
    } else {
        least
    };
    let width: usize = if limit < 64 {
        64
    } else if limit > 128 {
        128
    } else {
        limit
    };
    (count, width)
}

/// The labels at the positions that are positions of labels, in order.
pub open spec fn labels_found(labels: Seq<u64>, positions: Seq<usize>) -> Seq<u64>
    decreases positions.len(),
{
    if positions.len() == 0 {
        seq![]
    } else {
        let front = labels_found(labels, positions.drop_last());
        if positions.last() < labels.len() {
            front.push(labels[positions.last() as int])
        } else {
            front
        }
    }
}

/// The labels of the neighbours that a graph has found. Positions without a label are left out.
pub fn labels_at(labels: &Vec<u64>, positions: &Vec<usize>) -> (found: Vec<u64>)
    ensures
        found@ == labels_found(labels@, positions@),
{
    let mut found: Vec<u64> = Vec::new();
    let mut i: usize = 0;
    assert(positions@.take(0) =~= seq![]);
    while i < positions.len()
        invariant
            i <= positions@.len(),
            found@ == labels_found(labels@, positions@.take(i as int)),
        decreases positions@.len() - i,
    {
        assert(positions@.take(i + 1).drop_last() =~= positions@.take(i as int));
        if positions[i] < labels.len() {
            found.push(labels[positions[i]]);
        }
        i = i + 1;
    }
    assert(positions@.take(positions@.len() as int) =~= positions@);
    found
}

/// The beatmaps among `ids` other than the target.
pub open spec fn other_ids(ids: Seq<u64>, target: u64) -> Set<int> {
    Set::new(
        |id: int| 0 <= id <= u64::MAX && ids.contains(id as u64) && id as u64 != target,
    )
}

/// The beatmaps among `ids` other than the target, each once, in increasing order.
pub open spec fn candidate_ids(ids: Seq<u64>, target: u64) -> Seq<int> {
    crate::ordered::increasing(other_ids(ids, target))
}

/// What is wrong with the first beatmap, from `from` on, whose record cannot be read.
pub open spec fn first_unknown(
    tables: Tables,
    version: u32,
    ids: Seq<int>,
    from: int,
) -> Option<StoreError>
    decreases ids.len() - from,
{
    if from < 0 || from >= ids.len() {
        None
    } else {
        match crate::store::normalized_for(tables, version, ids[from] as u64) {
            Err(error) => Some(error),
            Ok(_) => first_unknown(tables, version, ids, from + 1),
        }
    }
}

/// The candidates among `ids` that pass the filters, in order.
pub open spec fn candidates_of(
    tables: Tables,
    version: u32,
    ids: Seq<int>,
    filters: QueryFilters,
) -> Seq<Candidate>
    decreases ids.len(),
{
    if ids.len() == 0 {
        seq![]
    } else {
        let front = candidates_of(tables, version, ids.drop_last(), filters);
        let id = ids.last() as u64;
        let record = crate::store::normalized_for(tables, version, id)->Ok_0;
        if passes(record.base, record.beatmapset_id, filters) {
            front.push(Candidate { beatmap_id: id, record })
        } else {
            front
        }
    }
}

/// What keeps a query from being answered, where `ids` are the labels that the search found.
pub open spec fn query_refusal(
    tables: Tables,
    version: u32,
    query: SimilarityQuery,
    ids: Seq<u64>,
) -> Option<IndexError> {
    if query.mod_profile != 0 {
        Some(IndexError::ModProfile)
    } else {
        match crate::store::normalized_for(tables, version, query.beatmap_id) {
            Err(error) => Some(IndexError::Store { error }),
            Ok(target) => match first_unknown(
                tables,
                version,
                candidate_ids(ids, target.beatmap_id),
                0,
            ) {
                Some(error) => Some(IndexError::Store { error }),
                None => None,
            },
        }
    }
}

/// The candidates of a query that can be answered.
pub open spec fn query_candidates(
    tables: Tables,
    version: u32,
    query: SimilarityQuery,
    ids: Seq<u64>,
) -> Seq<Candidate> {
    let target = crate::store::normalized_for(tables, version, query.beatmap_id)->Ok_0;
    candidates_of(tables, version, candidate_ids(ids, target.beatmap_id), query.filters)
}

/// The keys by which candidates are ranked: the distance, then the beatmap's identifier.
pub open spec fn distance_keys(
    candidates: Seq<Candidate>,
    distances: Seq<SimilarityDistance>,
) -> Seq<Seq<int>> {
    Seq::new(
        candidates.len(),
        |i: int| crate::sorting::rank_key(distances[i].final_distance, candidates[i].beatmap_id),
    )
}

/// The result for one candidate.
pub open spec fn result_of(
    candidate: Candidate,
    distance: SimilarityDistance,
) -> SimilarityResult {
    SimilarityResult {
        beatmap_id: candidate.beatmap_id,
        beatmapset_id: candidate.record.beatmapset_id,
        final_distance: distance.final_distance,
        difficulty_distance: distance.difficulty_distance,
        base_distance: distance.base_distance,
        difficulty: candidate.record.difficulty,
    }
}

/// The nearest candidates, nearest first, at most `limit` of them.
pub open spec fn ranked(
    candidates: Seq<Candidate>,
    distances: Seq<SimilarityDistance>,
    limit: int,
) -> Seq<SimilarityResult> {
    let order = crate::sorting::stable_order(distance_keys(candidates, distances));
    let count = if order.len() <= limit {
        order.len()
    } else {
        limit as nat
    };
    Seq::new(count, |k: int| result_of(candidates[order[k]], distances[order[k]]))
}

/// The nearest candidates, nearest first, at most `limit` of them.
pub fn rank_candidates(
    candidates: &Vec<Candidate>,
    distances: &Vec<SimilarityDistance>,
    limit: usize,
) -> (results: Vec<SimilarityResult>)
    requires
        distances@.len() == candidates@.len(),
    ensures
        results@ == ranked(candidates@, distances@, limit as int),
{
    let mut keys: Vec<RankKey> = Vec::new();
    let mut i: usize = 0;
    while i < candidates.len()
        invariant
            i <= candidates@.len(),
            distances@.len() == candidates@.len(),
            keys@.len() == i,
            forall|k: int|
                0 <= k < i ==> (#[trigger] keys@[k]).value == distances@[k].final_distance
                    && keys@[k].id == candidates@[k].beatmap_id,
        decreases candidates@.len() - i,
    {
        keys.push(
            RankKey { value: distances[i].final_distance, id: candidates[i].beatmap_id },
        );
        i = i + 1;
    }
    assert(crate::sorting::keys_of(keys@) =~= distance_keys(candidates@, distances@));
    let order: Vec<usize> = order_of(&keys);
    let ghost stable = crate::sorting::stable_order(distance_keys(candidates@, distances@));
    let count: usize = if order.len() <= limit {
        order.len()
    } else {
        limit
    };
    let mut results: Vec<SimilarityResult> = Vec::new();
    let mut k: usize = 0;
    while k < count
        invariant
            k <= count <= order@.len(),
            order@.len() == candidates@.len(),
            distances@.len() == candidates@.len(),
            stable == crate::sorting::positions(order@),
            forall|j: int| 0 <= j < order@.len() ==> #[trigger] order@[j] < candidates@.len(),
            results@.len() == k,
            forall|j: int|
                0 <= j < k ==> results@[j] == result_of(
                    candidates@[stable[j]],
                    distances@[stable[j]],
                ),
        decreases count - k,
    {
        let at: usize = order[k];
        assert(stable[k as int] == at);
        let candidate: Candidate = candidates[at];
        let distance: SimilarityDistance = distances[at];
        results.push(
            SimilarityResult {
                beatmap_id: candidate.beatmap_id,
                beatmapset_id: candidate.record.beatmapset_id,
                final_distance: distance.final_distance,
                difficulty_distance: distance.difficulty_distance,
                base_distance: distance.base_distance,
                difficulty: candidate.record.difficulty,
            },
        );
        k = k + 1;
    }
    assert(results@ =~= ranked(candidates@, distances@, limit as int));
    results
}

/// The beatmaps among `ids` other than the target, each once, in increasing order.
fn distinct_others(ids: &Vec<u64>, target: u64) -> (others: Vec<u64>)
    ensures
        crate::ordered::list64(others@) == candidate_ids(ids@, target),
{
    let mut set: BTreeMap<u64, bool> = BTreeMap::new();
    let mut i: usize = 0;
    while i < ids.len()
        invariant
            i <= ids@.len(),
            forall|id: u64| #[trigger]
                set@.contains_key(id) <==> ids@.take(i as int).contains(id) && id != target,
        decreases ids@.len() - i,
    {
        let id: u64 = ids[i];
        let ghost before = set@;
        let ghost past = ids@.take(i as int);
        let ghost now = ids@.take(i + 1);
        if id != target {
            set.insert(id, true);
        }
        proof {
            assert(now =~= past.push(id));
            assert forall|other: u64| #[trigger] set@.contains_key(other) <==> now.contains(other)
                && other != target by {
                assert(before.contains_key(other) <==> past.contains(other) && other != target);
                if now.contains(other) {
                    let p = choose|p: int| 0 <= p < now.len() && now[p] == other;
                    if p < i {
                        assert(past[p] == other);
                    }
                }
                if past.contains(other) {
                    let p = choose|p: int| 0 <= p < past.len() && past[p] == other;
                    assert(now[p] == other);
                }
                if other == id {
                    assert(now[i as int] == other);
                }
            }
        }
        i = i + 1;
    }
    proof {
        assert(ids@.take(ids@.len() as int) =~= ids@);
        assert forall|id: int| crate::ordered::ints64(set@.dom()).contains(id) == other_ids(
            ids@,
            target,
        ).contains(id) by {
            if 0 <= id <= u64::MAX {
                assert(set@.contains_key(id as u64) <==> ids@.contains(id as u64) && id as u64
                    != target);
            }
        }
        assert(crate::ordered::ints64(set@.dom()) =~= other_ids(ids@, target));
    }
    keys64(&set)
}

impl SimilarityStore {
    pub closed spec fn version(&self) -> u32 {
        self.normalization_version
    }

    pub closed spec fn directory(&self) -> Seq<char> {
        self.root@
    }

    /// Opens the index in `root`, if its main file exists.
    pub fn open(root: String, normalization_version: u32, main_index_exists: bool) -> (outcome:
        Result<SimilarityStore, IndexError>)
        ensures
            match outcome {
                Ok(store) => main_index_exists && store.version() == normalization_version
                    && store.directory() == root@,
                Err(error) => !main_index_exists && error == IndexError::MainMissing,
            },
    {
        if !main_index_exists {
            return Err(IndexError::MainMissing);
        }
        Ok(SimilarityStore { root, normalization_version })
    }

    /// The directory of the index.
    pub fn root(&self) -> (root: &str)
        ensures
            root@ == self.directory(),
    {
        self.root.as_str()
    }

    /// Checks that an index file is of the version that is queried.
    pub fn check_version(&self, file_version: u32) -> (outcome: Result<(), IndexError>)
        ensures
            match outcome {
                Ok(_) => file_version == self.version(),
                Err(error) => file_version != self.version() && error == IndexError::QueryVersion,
            },
    {
        if file_version != self.normalization_version {
            return Err(IndexError::QueryVersion);
        }
        Ok(())
    }

    /// The record that a query starts from.
    pub fn target(&self, store: &FeatureStore, query: &SimilarityQuery) -> (outcome: Result<
        BeatmapFeatureRecord,
        IndexError,
    >)
        ensures
            if query.mod_profile != 0 {
                outcome == Err::<BeatmapFeatureRecord, IndexError>(IndexError::ModProfile)
            } else {
                match crate::store::normalized_for(
                    store.tables,
                    self.version(),
                    query.beatmap_id,
                ) {
                    Ok(record) => outcome == Ok::<BeatmapFeatureRecord, IndexError>(record),
                    Err(error) => outcome == Err::<BeatmapFeatureRecord, IndexError>(
                        IndexError::Store { error },
                    ),
                }
            },
    {
        if query.mod_profile != 0 {
            return Err(IndexError::ModProfile);
        }
        match store.normalized_for_id(self.normalization_version, query.beatmap_id) {
            Ok(record) => Ok(record),
            Err(error) => Err(IndexError::Store { error }),
        }
    }

    /// The candidates of a query, where `ids` are the labels that the search found: each other
    /// beatmap once, if it passes the filters.
    pub fn candidates(
        &self,
        store: &FeatureStore,
        query: &SimilarityQuery,
        ids: &Vec<u64>,
    ) -> (outcome: Result<Vec<Candidate>, IndexError>)
        ensures
            match query_refusal(store.tables, self.version(), *query, ids@) {
                Some(error) => outcome matches Err(reported) && reported == error,
                None => outcome matches Ok(candidates) && candidates@ == query_candidates(
                    store.tables,
                    self.version(),
                    *query,
                    ids@,
                ),
            },
    {
        let target: BeatmapFeatureRecord = match self.target(store, query) {
            Ok(target) => target,
            Err(error) => {
                return Err(error);
            },
        };
        let others: Vec<u64> = distinct_others(ids, target.beatmap_id);
        let ghost listed = candidate_ids(ids@, target.beatmap_id);
        let mut candidates: Vec<Candidate> = Vec::new();
        let mut i: usize = 0;
        assert(listed.take(0) =~= seq![]);
        while i < others.len()
            invariant
                i <= others@.len(),
                query.mod_profile == 0,
                crate::store::normalized_for(store.tables, self.version(), query.beatmap_id)
                    == Ok::<BeatmapFeatureRecord, StoreError>(target),
                listed == candidate_ids(ids@, target.beatmap_id),
                listed == crate::ordered::list64(others@),
                first_unknown(store.tables, self.version(), listed, 0) == first_unknown(
                    store.tables,
                    self.version(),
                    listed,
                    i as int,
                ),
                candidates@ == candidates_of(
                    store.tables,
                    self.version(),
                    listed.take(i as int),
                    query.filters,
                ),
            decreases others@.len() - i,
        {
            let beatmap_id: u64 = others[i];
            assert(listed[i as int] == beatmap_id);
            assert(listed.take(i + 1).drop_last() =~= listed.take(i as int));
            match store.normalized_for_id(self.normalization_version, beatmap_id) {
                Ok(record) => {
                    if matches_filters(&record.base, record.beatmapset_id, &query.filters) {
                        candidates.push(Candidate { beatmap_id, record });
                    }
                },
                Err(error) => {
                    return Err(IndexError::Store { error });
                },
            }
            i = i + 1;
        }
        assert(listed.take(listed.len() as int) =~= listed);
        Ok(candidates)
    }

    /// The results of a query, where `ids` are the labels that the search found and `distances`
    /// those of the candidates.
    pub fn query(
        &self,
        store: &FeatureStore,
        query: &SimilarityQuery,
        ids: &Vec<u64>,
        distances: &Vec<SimilarityDistance>,
    ) -> (outcome: Result<Vec<SimilarityResult>, IndexError>)
        requires
            query_refusal(store.tables, self.version(), *query, ids@) is None ==> distances@.len()
                == query_candidates(store.tables, self.version(), *query, ids@).len(),
        ensures
            match query_refusal(store.tables, self.version(), *query, ids@) {
                Some(error) => outcome matches Err(reported) && reported == error,
                None => outcome matches Ok(results) && results@ == ranked(
                    query_candidates(store.tables, self.version(), *query, ids@),
                    distances@,
                    query.result_limit as int,
                ),
            },
    {
        match self.candidates(store, query, ids) {
            Ok(candidates) => Ok(rank_candidates(&candidates, distances, query.result_limit)),
            Err(error) => Err(error),
        }
    }
}

/// Every result of a query is a beatmap that the search found, is another one than the target,
/// and passes the filters. There are at most as many results as asked for, nearer ones come
/// first, and of results at the same distance the one with the smaller identifier. No beatmap is
/// among them twice.
pub proof fn law_query_results(
    tables: Tables,
    version: u32,
    query: SimilarityQuery,
    ids: Seq<u64>,
    distances: Seq<SimilarityDistance>,
)
    requires
        query_refusal(tables, version, query, ids) is None,
        distances.len() == query_candidates(tables, version, query, ids).len(),
    ensures
        ({
            let target = crate::store::normalized_for(tables, version, query.beatmap_id)->Ok_0;
            let candidates = query_candidates(tables, version, query, ids);
            let results = ranked(candidates, distances, query.result_limit as int);
            &&& results.len() <= query.result_limit
            &&& forall|k: int|
                0 <= k < results.len() ==> (#[trigger] results[k]).beatmap_id != target.beatmap_id
                    && ids.contains(results[k].beatmap_id)
            &&& forall|i: int|
                0 <= i < candidates.len() ==> passes(
                    (#[trigger] candidates[i]).record.base,
                    candidates[i].record.beatmapset_id,
                    query.filters,
                )
            &&& forall|i: int, j: int|
                0 <= i < j < results.len() ==> {
                    let near = (#[trigger] results[i]);
                    let far = (#[trigger] results[j]);
                    ||| near.final_distance.total_key() < far.final_distance.total_key()
                    ||| (near.final_distance == far.final_distance && near.beatmap_id
                        < far.beatmap_id)
                }
            &&& forall|i: int, j: int|
                0 <= i < j < results.len() ==> (#[trigger] results[i]).beatmap_id != (
                #[trigger] results[j]).beatmap_id
        }),
{
    let target = crate::store::normalized_for(tables, version, query.beatmap_id)->Ok_0;
    let listed = candidate_ids(ids, target.beatmap_id);
    let candidates = query_candidates(tables, version, query, ids);
    let keys = distance_keys(candidates, distances);
    let order = crate::sorting::stable_order(keys);
    let results = ranked(candidates, distances, query.result_limit as int);
    crate::sorting::lemma_stable_order(keys);
    crate::ordered::lemma_increasing_lists(other_ids(ids, target.beatmap_id));
    assert forall|i: int| 0 <= i < listed.len() implies 0 <= #[trigger] listed[i] <= u64::MAX by {
        assert(listed.contains(listed[i]));
        assert(other_ids(ids, target.beatmap_id).contains(listed[i]));
    }
    lemma_candidates(tables, version, listed, query.filters);
    assert forall|i: int| 0 <= i < candidates.len() implies (
    #[trigger] candidates[i]).beatmap_id != target.beatmap_id && ids.contains(
        candidates[i].beatmap_id,
    ) by {
        assert(listed.contains(candidates[i].beatmap_id as int));
        assert(other_ids(ids, target.beatmap_id).contains(candidates[i].beatmap_id as int));
    }
    assert forall|k: int| 0 <= k < results.len() implies 0 <= #[trigger] order[k]
        < candidates.len() && results[k] == result_of(
        candidates[order[k]],
        distances[order[k]],
    ) by {}
    assert forall|k: int| 0 <= k < results.len() implies (#[trigger] results[k]).beatmap_id
        != target.beatmap_id && ids.contains(results[k].beatmap_id) by {
        assert(0 <= order[k] < candidates.len());
    }
    assert forall|i: int, j: int| 0 <= i < j < results.len() implies {
        let near = (#[trigger] results[i]);
        let far = (#[trigger] results[j]);
        ||| near.final_distance.total_key() < far.final_distance.total_key()
        ||| (near.final_distance == far.final_distance && near.beatmap_id < far.beatmap_id)
    } by {
        let a = order[i];
        let b = order[j];
        assert(0 <= a < candidates.len() && 0 <= b < candidates.len());
        assert(crate::sorting::comes_before(keys, a, b));
        crate::float_bits::lemma_total_order_is_injective(
            distances[a].final_distance,
            distances[b].final_distance,
        );
        assert(keys[a].drop_first() =~= seq![candidates[a].beatmap_id as int]);
        assert(keys[b].drop_first() =~= seq![candidates[b].beatmap_id as int]);
        reveal_with_fuel(crate::sorting::lex_le, 3);
        if a < b {
            assert(candidates[a].beatmap_id < candidates[b].beatmap_id);
        } else {
            assert(candidates[b].beatmap_id < candidates[a].beatmap_id);
        }
    }
    assert forall|i: int, j: int| 0 <= i < j < results.len() implies (
    #[trigger] results[i]).beatmap_id != (#[trigger] results[j]).beatmap_id by {
        let a = order[i];
        let b = order[j];
        assert(0 <= a < candidates.len() && 0 <= b < candidates.len());
        assert(crate::sorting::comes_before(keys, a, b));
        if a < b {
            assert(candidates[a].beatmap_id < candidates[b].beatmap_id);
        } else {
            assert(candidates[b].beatmap_id < candidates[a].beatmap_id);
        }
    }
}

/// No candidate is left out for a farther one: each is among the results, or there are as many
/// results as asked for and each of them is at most as far.
pub proof fn law_nearest_candidates_are_kept(
    candidates: Seq<Candidate>,
    distances: Seq<SimilarityDistance>,
    limit: int,
    i: int,
)
    requires
        distances.len() == candidates.len(),
        0 <= limit,
        0 <= i < candidates.len(),
    ensures
        ({
            let results = ranked(candidates, distances, limit);
            ||| results.contains(result_of(candidates[i], distances[i]))
            ||| (results.len() == limit && forall|k: int|
                0 <= k < results.len() ==> (#[trigger] results[k]).final_distance.total_key()
                    <= distances[i].final_distance.total_key())
        }),
{
    let keys = distance_keys(candidates, distances);
    let order = crate::sorting::stable_order(keys);
    let results = ranked(candidates, distances, limit);
    crate::sorting::lemma_stable_order(keys);
    assert(order.contains(i));
    let at = choose|at: int| 0 <= at < order.len() && order[at] == i;
    if at < results.len() {
        assert(results[at] == result_of(candidates[i], distances[i]));
    } else {
        assert forall|k: int| 0 <= k < results.len() implies (
        #[trigger] results[k]).final_distance.total_key()
            <= distances[i].final_distance.total_key() by {
            assert(crate::sorting::comes_before(keys, order[k], order[at]));
            assert(0 <= order[k] < candidates.len());
            reveal_with_fuel(crate::sorting::lex_le, 2);
        }
    }
}

proof fn lemma_no_repeat(labels: Seq<u64>, from: int)
    requires
        0 <= from,
        forall|i: int, j: int|
            0 <= i < j < labels.len() ==> #[trigger] labels[i] != #[trigger] labels[j],
    ensures
        first_repeat(labels, from) is None,
    decreases labels.len() - from,
{
    if from < labels.len() {
        lemma_no_repeat(labels, from + 1);
    }
}

/// An index that was built of all published records, each under its own beatmap and with an
/// empty delta index beside it, covers its dataset.
pub proof fn law_built_index_covers_its_dataset(
    tables: Tables,
    version: u32,
    records: Seq<BeatmapFeatureRecord>,
    main: IndexLabels,
    delta: IndexLabels,
)
    requires
        crate::publish::normalized_outcome(tables, version) == Ok::<
            Seq<BeatmapFeatureRecord>,
            StoreError,
        >(records),
        crate::publish::by_beatmap(records),
        main.normalization_version == version,
        main.labels@ == Seq::new(records.len(), |i: int| records[i].beatmap_id),
        delta.normalization_version == version,
        delta.labels@.len() == 0,
    ensures
        coverage(tables, version, Some(main), Some(delta)) == Ok::<(), IndexError>(()),
{
    let labels = main.labels@ + delta.labels@;
    assert(labels =~= main.labels@);
    lemma_no_repeat(labels, 0);
    lemma_no_repeat(labels, main.labels@.len() as int);
    assert forall|id: u64| labels.to_set().contains(id) == beatmaps_of(records).contains(id) by {
        if labels.contains(id) {
            let i = choose|i: int| 0 <= i < labels.len() && labels[i] == id;
            assert(records[i].beatmap_id == id);
        }
        if beatmaps_of(records).contains(id) {
            let i = choose|i: int|
                0 <= i < records.len() && (#[trigger] records[i]).beatmap_id == id;
            assert(labels[i] == id);
        }
    }
    assert(labels.to_set() =~= beatmaps_of(records));
}

/// Candidates are listed beatmaps in the order of the list, and pass the filters.
proof fn lemma_candidates(tables: Tables, version: u32, ids: Seq<int>, filters: QueryFilters)
    requires
        forall|i: int| 0 <= i < ids.len() ==> 0 <= #[trigger] ids[i] <= u64::MAX,
        forall|i: int, j: int| 0 <= i < j < ids.len() ==> #[trigger] ids[i] < #[trigger] ids[j],
    ensures
        ({
            let candidates = candidates_of(tables, version, ids, filters);
            &&& forall|i: int|
                0 <= i < candidates.len() ==> ids.contains(
                    (#[trigger] candidates[i]).beatmap_id as int,
                ) && passes(
                    candidates[i].record.base,
                    candidates[i].record.beatmapset_id,
                    filters,
                )
            &&& forall|i: int, j: int|
                0 <= i < j < candidates.len() ==> (#[trigger] candidates[i]).beatmap_id < (
                #[trigger] candidates[j]).beatmap_id
        }),
    decreases ids.len(),
{
    if ids.len() > 0 {
        let front_ids = ids.drop_last();
        let front = candidates_of(tables, version, front_ids, filters);
        let candidates = candidates_of(tables, version, ids, filters);
        assert forall|i: int| 0 <= i < front_ids.len() implies 0 <= #[trigger] front_ids[i]
            <= u64::MAX by {
            assert(ids[i] == front_ids[i]);
        }
        assert forall|i: int, j: int| 0 <= i < j < front_ids.len() implies #[trigger] front_ids[i]
            < #[trigger] front_ids[j] by {
            assert(ids[i] < ids[j]);
        }
        lemma_candidates(tables, version, front_ids, filters);
        let last = ids.len() - 1;
        assert(0 <= ids[last] <= u64::MAX);
        assert forall|i: int| 0 <= i < candidates.len() implies ids.contains(
            (#[trigger] candidates[i]).beatmap_id as int,
        ) && passes(
            candidates[i].record.base,
            candidates[i].record.beatmapset_id,
            filters,
        ) by {
            if i < front.len() {
                assert(candidates[i] == front[i]);
                let p = choose|p: int|
                    0 <= p < front_ids.len() && front_ids[p] == front[i].beatmap_id;
                assert(ids[p] == front[i].beatmap_id);
            } else {
                assert(ids[last] == candidates[i].beatmap_id);
            }
        }
        assert forall|i: int, j: int| 0 <= i < j < candidates.len() implies (
        #[trigger] candidates[i]).beatmap_id < (#[trigger] candidates[j]).beatmap_id by {
            assert(candidates[i] == front[i]);
            if j < front.len() {
                assert(candidates[j] == front[j]);
            } else {
                let p = choose|p: int|
                    0 <= p < front_ids.len() && front_ids[p] == front[i].beatmap_id;
                assert(ids[p] < ids[last]);
            }
        }
    }
}

/// What a beatmap must meet to be a candidate, bound by bound: an approach rate and a tempo that
/// are at least the least and at most the most that were asked for, and the set asked for. A
/// bound that was not set asks for nothing.
pub proof fn law_filters_bound_what_they_name(
    base: BaseFeatures,
    beatmapset_id: u64,
    filters: QueryFilters,
)
    ensures
        passes(base, beatmapset_id, filters) <==> (filters.min_ar is None
            || filters.min_ar->Some_0.numeric_le(base.ar)) && (filters.max_ar is None
            || base.ar.numeric_le(filters.max_ar->Some_0)) && (filters.min_bpm is None
            || filters.min_bpm->Some_0.numeric_le(base.bpm)) && (filters.max_bpm is None
            || base.bpm.numeric_le(filters.max_bpm->Some_0)) && (filters.beatmapset_id is None
            || filters.beatmapset_id->Some_0 == beatmapset_id),
{
}

/// A stricter filter never lets more through: where a beatmap passes some filters, it passes them
/// with any bound taken away.
pub proof fn law_fewer_bounds_let_more_through(
    base: BaseFeatures,
    beatmapset_id: u64,
    filters: QueryFilters,
)
    requires
        passes(base, beatmapset_id, filters),
    ensures
        passes(base, beatmapset_id, QueryFilters { min_ar: None, ..filters }),
        passes(base, beatmapset_id, QueryFilters { max_ar: None, ..filters }),
        passes(base, beatmapset_id, QueryFilters { min_bpm: None, ..filters }),
        passes(base, beatmapset_id, QueryFilters { max_bpm: None, ..filters }),
        passes(base, beatmapset_id, QueryFilters { beatmapset_id: None, ..filters }),
{
}

/// The candidates of a query are the found beatmaps other than the target whose stored records
/// meet every bound that was set: none that does not, and every one that does, each once and by
/// increasing identifier.
pub proof fn law_candidates_are_the_found_beatmaps_within_bounds(
    tables: Tables,
    version: u32,
    query: SimilarityQuery,
    ids: Seq<u64>,
)
    requires
        query_refusal(tables, version, query, ids) is None,
    ensures
        forall|i: int|
            0 <= i < query_candidates(tables, version, query, ids).len() ==> {
                let candidate = #[trigger] query_candidates(tables, version, query, ids)[i];
                let target = crate::store::normalized_for(tables, version, query.beatmap_id)->Ok_0;
                let record = candidate.record;
                let filters = query.filters;
                &&& ids.contains(candidate.beatmap_id)
                &&& candidate.beatmap_id != target.beatmap_id
                &&& crate::store::normalized_for(tables, version, candidate.beatmap_id) == Ok::<
                    BeatmapFeatureRecord,
                    StoreError,
                >(record)
                &&& filters.min_ar is Some ==> filters.min_ar->Some_0.numeric_le(record.base.ar)
                &&& filters.max_ar is Some ==> record.base.ar.numeric_le(filters.max_ar->Some_0)
                &&& filters.min_bpm is Some ==> filters.min_bpm->Some_0.numeric_le(record.base.bpm)
                &&& filters.max_bpm is Some ==> record.base.bpm.numeric_le(filters.max_bpm->Some_0)
                &&& filters.beatmapset_id is Some ==> record.beatmapset_id
                    == filters.beatmapset_id->Some_0
            },
        forall|id: u64| #[trigger]
            ids.contains(id) ==> {
                let target = crate::store::normalized_for(tables, version, query.beatmap_id)->Ok_0;
                let stored = crate::store::normalized_for(tables, version, id);
                let record = stored->Ok_0;
                let filters = query.filters;
                ||| id == target.beatmap_id
                ||| (filters.min_ar is Some && !filters.min_ar->Some_0.numeric_le(record.base.ar))
                ||| (filters.max_ar is Some && !record.base.ar.numeric_le(filters.max_ar->Some_0))
                ||| (filters.min_bpm is Some && !filters.min_bpm->Some_0.numeric_le(
                    record.base.bpm,
                ))
                ||| (filters.max_bpm is Some && !record.base.bpm.numeric_le(
                    filters.max_bpm->Some_0,
                ))
                ||| (filters.beatmapset_id is Some && record.beatmapset_id
                    != filters.beatmapset_id->Some_0)
                ||| (stored is Ok && query_candidates(tables, version, query, ids).contains(
                    (Candidate { beatmap_id: id, record }),
                ))
            },
        forall|i: int, j: int|
            0 <= i < j < query_candidates(tables, version, query, ids).len() ==> (
            #[trigger] query_candidates(tables, version, query, ids)[i]).beatmap_id < (
            #[trigger] query_candidates(tables, version, query, ids)[j]).beatmap_id,
{
    let target = crate::store::normalized_for(tables, version, query.beatmap_id)->Ok_0;
    let listed = candidate_ids(ids, target.beatmap_id);
    let candidates = query_candidates(tables, version, query, ids);
    crate::ordered::lemma_increasing_lists(other_ids(ids, target.beatmap_id));
    assert forall|i: int| 0 <= i < listed.len() implies 0 <= #[trigger] listed[i] <= u64::MAX by {
        assert(listed.contains(listed[i]));
        assert(other_ids(ids, target.beatmap_id).contains(listed[i]));
    }
    lemma_candidates(tables, version, listed, query.filters);
    lemma_candidate_records(tables, version, listed, query.filters);
    assert forall|i: int| 0 <= i < candidates.len() implies ids.contains(
        (#[trigger] candidates[i]).beatmap_id,
    ) && candidates[i].beatmap_id != target.beatmap_id && crate::store::normalized_for(
        tables,
        version,
        candidates[i].beatmap_id,
    ) == Ok::<BeatmapFeatureRecord, StoreError>(candidates[i].record) by {
        let id = candidates[i].beatmap_id;
        assert(listed.contains(id as int));
        assert(other_ids(ids, target.beatmap_id).contains(id as int));
        let p = choose|p: int| 0 <= p < listed.len() && listed[p] == id;
        lemma_all_known(tables, version, listed, 0, p);
    }
    assert forall|id: u64| #[trigger] ids.contains(id) && id != target.beatmap_id implies {
        let stored = crate::store::normalized_for(tables, version, id);
        &&& stored is Ok
        &&& passes(stored->Ok_0.base, stored->Ok_0.beatmapset_id, query.filters)
            ==> candidates.contains((Candidate { beatmap_id: id, record: stored->Ok_0 }))
    } by {
        assert(other_ids(ids, target.beatmap_id).contains(id as int));
        assert(listed.contains(id as int));
        let p = choose|p: int| 0 <= p < listed.len() && listed[p] == id;
        lemma_all_known(tables, version, listed, 0, p);
        lemma_candidate_kept(tables, version, listed, query.filters, p);
    }
}

/// Where no listed beatmap is unknown, each can be read.
proof fn lemma_all_known(tables: Tables, version: u32, ids: Seq<int>, from: int, at: int)
    requires
        0 <= from <= at < ids.len(),
        first_unknown(tables, version, ids, from) is None,
    ensures
        crate::store::normalized_for(tables, version, ids[at] as u64) is Ok,
    decreases at - from,
{
    if from < at {
        lemma_all_known(tables, version, ids, from + 1, at);
    }
}

/// Candidates carry the records that are stored for them.
proof fn lemma_candidate_records(
    tables: Tables,
    version: u32,
    ids: Seq<int>,
    filters: QueryFilters,
)
    ensures
        forall|i: int|
            0 <= i < candidates_of(tables, version, ids, filters).len() ==> (
            #[trigger] candidates_of(tables, version, ids, filters)[i]).record
                == crate::store::normalized_for(
                tables,
                version,
                candidates_of(tables, version, ids, filters)[i].beatmap_id,
            )->Ok_0,
    decreases ids.len(),
{
    if ids.len() > 0 {
        lemma_candidate_records(tables, version, ids.drop_last(), filters);
        let front = candidates_of(tables, version, ids.drop_last(), filters);
        let all = candidates_of(tables, version, ids, filters);
        assert forall|i: int| 0 <= i < all.len() implies (#[trigger] all[i]).record
            == crate::store::normalized_for(tables, version, all[i].beatmap_id)->Ok_0 by {
            if i < front.len() {
                assert(all[i] == front[i]);
            }
        }
    }
}

/// A listed beatmap that passes the filters is a candidate.
proof fn lemma_candidate_kept(
    tables: Tables,
    version: u32,
    ids: Seq<int>,
    filters: QueryFilters,
    p: int,
)
    requires
        0 <= p < ids.len(),
    ensures
        ({
            let record = crate::store::normalized_for(tables, version, ids[p] as u64)->Ok_0;
            passes(record.base, record.beatmapset_id, filters) ==> candidates_of(
                tables,
                version,
                ids,
                filters,
            ).contains((Candidate { beatmap_id: ids[p] as u64, record }))
        }),
    decreases ids.len(),
{
    let record = crate::store::normalized_for(tables, version, ids[p] as u64)->Ok_0;
    let wanted = Candidate { beatmap_id: ids[p] as u64, record };
    let front = candidates_of(tables, version, ids.drop_last(), filters);
    let all = candidates_of(tables, version, ids, filters);
    if passes(record.base, record.beatmapset_id, filters) {
        if p < ids.len() - 1 {
            lemma_candidate_kept(tables, version, ids.drop_last(), filters, p);
            let at = choose|at: int| 0 <= at < front.len() && front[at] == wanted;
            assert(all[at] == wanted);
        } else {
            assert(all[all.len() - 1] == wanted);
        }
    }
}

/// When a query is answered: it is for play without mods, its target is published, and so is
/// every other beatmap that was found.
pub proof fn law_queries_are_answered_for_published_beatmaps(
    tables: Tables,
    version: u32,
    query: SimilarityQuery,
    ids: Seq<u64>,
)
    ensures
        query_refusal(tables, version, query, ids) is None <==> query.mod_profile == 0
            && crate::store::normalized_for(tables, version, query.beatmap_id) is Ok && forall|
            id: u64,
        |
            ids.contains(id) && id != (crate::store::normalized_for(
                tables,
                version,
                query.beatmap_id,
            )->Ok_0).beatmap_id ==> #[trigger] crate::store::normalized_for(
                tables,
                version,
                id,
            ) is Ok,
        query.mod_profile != 0 ==> query_refusal(tables, version, query, ids) == Some(
            IndexError::ModProfile,
        ),
{
    if query.mod_profile == 0 && crate::store::normalized_for(
        tables,
        version,
        query.beatmap_id,
    ) is Ok {
        let target = crate::store::normalized_for(tables, version, query.beatmap_id)->Ok_0;
        let wanted = other_ids(ids, target.beatmap_id);
        let listed = candidate_ids(ids, target.beatmap_id);
        crate::ordered::lemma_increasing_lists(wanted);
        if query_refusal(tables, version, query, ids) is None {
            assert forall|id: u64| ids.contains(id) && id != target.beatmap_id implies #[trigger]
                crate::store::normalized_for(tables, version, id) is Ok by {
                assert(wanted.contains(id as int));
                assert(listed.contains(id as int));
                let p = choose|p: int| 0 <= p < listed.len() && listed[p] == id;
                lemma_all_known(tables, version, listed, 0, p);
            }
        }
        if forall|id: u64|
            ids.contains(id) && id != target.beatmap_id ==> #[trigger]
                crate::store::normalized_for(tables, version, id) is Ok {
            assert forall|p: int| 0 <= p < listed.len() implies crate::store::normalized_for(
                tables,
                version,
                (#[trigger] listed[p]) as u64,
            ) is Ok by {
                assert(listed.contains(listed[p]));
                assert(wanted.contains(listed[p]));
                assert(ids.contains(listed[p] as u64));
            }
            lemma_none_unknown(tables, version, listed, 0);
        }
    }
}

proof fn lemma_none_unknown(tables: Tables, version: u32, ids: Seq<int>, from: int)
    requires
        0 <= from,
        forall|p: int|
            0 <= p < ids.len() ==> crate::store::normalized_for(
                tables,
                version,
                (#[trigger] ids[p]) as u64,
            ) is Ok,
    ensures
        first_unknown(tables, version, ids, from) is None,
    decreases ids.len() - from,
{
    if from < ids.len() {
        assert(crate::store::normalized_for(tables, version, ids[from] as u64) is Ok);
        lemma_none_unknown(tables, version, ids, from + 1);
    }
}

/// Results are as many as the candidates, up to the limit, and each says of one of the candidates
/// what is stored of it and how far it is.
pub proof fn law_results_describe_candidates(
    candidates: Seq<Candidate>,
    distances: Seq<SimilarityDistance>,
    limit: int,
    k: int,
)
    requires
        distances.len() == candidates.len(),
        0 <= limit,
        0 <= k < ranked(candidates, distances, limit).len(),
    ensures
        ranked(candidates, distances, limit).len() == if candidates.len() <= limit {
            candidates.len() as int
        } else {
            limit
        },
        exists|i: int|
            0 <= i < candidates.len() && {
                let result = ranked(candidates, distances, limit)[k];
                let candidate = #[trigger] candidates[i];
                let distance = distances[i];
                &&& result.beatmap_id == candidate.beatmap_id
                &&& result.beatmapset_id == candidate.record.beatmapset_id
                &&& result.difficulty == candidate.record.difficulty
                &&& result.final_distance == distance.final_distance
                &&& result.difficulty_distance == distance.difficulty_distance
                &&& result.base_distance == distance.base_distance
            },
{
    let keys = distance_keys(candidates, distances);
    let order = crate::sorting::stable_order(keys);
    crate::sorting::lemma_stable_order(keys);
    assert(0 <= order[k] < candidates.len());
    let result = ranked(candidates, distances, limit)[k];
    assert(result == result_of(candidates[order[k]], distances[order[k]]));
}

/// The labels of what a graph has found are looked up position by position, in order; positions
/// that have no label are left out.
pub proof fn law_labels_are_looked_up_by_position(labels: Seq<u64>, positions: Seq<usize>)
    ensures
        labels_found(labels, positions) == positions.filter(
            |position: usize| position < labels.len(),
        ).map_values(|position: usize| labels[position as int]),
    decreases positions.len(),
{
    reveal(Seq::filter);
    let known = |position: usize| position < labels.len();
    let label = |position: usize| labels[position as int];
    if positions.len() > 0 {
        law_labels_are_looked_up_by_position(labels, positions.drop_last());
    }
    assert(labels_found(labels, positions) =~= positions.filter(known).map_values(label));
}

proof fn lemma_first_repeat(labels: Seq<u64>, from: int)
    requires
        0 <= from,
    ensures
        match first_repeat(labels, from) {
            Some(at) => from <= at < labels.len() && repeats(labels, at) && forall|i: int|
                from <= i < at ==> !repeats(labels, i),
            None => forall|i: int| from <= i < labels.len() ==> !repeats(labels, i),
        },
    decreases labels.len() - from,
{
    if from < labels.len() && !repeats(labels, from) {
        lemma_first_repeat(labels, from + 1);
    }
}

/// Index files that cover their dataset both exist and are of the version that is checked, hold no
/// beatmap twice, neither in one nor across both, and hold exactly the beatmaps with a published
/// record.
pub proof fn law_covering_indexes_hold_the_dataset(
    tables: Tables,
    version: u32,
    records: Seq<BeatmapFeatureRecord>,
    main: Option<IndexLabels>,
    delta: Option<IndexLabels>,
)
    requires
        crate::publish::normalized_outcome(tables, version) == Ok::<
            Seq<BeatmapFeatureRecord>,
            StoreError,
        >(records),
        coverage(tables, version, main, delta) is Ok,
    ensures
        main is Some,
        delta is Some,
        main->Some_0.normalization_version == version,
        delta->Some_0.normalization_version == version,
        ({
            let labels = main->Some_0.labels@ + delta->Some_0.labels@;
            &&& forall|i: int, j: int|
                0 <= i < j < labels.len() ==> #[trigger] labels[i] != #[trigger] labels[j]
            &&& forall|id: u64| #[trigger]
                labels.contains(id) <==> exists|r: int|
                    0 <= r < records.len() && (#[trigger] records[r]).beatmap_id == id
        }),
{
    let first = main->Some_0.labels@;
    let labels = first + delta->Some_0.labels@;
    lemma_first_repeat(first, 0);
    lemma_first_repeat(labels, first.len() as int);
    assert forall|i: int, j: int| 0 <= i < j < labels.len() implies #[trigger] labels[i]
        != #[trigger] labels[j] by {
        if j < first.len() {
            assert(!repeats(first, j));
            assert(first[i] == labels[i] && first[j] == labels[j]);
        } else {
            assert(!repeats(labels, j));
        }
    }
    assert forall|id: u64| #[trigger] labels.contains(id) <==> exists|r: int|
        0 <= r < records.len() && (#[trigger] records[r]).beatmap_id == id by {
        assert(labels.to_set().contains(id) == beatmaps_of(records).contains(id));
    }
}

/// Index files that hold exactly the beatmaps with a published record, none of them twice, cover
/// their dataset.
pub proof fn law_exact_indexes_cover_the_dataset(
    tables: Tables,
    version: u32,
    records: Seq<BeatmapFeatureRecord>,
    main: IndexLabels,
    delta: IndexLabels,
)
    requires
        crate::publish::normalized_outcome(tables, version) == Ok::<
            Seq<BeatmapFeatureRecord>,
            StoreError,
        >(records),
        main.normalization_version == version,
        delta.normalization_version == version,
        ({
            let labels = main.labels@ + delta.labels@;
            &&& forall|i: int, j: int|
                0 <= i < j < labels.len() ==> #[trigger] labels[i] != #[trigger] labels[j]
            &&& forall|id: u64| #[trigger]
                labels.contains(id) <==> exists|r: int|
                    0 <= r < records.len() && (#[trigger] records[r]).beatmap_id == id
        }),
    ensures
        coverage(tables, version, Some(main), Some(delta)) is Ok,
{
    let labels = main.labels@ + delta.labels@;
    assert forall|i: int, j: int| 0 <= i < j < main.labels@.len() implies (
    #[trigger] main.labels@[i]) != (#[trigger] main.labels@[j]) by {
        assert(labels[i] != labels[j]);
    }
    lemma_no_repeat(main.labels@, 0);
    lemma_no_repeat(labels, main.labels@.len() as int);
    assert forall|id: u64| labels.to_set().contains(id) == beatmaps_of(records).contains(id) by {
        assert(labels.contains(id) <==> exists|r: int|
            0 <= r < records.len() && (#[trigger] records[r]).beatmap_id == id);
    }
    assert(labels.to_set() =~= beatmaps_of(records));
}

/// Where the index files of a data directory are: beneath it, in a directory of their own, and
/// apart from each other.
pub proof fn law_index_files_are_apart(root: Seq<char>)
    ensures
        index_file_text(root, false) != index_file_text(root, true),
{
    reveal_strlit("difficulty-main.hnsw");
    reveal_strlit("difficulty-delta.hnsw");
    let directory = crate::paths::joined(root, "indexes"@);
    let main = index_file_text(root, false);
    let delta = index_file_text(root, true);
    assert(main.len() != delta.len());
}

} // verus!
