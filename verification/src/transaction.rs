//! Storing the beatmaps of a pack: one by one, or all of them or none.

use vstd::prelude::*;

use crate::archive::{ArchiveKind, BeatmapOutcome, ImportError, PackImportReport};
use crate::store::{Appended, FeatureStore, Tables};
use crate::types::{BeatmapMetadata, RawFeatureRecord};

verus! {

/// An analysed beatmap in its star section.
#[derive(Clone, Debug)]
pub struct AnalysedBeatmap {
    pub metadata: BeatmapMetadata,
    pub record: RawFeatureRecord,
    pub section: i64,
}

/// A beatmap file of a pack, before it is stored.
#[derive(Clone, Debug)]
pub enum PackBeatmap {
    /// It is for another mode.
    OtherMode,
    /// It could not be analysed.
    Broken,
    Analysed(AnalysedBeatmap),
}

impl PackBeatmap {
    /// Whether the beatmap cannot be stored: its analysis failed, or the store refuses it.
    pub open spec fn fails(self, tables: Tables) -> bool {
        match self {
            PackBeatmap::OtherMode => false,
            PackBeatmap::Broken => true,
            PackBeatmap::Analysed(beatmap) => tables.append_refusal(
                beatmap.metadata,
                beatmap.record,
            ) is Some,
        }
    }

    /// Whether `after` is what `before` becomes when the beatmap is stored. One that cannot be
    /// stored changes nothing.
    pub open spec fn leads(self, before: Tables, after: Tables) -> bool {
        match self {
            PackBeatmap::Analysed(beatmap) => if self.fails(before) {
                after.same(&before)
            } else {
                crate::store::appends(
                    before,
                    after,
                    beatmap.metadata,
                    beatmap.record,
                    beatmap.section,
                )
            },
            _ => after.same(&before),
        }
    }

    /// The report with the beatmap counted, where it is stored in `tables`.
    pub open spec fn counted(self, report: PackImportReport, tables: Tables) -> PackImportReport {
        match self {
            PackBeatmap::OtherMode => report.with_beatmap(false, BeatmapOutcome::Unchanged),
            PackBeatmap::Broken => report.with_beatmap(true, BeatmapOutcome::Failed),
            PackBeatmap::Analysed(beatmap) => report.with_beatmap(
                true,
                if self.fails(tables) {
                    BeatmapOutcome::Failed
                } else if tables.append_effect(
                    beatmap.metadata,
                    beatmap.record,
                    beatmap.section,
                ) is Inserted {
                    BeatmapOutcome::Inserted
                } else {
                    BeatmapOutcome::Unchanged
                },
            ),
        }
    }
}

/// Whether `states` are the contents of a store before, between and after storing the beatmaps
/// one after another.
pub open spec fn stored_in_order(states: Seq<Tables>, beatmaps: Seq<PackBeatmap>) -> bool {
    &&& states.len() == beatmaps.len() + 1
    &&& forall|i: int|
        0 <= i < beatmaps.len() ==> (#[trigger] beatmaps[i]).leads(states[i], states[i + 1])
}

/// The report on the first `count` beatmaps, which are stored in `states`.
pub open spec fn report_on(
    states: Seq<Tables>,
    beatmaps: Seq<PackBeatmap>,
    count: nat,
) -> PackImportReport
    decreases count,
{
    if count == 0 {
        PackImportReport { processed: 0, inserted: 0, skipped: 0, failed: 0 }
    } else {
        beatmaps[count - 1].counted(
            report_on(states, beatmaps, (count - 1) as nat),
            states[count - 1],
        )
    }
}

/// Whether `after` has come from `before` by storing the beatmaps in order, with the given
/// report on them.
pub open spec fn imports(
    before: FeatureStore,
    after: FeatureStore,
    beatmaps: Seq<PackBeatmap>,
    report: PackImportReport,
) -> bool {
    &&& after.root == before.root
    &&& exists|states: Seq<Tables>| #[trigger]
        stored_in_order(states, beatmaps) && states.first() == before.tables && states.last()
            == after.tables && report == report_on(states, beatmaps, beatmaps.len())
}

/// The states before a further one say the same of the beatmaps before it.
proof fn lemma_report_prefix(
    states: Seq<Tables>,
    longer: Seq<Tables>,
    beatmaps: Seq<PackBeatmap>,
    count: nat,
)
    requires
        count <= states.len() <= longer.len(),
        forall|i: int| 0 <= i < states.len() ==> states[i] == longer[i],
    ensures
        report_on(states, beatmaps, count) == report_on(longer, beatmaps, count),
    decreases count,
{
    if count > 0 {
        lemma_report_prefix(states, longer, beatmaps, (count - 1) as nat);
    }
}

/// Stores the beatmaps of an archive, each on its own: those that fail are counted and leave
/// the others alone.
pub fn store_beatmaps(store: &mut FeatureStore, beatmaps: &Vec<PackBeatmap>) -> (report:
    PackImportReport)
    ensures
        imports(*old(store), *final(store), beatmaps@, report),
{
    let mut report: PackImportReport = PackImportReport::default();
    let ghost mut states: Seq<Tables> = seq![store.tables];
    let mut i: usize = 0;
    while i < beatmaps.len()
        invariant
            i <= beatmaps@.len(),
            store.root == old(store).root,
            states.len() == i + 1,
            states.first() == old(store).tables,
            states.last() == store.tables,
            forall|k: int| 0 <= k < i ==> (#[trigger] beatmaps@[k]).leads(states[k], states[k + 1]),
            report == report_on(states, beatmaps@, i as nat),
            report.processed == i,
            report.inserted <= i,
            report.skipped <= i,
            report.failed <= i,
        decreases beatmaps@.len() - i,
    {
        let ghost before = states;
        match &beatmaps[i] {
            PackBeatmap::OtherMode => {
                report.record_other_mode();
            },
            PackBeatmap::Broken => {
                report.record(BeatmapOutcome::Failed);
            },
            PackBeatmap::Analysed(beatmap) => {
                match store.append_raw(&beatmap.metadata, &beatmap.record, beatmap.section) {
                    Ok(Appended::Inserted { .. }) => {
                        report.record(BeatmapOutcome::Inserted);
                    },
                    Ok(_) => {
                        report.record(BeatmapOutcome::Unchanged);
                    },
                    Err(_) => {
                        report.record(BeatmapOutcome::Failed);
                    },
                }
            },
        }
        proof {
            states = before.push(store.tables);
            assert(beatmaps@[i as int].leads(before.last(), store.tables));
            assert forall|k: int| 0 <= k < i + 1 implies (#[trigger] beatmaps@[k]).leads(
                states[k],
                states[k + 1],
            ) by {
                if k < i {
                    assert(beatmaps@[k].leads(before[k], before[k + 1]));
                }
            }
            lemma_report_prefix(before, states, beatmaps@, i as nat);
        }
        i = i + 1;
    }
    assert(stored_in_order(states, beatmaps@));
    report
}

/// How many of the first `count` beatmaps cannot be stored.
pub open spec fn failures(tables: Tables, beatmaps: Seq<PackBeatmap>, count: nat) -> nat
    decreases count,
{
    if count == 0 {
        0
    } else {
        failures(tables, beatmaps, (count - 1) as nat) + if beatmaps[count - 1].fails(tables) {
            1nat
        } else {
            0nat
        }
    }
}

/// Why a pack is not imported. `broken_sets` of its beatmap sets could not be read.
pub open spec fn import_refusal(
    tables: Tables,
    kind: ArchiveKind,
    beatmaps: Seq<PackBeatmap>,
    broken_sets: usize,
) -> Option<ImportError> {
    let failed = failures(tables, beatmaps, beatmaps.len()) + broken_sets;
    if kind == ArchiveKind::Rar {
        Some(ImportError::Rar)
    } else if beatmaps.len() == 0 {
        Some(ImportError::NoBeatmaps { seven_z: kind == ArchiveKind::SevenZ })
    } else if failed > 0 {
        Some(
            ImportError::Failures { failed: failed as usize, processed: beatmaps.len() as usize },
        )
    } else {
        None
    }
}

fn count_failures(store: &FeatureStore, beatmaps: &Vec<PackBeatmap>) -> (count: usize)
    ensures
        count == failures(store.tables, beatmaps@, beatmaps@.len()),
        count <= beatmaps@.len(),
{
    let mut count: usize = 0;
    let mut i: usize = 0;
    while i < beatmaps.len()
        invariant
            i <= beatmaps@.len(),
            count <= i,
            count == failures(store.tables, beatmaps@, i as nat),
        decreases beatmaps@.len() - i,
    {
        let fails: bool = match &beatmaps[i] {
            PackBeatmap::OtherMode => false,
            PackBeatmap::Broken => true,
            PackBeatmap::Analysed(beatmap) => store.refuses(&beatmap.metadata, &beatmap.record),
        };
        if fails {
            count = count + 1;
        }
        i = i + 1;
    }
    count
}

/// Imports a pack as one transaction: all of its beatmaps are stored, in order, or the store
/// stays as it was.
pub fn import_pack(
    store: &mut FeatureStore,
    kind: ArchiveKind,
    beatmaps: &Vec<PackBeatmap>,
    broken_sets: usize,
) -> (outcome: Result<PackImportReport, ImportError>)
    requires
        beatmaps@.len() + broken_sets <= usize::MAX,
    ensures
        match import_refusal(old(store).tables, kind, beatmaps@, broken_sets) {
            Some(error) => outcome == Err::<PackImportReport, ImportError>(error) && *final(store)
                == *old(store),
            None => outcome matches Ok(report) && report.failed == 0 && imports(
                *old(store),
                *final(store),
                beatmaps@,
                report,
            ),
        },
{
    match kind {
        ArchiveKind::Rar => {
            return Err(ImportError::Rar);
        },
        ArchiveKind::SevenZ => {
            if beatmaps.len() == 0 {
                return Err(ImportError::NoBeatmaps { seven_z: true });
            }
        },
        ArchiveKind::Zip => {
            if beatmaps.len() == 0 {
                return Err(ImportError::NoBeatmaps { seven_z: false });
            }
        },
    }
    let failed: usize = count_failures(store, beatmaps) + broken_sets;
    if failed > 0 {
        return Err(ImportError::Failures { failed, processed: beatmaps.len() });
    }
    let ghost before = *store;
    let report: PackImportReport = store_beatmaps(store, beatmaps);
    proof {
        let states = choose|states: Seq<Tables>| #[trigger]
            stored_in_order(states, beatmaps@) && states.first() == before.tables && states.last()
                == store.tables && report == report_on(states, beatmaps@, beatmaps@.len());
        lemma_none_fails(states, beatmaps@, beatmaps@.len());
    }
    Ok(report)
}

/// Storing beatmaps changes no snapshot, so what the store refuses it refuses all along.
proof fn lemma_versions_stay(states: Seq<Tables>, beatmaps: Seq<PackBeatmap>, count: int)
    requires
        stored_in_order(states, beatmaps),
        0 <= count <= beatmaps.len(),
    ensures
        states[count].versions@ == states[0].versions@,
    decreases count,
{
    if count > 0 {
        lemma_versions_stay(states, beatmaps, count - 1);
        assert(beatmaps[count - 1].leads(states[count - 1], states[count]));
    }
}

/// Where no beatmap fails at first, none is counted as failed.
proof fn lemma_none_fails(states: Seq<Tables>, beatmaps: Seq<PackBeatmap>, count: nat)
    requires
        stored_in_order(states, beatmaps),
        count <= beatmaps.len(),
        failures(states[0], beatmaps, count) == 0,
    ensures
        report_on(states, beatmaps, count).failed == 0,
    decreases count,
{
    if count > 0 {
        lemma_none_fails(states, beatmaps, (count - 1) as nat);
        lemma_versions_stay(states, beatmaps, count - 1);
        assert(!beatmaps[count - 1].fails(states[0]));
        assert(beatmaps[count - 1].fails(states[count - 1]) == beatmaps[count - 1].fails(
            states[0],
        ));
    }
}

/// A report counts every beatmap once, under exactly one outcome.
pub proof fn law_import_reports_are_balanced(
    states: Seq<Tables>,
    beatmaps: Seq<PackBeatmap>,
    count: nat,
)
    requires
        count <= beatmaps.len(),
        count <= usize::MAX,
    ensures
        report_on(states, beatmaps, count).processed == count,
        report_on(states, beatmaps, count).balanced(),
    decreases count,
{
    if count > 0 {
        law_import_reports_are_balanced(states, beatmaps, (count - 1) as nat);
    }
}

/// A pack whose import is refused leaves the raw records as they were, whatever is recorded of
/// the pack before and after: all of its beatmaps are stored, or none.
pub proof fn law_refused_pack_leaves_the_records(
    before: FeatureStore,
    started: FeatureStore,
    refused: FeatureStore,
    after: FeatureStore,
    starting: Seq<crate::packs::Mark>,
    ending: Seq<crate::packs::Mark>,
    kind: ArchiveKind,
    beatmaps: Seq<PackBeatmap>,
    broken_sets: usize,
)
    requires
        crate::packs::only_marks(before, started, starting),
        import_refusal(started.tables, kind, beatmaps, broken_sets) is Some ==> refused == started,
        crate::packs::only_marks(refused, after, ending),
        failures(before.tables, beatmaps, beatmaps.len()) + broken_sets > 0,
    ensures
        crate::store::raw_outcome(after.tables) == crate::store::raw_outcome(before.tables),
{
    lemma_same_failures(before.tables, started.tables, beatmaps, beatmaps.len());
    let keys = crate::store::selected_keys(
        before.tables.analyses@,
        crate::types::ANALYZER_VERSION,
        None,
    );
    lemma_same_missing(before.tables, after.tables, keys, 0);
    match (crate::store::raw_outcome(before.tables), crate::store::raw_outcome(after.tables)) {
        (Ok(left), Ok(right)) => {
            assert(left =~= right);
        },
        _ => {},
    }
}

proof fn lemma_same_failures(
    left: Tables,
    right: Tables,
    beatmaps: Seq<PackBeatmap>,
    count: nat,
)
    requires
        left.versions@ == right.versions@,
    ensures
        failures(left, beatmaps, count) == failures(right, beatmaps, count),
    decreases count,
{
    if count > 0 {
        lemma_same_failures(left, right, beatmaps, (count - 1) as nat);
    }
}

proof fn lemma_same_missing(left: Tables, right: Tables, keys: Seq<int>, from: int)
    requires
        left.analyses@ == right.analyses@,
        left.raw@ == right.raw@,
    ensures
        crate::store::first_raw_missing(left, keys, from) == crate::store::first_raw_missing(
            right,
            keys,
            from,
        ),
    decreases keys.len() - from,
{
    if 0 <= from < keys.len() {
        lemma_same_missing(left, right, keys, from + 1);
    }
}

/// After a pack was imported, every analysed beatmap of it is stored, if the metadata and the
/// record of each are of one beatmap.
pub proof fn law_imported_beatmaps_are_stored(
    before: FeatureStore,
    after: FeatureStore,
    kind: ArchiveKind,
    beatmaps: Seq<PackBeatmap>,
    broken_sets: usize,
    report: PackImportReport,
    i: int,
)
    requires
        import_refusal(before.tables, kind, beatmaps, broken_sets) is None,
        imports(before, after, beatmaps, report),
        0 <= i < beatmaps.len(),
        beatmaps[i] is Analysed,
        beatmaps[i]->Analysed_0.metadata.beatmap_id == beatmaps[i]->Analysed_0.record.beatmap_id,
    ensures
        after.tables.stored(beatmaps[i]->Analysed_0.record),
{
    let states = choose|states: Seq<Tables>| #[trigger]
        stored_in_order(states, beatmaps) && states.first() == before.tables && states.last()
            == after.tables && report == report_on(states, beatmaps, beatmaps.len());
    lemma_not_failing(before.tables, beatmaps, beatmaps.len(), i);
    lemma_versions_stay(states, beatmaps, i);
    assert(beatmaps[i].leads(states[i], states[i + 1]));
    assert(!beatmaps[i].fails(states[i]));
    lemma_stored_stays(
        states,
        beatmaps,
        beatmaps[i]->Analysed_0.record,
        i + 1,
        beatmaps.len() as int,
    );
}

proof fn lemma_not_failing(tables: Tables, beatmaps: Seq<PackBeatmap>, count: nat, i: int)
    requires
        failures(tables, beatmaps, count) == 0,
        0 <= i < count <= beatmaps.len(),
    ensures
        !beatmaps[i].fails(tables),
    decreases count,
{
    if i < count - 1 {
        lemma_not_failing(tables, beatmaps, (count - 1) as nat, i);
    }
}

/// What is stored stays stored.
proof fn lemma_stored_stays(
    states: Seq<Tables>,
    beatmaps: Seq<PackBeatmap>,
    record: RawFeatureRecord,
    from: int,
    to: int,
)
    requires
        stored_in_order(states, beatmaps),
        0 <= from <= to <= beatmaps.len(),
        states[from].stored(record),
    ensures
        states[to].stored(record),
    decreases to - from,
{
    if from < to {
        let before = states[from];
        let after = states[from + 1];
        assert(beatmaps[from].leads(before, after));
        assert(after.stored(record)) by {
            if beatmaps[from] is Analysed && !beatmaps[from].fails(before) {
                let id = beatmaps[from]->Analysed_0.metadata.beatmap_id;
                if record.beatmap_id != id {
                    assert(before.beatmaps@.remove(id).contains_key(record.beatmap_id));
                    assert(after.beatmaps@.dom().contains(record.beatmap_id)
                        || after.beatmaps@.remove(id).contains_key(record.beatmap_id));
                }
            }
        }
        lemma_stored_stays(states, beatmaps, record, from + 1, to);
    }
}

// What an import does

/// Which packs are imported: a readable archive with at least one beatmap, none of which fails, and
/// without a broken set. A beatmap fails if it could not be analysed or cannot be appended. For
/// any other pack the error says what is wrong, with the number of failures.
pub proof fn law_only_whole_packs_are_imported(
    tables: Tables,
    kind: ArchiveKind,
    beatmaps: Seq<PackBeatmap>,
    broken_sets: usize,
)
    requires
        beatmaps.len() + broken_sets <= usize::MAX,
    ensures
        import_refusal(tables, kind, beatmaps, broken_sets) is None <==> {
            &&& kind != ArchiveKind::Rar
            &&& beatmaps.len() > 0
            &&& broken_sets == 0
            &&& forall|i: int|
                0 <= i < beatmaps.len() ==> !((#[trigger] beatmaps[i]) is Broken) && (beatmaps[i]
                    is Analysed ==> tables.append_refusal(
                    beatmaps[i]->Analysed_0.metadata,
                    beatmaps[i]->Analysed_0.record,
                ) is None)
        },
        import_refusal(tables, kind, beatmaps, broken_sets) matches Some(
            ImportError::Failures { failed, processed },
        ) ==> processed == beatmaps.len() && failed == beatmaps.filter(
            |beatmap: PackBeatmap| beatmap.fails(tables),
        ).len() + broken_sets,
        kind == ArchiveKind::Rar ==> import_refusal(tables, kind, beatmaps, broken_sets) == Some(
            ImportError::Rar,
        ),
        kind != ArchiveKind::Rar && beatmaps.len() == 0 ==> import_refusal(
            tables,
            kind,
            beatmaps,
            broken_sets,
        ) == Some(ImportError::NoBeatmaps { seven_z: kind == ArchiveKind::SevenZ }),
{
    lemma_failures_are_filtered(tables, beatmaps, beatmaps.len());
    assert(beatmaps.take(beatmaps.len() as int) =~= beatmaps);
    lemma_no_failures(tables, beatmaps, beatmaps.len());
    if import_refusal(tables, kind, beatmaps, broken_sets) is None {
        assert forall|i: int| 0 <= i < beatmaps.len() implies !((
        #[trigger] beatmaps[i]) is Broken) && (beatmaps[i] is Analysed
            ==> tables.append_refusal(
            beatmaps[i]->Analysed_0.metadata,
            beatmaps[i]->Analysed_0.record,
        ) is None) by {
            assert(!beatmaps[i].fails(tables));
        }
    }
    if forall|i: int|
        0 <= i < beatmaps.len() ==> !((#[trigger] beatmaps[i]) is Broken) && (beatmaps[i]
            is Analysed ==> tables.append_refusal(
            beatmaps[i]->Analysed_0.metadata,
            beatmaps[i]->Analysed_0.record,
        ) is None) {
        assert forall|i: int| 0 <= i < beatmaps.len() implies !(
        #[trigger] beatmaps[i]).fails(tables) by {}
    }
}

proof fn lemma_failures_are_filtered(tables: Tables, beatmaps: Seq<PackBeatmap>, count: nat)
    requires
        count <= beatmaps.len(),
    ensures
        failures(tables, beatmaps, count) == beatmaps.take(count as int).filter(
            |beatmap: PackBeatmap| beatmap.fails(tables),
        ).len(),
        failures(tables, beatmaps, count) <= count,
    decreases count,
{
    reveal(Seq::filter);
    if count > 0 {
        lemma_failures_are_filtered(tables, beatmaps, (count - 1) as nat);
        assert(beatmaps.take(count as int).drop_last() =~= beatmaps.take(count - 1));
    }
}

proof fn lemma_no_failures(tables: Tables, beatmaps: Seq<PackBeatmap>, count: nat)
    requires
        count <= beatmaps.len(),
    ensures
        failures(tables, beatmaps, count) == 0 <==> forall|i: int|
            0 <= i < count ==> !(#[trigger] beatmaps[i]).fails(tables),
    decreases count,
{
    if count > 0 {
        lemma_no_failures(tables, beatmaps, (count - 1) as nat);
        if forall|i: int| 0 <= i < count ==> !(#[trigger] beatmaps[i]).fails(tables) {
            assert(!beatmaps[count - 1].fails(tables));
        }
    }
}

/// What a beatmap fails for, and what storing one does: one of another mode does not fail and
/// changes nothing, a broken one fails and changes nothing, and an analysed one is appended, or
/// fails and changes nothing where that is refused.
pub proof fn law_storing_a_beatmap(beatmap: PackBeatmap, before: Tables, after: Tables)
    requires
        beatmap.leads(before, after),
    ensures
        beatmap is OtherMode ==> !beatmap.fails(before) && after.same(&before),
        beatmap is Broken ==> beatmap.fails(before) && after.same(&before),
        beatmap is Analysed && before.append_refusal(
            beatmap->Analysed_0.metadata,
            beatmap->Analysed_0.record,
        ) is Some ==> beatmap.fails(before) && after.same(&before),
        beatmap is Analysed && before.append_refusal(
            beatmap->Analysed_0.metadata,
            beatmap->Analysed_0.record,
        ) is None ==> !beatmap.fails(before) && crate::store::appends(
            before,
            after,
            beatmap->Analysed_0.metadata,
            beatmap->Analysed_0.record,
            beatmap->Analysed_0.section,
        ),
{
}

/// How an import counts: as inserted the beatmaps whose records are appended, as failed those that
/// fail, and as skipped all others.
pub proof fn law_imports_count_what_they_did(
    states: Seq<Tables>,
    beatmaps: Seq<PackBeatmap>,
    count: nat,
)
    requires
        count <= beatmaps.len(),
        count <= usize::MAX,
    ensures
        ({
            let report = report_on(states, beatmaps, count);
            let places = Seq::new(count, |i: int| i);
            &&& report.processed == count
            &&& report.failed == places.filter(|i: int| beatmaps[i].fails(states[i])).len()
            &&& report.inserted == places.filter(
                |i: int|
                    beatmaps[i] is Analysed && !beatmaps[i].fails(states[i])
                        && states[i].append_effect(
                        beatmaps[i]->Analysed_0.metadata,
                        beatmaps[i]->Analysed_0.record,
                        beatmaps[i]->Analysed_0.section,
                    ) is Inserted,
            ).len()
            &&& report.skipped == report.processed - report.inserted - report.failed
        }),
    decreases count,
{
    reveal(Seq::filter);
    let fails = |i: int| beatmaps[i].fails(states[i]);
    let inserts = |i: int|
        beatmaps[i] is Analysed && !beatmaps[i].fails(states[i]) && states[i].append_effect(
            beatmaps[i]->Analysed_0.metadata,
            beatmaps[i]->Analysed_0.record,
            beatmaps[i]->Analysed_0.section,
        ) is Inserted;
    let places = Seq::new(count, |i: int| i);
    law_import_reports_are_balanced(states, beatmaps, count);
    if count > 0 {
        law_imports_count_what_they_did(states, beatmaps, (count - 1) as nat);
        law_import_reports_are_balanced(states, beatmaps, (count - 1) as nat);
        assert(places.drop_last() =~= Seq::new((count - 1) as nat, |i: int| i));
        assert(places.last() == count - 1);
        places.drop_last().lemma_filter_len(fails);
        places.drop_last().lemma_filter_len(inserts);
        assert(places.filter(fails).len() == places.drop_last().filter(fails).len() + if fails(
            count - 1,
        ) {
            1int
        } else {
            0int
        });
        assert(places.filter(inserts).len() == places.drop_last().filter(inserts).len()
            + if inserts(count - 1) {
            1int
        } else {
            0int
        });
    }
}

/// Of an imported pack every beatmap is then stored with its own file: where no later beatmap of
/// the pack has the same identifier, the stored checksum and star section are those of the
/// beatmap, and its analysis is there.
pub proof fn law_imported_files_are_those_of_the_pack(
    states: Seq<Tables>,
    beatmaps: Seq<PackBeatmap>,
    i: int,
)
    requires
        stored_in_order(states, beatmaps),
        0 <= i < beatmaps.len(),
        beatmaps[i] is Analysed,
        !beatmaps[i].fails(states[i]),
        forall|k: int|
            0 <= k < beatmaps.len() && (#[trigger] beatmaps[k]) is Analysed
                ==> beatmaps[k]->Analysed_0.metadata.beatmap_id
                == beatmaps[k]->Analysed_0.record.beatmap_id,
        forall|k: int|
            i < k < beatmaps.len() && (#[trigger] beatmaps[k]) is Analysed
                ==> beatmaps[k]->Analysed_0.record.beatmap_id
                != beatmaps[i]->Analysed_0.record.beatmap_id,
    ensures
        ({
            let beatmap = beatmaps[i]->Analysed_0;
            let last = states.last();
            &&& last.beatmaps@.contains_key(beatmap.record.beatmap_id)
            &&& last.beatmaps@[beatmap.record.beatmap_id].checksum@ == beatmap.metadata.checksum@
            &&& last.beatmaps@[beatmap.record.beatmap_id].star_section == Some(beatmap.section)
            &&& last.analyses@.contains_key(
                crate::store::key_of(
                    beatmap.record.beatmap_id,
                    beatmap.record.analyzer_version,
                ),
            )
        }),
{
    let beatmap = beatmaps[i]->Analysed_0;
    assert(beatmaps[i].leads(states[i], states[i + 1]));
    crate::store::law_appended_beatmaps_have_the_given_file(
        states[i],
        states[i + 1],
        beatmap.metadata,
        beatmap.record,
        beatmap.section,
    );
    lemma_later_beatmaps_leave(states, beatmaps, i, beatmaps.len() as int);
}

proof fn lemma_later_beatmaps_leave(
    states: Seq<Tables>,
    beatmaps: Seq<PackBeatmap>,
    i: int,
    upto: int,
)
    requires
        stored_in_order(states, beatmaps),
        0 <= i < upto <= beatmaps.len(),
        beatmaps[i] is Analysed,
        forall|k: int|
            0 <= k < beatmaps.len() && (#[trigger] beatmaps[k]) is Analysed
                ==> beatmaps[k]->Analysed_0.metadata.beatmap_id
                == beatmaps[k]->Analysed_0.record.beatmap_id,
        forall|k: int|
            i < k < beatmaps.len() && (#[trigger] beatmaps[k]) is Analysed
                ==> beatmaps[k]->Analysed_0.record.beatmap_id
                != beatmaps[i]->Analysed_0.record.beatmap_id,
        states[i + 1].beatmaps@.contains_key(beatmaps[i]->Analysed_0.record.beatmap_id),
    ensures
        ({
            let record = beatmaps[i]->Analysed_0.record;
            let key = crate::store::key_of(record.beatmap_id, record.analyzer_version);
            &&& states[upto].beatmaps@.contains_key(record.beatmap_id)
            &&& states[upto].beatmaps@[record.beatmap_id] == states[i
                + 1].beatmaps@[record.beatmap_id]
            &&& states[i + 1].analyses@.contains_key(key) ==> states[upto].analyses@.contains_key(
                key,
            )
        }),
    decreases upto,
{
    if upto > i + 1 {
        lemma_later_beatmaps_leave(states, beatmaps, i, upto - 1);
        let record = beatmaps[i]->Analysed_0.record;
        let before = states[upto - 1];
        let after = states[upto];
        assert(beatmaps[upto - 1].leads(states[upto - 1], states[upto - 1 + 1]));
        if beatmaps[upto - 1] is Analysed && !beatmaps[upto - 1].fails(before) {
            let other = beatmaps[upto - 1]->Analysed_0;
            lemma_raw_length(before);
            crate::store::law_appending_leaves_other_beatmaps(
                before,
                after,
                other.metadata,
                other.record,
                other.section,
                record.beatmap_id,
                record.analyzer_version,
            );
        }
    }
}

proof fn lemma_raw_length(tables: Tables)
    ensures
        tables.raw@.len() <= u64::MAX,
{
    assert(tables.raw@.len() == tables.raw.len());
}

} // verus!
