//! Downloading packs in a batch: which are downloaded, and what is recorded of them.

use vstd::prelude::*;

use crate::catalog::is_known_nonstandard_pack_id;
use crate::paths::staged_path;
use crate::sorting::order_of;
use crate::store::FeatureStore;
use crate::transfer::DownloadProgress;

verus! {

// Reports

/// What became of a pack in a batch of downloads.
#[derive(Clone, Debug, PartialEq, Eq)]
pub struct PackDownloadReport {
    pub pack_id: String,
    pub succeeded: bool,
    pub already_complete: bool,
    pub skipped: bool,
    pub error: Option<String>,
}

/// A report as plain text.
pub struct ReportView {
    pub pack_id: Seq<char>,
    pub succeeded: bool,
    pub already_complete: bool,
    pub skipped: bool,
    pub error: Option<Seq<char>>,
}

impl View for PackDownloadReport {
    type V = ReportView;

    open spec fn view(&self) -> ReportView {
        ReportView {
            pack_id: self.pack_id@,
            succeeded: self.succeeded,
            already_complete: self.already_complete,
            skipped: self.skipped,
            error: crate::store::optional_text(self.error),
        }
    }
}

/// The reports as plain text.
pub open spec fn report_views(reports: Seq<PackDownloadReport>) -> Seq<ReportView> {
    Seq::new(reports.len(), |i: int| reports[i]@)
}

/// What happens in a batch of downloads.
#[derive(Clone, Debug, PartialEq, Eq)]
pub enum PackDownloadEvent {
    Started { pack_id: String },
    Progress { pack_id: String, progress: DownloadProgress },
    Finished(PackDownloadReport),
}

impl PackDownloadReport {
    /// Another report that says the same.
    pub fn copied(&self) -> (report: PackDownloadReport)
        ensures
            report@ == self@,
    {
        let error: Option<String> = match &self.error {
            Some(error) => Some(error.clone()),
            None => None,
        };
        PackDownloadReport {
            pack_id: self.pack_id.clone(),
            succeeded: self.succeeded,
            already_complete: self.already_complete,
            skipped: self.skipped,
            error,
        }
    }

    pub open spec fn complete(pack_id: Seq<char>) -> ReportView {
        ReportView {
            pack_id,
            succeeded: false,
            already_complete: true,
            skipped: false,
            error: None,
        }
    }

    pub open spec fn excluded(pack_id: Seq<char>) -> ReportView {
        ReportView {
            pack_id,
            succeeded: false,
            already_complete: false,
            skipped: true,
            error: None,
        }
    }

    pub open spec fn downloaded(pack_id: Seq<char>) -> ReportView {
        ReportView {
            pack_id,
            succeeded: true,
            already_complete: false,
            skipped: false,
            error: None,
        }
    }

    pub open spec fn failed(pack_id: Seq<char>, error: Seq<char>) -> ReportView {
        ReportView {
            pack_id,
            succeeded: false,
            already_complete: false,
            skipped: false,
            error: Some(error),
        }
    }
}

/// How the download of a queued pack ended.
#[derive(Clone, Debug, PartialEq, Eq)]
pub enum DownloadOutcome {
    Downloaded,
    /// The pack is known to hold no osu!standard beatmap, and nothing was requested.
    NotStandard,
    Failed { error: String },
}

/// The report on a queued pack whose download ended so.
pub open spec fn outcome_report(pack_id: Seq<char>, outcome: DownloadOutcome) -> ReportView {
    match outcome {
        DownloadOutcome::Downloaded => PackDownloadReport::downloaded(pack_id),
        DownloadOutcome::NotStandard => PackDownloadReport::excluded(pack_id),
        DownloadOutcome::Failed { error } => PackDownloadReport::failed(pack_id, error@),
    }
}

/// The report on a queued pack whose download ended so.
pub fn report_of(pack_id: String, outcome: DownloadOutcome) -> (report: PackDownloadReport)
    ensures
        report@ == outcome_report(pack_id@, outcome),
{
    match outcome {
        DownloadOutcome::Downloaded => PackDownloadReport {
            pack_id,
            succeeded: true,
            already_complete: false,
            skipped: false,
            error: None,
        },
        DownloadOutcome::NotStandard => PackDownloadReport {
            pack_id,
            succeeded: false,
            already_complete: false,
            skipped: true,
            error: None,
        },
        DownloadOutcome::Failed { error } => PackDownloadReport {
            pack_id,
            succeeded: false,
            already_complete: false,
            skipped: false,
            error: Some(error),
        },
    }
}

// Events of a pack

/// An event as plain text.
pub enum EventView {
    Started { pack_id: Seq<char> },
    Progress { pack_id: Seq<char>, progress: DownloadProgress },
    Finished(ReportView),
}

impl View for PackDownloadEvent {
    type V = EventView;

    open spec fn view(&self) -> EventView {
        match self {
            PackDownloadEvent::Started { pack_id } => EventView::Started { pack_id: pack_id@ },
            PackDownloadEvent::Progress { pack_id, progress } => EventView::Progress {
                pack_id: pack_id@,
                progress: *progress,
            },
            PackDownloadEvent::Finished(report) => EventView::Finished(report@),
        }
    }
}

/// How far the download of a queued pack is.
#[derive(Clone, Copy, Debug, PartialEq, Eq, Structural)]
pub enum RunPhase {
    Queued,
    Running,
    Done,
}

/// The phase after an event of the pack `id`, if the event can come in the phase.
pub open spec fn phase_after(phase: RunPhase, id: Seq<char>, event: EventView) -> Option<RunPhase> {
    match (phase, event) {
        (RunPhase::Queued, EventView::Started { pack_id }) => if pack_id == id {
            Some(RunPhase::Running)
        } else {
            None
        },
        (RunPhase::Running, EventView::Progress { pack_id, .. }) => if pack_id == id {
            Some(RunPhase::Running)
        } else {
            None
        },
        (RunPhase::Running, EventView::Finished(report)) => if report.pack_id == id {
            Some(RunPhase::Done)
        } else {
            None
        },
        _ => None,
    }
}

/// The download of a queued pack, by the events that tell of it.
#[derive(Clone, Debug)]
pub struct PackRun {
    pub pack_id: String,
    pub phase: RunPhase,
}

impl PackRun {
    /// A pack that is queued.
    pub fn new(pack_id: String) -> (run: PackRun)
        ensures
            run.pack_id == pack_id,
            run.phase == RunPhase::Queued,
    {
        PackRun { pack_id, phase: RunPhase::Queued }
    }

    /// The pack is taken from the queue.
    pub fn start(&mut self) -> (event: PackDownloadEvent)
        requires
            old(self).phase == RunPhase::Queued,
        ensures
            event@ == (EventView::Started { pack_id: old(self).pack_id@ }),
            final(self).pack_id == old(self).pack_id,
            phase_after(old(self).phase, old(self).pack_id@, event@) == Some(final(self).phase),
    {
        self.phase = RunPhase::Running;
        PackDownloadEvent::Started { pack_id: self.pack_id.clone() }
    }

    /// The transfer has come further.
    pub fn advance(&self, progress: DownloadProgress) -> (event: PackDownloadEvent)
        requires
            self.phase == RunPhase::Running,
        ensures
            event@ == (EventView::Progress { pack_id: self.pack_id@, progress }),
            phase_after(self.phase, self.pack_id@, event@) == Some(self.phase),
    {
        PackDownloadEvent::Progress { pack_id: self.pack_id.clone(), progress }
    }

    /// The download has ended. Gives the report on the pack and the event that tells of it.
    pub fn finish(&mut self, outcome: DownloadOutcome) -> (end: (
        PackDownloadReport,
        PackDownloadEvent,
    ))
        requires
            old(self).phase == RunPhase::Running,
        ensures
            end.0@ == outcome_report(old(self).pack_id@, outcome),
            end.1@ == EventView::Finished(end.0@),
            final(self).pack_id == old(self).pack_id,
            phase_after(old(self).phase, old(self).pack_id@, end.1@) == Some(final(self).phase),
    {
        self.phase = RunPhase::Done;
        let report: PackDownloadReport = report_of(self.pack_id.clone(), outcome);
        let copy: PackDownloadReport = report.copied();
        (report, PackDownloadEvent::Finished(copy))
    }
}

/// The phase of a queued pack after events, if they can come one after another.
pub open spec fn phase_after_all(id: Seq<char>, events: Seq<EventView>) -> Option<RunPhase>
    decreases events.len(),
{
    if events.len() == 0 {
        Some(RunPhase::Queued)
    } else {
        match phase_after_all(id, events.drop_last()) {
            Some(phase) => phase_after(phase, id, events.last()),
            None => None,
        }
    }
}

/// The events of a pack whose download has ended come in order: one that it has started, then
/// all of its progress, then one that it has finished, with the report on it.
pub proof fn law_events_come_in_order(id: Seq<char>, events: Seq<EventView>)
    requires
        phase_after_all(id, events) == Some(RunPhase::Done),
    ensures
        events.len() >= 2,
        events[0] == (EventView::Started { pack_id: id }),
        forall|i: int|
            0 < i < events.len() - 1 ==> (#[trigger] events[i]) is Progress
                && events[i]->Progress_pack_id == id,
        events.last() is Finished,
        events.last()->Finished_0.pack_id == id,
{
    let front = events.drop_last();
    lemma_running_events(id, front);
    assert(events[0] == front[0]);
    assert forall|i: int| 0 < i < events.len() - 1 implies (#[trigger] events[i]) is Progress
        && events[i]->Progress_pack_id == id by {
        assert(events[i] == front[i]);
    }
}

proof fn lemma_running_events(id: Seq<char>, events: Seq<EventView>)
    ensures
        phase_after_all(id, events) == Some(RunPhase::Queued) ==> events.len() == 0,
        phase_after_all(id, events) == Some(RunPhase::Running) ==> events.len() >= 1 && events[0]
            == (EventView::Started { pack_id: id }) && forall|i: int|
            0 < i < events.len() ==> (#[trigger] events[i]) is Progress
                && events[i]->Progress_pack_id == id,
    decreases events.len(),
{
    if events.len() > 0 {
        let front = events.drop_last();
        lemma_running_events(id, front);
        if phase_after_all(id, events) == Some(RunPhase::Running) {
            if front.len() > 0 {
                assert(events[0] == front[0]);
                assert forall|i: int| 0 < i < events.len() implies (#[trigger] events[i])
                    is Progress && events[i]->Progress_pack_id == id by {
                    if i < front.len() {
                        assert(events[i] == front[i]);
                    }
                }
            }
        }
    }
}

// Marks

/// What is recorded of a pack.
pub struct Mark {
    pub pack_id: Seq<char>,
    pub source: Seq<char>,
    pub status: Seq<char>,
    pub error: Option<Seq<char>>,
}

/// The state of a pack after a mark. The source that was recorded first is kept.
pub open spec fn marked(state: Option<crate::store::PackState>, mark: Mark) -> Option<
    crate::store::PackState,
> {
    Some(
        crate::store::PackState {
            source_url: match state {
                Some(known) => known.source_url,
                None => mark.source,
            },
            status: mark.status,
            last_error: mark.error,
        },
    )
}

/// The state of the pack `id` after all marks.
pub open spec fn after_marks(
    state: Option<crate::store::PackState>,
    id: Seq<char>,
    marks: Seq<Mark>,
) -> Option<crate::store::PackState>
    decreases marks.len(),
{
    if marks.len() == 0 {
        state
    } else {
        let front = after_marks(state, id, marks.drop_last());
        if marks.last().pack_id == id {
            marked(front, marks.last())
        } else {
            front
        }
    }
}

/// The state of the pack `id` in a store.
pub open spec fn state_in(store: FeatureStore, id: Seq<char>) -> Option<crate::store::PackState> {
    crate::store::pack_state(store.tables.packs@, id)
}

/// Whether the pack `id` has the given status in a store.
pub open spec fn status_is(store: FeatureStore, id: Seq<char>, status: Seq<char>) -> bool {
    crate::store::has_status(store.tables.packs@, id, status)
}

/// Whether a store has come from another by recording the marks, and nothing else.
pub open spec fn only_marks(before: FeatureStore, after: FeatureStore, marks: Seq<Mark>) -> bool {
    &&& after.root == before.root
    &&& after.tables.beatmaps@ == before.tables.beatmaps@
    &&& after.tables.analyses@ == before.tables.analyses@
    &&& after.tables.versions@ == before.tables.versions@
    &&& after.tables.stats@ == before.tables.stats@
    &&& after.tables.raw@ == before.tables.raw@
    &&& after.tables.normalized@ == before.tables.normalized@
    &&& forall|id: Seq<char>| #[trigger]
        state_in(after, id) == after_marks(state_in(before, id), id, marks)
}

/// Records one mark more.
fn add_mark(
    store: &mut FeatureStore,
    pack_id: &str,
    source: &str,
    status: &str,
    error: Option<String>,
    Ghost(before): Ghost<FeatureStore>,
    Ghost(marks): Ghost<Seq<Mark>>,
)
    requires
        only_marks(before, *old(store), marks),
    ensures
        only_marks(
            before,
            *final(store),
            marks.push(
                Mark {
                    pack_id: pack_id@,
                    source: source@,
                    status: status@,
                    error: crate::store::optional_text(error),
                },
            ),
        ),
{
    let ghost middle = *store;
    let ghost mark = Mark {
        pack_id: pack_id@,
        source: source@,
        status: status@,
        error: crate::store::optional_text(error),
    };
    store.mark_pack(pack_id, source, status, error);
    proof {
        let all = marks.push(mark);
        assert(all.drop_last() =~= marks);
        assert forall|id: Seq<char>| #[trigger] state_in(*store, id) == after_marks(
            state_in(before, id),
            id,
            all,
        ) by {
            assert(state_in(middle, id) == after_marks(state_in(before, id), id, marks));
            if id != pack_id@ {
                assert(crate::store::pack_state(store.tables.packs@, id)
                    == crate::store::pack_state(middle.tables.packs@, id));
            }
        }
    }
}

/// Records the only mark of an operation.
pub(crate) fn mark_once(
    store: &mut FeatureStore,
    pack_id: &str,
    source: &str,
    status: &str,
    error: Option<String>,
)
    ensures
        only_marks(
            *old(store),
            *final(store),
            seq![
                Mark {
                    pack_id: pack_id@,
                    source: source@,
                    status: status@,
                    error: crate::store::optional_text(error),
                },
            ],
        ),
{
    let ghost none: Seq<Mark> = seq![];
    let ghost mark = Mark {
        pack_id: pack_id@,
        source: source@,
        status: status@,
        error: crate::store::optional_text(error),
    };
    assert(none.push(mark) =~= seq![mark]);
    add_mark(store, pack_id, source, status, error, Ghost(*store), Ghost(none));
}

/// The mark of a pack that holds no osu!standard beatmap.
pub open spec fn exclusion(pack_id: Seq<char>) -> Mark {
    Mark {
        pack_id,
        source: "catalogue-filter"@,
        status: "excluded"@,
        error: Some("pack contains no osu!standard beatmaps"@),
    }
}

// A batch of downloads

/// Whether a pack needs no download: it is imported, or it was excluded.
pub open spec fn is_settled(store: FeatureStore, id: Seq<char>) -> bool {
    status_is(store, id, "complete"@) || status_is(store, id, "excluded"@)
}

/// The packs that are to be downloaded, in order.
pub open spec fn queue_of(store: FeatureStore, ids: Seq<Seq<char>>) -> Seq<Seq<char>>
    decreases ids.len(),
{
    if ids.len() == 0 {
        seq![]
    } else {
        let front = queue_of(store, ids.drop_last());
        if is_settled(store, ids.last()) {
            front
        } else {
            front.push(ids.last())
        }
    }
}

/// The reports on the packs that need no download, in order.
pub open spec fn settled_reports(store: FeatureStore, ids: Seq<Seq<char>>) -> Seq<ReportView>
    decreases ids.len(),
{
    if ids.len() == 0 {
        seq![]
    } else {
        let front = settled_reports(store, ids.drop_last());
        if status_is(store, ids.last(), "complete"@) {
            front.push(PackDownloadReport::complete(ids.last()))
        } else if status_is(store, ids.last(), "excluded"@) {
            front.push(PackDownloadReport::excluded(ids.last()))
        } else {
            front
        }
    }
}

/// The marks of queued packs.
pub open spec fn queue_marks(queue: Seq<Seq<char>>) -> Seq<Mark> {
    Seq::new(
        queue.len(),
        |i: int| Mark { pack_id: queue[i], source: "pending"@, status: "queued"@, error: None },
    )
}

/// A batch before its downloads.
#[derive(Clone, Debug)]
pub struct DownloadPlan {
    /// The packs to download.
    pub queued: Vec<String>,
    /// The reports on the others.
    pub reports: Vec<PackDownloadReport>,
}

proof fn lemma_statuses_differ()
    ensures
        "queued"@ != "complete"@,
        "queued"@ != "excluded"@,
        "complete"@ != "excluded"@,
{
    reveal_strlit("queued");
    reveal_strlit("complete");
    reveal_strlit("excluded");
    assert("queued"@[0] != "complete"@[0]);
    assert("queued"@[0] != "excluded"@[0]);
    assert("complete"@[0] != "excluded"@[0]);
}

/// Marks that only queue packs that are not settled settle none, and unsettle none.
proof fn lemma_queueing_settles_none(
    before: FeatureStore,
    after: FeatureStore,
    queue: Seq<Seq<char>>,
    id: Seq<char>,
)
    requires
        only_marks(before, after, queue_marks(queue)),
        forall|i: int| 0 <= i < queue.len() ==> !is_settled(before, #[trigger] queue[i]),
    ensures
        status_is(after, id, "complete"@) == status_is(before, id, "complete"@),
        status_is(after, id, "excluded"@) == status_is(before, id, "excluded"@),
{
    lemma_statuses_differ();
    assert(state_in(after, id) == after_marks(state_in(before, id), id, queue_marks(queue)));
    lemma_queued_state(state_in(before, id), id, queue);
    if queue.contains(id) {
        let i = choose|i: int| 0 <= i < queue.len() && queue[i] == id;
        assert(!is_settled(before, queue[i]));
    }
}

proof fn lemma_queued_state(
    state: Option<crate::store::PackState>,
    id: Seq<char>,
    queue: Seq<Seq<char>>,
)
    ensures
        ({
            let after = after_marks(state, id, queue_marks(queue));
            if queue.contains(id) {
                after matches Some(known) && known.status == "queued"@
            } else {
                after == state
            }
        }),
    decreases queue.len(),
{
    if queue.len() > 0 {
        lemma_queued_state(state, id, queue.drop_last());
        assert(queue_marks(queue).drop_last() =~= queue_marks(queue.drop_last()));
        let front = queue.drop_last();
        if front.contains(id) {
            let i = choose|i: int| 0 <= i < front.len() && front[i] == id;
            assert(queue[i] == id);
        }
        if queue.contains(id) && queue.last() != id {
            let i = choose|i: int| 0 <= i < queue.len() && queue[i] == id;
            assert(front[i] == id);
        }
        if queue.last() == id {
            assert(queue[queue.len() - 1] == id);
        }
    }
}

/// Sorts out which packs are to be downloaded, and records that they are queued.
pub fn plan_downloads(store: &mut FeatureStore, pack_ids: &Vec<String>) -> (plan: DownloadPlan)
    ensures
        crate::catalog::texts_of(plan.queued@) == queue_of(
            *old(store),
            crate::catalog::texts_of(pack_ids@),
        ),
        report_views(plan.reports@) == settled_reports(
            *old(store),
            crate::catalog::texts_of(pack_ids@),
        ),
        only_marks(
            *old(store),
            *final(store),
            queue_marks(queue_of(*old(store), crate::catalog::texts_of(pack_ids@))),
        ),
{
    let ghost before = *store;
    let ghost ids = crate::catalog::texts_of(pack_ids@);
    let mut queued: Vec<String> = Vec::new();
    let mut reports: Vec<PackDownloadReport> = Vec::new();
    let mut i: usize = 0;
    proof {
        assert(ids.take(0) =~= seq![]);
        assert(crate::catalog::texts_of(queued@) =~= seq![]);
        assert(report_views(reports@) =~= seq![]);
        assert(queue_marks(queue_of(before, ids.take(0))) =~= seq![]);
    }
    while i < pack_ids.len()
        invariant
            i <= pack_ids@.len(),
            ids == crate::catalog::texts_of(pack_ids@),
            crate::catalog::texts_of(queued@) == queue_of(before, ids.take(i as int)),
            report_views(reports@) == settled_reports(before, ids.take(i as int)),
            only_marks(before, *store, queue_marks(queue_of(before, ids.take(i as int)))),
            forall|k: int|
                0 <= k < queue_of(before, ids.take(i as int)).len() ==> !is_settled(
                    before,
                    #[trigger] queue_of(before, ids.take(i as int))[k],
                ),
        decreases pack_ids@.len() - i,
    {
        let pack_id: &str = pack_ids[i].as_str();
        let ghost queue = queue_of(before, ids.take(i as int));
        proof {
            assert(ids.take(i + 1).drop_last() =~= ids.take(i as int));
            assert(ids.take(i + 1).last() == pack_id@);
            lemma_queueing_settles_none(before, *store, queue, pack_id@);
        }
        if store.pack_is_complete(pack_id) {
            let ghost front = reports@;
            reports.push(
                PackDownloadReport {
                    pack_id: String::from_str(pack_id),
                    succeeded: false,
                    already_complete: true,
                    skipped: false,
                    error: None,
                },
            );
            assert(report_views(reports@) =~= report_views(front).push(
                PackDownloadReport::complete(pack_id@),
            ));
        } else if store.pack_is_excluded(pack_id) {
            let ghost front = reports@;
            reports.push(
                PackDownloadReport {
                    pack_id: String::from_str(pack_id),
                    succeeded: false,
                    already_complete: false,
                    skipped: true,
                    error: None,
                },
            );
            assert(report_views(reports@) =~= report_views(front).push(
                PackDownloadReport::excluded(pack_id@),
            ));
        } else {
            let ghost front = queued@;
            add_mark(
                store,
                pack_id,
                "pending",
                "queued",
                None,
                Ghost(before),
                Ghost(queue_marks(queue)),
            );
            queued.push(String::from_str(pack_id));
            proof {
                assert(crate::catalog::texts_of(queued@) =~= crate::catalog::texts_of(front).push(
                    pack_id@,
                ));
                assert(queue_marks(queue.push(pack_id@)) =~= queue_marks(queue).push(
                    Mark {
                        pack_id: pack_id@,
                        source: "pending"@,
                        status: "queued"@,
                        error: None,
                    },
                ));
            }
        }
        i = i + 1;
    }
    assert(ids.take(ids.len() as int) =~= ids);
    DownloadPlan { queued, reports }
}

/// How many workers download a batch.
pub fn worker_count(concurrency: usize, packs: usize) -> (workers: usize)
    requires
        packs > 0,
    ensures
        workers == if concurrency < 1 {
            1
        } else if concurrency > packs {
            packs
        } else {
            concurrency
        },
{
    if concurrency < 1 {
        1
    } else if concurrency > packs {
        packs
    } else {
        concurrency
    }
}

/// How the download of a queued pack starts.
#[derive(Clone, Debug, PartialEq, Eq)]
pub enum DownloadStart {
    /// The pack is known to hold no osu!standard beatmap: nothing is requested.
    NotStandard,
    /// The archive is downloaded to its place in the data directory.
    Fetch { destination: String },
}

/// How the download of a queued pack starts, in the data directory `root`.
pub fn begin_download(root: &str, pack_id: &str) -> (start: DownloadStart)
    ensures
        match start {
            DownloadStart::NotStandard => crate::catalog::is_nonstandard_pack(pack_id@),
            DownloadStart::Fetch { destination } => !crate::catalog::is_nonstandard_pack(pack_id@)
                && destination@ == crate::paths::staged_text(root@, pack_id@),
        },
{
    if is_known_nonstandard_pack_id(pack_id) {
        return DownloadStart::NotStandard;
    }
    DownloadStart::Fetch { destination: staged_path(root, pack_id) }
}

/// The reports of a batch in the order of their packs.
pub open spec fn sorted_reports(reports: Seq<ReportView>) -> Seq<ReportView> {
    crate::sorting::sorted_by(reports, report_keys(reports))
}

/// The keys by which reports are sorted.
pub open spec fn report_keys(reports: Seq<ReportView>) -> Seq<Seq<int>> {
    Seq::new(reports.len(), |i: int| crate::sorting::text_key(reports[i].pack_id))
}

/// What is recorded on a report of a batch. A pack that was complete before stays as it is.
pub open spec fn report_mark(root: Seq<char>, report: ReportView) -> Option<Mark> {
    if report.already_complete {
        None
    } else if report.succeeded {
        Some(
            Mark {
                pack_id: report.pack_id,
                source: crate::paths::staged_text(root, report.pack_id),
                status: "downloaded"@,
                error: None,
            },
        )
    } else if report.skipped {
        Some(exclusion(report.pack_id))
    } else {
        Some(
            Mark {
                pack_id: report.pack_id,
                source: "pending"@,
                status: "failed"@,
                error: report.error,
            },
        )
    }
}

/// What is recorded on the reports of a batch, in order.
pub open spec fn report_marks(root: Seq<char>, reports: Seq<ReportView>) -> Seq<Mark>
    decreases reports.len(),
{
    if reports.len() == 0 {
        seq![]
    } else {
        let front = report_marks(root, reports.drop_last());
        match report_mark(root, reports.last()) {
            Some(mark) => front.push(mark),
            None => front,
        }
    }
}

/// The reports in the order of their packs.
fn sort_reports(reports: Vec<PackDownloadReport>) -> (sorted: Vec<PackDownloadReport>)
    ensures
        report_views(sorted@) == sorted_reports(report_views(reports@)),
{
    let ghost views = report_views(reports@);
    let mut names: Vec<String> = Vec::new();
    let mut i: usize = 0;
    while i < reports.len()
        invariant
            i <= reports@.len(),
            names@.len() == i,
            forall|k: int| 0 <= k < i ==> (#[trigger] names@[k])@ == reports@[k].pack_id@,
        decreases reports@.len() - i,
    {
        names.push(reports[i].pack_id.clone());
        i = i + 1;
    }
    let order: Vec<usize> = order_of(&names);
    assert(crate::sorting::keys_of(names@) =~= report_keys(views));
    let ghost stable = crate::sorting::stable_order(report_keys(views));
    let mut sorted: Vec<PackDownloadReport> = Vec::new();
    let mut k: usize = 0;
    while k < order.len()
        invariant
            k <= order@.len(),
            order@.len() == reports@.len(),
            stable == crate::sorting::positions(order@),
            views == report_views(reports@),
            forall|j: int| 0 <= j < order@.len() ==> #[trigger] order@[j] < reports@.len(),
            sorted@.len() == k,
            forall|j: int| 0 <= j < k ==> (#[trigger] sorted@[j])@ == views[stable[j]],
        decreases order@.len() - k,
    {
        let at: usize = order[k];
        assert(stable[k as int] == at);
        sorted.push(reports[at].copied());
        k = k + 1;
    }
    assert(report_views(sorted@) =~= sorted_reports(views));
    sorted
}

/// Records what became of a batch: `results` are the reports of the workers on the queued
/// packs. Gives all reports of the batch, sorted by pack if anything was downloaded.
pub fn settle_downloads(
    store: &mut FeatureStore,
    plan: DownloadPlan,
    results: Vec<PackDownloadReport>,
) -> (reports: Vec<PackDownloadReport>)
    ensures
        if plan.queued@.len() == 0 {
            report_views(reports@) == report_views(plan.reports@) && only_marks(
                *old(store),
                *final(store),
                seq![],
            )
        } else {
            report_views(reports@) == sorted_reports(
                report_views(plan.reports@) + report_views(results@),
            ) && only_marks(
                *old(store),
                *final(store),
                report_marks(
                    old(store).root@,
                    sorted_reports(report_views(plan.reports@) + report_views(results@)),
                ),
            )
        },
{
    let ghost before = *store;
    let ghost first = plan.reports@;
    let ghost second = results@;
    if plan.queued.len() == 0 {
        return plan.reports;
    }
    let mut all: Vec<PackDownloadReport> = plan.reports;
    let mut rest: Vec<PackDownloadReport> = results;
    all.append(&mut rest);
    assert(report_views(all@) =~= report_views(first) + report_views(second));
    let reports: Vec<PackDownloadReport> = sort_reports(all);
    let ghost views = report_views(reports@);
    let root: String = String::from_str(store.root());
    let mut i: usize = 0;
    assert(views.take(0) =~= seq![]);
    while i < reports.len()
        invariant
            i <= reports@.len(),
            views == report_views(reports@),
            root@ == before.root@,
            only_marks(before, *store, report_marks(root@, views.take(i as int))),
        decreases reports@.len() - i,
    {
        let report: &PackDownloadReport = &reports[i];
        let ghost marks = report_marks(root@, views.take(i as int));
        assert(views.take(i + 1).drop_last() =~= views.take(i as int));
        assert(views.take(i + 1).last() == report@);
        if !report.already_complete {
            if report.succeeded {
                let source: String = staged_path(root.as_str(), report.pack_id.as_str());
                add_mark(
                    store,
                    report.pack_id.as_str(),
                    source.as_str(),
                    "downloaded",
                    None,
                    Ghost(before),
                    Ghost(marks),
                );
            } else if report.skipped {
                add_mark(
                    store,
                    report.pack_id.as_str(),
                    "catalogue-filter",
                    "excluded",
                    Some(String::from_str("pack contains no osu!standard beatmaps")),
                    Ghost(before),
                    Ghost(marks),
                );
            } else {
                let error: Option<String> = match &report.error {
                    Some(error) => Some(error.clone()),
                    None => None,
                };
                add_mark(
                    store,
                    report.pack_id.as_str(),
                    "pending",
                    "failed",
                    error,
                    Ghost(before),
                    Ghost(marks),
                );
            }
        }
        i = i + 1;
    }
    assert(views.take(views.len() as int) =~= views);
    reports
}

// What holds of a batch

/// Whether a report is on the given pack.
pub open spec fn reports_on(reports: Seq<ReportView>, id: Seq<char>) -> bool {
    exists|i: int| 0 <= i < reports.len() && (#[trigger] reports[i]).pack_id == id
}

/// Every pack of a batch is either reported at once or queued, and nothing else is: there are
/// as many reports and queued packs as packs, and each pack is in one of the two lists.
pub proof fn law_planning_covers_every_pack(store: FeatureStore, ids: Seq<Seq<char>>)
    ensures
        settled_reports(store, ids).len() + queue_of(store, ids).len() == ids.len(),
        forall|id: Seq<char>| #[trigger]
            ids.contains(id) <==> reports_on(settled_reports(store, ids), id) || queue_of(
                store,
                ids,
            ).contains(id),
        forall|id: Seq<char>| #[trigger]
            queue_of(store, ids).contains(id) ==> !is_settled(store, id),
        forall|id: Seq<char>| #[trigger]
            reports_on(settled_reports(store, ids), id) ==> is_settled(store, id),
    decreases ids.len(),
{
    if ids.len() > 0 {
        let front = ids.drop_last();
        let last = ids.last();
        let reports = settled_reports(store, ids);
        let front_reports = settled_reports(store, front);
        let queue = queue_of(store, ids);
        let front_queue = queue_of(store, front);
        law_planning_covers_every_pack(store, front);
        assert forall|id: Seq<char>| #[trigger] ids.contains(id) <==> front.contains(id) || id
            == last by {
            if ids.contains(id) {
                let i = choose|i: int| 0 <= i < ids.len() && ids[i] == id;
                if i < front.len() {
                    assert(front[i] == id);
                }
            }
            if front.contains(id) {
                let i = choose|i: int| 0 <= i < front.len() && front[i] == id;
                assert(ids[i] == id);
            }
            if id == last {
                assert(ids[ids.len() - 1] == id);
            }
        }
        assert forall|id: Seq<char>| #[trigger] reports_on(reports, id) <==> reports_on(
            front_reports,
            id,
        ) || (is_settled(store, last) && id == last) by {
            if reports_on(reports, id) {
                let i = choose|i: int| 0 <= i < reports.len() && (#[trigger] reports[i]).pack_id
                    == id;
                if i < front_reports.len() {
                    assert(front_reports[i].pack_id == id);
                }
            }
            if reports_on(front_reports, id) {
                let i = choose|i: int|
                    0 <= i < front_reports.len() && (#[trigger] front_reports[i]).pack_id == id;
                assert(reports[i].pack_id == id);
            }
            if is_settled(store, last) && id == last {
                assert(reports[reports.len() - 1].pack_id == id);
            }
        }
        assert forall|id: Seq<char>| #[trigger] queue.contains(id) <==> front_queue.contains(id)
            || (!is_settled(store, last) && id == last) by {
            if queue.contains(id) {
                let i = choose|i: int| 0 <= i < queue.len() && queue[i] == id;
                if i < front_queue.len() {
                    assert(front_queue[i] == id);
                }
            }
            if front_queue.contains(id) {
                let i = choose|i: int| 0 <= i < front_queue.len() && front_queue[i] == id;
                assert(queue[i] == id);
            }
            if !is_settled(store, last) && id == last {
                assert(queue[queue.len() - 1] == id);
            }
        }
        assert forall|id: Seq<char>| #[trigger] ids.contains(id) <==> reports_on(reports, id)
            || queue.contains(id) by {
            assert(front.contains(id) <==> reports_on(front_reports, id) || front_queue.contains(
                id,
            ));
        }
        assert forall|id: Seq<char>| #[trigger] queue.contains(id) implies !is_settled(
            store,
            id,
        ) by {
            if front_queue.contains(id) {
                assert(!is_settled(store, id));
            }
        }
        assert forall|id: Seq<char>| #[trigger] reports_on(reports, id) implies is_settled(
            store,
            id,
        ) by {
            if reports_on(front_reports, id) {
                assert(is_settled(store, id));
            }
        }
    }
}

/// Sorting neither adds nor drops a report, and puts them in the order of their packs.
pub proof fn law_sorted_reports(reports: Seq<ReportView>)
    ensures
        sorted_reports(reports).len() == reports.len(),
        forall|id: Seq<char>| #[trigger]
            reports_on(sorted_reports(reports), id) <==> reports_on(reports, id),
        forall|report: ReportView| #[trigger]
            sorted_reports(reports).contains(report) <==> reports.contains(report),
        forall|i: int, j: int|
            0 <= i < j < reports.len() ==> crate::sorting::lex_le(
                crate::sorting::text_key((#[trigger] sorted_reports(reports)[i]).pack_id),
                crate::sorting::text_key((#[trigger] sorted_reports(reports)[j]).pack_id),
            ),
{
    let keys = report_keys(reports);
    let order = crate::sorting::stable_order(keys);
    let sorted = sorted_reports(reports);
    crate::sorting::lemma_stable_order(keys);
    assert forall|report: ReportView| #[trigger] sorted.contains(report) <==> reports.contains(
        report,
    ) by {
        if sorted.contains(report) {
            let k = choose|k: int| 0 <= k < sorted.len() && sorted[k] == report;
            assert(0 <= order[k] < reports.len());
            assert(reports[order[k]] == report);
        }
        if reports.contains(report) {
            let i = choose|i: int| 0 <= i < reports.len() && reports[i] == report;
            assert(order.contains(i));
            let k = choose|k: int| 0 <= k < order.len() && order[k] == i;
            assert(sorted[k] == report);
        }
    }
    assert forall|id: Seq<char>| #[trigger] reports_on(sorted, id) <==> reports_on(
        reports,
        id,
    ) by {
        if reports_on(sorted, id) {
            let k = choose|k: int| 0 <= k < sorted.len() && (#[trigger] sorted[k]).pack_id == id;
            assert(sorted.contains(sorted[k]));
            assert(reports.contains(sorted[k]));
        }
        if reports_on(reports, id) {
            let i = choose|i: int| 0 <= i < reports.len() && (#[trigger] reports[i]).pack_id == id;
            assert(reports.contains(reports[i]));
            assert(sorted.contains(reports[i]));
        }
    }
    assert forall|i: int, j: int| 0 <= i < j < reports.len() implies crate::sorting::lex_le(
        crate::sorting::text_key((#[trigger] sorted[i]).pack_id),
        crate::sorting::text_key((#[trigger] sorted[j]).pack_id),
    ) by {
        assert(crate::sorting::comes_before(keys, order[i], order[j]));
        assert(0 <= order[i] < reports.len() && 0 <= order[j] < reports.len());
    }
}

/// The packs of reports, in order and with repetitions.
pub open spec fn reported_ids(reports: Seq<ReportView>) -> Seq<Seq<char>> {
    Seq::new(reports.len(), |i: int| reports[i].pack_id)
}

/// A batch in which every queued pack has one result reports on every requested pack, as often
/// as it was requested, and on no other pack.
pub proof fn law_batch_reports_every_pack(
    store: FeatureStore,
    ids: Seq<Seq<char>>,
    results: Seq<ReportView>,
)
    requires
        reported_ids(results).to_multiset() == queue_of(store, ids).to_multiset(),
    ensures
        reported_ids(
            sorted_reports(settled_reports(store, ids) + results),
        ).to_multiset() == ids.to_multiset(),
{
    let first = settled_reports(store, ids);
    let all = first + results;
    let keys = report_keys(all);
    crate::sorting::lemma_sorted_multiset(reported_ids(all), keys);
    crate::sorting::lemma_stable_order(keys);
    assert(reported_ids(sorted_reports(all)) =~= crate::sorting::sorted_by(
        reported_ids(all),
        keys,
    ));
    assert(reported_ids(all) =~= reported_ids(first) + reported_ids(results));
    vstd::seq_lib::lemma_multiset_commutative(reported_ids(first), reported_ids(results));
    lemma_planned_multiset(store, ids);
}

proof fn lemma_planned_multiset(store: FeatureStore, ids: Seq<Seq<char>>)
    ensures
        reported_ids(settled_reports(store, ids)).to_multiset().add(
            queue_of(store, ids).to_multiset(),
        ) == ids.to_multiset(),
    decreases ids.len(),
{
    let reports = settled_reports(store, ids);
    let queue = queue_of(store, ids);
    if ids.len() == 0 {
        assert(reported_ids(reports) =~= ids);
        assert(queue =~= ids);
        vstd::seq_lib::to_multiset_len(ids);
        assert(reported_ids(reports).to_multiset().add(queue.to_multiset())
            =~= ids.to_multiset());
    } else {
        let front = ids.drop_last();
        let last = ids.last();
        let front_reports = settled_reports(store, front);
        let front_queue = queue_of(store, front);
        lemma_planned_multiset(store, front);
        assert(ids =~= front.push(last));
        vstd::seq_lib::to_multiset_build(front, last);
        if is_settled(store, last) {
            vstd::seq_lib::to_multiset_build(reported_ids(front_reports), last);
            assert(reported_ids(reports) =~= reported_ids(front_reports).push(last));
        } else {
            vstd::seq_lib::to_multiset_build(front_queue, last);
            assert(reported_ids(reports) =~= reported_ids(front_reports));
        }
        assert(reported_ids(reports).to_multiset().add(queue.to_multiset())
            =~= ids.to_multiset());
    }
}

/// Marks on other packs leave the state of a pack alone.
proof fn lemma_unmarked(
    state: Option<crate::store::PackState>,
    id: Seq<char>,
    marks: Seq<Mark>,
)
    requires
        forall|i: int| 0 <= i < marks.len() ==> (#[trigger] marks[i]).pack_id != id,
    ensures
        after_marks(state, id, marks) == state,
    decreases marks.len(),
{
    if marks.len() > 0 {
        assert(marks[marks.len() - 1].pack_id != id);
        assert forall|i: int| 0 <= i < marks.drop_last().len() implies (
        #[trigger] marks.drop_last()[i]).pack_id != id by {
            assert(marks[i].pack_id != id);
        }
        lemma_unmarked(state, id, marks.drop_last());
    }
}

/// A report marks its own pack only.
proof fn lemma_report_marks(root: Seq<char>, reports: Seq<ReportView>, id: Seq<char>)
    requires
        forall|i: int|
            0 <= i < reports.len() && (#[trigger] reports[i]).pack_id == id
                ==> reports[i].already_complete,
    ensures
        forall|i: int|
            0 <= i < report_marks(root, reports).len() ==> (
            #[trigger] report_marks(root, reports)[i]).pack_id != id,
    decreases reports.len(),
{
    if reports.len() > 0 {
        let front = reports.drop_last();
        assert forall|i: int| 0 <= i < front.len() && (#[trigger] front[i]).pack_id
            == id implies front[i].already_complete by {
            assert(reports[i] == front[i]);
        }
        lemma_report_marks(root, front, id);
        let last = reports[reports.len() - 1];
        assert(last.pack_id == id ==> last.already_complete);
    }
}

/// A pack that is complete stays complete, whatever a batch with it among its packs does:
/// neither queueing nor settling touches it, since no worker has a result on it.
pub proof fn law_complete_packs_stay_complete(
    before: FeatureStore,
    planned: FeatureStore,
    after: FeatureStore,
    ids: Seq<Seq<char>>,
    results: Seq<ReportView>,
    id: Seq<char>,
)
    requires
        status_is(before, id, "complete"@),
        only_marks(before, planned, queue_marks(queue_of(before, ids))),
        forall|other: Seq<char>| #[trigger]
            reports_on(results, other) ==> queue_of(before, ids).contains(other),
        only_marks(
            planned,
            after,
            report_marks(
                planned.root@,
                sorted_reports(settled_reports(before, ids) + results),
            ),
        ),
    ensures
        state_in(after, id) == state_in(before, id),
        status_is(after, id, "complete"@),
{
    let queue = queue_of(before, ids);
    let first = settled_reports(before, ids);
    let all = first + results;
    let sorted = sorted_reports(all);
    law_planning_covers_every_pack(before, ids);
    law_sorted_reports(all);
    assert(!queue.contains(id));
    lemma_queued_state(state_in(before, id), id, queue);
    assert(state_in(planned, id) == state_in(before, id));
    lemma_settled_reports_flags(before, ids);
    assert(!reports_on(results, id));
    assert forall|i: int| 0 <= i < sorted.len() && (#[trigger] sorted[i]).pack_id
        == id implies sorted[i].already_complete by {
        assert(sorted.contains(sorted[i]));
        assert(all.contains(sorted[i]));
        let k = choose|k: int| 0 <= k < all.len() && all[k] == sorted[i];
        if k < first.len() {
            assert(first[k].pack_id == id);
        } else {
            assert(results[k - first.len()].pack_id == id);
            assert(reports_on(results, id));
        }
    }
    lemma_report_marks(planned.root@, sorted, id);
    lemma_unmarked(state_in(planned, id), id, report_marks(planned.root@, sorted));
    assert(state_in(after, id) == after_marks(
        state_in(planned, id),
        id,
        report_marks(planned.root@, sorted),
    ));
}

/// A settled report on a complete pack says so.
proof fn lemma_settled_reports_flags(store: FeatureStore, ids: Seq<Seq<char>>)
    ensures
        forall|i: int|
            0 <= i < settled_reports(store, ids).len() ==> (
            (#[trigger] settled_reports(store, ids)[i]).already_complete <==> status_is(
                store,
                settled_reports(store, ids)[i].pack_id,
                "complete"@,
            )),
    decreases ids.len(),
{
    if ids.len() > 0 {
        let front = settled_reports(store, ids.drop_last());
        let all = settled_reports(store, ids);
        lemma_settled_reports_flags(store, ids.drop_last());
        assert forall|i: int| 0 <= i < all.len() implies ((#[trigger] all[i]).already_complete
            <==> status_is(store, all[i].pack_id, "complete"@)) by {
            if i < front.len() {
                assert(all[i] == front[i]);
            }
        }
    }
}

/// After a batch, the state of a pack is what its last report says: it is as before if the pack
/// was complete, and else it is downloaded, excluded or failed with the error.
pub proof fn law_last_report_decides(
    before: FeatureStore,
    after: FeatureStore,
    root: Seq<char>,
    reports: Seq<ReportView>,
    k: int,
)
    requires
        only_marks(before, after, report_marks(root, reports)),
        0 <= k < reports.len(),
        !reports[k].already_complete,
        forall|i: int|
            k < i < reports.len() ==> (#[trigger] reports[i]).pack_id != reports[k].pack_id,
    ensures
        ({
            let report = reports[k];
            state_in(after, report.pack_id) matches Some(state) && if report.succeeded {
                state.status == "downloaded"@ && state.last_error is None
            } else if report.skipped {
                state.status == "excluded"@
            } else {
                state.status == "failed"@ && state.last_error == report.error
            }
        }),
{
    let report = reports[k];
    let marks = report_marks(root, reports);
    lemma_last_mark(state_in(before, report.pack_id), root, reports, k);
    assert(state_in(after, report.pack_id) == after_marks(
        state_in(before, report.pack_id),
        report.pack_id,
        marks,
    ));
}

proof fn lemma_last_mark(
    state: Option<crate::store::PackState>,
    root: Seq<char>,
    reports: Seq<ReportView>,
    k: int,
)
    requires
        0 <= k < reports.len(),
        !reports[k].already_complete,
        forall|i: int|
            k < i < reports.len() ==> (#[trigger] reports[i]).pack_id != reports[k].pack_id,
    ensures
        ({
            let mark = report_mark(root, reports[k])->Some_0;
            after_marks(state, reports[k].pack_id, report_marks(root, reports)) matches Some(known)
                && known.status == mark.status && known.last_error == mark.error
        }),
    decreases reports.len(),
{
    let front = reports.drop_last();
    let marks = report_marks(root, reports);
    if k < reports.len() - 1 {
        assert(front[k] == reports[k]);
        assert forall|i: int| k < i < front.len() implies (#[trigger] front[i]).pack_id
            != front[k].pack_id by {
            assert(reports[i] == front[i]);
        }
        lemma_last_mark(state, root, front, k);
        assert(reports[reports.len() - 1].pack_id != reports[k].pack_id);
    }
    match report_mark(root, reports.last()) {
        Some(mark) => {
            assert(marks.drop_last() =~= report_marks(root, front));
            assert(marks.last() == mark);
        },
        None => {},
    }
}

// What a batch of downloads does

/// Which packs are downloaded: of the packs asked for, in order, exactly those that are neither
/// complete nor excluded. Of each of the others there is a report at once, that it is complete or
/// that it is skipped.
pub proof fn law_unsettled_packs_are_queued(store: FeatureStore, ids: Seq<Seq<char>>)
    ensures
        queue_of(store, ids) == ids.filter(
            |id: Seq<char>|
                !(state_in(store, id) is Some && (state_in(store, id)->Some_0.status
                    == "complete"@ || state_in(store, id)->Some_0.status == "excluded"@)),
        ),
        settled_reports(store, ids) == ids.filter(
            |id: Seq<char>|
                state_in(store, id) is Some && (state_in(store, id)->Some_0.status == "complete"@
                    || state_in(store, id)->Some_0.status == "excluded"@),
        ).map_values(
            |id: Seq<char>|
                ReportView {
                    pack_id: id,
                    succeeded: false,
                    already_complete: state_in(store, id)->Some_0.status == "complete"@,
                    skipped: state_in(store, id)->Some_0.status != "complete"@,
                    error: None,
                },
        ),
    decreases ids.len(),
{
    reveal(Seq::filter);
    let settled = |id: Seq<char>|
        state_in(store, id) is Some && (state_in(store, id)->Some_0.status == "complete"@
            || state_in(store, id)->Some_0.status == "excluded"@);
    let open = |id: Seq<char>|
        !(state_in(store, id) is Some && (state_in(store, id)->Some_0.status == "complete"@
            || state_in(store, id)->Some_0.status == "excluded"@));
    let made = |id: Seq<char>|
        ReportView {
            pack_id: id,
            succeeded: false,
            already_complete: state_in(store, id)->Some_0.status == "complete"@,
            skipped: state_in(store, id)->Some_0.status != "complete"@,
            error: None,
        };
    if ids.len() > 0 {
        law_unsettled_packs_are_queued(store, ids.drop_last());
        let last = ids.last();
        assert(is_settled(store, last) == settled(last));
        assert(queue_of(store, ids) =~= ids.filter(open));
        let front = ids.drop_last().filter(settled);
        if settled(last) {
            assert(front.push(last).map_values(made) =~= front.map_values(made).push(made(last)));
        }
        assert(settled_reports(store, ids) =~= ids.filter(settled).map_values(made));
    } else {
        assert(queue_of(store, ids) =~= ids.filter(open));
        assert(settled_reports(store, ids) =~= ids.filter(settled).map_values(made));
    }
}

/// What a report says of each outcome.
pub proof fn law_reports_say_what_happened(id: Seq<char>, outcome: DownloadOutcome)
    ensures
        ({
            let report = outcome_report(id, outcome);
            &&& report.pack_id == id
            &&& !report.already_complete
            &&& report.succeeded <==> outcome is Downloaded
            &&& report.skipped <==> outcome is NotStandard
            &&& outcome is Failed ==> report.error == Some(outcome->error@)
            &&& !(outcome is Failed) ==> report.error is None
        }),
{
}

/// What a mark does: the pack then has its status and its error, and the source that was recorded
/// first. Other packs stay as they are.
pub proof fn law_marks_add_up(
    state: Option<crate::store::PackState>,
    id: Seq<char>,
    marks: Seq<Mark>,
    mark: Mark,
)
    ensures
        after_marks(state, id, Seq::<Mark>::empty()) == state,
        mark.pack_id != id ==> after_marks(state, id, marks.push(mark)) == after_marks(
            state,
            id,
            marks,
        ),
        mark.pack_id == id ==> {
            let before = after_marks(state, id, marks);
            let after = after_marks(state, id, marks.push(mark));
            &&& after is Some
            &&& after->Some_0.status == mark.status
            &&& after->Some_0.last_error == mark.error
            &&& before is Some ==> after->Some_0.source_url == before->Some_0.source_url
            &&& before is None ==> after->Some_0.source_url == mark.source
        },
{
    assert(marks.push(mark).drop_last() =~= marks);
}

/// Packs that are queued are recorded as such, with no error, and no other pack changes.
pub proof fn law_queued_packs_are_recorded(
    before: FeatureStore,
    after: FeatureStore,
    queue: Seq<Seq<char>>,
    id: Seq<char>,
)
    requires
        only_marks(before, after, queue_marks(queue)),
    ensures
        queue.contains(id) ==> state_in(after, id) is Some && state_in(after, id)->Some_0.status
            == "queued"@ && state_in(after, id)->Some_0.last_error is None,
        !queue.contains(id) ==> state_in(after, id) == state_in(before, id),
{
    assert(state_in(after, id) == after_marks(state_in(before, id), id, queue_marks(queue)));
    lemma_queue_marks(state_in(before, id), queue, id);
}

proof fn lemma_queue_marks(
    state: Option<crate::store::PackState>,
    queue: Seq<Seq<char>>,
    id: Seq<char>,
)
    ensures
        ({
            let after = after_marks(state, id, queue_marks(queue));
            &&& queue.contains(id) ==> after is Some && after->Some_0.status == "queued"@
                && after->Some_0.last_error is None
            &&& !queue.contains(id) ==> after == state
        }),
    decreases queue.len(),
{
    if queue.len() > 0 {
        let front = queue.drop_last();
        lemma_queue_marks(state, front, id);
        assert(queue_marks(queue).drop_last() =~= queue_marks(front));
        if queue.contains(id) && queue.last() != id {
            let p = choose|p: int| 0 <= p < queue.len() && queue[p] == id;
            assert(front[p] == id);
        }
        if front.contains(id) {
            let p = choose|p: int| 0 <= p < front.len() && front[p] == id;
            assert(queue[p] == id);
        }
        if queue.last() == id {
            assert(queue[queue.len() - 1] == id);
        }
    }
}

/// What is recorded of a report: nothing of a pack that was complete before, else that it is
/// downloaded, excluded, or failed with its error.
pub proof fn law_reports_are_recorded(root: Seq<char>, report: ReportView)
    ensures
        report.already_complete <==> report_mark(root, report) is None,
        !report.already_complete ==> report_mark(root, report)->Some_0.pack_id == report.pack_id,
        !report.already_complete && report.succeeded ==> report_mark(root, report)->Some_0.status
            == "downloaded"@ && report_mark(root, report)->Some_0.error is None
            && report_mark(root, report)->Some_0.source == crate::paths::staged_text(
            root,
            report.pack_id,
        ),
        !report.already_complete && !report.succeeded && report.skipped ==> report_mark(
            root,
            report,
        )->Some_0.status == "excluded"@,
        !report.already_complete && !report.succeeded && !report.skipped ==> report_mark(
            root,
            report,
        )->Some_0.status == "failed"@ && report_mark(root, report)->Some_0.error == report.error,
{
}

/// The reports of a batch are recorded one after the other.
pub proof fn law_reports_are_recorded_in_order(root: Seq<char>, reports: Seq<ReportView>)
    ensures
        report_marks(root, reports) == reports.filter_map(
            |report: ReportView| report_mark(root, report),
        ),
    decreases reports.len(),
{
    if reports.len() > 0 {
        law_reports_are_recorded_in_order(root, reports.drop_last());
        let front = report_marks(root, reports.drop_last());
        if let Some(mark) = report_mark(root, reports.last()) {
            assert(front + seq![mark] =~= front.push(mark));
        }
    }
}

/// The run of a pack goes from being queued to running when it has started, stays there while it
/// makes progress, and is done when it has finished. Nothing else happens to it, and no event of
/// another pack does.
pub proof fn law_runs_go_from_start_to_finish(phase: RunPhase, id: Seq<char>, event: EventView)
    ensures
        phase is Queued && event is Started && event->Started_pack_id == id ==> phase_after(
            phase,
            id,
            event,
        ) == Some(RunPhase::Running),
        phase is Running && event is Progress && event->Progress_pack_id == id ==> phase_after(
            phase,
            id,
            event,
        ) == Some(RunPhase::Running),
        phase is Running && event is Finished && event->Finished_0.pack_id == id ==> phase_after(
            phase,
            id,
            event,
        ) == Some(RunPhase::Done),
        phase is Done ==> phase_after(phase, id, event) is None,
        event is Started && (event->Started_pack_id != id || !(phase is Queued)) ==> phase_after(
            phase,
            id,
            event,
        ) is None,
        event is Progress && (event->Progress_pack_id != id || !(phase is Running)) ==> phase_after(
            phase,
            id,
            event,
        ) is None,
        event is Finished && (event->Finished_0.pack_id != id || !(phase is Running))
            ==> phase_after(phase, id, event) is None,
{
}

/// What is recorded of packs that hold no beatmap of osu!standard: that they are excluded, and why.
pub proof fn law_exclusions_are_recorded(id: Seq<char>)
    ensures
        exclusion(id).pack_id == id,
        exclusion(id).status == "excluded"@,
        exclusion(id).error is Some,
{
}

} // verus!
