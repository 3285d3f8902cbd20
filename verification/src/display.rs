//! What is shown of running downloads and imports.

use vstd::prelude::*;

use crate::archive::{BeatmapOutcome, PackImportReport};
use crate::packs::{PackDownloadEvent, PackDownloadReport};
use crate::text::{push_decimal, push_text, same_text, string_of};
use crate::transfer::{DownloadProgress, PROGRESS_INTERVAL};

verus! {

// A batch of downloads

/// How far the download of one pack has come.
#[derive(Clone, Debug)]
pub struct PackProgress {
    pub pack_id: String,
    pub progress: DownloadProgress,
}

/// A running batch of downloads.
#[derive(Clone, Debug)]
pub struct DownloadBatchDisplay {
    pub active: Vec<String>,
    pub progress: Vec<PackProgress>,
    pub completed: usize,
    pub completed_bytes: u64,
    pub total: usize,
}

/// A running batch of downloads: the packs that are being downloaded, how far each of those has
/// come that have come anywhere, and what is finished.
pub struct BatchView {
    pub active: Set<Seq<char>>,
    pub progress: Map<Seq<char>, DownloadProgress>,
    pub completed: int,
    pub completed_bytes: int,
    pub total: int,
}

/// The position of the text `id`, from `from` on.
pub open spec fn text_position(texts: Seq<Seq<char>>, id: Seq<char>, from: int) -> Option<int>
    decreases texts.len() - from,
{
    if from < 0 || from >= texts.len() {
        None
    } else if texts[from] == id {
        Some(from)
    } else {
        text_position(texts, id, from + 1)
    }
}

proof fn lemma_text_position(texts: Seq<Seq<char>>, id: Seq<char>, from: int)
    requires
        0 <= from,
    ensures
        match text_position(texts, id, from) {
            Some(at) => from <= at < texts.len() && texts[at] == id,
            None => forall|i: int| from <= i < texts.len() ==> #[trigger] texts[i] != id,
        },
    decreases texts.len() - from,
{
    if from < texts.len() && texts[from] != id {
        lemma_text_position(texts, id, from + 1);
    }
}

/// The names of the packs in a list of progress.
pub open spec fn progress_names(entries: Seq<PackProgress>) -> Seq<Seq<char>> {
    Seq::new(entries.len(), |i: int| entries[i].pack_id@)
}

/// The list of progress as a map.
pub open spec fn progress_map(entries: Seq<PackProgress>) -> Map<Seq<char>, DownloadProgress> {
    Map::new(
        |id: Seq<char>| progress_names(entries).contains(id),
        |id: Seq<char>| entries[text_position(progress_names(entries), id, 0)->Some_0].progress,
    )
}

/// The bytes of all packs in the map.
pub open spec fn staged(progress: Map<Seq<char>, DownloadProgress>) -> int
    decreases progress.dom().len(),
{
    if progress.dom().finite() && progress.dom().len() > 0 {
        let id = progress.dom().choose();
        progress[id].downloaded_bytes + staged(progress.remove(id))
    } else {
        0
    }
}

impl View for DownloadBatchDisplay {
    type V = BatchView;

    open spec fn view(&self) -> BatchView {
        BatchView {
            active: crate::catalog::texts_of(self.active@).to_set(),
            progress: progress_map(self.progress@),
            completed: self.completed as int,
            completed_bytes: self.completed_bytes as int,
            total: self.total as int,
        }
    }
}

/// The bytes that a finished pack has brought.
pub open spec fn finished_bytes(batch: BatchView, id: Seq<char>) -> int {
    if batch.progress.contains_key(id) {
        batch.progress[id].downloaded_bytes as int
    } else {
        0
    }
}

/// The batch after an event.
pub open spec fn handled(batch: BatchView, event: PackDownloadEvent) -> BatchView {
    match event {
        PackDownloadEvent::Started { pack_id } => BatchView {
            active: batch.active.insert(pack_id@),
            progress: batch.progress,
            completed: batch.completed,
            completed_bytes: batch.completed_bytes,
            total: batch.total,
        },
        PackDownloadEvent::Progress { pack_id, progress } => BatchView {
            active: batch.active.insert(pack_id@),
            progress: batch.progress.insert(pack_id@, progress),
            completed: batch.completed,
            completed_bytes: batch.completed_bytes,
            total: batch.total,
        },
        PackDownloadEvent::Finished(report) => BatchView {
            active: batch.active.remove(report.pack_id@),
            progress: batch.progress.remove(report.pack_id@),
            completed: batch.completed + 1,
            completed_bytes: batch.completed_bytes + finished_bytes(batch, report.pack_id@),
            total: batch.total,
        },
    }
}

proof fn lemma_texts_after_push(texts: Seq<Seq<char>>, id: Seq<char>)
    requires
        texts.no_duplicates(),
        !texts.contains(id),
    ensures
        texts.push(id).no_duplicates(),
        texts.push(id).to_set() == texts.to_set().insert(id),
{
    let all = texts.push(id);
    assert forall|other: Seq<char>| all.to_set().contains(other) == texts.to_set().insert(
        id,
    ).contains(other) by {
        if all.contains(other) {
            let i = choose|i: int| 0 <= i < all.len() && all[i] == other;
            if i < texts.len() {
                assert(texts[i] == other);
            }
        }
        if texts.contains(other) {
            let i = choose|i: int| 0 <= i < texts.len() && texts[i] == other;
            assert(all[i] == other);
        }
        assert(all[texts.len() as int] == id);
    }
    assert(all.to_set() =~= texts.to_set().insert(id));
}

proof fn lemma_texts_after_remove(texts: Seq<Seq<char>>, at: int)
    requires
        texts.no_duplicates(),
        0 <= at < texts.len(),
    ensures
        texts.remove(at).no_duplicates(),
        texts.remove(at).to_set() == texts.to_set().remove(texts[at]),
{
    let rest = texts.remove(at);
    assert forall|other: Seq<char>| rest.to_set().contains(other) == texts.to_set().remove(
        texts[at],
    ).contains(other) by {
        if rest.contains(other) {
            let i = choose|i: int| 0 <= i < rest.len() && rest[i] == other;
            if i < at {
                assert(texts[i] == other);
            } else {
                assert(texts[i + 1] == other);
            }
        }
        if texts.contains(other) && other != texts[at] {
            let i = choose|i: int| 0 <= i < texts.len() && texts[i] == other;
            if i < at {
                assert(rest[i] == other);
            } else {
                assert(rest[i - 1] == other);
            }
        }
    }
    assert(rest.to_set() =~= texts.to_set().remove(texts[at]));
}

/// In a list without repetitions the map holds each entry.
proof fn lemma_progress_entry(entries: Seq<PackProgress>, at: int)
    requires
        progress_names(entries).no_duplicates(),
        0 <= at < entries.len(),
    ensures
        progress_map(entries).contains_key(entries[at].pack_id@),
        progress_map(entries)[entries[at].pack_id@] == entries[at].progress,
{
    let names = progress_names(entries);
    let id = entries[at].pack_id@;
    assert(names[at] == id);
    lemma_text_position(names, id, 0);
    let found = text_position(names, id, 0)->Some_0;
    assert(names[found] == names[at]);
}

proof fn lemma_progress_push(entries: Seq<PackProgress>, entry: PackProgress)
    requires
        progress_names(entries).no_duplicates(),
        !progress_names(entries).contains(entry.pack_id@),
    ensures
        progress_names(entries.push(entry)).no_duplicates(),
        progress_map(entries.push(entry)) == progress_map(entries).insert(
            entry.pack_id@,
            entry.progress,
        ),
{
    let all = entries.push(entry);
    let names = progress_names(entries);
    assert(progress_names(all) =~= names.push(entry.pack_id@));
    lemma_texts_after_push(names, entry.pack_id@);
    assert forall|id: Seq<char>| #[trigger] progress_map(all).contains_key(id) == progress_map(
        entries,
    ).insert(entry.pack_id@, entry.progress).contains_key(id) by {
        assert(progress_names(all).to_set().contains(id) == names.to_set().insert(
            entry.pack_id@,
        ).contains(id));
    }
    assert forall|id: Seq<char>| #[trigger] progress_map(all).contains_key(id) implies progress_map(
        all,
    )[id] == progress_map(entries).insert(entry.pack_id@, entry.progress)[id] by {
        let i = choose|i: int| 0 <= i < all.len() && progress_names(all)[i] == id;
        lemma_progress_entry(all, i);
        if i < entries.len() {
            lemma_progress_entry(entries, i);
            assert(names[i] == id);
        }
    }
    assert(progress_map(all) =~= progress_map(entries).insert(entry.pack_id@, entry.progress));
}

proof fn lemma_progress_update(entries: Seq<PackProgress>, at: int, entry: PackProgress)
    requires
        progress_names(entries).no_duplicates(),
        0 <= at < entries.len(),
        entries[at].pack_id@ == entry.pack_id@,
    ensures
        progress_names(entries.update(at, entry)).no_duplicates(),
        progress_map(entries.update(at, entry)) == progress_map(entries).insert(
            entry.pack_id@,
            entry.progress,
        ),
{
    let all = entries.update(at, entry);
    let names = progress_names(entries);
    assert(progress_names(all) =~= names);
    assert(names[at] == entry.pack_id@);
    assert(names.contains(entry.pack_id@));
    assert forall|id: Seq<char>| #[trigger] progress_map(all).contains_key(id) implies progress_map(
        all,
    )[id] == progress_map(entries).insert(entry.pack_id@, entry.progress)[id] by {
        let i = choose|i: int| 0 <= i < all.len() && progress_names(all)[i] == id;
        lemma_progress_entry(all, i);
        lemma_progress_entry(entries, i);
        assert(names[i] == id);
    }
    assert(progress_map(all) =~= progress_map(entries).insert(entry.pack_id@, entry.progress));
}

proof fn lemma_progress_remove(entries: Seq<PackProgress>, at: int)
    requires
        progress_names(entries).no_duplicates(),
        0 <= at < entries.len(),
    ensures
        progress_names(entries.remove(at)).no_duplicates(),
        progress_map(entries.remove(at)) == progress_map(entries).remove(entries[at].pack_id@),
{
    let rest = entries.remove(at);
    let names = progress_names(entries);
    let gone = entries[at].pack_id@;
    assert(progress_names(rest) =~= names.remove(at));
    lemma_texts_after_remove(names, at);
    assert forall|id: Seq<char>| #[trigger] progress_map(rest).contains_key(id) == progress_map(
        entries,
    ).remove(gone).contains_key(id) by {
        assert(progress_names(rest).to_set().contains(id) == names.to_set().remove(gone).contains(
            id,
        ));
    }
    assert forall|id: Seq<char>| #[trigger]
        progress_map(rest).contains_key(id) implies progress_map(rest)[id] == progress_map(entries).remove(gone)[id] by {
        let i = choose|i: int| 0 <= i < rest.len() && progress_names(rest)[i] == id;
        lemma_progress_entry(rest, i);
        if i < at {
            lemma_progress_entry(entries, i);
        } else {
            lemma_progress_entry(entries, i + 1);
        }
    }
    assert(progress_map(rest) =~= progress_map(entries).remove(gone));
}

/// The bytes of a map with a pack more are its bytes and those of the pack.
proof fn lemma_staged_insert(
    progress: Map<Seq<char>, DownloadProgress>,
    id: Seq<char>,
    value: DownloadProgress,
)
    requires
        progress.dom().finite(),
        !progress.contains_key(id),
    ensures
        staged(progress.insert(id, value)) == staged(progress) + value.downloaded_bytes,
    decreases progress.dom().len(),
{
    let all = progress.insert(id, value);
    assert(all.dom() =~= progress.dom().insert(id));
    assert(all.dom().len() > 0);
    let first = all.dom().choose();
    assert(all.dom().contains(first));
    if first == id {
        assert(all.remove(id) =~= progress);
    } else {
        let rest = progress.remove(first);
        assert(rest.dom() =~= progress.dom().remove(first));
        assert(all.remove(first) =~= rest.insert(id, value));
        lemma_staged_insert(rest, id, value);
        lemma_staged_insert(rest, first, progress[first]);
        assert(rest.insert(first, progress[first]) =~= progress);
    }
}

/// The bytes in the map of a list are those of its entries.
proof fn lemma_staged_push(entries: Seq<PackProgress>, entry: PackProgress)
    requires
        progress_names(entries.push(entry)).no_duplicates(),
    ensures
        progress_names(entries).no_duplicates(),
        staged(progress_map(entries.push(entry))) == staged(progress_map(entries))
            + entry.progress.downloaded_bytes,
{
    let all = entries.push(entry);
    let names = progress_names(all);
    assert(progress_names(entries) =~= names.drop_last());
    assert forall|i: int, j: int|
        0 <= i < entries.len() && 0 <= j < entries.len() && i != j implies progress_names(
        entries,
    )[i] != progress_names(entries)[j] by {
        assert(names[i] != names[j]);
    }
    if progress_names(entries).contains(entry.pack_id@) {
        let i = choose|i: int|
            0 <= i < entries.len() && progress_names(entries)[i] == entry.pack_id@;
        assert(names[i] == names[entries.len() as int]);
    }
    lemma_progress_push(entries, entry);
    assert(progress_map(entries).dom() =~= progress_names(entries).to_set());
    lemma_staged_insert(progress_map(entries), entry.pack_id@, entry.progress);
}

/// A batch has come at least as far as any part of its list says.
proof fn lemma_staged_prefix(entries: Seq<PackProgress>, count: int)
    requires
        progress_names(entries).no_duplicates(),
        0 <= count <= entries.len(),
    ensures
        0 <= staged(progress_map(entries.take(count))) <= staged(progress_map(entries)),
    decreases entries.len(),
{
    if entries.len() == 0 {
        assert(entries.take(0) =~= entries);
        assert(progress_map(entries).dom() =~= Set::empty());
    } else {
        let front = entries.drop_last();
        assert(front.push(entries.last()) =~= entries);
        lemma_staged_push(front, entries.last());
        if count < entries.len() {
            assert(front.take(count) =~= entries.take(count));
            lemma_staged_prefix(front, count);
        } else {
            assert(entries.take(count) =~= entries);
            lemma_staged_prefix(front, front.len() as int);
            assert(front.take(front.len() as int) =~= front);
        }
    }
}

impl DownloadBatchDisplay {
    /// No pack is listed twice.
    pub open spec fn wf(&self) -> bool {
        &&& crate::catalog::texts_of(self.active@).no_duplicates()
        &&& progress_names(self.progress@).no_duplicates()
    }

    /// A batch of `total` packs of which none has started.
    pub fn new(total: usize) -> (display: DownloadBatchDisplay)
        ensures
            display.wf(),
            display@.active == Set::<Seq<char>>::empty(),
            display@.progress == Map::<Seq<char>, DownloadProgress>::empty(),
            display@.completed == 0,
            display@.completed_bytes == 0,
            display@.total == total,
    {
        let display = DownloadBatchDisplay {
            active: Vec::new(),
            progress: Vec::new(),
            completed: 0,
            completed_bytes: 0,
            total,
        };
        assert(display@.active =~= Set::<Seq<char>>::empty());
        assert(display@.progress =~= Map::<Seq<char>, DownloadProgress>::empty());
        display
    }

    fn activate(&mut self, pack_id: &str)
        requires
            old(self).wf(),
        ensures
            final(self).wf(),
            final(self)@.active == old(self)@.active.insert(pack_id@),
            final(self).progress == old(self).progress,
            final(self).completed == old(self).completed,
            final(self).completed_bytes == old(self).completed_bytes,
            final(self).total == old(self).total,
    {
        let ghost texts = crate::catalog::texts_of(self.active@);
        match find_text(&self.active, pack_id) {
            Some(at) => {
                proof {
                    assert(texts[at as int] == pack_id@);
                    assert(texts.to_set().insert(pack_id@) =~= texts.to_set());
                }
            },
            None => {
                proof {
                    lemma_texts_after_push(texts, pack_id@);
                }
                self.active.push(String::from_str(pack_id));
                assert(crate::catalog::texts_of(self.active@) =~= texts.push(pack_id@));
            },
        }
    }

    fn deactivate(&mut self, pack_id: &str)
        requires
            old(self).wf(),
        ensures
            final(self).wf(),
            final(self)@.active == old(self)@.active.remove(pack_id@),
            final(self).progress == old(self).progress,
            final(self).completed == old(self).completed,
            final(self).completed_bytes == old(self).completed_bytes,
            final(self).total == old(self).total,
    {
        let ghost texts = crate::catalog::texts_of(self.active@);
        match find_text(&self.active, pack_id) {
            Some(at) => {
                proof {
                    lemma_texts_after_remove(texts, at as int);
                }
                self.active.remove(at);
                assert(crate::catalog::texts_of(self.active@) =~= texts.remove(at as int));
            },
            None => {
                assert(texts.to_set().remove(pack_id@) =~= texts.to_set());
            },
        }
    }

    fn set_progress(&mut self, pack_id: &str, progress: DownloadProgress)
        requires
            old(self).wf(),
        ensures
            final(self).wf(),
            final(self)@.progress == old(self)@.progress.insert(pack_id@, progress),
            final(self).active == old(self).active,
            final(self).completed == old(self).completed,
            final(self).completed_bytes == old(self).completed_bytes,
            final(self).total == old(self).total,
    {
        let entry: PackProgress = PackProgress { pack_id: String::from_str(pack_id), progress };
        let ghost entries = self.progress@;
        match find_progress(&self.progress, pack_id) {
            Some(at) => {
                proof {
                    lemma_progress_update(entries, at as int, entry);
                }
                self.progress.set(at, entry);
            },
            None => {
                proof {
                    lemma_progress_push(entries, entry);
                }
                self.progress.push(entry);
            },
        }
    }

    /// Removes the progress of a pack, and gives the bytes that it had brought.
    fn take_progress(&mut self, pack_id: &str) -> (bytes: u64)
        requires
            old(self).wf(),
        ensures
            final(self).wf(),
            bytes == finished_bytes(old(self)@, pack_id@),
            final(self)@.progress == old(self)@.progress.remove(pack_id@),
            final(self).active == old(self).active,
            final(self).completed == old(self).completed,
            final(self).completed_bytes == old(self).completed_bytes,
            final(self).total == old(self).total,
    {
        let ghost entries = self.progress@;
        match find_progress(&self.progress, pack_id) {
            Some(at) => {
                proof {
                    lemma_progress_remove(entries, at as int);
                    lemma_progress_entry(entries, at as int);
                }
                let gone: PackProgress = self.progress.remove(at);
                gone.progress.downloaded_bytes
            },
            None => {
                assert(progress_map(entries).remove(pack_id@) =~= progress_map(entries));
                0
            },
        }
    }

    /// Takes note of an event.
    pub fn handle(&mut self, event: &PackDownloadEvent)
        requires
            old(self).wf(),
            event matches PackDownloadEvent::Finished(report) ==> old(self).completed < usize::MAX
                && old(self).completed_bytes + finished_bytes(old(self)@, report.pack_id@)
                <= u64::MAX,
        ensures
            final(self).wf(),
            final(self)@ == handled(old(self)@, *event),
    {
        match event {
            PackDownloadEvent::Started { pack_id } => {
                self.activate(pack_id.as_str());
            },
            PackDownloadEvent::Progress { pack_id, progress } => {
                self.activate(pack_id.as_str());
                self.set_progress(pack_id.as_str(), *progress);
            },
            PackDownloadEvent::Finished(report) => {
                self.deactivate(report.pack_id.as_str());
                let bytes: u64 = self.take_progress(report.pack_id.as_str());
                self.completed_bytes = self.completed_bytes + bytes;
                self.completed = self.completed + 1;
            },
        }
    }

    /// The bytes that are there, of finished packs and of those under way.
    pub fn staged_bytes(&self) -> (bytes: u64)
        requires
            self.wf(),
            self@.completed_bytes + staged(self@.progress) <= u64::MAX,
        ensures
            bytes == self@.completed_bytes + staged(self@.progress),
    {
        let ghost entries = self.progress@;
        let mut bytes: u64 = self.completed_bytes;
        let mut i: usize = 0;
        proof {
            assert(entries.take(0).len() == 0);
            assert(progress_map(entries.take(0)).dom() =~= Set::empty());
        }
        while i < self.progress.len()
            invariant
                i <= self.progress@.len(),
                entries == self.progress@,
                progress_names(entries).no_duplicates(),
                self@.completed_bytes + staged(progress_map(entries)) <= u64::MAX,
                bytes == self@.completed_bytes + staged(progress_map(entries.take(i as int))),
            decreases self.progress@.len() - i,
        {
            proof {
                let now = entries.take(i + 1);
                assert(entries.take(i as int).push(entries[i as int]) =~= now);
                assert(progress_names(now).no_duplicates()) by {
                    assert forall|a: int, b: int|
                        0 <= a < now.len() && 0 <= b < now.len() && a != b implies progress_names(
                        now,
                    )[a] != progress_names(now)[b] by {
                        assert(progress_names(entries)[a] != progress_names(entries)[b]);
                    }
                }
                lemma_staged_push(entries.take(i as int), entries[i as int]);
                lemma_staged_prefix(entries, i + 1);
            }
            bytes = bytes + self.progress[i].progress.downloaded_bytes;
            i = i + 1;
        }
        assert(entries.take(entries.len() as int) =~= entries);
        bytes
    }

    pub open spec fn summary_text(&self, staged: Seq<char>, rate: Seq<char>) -> Seq<char> {
        "download progress: "@ + crate::text::decimal(self.completed as nat) + "/"@
            + crate::text::decimal(self.total as nat) + " finished, "@ + crate::text::decimal(
            self.active@.len(),
        ) + " active, "@ + staged + " MiB staged, "@ + rate + " MiB/s"@
    }

    /// The line that sums the batch up; the mebibytes that are there and the rate are written
    /// as `staged` and `rate`.
    pub fn summary(&self, staged: &str, rate: &str) -> (line: String)
        ensures
            line@ == self.summary_text(staged@, rate@),
    {
        let mut text: Vec<char> = Vec::new();
        push_text(&mut text, "download progress: ");
        push_decimal(&mut text, self.completed as u64);
        push_text(&mut text, "/");
        push_decimal(&mut text, self.total as u64);
        push_text(&mut text, " finished, ");
        push_decimal(&mut text, self.active.len() as u64);
        push_text(&mut text, " active, ");
        push_text(&mut text, staged);
        push_text(&mut text, " MiB staged, ");
        push_text(&mut text, rate);
        push_text(&mut text, " MiB/s");
        assert(text@ =~= self.summary_text(staged@, rate@));
        string_of(text.as_slice())
    }
}

fn find_text(texts: &Vec<String>, id: &str) -> (found: Option<usize>)
    ensures
        match found {
            Some(at) => at < texts@.len() && texts@[at as int]@ == id@,
            None => !crate::catalog::texts_of(texts@).contains(id@),
        },
{
    let mut i: usize = 0;
    while i < texts.len()
        invariant
            i <= texts@.len(),
            forall|k: int| 0 <= k < i ==> (#[trigger] texts@[k])@ != id@,
        decreases texts@.len() - i,
    {
        if same_text(texts[i].as_str(), id) {
            return Some(i);
        }
        i = i + 1;
    }
    proof {
        let all = crate::catalog::texts_of(texts@);
        if all.contains(id@) {
            let k = choose|k: int| 0 <= k < all.len() && all[k] == id@;
            assert(texts@[k]@ == id@);
        }
    }
    None
}

fn find_progress(entries: &Vec<PackProgress>, id: &str) -> (found: Option<usize>)
    ensures
        match found {
            Some(at) => at < entries@.len() && entries@[at as int].pack_id@ == id@,
            None => !progress_names(entries@).contains(id@),
        },
{
    let mut i: usize = 0;
    while i < entries.len()
        invariant
            i <= entries@.len(),
            forall|k: int| 0 <= k < i ==> (#[trigger] entries@[k]).pack_id@ != id@,
        decreases entries@.len() - i,
    {
        if same_text(entries[i].pack_id.as_str(), id) {
            return Some(i);
        }
        i = i + 1;
    }
    proof {
        let all = progress_names(entries@);
        if all.contains(id@) {
            let k = choose|k: int| 0 <= k < all.len() && all[k] == id@;
            assert(entries@[k].pack_id@ == id@);
        }
    }
    None
}

/// A finished pack is no longer active, and its bytes stay counted: finishing changes neither
/// the bytes that are there nor any other pack.
pub proof fn law_finishing_keeps_bytes(batch: BatchView, report: PackDownloadReport)
    requires
        batch.progress.dom().finite(),
    ensures
        ({
            let after = handled(batch, PackDownloadEvent::Finished(report));
            &&& !after.active.contains(report.pack_id@)
            &&& after.completed == batch.completed + 1
            &&& after.completed_bytes + staged(after.progress) == batch.completed_bytes + staged(
                batch.progress,
            )
        }),
{
    let id = report.pack_id@;
    if batch.progress.contains_key(id) {
        let rest = batch.progress.remove(id);
        assert(rest.dom() =~= batch.progress.dom().remove(id));
        lemma_staged_insert(rest, id, batch.progress[id]);
        assert(rest.insert(id, batch.progress[id]) =~= batch.progress);
    } else {
        assert(batch.progress.remove(id) =~= batch.progress);
    }
}

// Lines

/// What is said of the end of a download.
pub open spec fn report_text(report: PackDownloadReport) -> Seq<char> {
    report.pack_id@ + if report.succeeded {
        ": downloaded"@
    } else if report.already_complete {
        ": already complete"@
    } else if report.skipped {
        ": skipped (no osu!standard beatmaps)"@
    } else {
        ": failed: "@ + match report.error {
            Some(error) => error@,
            None => "unknown error"@,
        }
    }
}

/// The line on the end of a download.
pub fn report_line(report: &PackDownloadReport) -> (line: String)
    ensures
        line@ == report_text(*report),
{
    let mut text: Vec<char> = Vec::new();
    push_text(&mut text, report.pack_id.as_str());
    if report.succeeded {
        push_text(&mut text, ": downloaded");
    } else if report.already_complete {
        push_text(&mut text, ": already complete");
    } else if report.skipped {
        push_text(&mut text, ": skipped (no osu!standard beatmaps)");
    } else {
        push_text(&mut text, ": failed: ");
        match &report.error {
            Some(error) => push_text(&mut text, error.as_str()),
            None => push_text(&mut text, "unknown error"),
        }
    }
    assert(text@ =~= report_text(*report));
    string_of(text.as_slice())
}

/// Whether a report is on a failed download, which is an error.
pub fn is_failure(report: &PackDownloadReport) -> (failure: bool)
    ensures
        failure == (!report.succeeded && !report.already_complete && !report.skipped),
{
    !report.succeeded && !report.already_complete && !report.skipped
}

pub open spec fn import_text(report: PackImportReport) -> Seq<char> {
    "processed="@ + crate::text::decimal(report.processed as nat) + " inserted="@
        + crate::text::decimal(report.inserted as nat) + " skipped="@ + crate::text::decimal(
        report.skipped as nat,
    ) + " failed="@ + crate::text::decimal(report.failed as nat)
}

/// The line on an import.
pub fn import_line(report: &PackImportReport) -> (line: String)
    ensures
        line@ == import_text(*report),
{
    let mut text: Vec<char> = Vec::new();
    push_text(&mut text, "processed=");
    push_decimal(&mut text, report.processed as u64);
    push_text(&mut text, " inserted=");
    push_decimal(&mut text, report.inserted as u64);
    push_text(&mut text, " skipped=");
    push_decimal(&mut text, report.skipped as u64);
    push_text(&mut text, " failed=");
    push_decimal(&mut text, report.failed as u64);
    assert(text@ =~= import_text(*report));
    string_of(text.as_slice())
}

/// Whether progress is drawn, `since_last` nanoseconds after it was drawn the last time. The end
/// of a transfer is always drawn.
pub fn should_draw(since_last: u128, progress: &DownloadProgress) -> (draw: bool)
    ensures
        draw == (since_last >= PROGRESS_INTERVAL || (progress.total_bytes matches Some(total)
            && progress.downloaded_bytes >= total)),
{
    if since_last >= PROGRESS_INTERVAL {
        return true;
    }
    match progress.total_bytes {
        Some(total) => progress.downloaded_bytes >= total,
        None => false,
    }
}

// Analysing retained beatmaps again

/// How far the retained beatmaps are analysed again.
#[derive(Clone, Copy, Debug, PartialEq, Eq, Structural)]
pub struct ReanalysisTally {
    pub total: usize,
    pub done: usize,
    pub inserted: usize,
    pub skipped: usize,
    pub failed: usize,
}

impl ReanalysisTally {
    pub open spec fn wf(self) -> bool {
        self.done == self.inserted + self.skipped + self.failed && self.done <= self.total
    }

    pub fn new(total: usize) -> (tally: ReanalysisTally)
        ensures
            tally.wf(),
            tally == (ReanalysisTally { total, done: 0, inserted: 0, skipped: 0, failed: 0 }),
    {
        ReanalysisTally { total, done: 0, inserted: 0, skipped: 0, failed: 0 }
    }

    /// The tally with one beatmap more.
    pub open spec fn with(self, outcome: BeatmapOutcome) -> ReanalysisTally {
        ReanalysisTally {
            total: self.total,
            done: (self.done + 1) as usize,
            inserted: if outcome == BeatmapOutcome::Inserted {
                (self.inserted + 1) as usize
            } else {
                self.inserted
            },
            skipped: if outcome == BeatmapOutcome::Unchanged {
                (self.skipped + 1) as usize
            } else {
                self.skipped
            },
            failed: if outcome == BeatmapOutcome::Failed {
                (self.failed + 1) as usize
            } else {
                self.failed
            },
        }
    }

    /// Counts a beatmap. Gives whether progress is to be shown: after every thousand beatmaps,
    /// and after the last.
    pub fn record(&mut self, outcome: BeatmapOutcome) -> (show: bool)
        requires
            old(self).wf(),
            old(self).done < old(self).total,
        ensures
            final(self).wf(),
            *final(self) == old(self).with(outcome),
            show == ((old(self).done + 1) % 1000 == 0 || old(self).done + 1 == old(self).total),
    {
        self.done = self.done + 1;
        match outcome {
            BeatmapOutcome::Inserted => {
                self.inserted = self.inserted + 1;
            },
            BeatmapOutcome::Unchanged => {
                self.skipped = self.skipped + 1;
            },
            BeatmapOutcome::Failed => {
                self.failed = self.failed + 1;
            },
        }
        self.done % 1000 == 0 || self.done == self.total
    }

    pub open spec fn line_text(self) -> Seq<char> {
        "reanalyze progress: "@ + crate::text::decimal(self.done as nat) + "/"@
            + crate::text::decimal(self.total as nat) + " inserted="@ + crate::text::decimal(
            self.inserted as nat,
        ) + " skipped="@ + crate::text::decimal(self.skipped as nat) + " failed="@
            + crate::text::decimal(self.failed as nat)
    }

    /// The line on the tally.
    pub fn line(&self) -> (line: String)
        ensures
            line@ == self.line_text(),
    {
        let mut text: Vec<char> = Vec::new();
        push_text(&mut text, "reanalyze progress: ");
        push_decimal(&mut text, self.done as u64);
        push_text(&mut text, "/");
        push_decimal(&mut text, self.total as u64);
        push_text(&mut text, " inserted=");
        push_decimal(&mut text, self.inserted as u64);
        push_text(&mut text, " skipped=");
        push_decimal(&mut text, self.skipped as u64);
        push_text(&mut text, " failed=");
        push_decimal(&mut text, self.failed as u64);
        assert(text@ =~= self.line_text());
        string_of(text.as_slice())
    }

    pub open spec fn failure_text(self) -> Seq<char> {
        crate::text::decimal(self.failed as nat) + " of "@ + crate::text::decimal(
            self.total as nat,
        ) + " retained beatmaps failed; see reanalyze-failures.txt"@
    }

    /// What is said at the end, where a beatmap has failed.
    pub fn finish(&self) -> (outcome: Result<(), String>)
        ensures
            match outcome {
                Ok(_) => self.failed == 0,
                Err(message) => self.failed > 0 && message@ == self.failure_text(),
            },
    {
        if self.failed == 0 {
            return Ok(());
        }
        let mut text: Vec<char> = Vec::new();
        push_decimal(&mut text, self.failed as u64);
        push_text(&mut text, " of ");
        push_decimal(&mut text, self.total as u64);
        push_text(&mut text, " retained beatmaps failed; see reanalyze-failures.txt");
        assert(text@ =~= self.failure_text());
        Err(string_of(text.as_slice()))
    }
}

/// What a batch shows after an event: a pack that has started or made progress is active, with its
/// latest progress; one that has finished is not, counts as completed, and its bytes with it.
/// Other packs and the number of packs stay.
pub proof fn law_events_are_shown(batch: BatchView, event: PackDownloadEvent, other: Seq<char>)
    ensures
        handled(batch, event).total == batch.total,
        event is Started ==> {
            let after = handled(batch, event);
            &&& after.active.contains(event->Started_pack_id@)
            &&& after.progress == batch.progress
            &&& after.completed == batch.completed
            &&& after.completed_bytes == batch.completed_bytes
            &&& other != event->Started_pack_id@ ==> (after.active.contains(other)
                <==> batch.active.contains(other))
        },
        event is Progress ==> {
            let after = handled(batch, event);
            &&& after.active.contains(event->Progress_pack_id@)
            &&& after.progress.contains_key(event->Progress_pack_id@)
            &&& after.progress[event->Progress_pack_id@] == event->progress
            &&& after.completed == batch.completed
            &&& after.completed_bytes == batch.completed_bytes
            &&& other != event->Progress_pack_id@ ==> (after.active.contains(other)
                <==> batch.active.contains(other)) && (after.progress.contains_key(other)
                <==> batch.progress.contains_key(other)) && (batch.progress.contains_key(other)
                ==> after.progress[other] == batch.progress[other])
        },
        event is Finished ==> {
            let after = handled(batch, event);
            let id = event->Finished_0.pack_id@;
            &&& !after.active.contains(id)
            &&& !after.progress.contains_key(id)
            &&& after.completed == batch.completed + 1
            &&& batch.progress.contains_key(id) ==> after.completed_bytes == batch.completed_bytes
                + batch.progress[id].downloaded_bytes
            &&& !batch.progress.contains_key(id) ==> after.completed_bytes
                == batch.completed_bytes
            &&& other != id ==> (after.active.contains(other) <==> batch.active.contains(other))
                && (after.progress.contains_key(other) <==> batch.progress.contains_key(other)) && (
            batch.progress.contains_key(other) ==> after.progress[other] == batch.progress[other])
        },
{
}

/// The staged bytes are the sum of the downloaded bytes of all packs with progress.
pub proof fn law_staged_bytes_add_up(
    progress: Map<Seq<char>, DownloadProgress>,
    id: Seq<char>,
    value: DownloadProgress,
)
    requires
        progress.dom().finite(),
        !progress.contains_key(id),
    ensures
        staged(Map::<Seq<char>, DownloadProgress>::empty()) == 0,
        staged(progress.insert(id, value)) == staged(progress) + value.downloaded_bytes,
{
    lemma_staged_insert(progress, id, value);
    assert(Map::<Seq<char>, DownloadProgress>::empty().dom() =~= Set::<Seq<char>>::empty());
}

/// How a reanalysis counts: each beatmap once as done and once more as inserted, skipped or failed.
pub proof fn law_reanalysis_counts(tally: ReanalysisTally, outcome: BeatmapOutcome)
    requires
        tally.wf(),
        tally.done < tally.total,
    ensures
        ({
            let after = tally.with(outcome);
            &&& after.total == tally.total
            &&& after.done == tally.done + 1
            &&& after.inserted == tally.inserted + if outcome is Inserted {
                1int
            } else {
                0int
            }
            &&& after.skipped == tally.skipped + if outcome is Unchanged {
                1int
            } else {
                0int
            }
            &&& after.failed == tally.failed + if outcome is Failed {
                1int
            } else {
                0int
            }
        }),
{
}

/// What is said of a pack: its identifier, and that it is downloaded, was complete already, is
/// skipped, or failed and why.
pub proof fn law_report_lines(report: PackDownloadReport)
    ensures
        report.succeeded ==> report_text(report) == report.pack_id@ + ": downloaded"@,
        !report.succeeded && report.already_complete ==> report_text(report) == report.pack_id@
            + ": already complete"@,
        !report.succeeded && !report.already_complete && report.skipped ==> report_text(report)
            == report.pack_id@ + ": skipped (no osu!standard beatmaps)"@,
        !report.succeeded && !report.already_complete && !report.skipped && report.error is Some
            ==> report_text(report) == report.pack_id@ + (": failed: "@ + report.error->Some_0@),
{
}

/// What is said of an import and of a reanalysis: each number by its name.
pub proof fn law_import_lines(report: PackImportReport, tally: ReanalysisTally)
    ensures
        import_text(report) == "processed="@ + crate::text::decimal(report.processed as nat)
            + " inserted="@ + crate::text::decimal(report.inserted as nat) + " skipped="@
            + crate::text::decimal(report.skipped as nat) + " failed="@ + crate::text::decimal(
            report.failed as nat,
        ),
        tally.line_text() == "reanalyze progress: "@ + crate::text::decimal(tally.done as nat)
            + "/"@ + crate::text::decimal(tally.total as nat) + " inserted="@
            + crate::text::decimal(tally.inserted as nat) + " skipped="@ + crate::text::decimal(
            tally.skipped as nat,
        ) + " failed="@ + crate::text::decimal(tally.failed as nat),
{
}

/// What is said of a batch: how many of all packs are finished and how many are active, and the
/// staged bytes and the rate as they are given.
pub proof fn law_batch_lines(display: DownloadBatchDisplay, staged: Seq<char>, rate: Seq<char>)
    ensures
        display.summary_text(staged, rate) == "download progress: "@ + crate::text::decimal(
            display.completed as nat,
        ) + "/"@ + crate::text::decimal(display.total as nat) + " finished, "@
            + crate::text::decimal(display.active@.len()) + " active, "@ + staged
            + " MiB staged, "@ + rate + " MiB/s"@,
{
}

/// A reanalysis in which beatmaps failed says how many of all did.
pub proof fn law_failed_reanalyses_are_told(tally: ReanalysisTally)
    ensures
        tally.failure_text() == crate::text::decimal(tally.failed as nat) + " of "@
            + crate::text::decimal(tally.total as nat)
            + " retained beatmaps failed; see reanalyze-failures.txt"@,
{
}

} // verus!
