//! One transfer of an archive, and when it is tried again.
//!
//! Times are nanoseconds since the transfer started.

use vstd::prelude::*;

use crate::float_bits::F64;
use crate::text::{push_decimal, push_text, string_of};

verus! {

/// How often a pack is tried.
pub const MAX_DOWNLOAD_ATTEMPTS: u8 = 3;

/// The rate below which a transfer is given up: one mebibyte in a second.
pub const MIN_DOWNLOAD_BYTES_PER_SECOND: u64 = 1048576;

/// The time over which the rate of a transfer is taken: one minute.
pub const SLOW_DOWNLOAD_WINDOW: u128 = 60000000000;

/// The time between two progress reports: a quarter of a second.
pub const PROGRESS_INTERVAL: u128 = 250000000;

pub const NANOS_PER_SECOND: u128 = 1000000000;

/// How far a transfer has come.
#[derive(Clone, Copy, Debug, PartialEq, Eq, Structural)]
pub struct DownloadProgress {
    pub attempt: u8,
    pub downloaded_bytes: u64,
    pub total_bytes: Option<u64>,
    pub bytes_per_second: F64,
}

// The rate

/// Whether `bytes` bytes in `window` nanoseconds are fewer than the least rate allows. Where no
/// time has passed, any byte at all is fast enough.
pub open spec fn is_slow(window: int, bytes: int) -> bool {
    bytes == 0 || bytes * NANOS_PER_SECOND < MIN_DOWNLOAD_BYTES_PER_SECOND * window
}

/// Whether `transferred_bytes` in a window of so many nanoseconds stay below the least rate.
pub fn is_below_minimum_download_rate(window: u128, transferred_bytes: u64) -> (answer: bool)
    ensures
        answer == is_slow(window as int, transferred_bytes as int),
{
    if transferred_bytes == 0 {
        return true;
    }
    let scaled: u128 = transferred_bytes as u128 * NANOS_PER_SECOND;
    let seconds: u128 = scaled / (MIN_DOWNLOAD_BYTES_PER_SECOND as u128);
    proof {
        let s = scaled as int;
        let w = window as int;
        assert(s / 1048576 < w <==> s < 1048576 * w) by (nonlinear_arith);
    }
    seconds < window
}

/// A transfer at a higher rate is never slow where one at a lower rate is not: neither more
/// bytes nor less time makes it so.
pub proof fn law_rate_is_monotone(window: int, bytes: int, shorter: int, more: int)
    requires
        0 <= shorter <= window,
        0 <= bytes <= more,
        !is_slow(window, bytes),
    ensures
        !is_slow(shorter, more),
{
    assert(MIN_DOWNLOAD_BYTES_PER_SECOND * shorter <= MIN_DOWNLOAD_BYTES_PER_SECOND * window);
    assert(bytes * NANOS_PER_SECOND <= more * NANOS_PER_SECOND);
}

// The request

/// The range that is asked for where `existing` bytes are there already.
pub open spec fn range_text(existing: u64) -> Option<Seq<char>> {
    if existing > 0 {
        Some("bytes="@ + crate::text::decimal(existing as nat) + "-"@)
    } else {
        None
    }
}

/// The value of the range header of a request, where some bytes are there already.
pub fn range_header(existing_bytes: u64) -> (range: Option<String>)
    ensures
        match range_text(existing_bytes) {
            Some(text) => range matches Some(value) && value@ == text,
            None => range is None,
        },
{
    if existing_bytes == 0 {
        return None;
    }
    let mut text: Vec<char> = Vec::new();
    push_text(&mut text, "bytes=");
    push_decimal(&mut text, existing_bytes);
    push_text(&mut text, "-");
    assert(text@ =~= "bytes="@ + crate::text::decimal(existing_bytes as nat) + "-"@);
    Some(string_of(text.as_slice()))
}

/// What is done with the answer to a request.
#[derive(Clone, Copy, Debug, PartialEq, Eq, Structural)]
pub enum ResponsePlan {
    /// The rest of the file follows: append it.
    Resume,
    /// The range was refused: empty the file and ask for all of it.
    Restart,
    /// All of the file follows: overwrite it.
    Fresh,
}

/// What is done with an answer of the given status, where `existing_bytes` are there already.
pub fn response_plan(existing_bytes: u64, status: u16) -> (plan: ResponsePlan)
    ensures
        plan == if existing_bytes > 0 && status == 206 {
            ResponsePlan::Resume
        } else if existing_bytes > 0 && status == 416 {
            ResponsePlan::Restart
        } else {
            ResponsePlan::Fresh
        },
{
    if existing_bytes > 0 && status == 206 {
        ResponsePlan::Resume
    } else if existing_bytes > 0 && status == 416 {
        ResponsePlan::Restart
    } else {
        ResponsePlan::Fresh
    }
}

// The transfer

/// A transfer that is under way.
#[derive(Clone, Copy, Debug, PartialEq, Eq, Structural)]
pub struct Transfer {
    pub attempt: u8,
    /// The bytes that were there before.
    pub initial_bytes: u64,
    /// The bytes that are there now.
    pub downloaded_bytes: u64,
    /// The bytes that will be there, where the server said so.
    pub total_bytes: Option<u64>,
    pub window_start: u128,
    pub window_bytes: u64,
    pub last_report: u128,
}

/// What follows on a chunk.
#[derive(Clone, Copy, Debug, PartialEq, Eq, Structural)]
pub enum TransferStep {
    Continue,
    /// Progress is to be reported.
    Report,
    /// The transfer is given up: so many bytes came in so many nanoseconds.
    TooSlow { window: u128, bytes: u64 },
}

/// The time from `since` to `now`, none where `now` is earlier.
pub open spec fn elapsed(now: u128, since: u128) -> int {
    if now >= since {
        now - since
    } else {
        0
    }
}

fn time_since(now: u128, since: u128) -> (time: u128)
    ensures
        time == elapsed(now, since),
{
    if now >= since {
        now - since
    } else {
        0
    }
}

/// A transfer that has stopped short of its end.
#[derive(Clone, Copy, Debug, PartialEq, Eq, Structural)]
pub struct IncompleteTransfer {
    pub downloaded_bytes: u64,
    pub expected_bytes: u64,
}

impl IncompleteTransfer {
    pub open spec fn text(self) -> Seq<char> {
        "download ended at "@ + crate::text::decimal(self.downloaded_bytes as nat)
            + " bytes, but the server declared "@ + crate::text::decimal(
            self.expected_bytes as nat,
        ) + " bytes"@
    }

    /// The error in words.
    pub fn message(&self) -> (message: String)
        ensures
            message@ == self.text(),
    {
        let mut text: Vec<char> = Vec::new();
        push_text(&mut text, "download ended at ");
        push_decimal(&mut text, self.downloaded_bytes);
        push_text(&mut text, " bytes, but the server declared ");
        push_decimal(&mut text, self.expected_bytes);
        push_text(&mut text, " bytes");
        assert(text@ =~= self.text());
        string_of(text.as_slice())
    }
}

impl Transfer {
    /// No byte that was there is lost.
    pub open spec fn wf(self) -> bool {
        self.initial_bytes <= self.downloaded_bytes && self.window_bytes <= self.downloaded_bytes
            - self.initial_bytes
    }

    /// The transfer as it starts.
    pub open spec fn started(
        attempt: u8,
        initial_bytes: u64,
        content_length: Option<u64>,
    ) -> Transfer {
        Transfer {
            attempt,
            initial_bytes,
            downloaded_bytes: initial_bytes,
            total_bytes: match content_length {
                Some(length) => Some((length + initial_bytes) as u64),
                None => None,
            },
            window_start: 0,
            window_bytes: 0,
            last_report: 0,
        }
    }

    /// Starts a transfer after `initial_bytes` that are kept; `content_length` is the length
    /// of what follows, where the server said it.
    pub fn start(attempt: u8, initial_bytes: u64, content_length: Option<u64>) -> (transfer:
        Transfer)
        requires
            content_length matches Some(length) ==> length + initial_bytes <= u64::MAX,
        ensures
            transfer == Transfer::started(attempt, initial_bytes, content_length),
            transfer.wf(),
    {
        let total_bytes: Option<u64> = match content_length {
            Some(length) => Some(length + initial_bytes),
            None => None,
        };
        Transfer {
            attempt,
            initial_bytes,
            downloaded_bytes: initial_bytes,
            total_bytes,
            window_start: 0,
            window_bytes: 0,
            last_report: 0,
        }
    }

    /// Whether the window is over when a chunk arrives at `now`.
    pub open spec fn window_is_over(self, now: u128) -> bool {
        elapsed(now, self.window_start) >= SLOW_DOWNLOAD_WINDOW
    }

    /// Whether the window is over and too little came in it, `count` bytes at `now` included.
    pub open spec fn is_too_slow(self, count: u64, now: u128) -> bool {
        self.window_is_over(now) && is_slow(
            elapsed(now, self.window_start),
            self.window_bytes + count,
        )
    }

    pub open spec fn is_report_due(self, now: u128) -> bool {
        elapsed(now, self.last_report) >= PROGRESS_INTERVAL
    }

    /// What follows when `count` bytes arrive at `now`.
    pub open spec fn step(self, count: u64, now: u128) -> TransferStep {
        if self.is_too_slow(count, now) {
            TransferStep::TooSlow {
                window: elapsed(now, self.window_start) as u128,
                bytes: (self.window_bytes + count) as u64,
            }
        } else if self.is_report_due(now) {
            TransferStep::Report
        } else {
            TransferStep::Continue
        }
    }

    /// The transfer after `count` bytes have arrived at `now`.
    pub open spec fn received(self, count: u64, now: u128) -> Transfer {
        let over = self.window_is_over(now) && !self.is_too_slow(count, now);
        Transfer {
            attempt: self.attempt,
            initial_bytes: self.initial_bytes,
            downloaded_bytes: (self.downloaded_bytes + count) as u64,
            total_bytes: self.total_bytes,
            window_start: if over {
                now
            } else {
                self.window_start
            },
            window_bytes: if over {
                0
            } else {
                (self.window_bytes + count) as u64
            },
            last_report: if self.step(count, now) == TransferStep::Report {
                now
            } else {
                self.last_report
            },
        }
    }

    /// Counts a chunk of `count` bytes that arrived at `now`.
    pub fn receive(&mut self, count: u64, now: u128) -> (step: TransferStep)
        requires
            old(self).wf(),
            old(self).downloaded_bytes + count <= u64::MAX,
        ensures
            step == old(self).step(count, now),
            *final(self) == old(self).received(count, now),
            final(self).wf(),
    {
        self.downloaded_bytes = self.downloaded_bytes + count;
        self.window_bytes = self.window_bytes + count;
        let window: u128 = time_since(now, self.window_start);
        if window >= SLOW_DOWNLOAD_WINDOW {
            if is_below_minimum_download_rate(window, self.window_bytes) {
                return TransferStep::TooSlow { window, bytes: self.window_bytes };
            }
            self.window_start = now;
            self.window_bytes = 0;
        }
        if time_since(now, self.last_report) >= PROGRESS_INTERVAL {
            self.last_report = now;
            return TransferStep::Report;
        }
        TransferStep::Continue
    }

    /// The bytes that came with this transfer.
    pub fn transferred_bytes(&self) -> (bytes: u64)
        requires
            self.wf(),
        ensures
            bytes == self.downloaded_bytes - self.initial_bytes,
    {
        self.downloaded_bytes - self.initial_bytes
    }

    /// How far the transfer has come, at the given rate.
    pub fn progress(&self, bytes_per_second: F64) -> (progress: DownloadProgress)
        ensures
            progress.attempt == self.attempt,
            progress.downloaded_bytes == self.downloaded_bytes,
            progress.total_bytes == self.total_bytes,
            progress.bytes_per_second == bytes_per_second,
    {
        DownloadProgress {
            attempt: self.attempt,
            downloaded_bytes: self.downloaded_bytes,
            total_bytes: self.total_bytes,
            bytes_per_second,
        }
    }

    /// Checks, at the end of the stream, that all that the server declared has come.
    pub fn finish(&self) -> (outcome: Result<(), IncompleteTransfer>)
        ensures
            match outcome {
                Ok(_) => self.total_bytes is None || self.total_bytes == Some(
                    self.downloaded_bytes,
                ),
                Err(error) => self.total_bytes == Some(error.expected_bytes)
                    && error.downloaded_bytes == self.downloaded_bytes && error.downloaded_bytes
                    != error.expected_bytes,
            },
    {
        if let Some(expected_bytes) = self.total_bytes {
            if self.downloaded_bytes != expected_bytes {
                return Err(
                    IncompleteTransfer { downloaded_bytes: self.downloaded_bytes, expected_bytes },
                );
            }
        }
        Ok(())
    }
}

/// A chunk of a transfer: its length, and when it arrived.
pub struct Chunk {
    pub count: u64,
    pub now: u128,
}

/// How many bytes the chunks hold.
pub open spec fn chunk_bytes(chunks: Seq<Chunk>) -> int
    decreases chunks.len(),
{
    if chunks.len() == 0 {
        0
    } else {
        chunk_bytes(chunks.drop_last()) + chunks.last().count
    }
}

/// The transfer after the chunks have arrived one by one.
pub open spec fn after_chunks(transfer: Transfer, chunks: Seq<Chunk>) -> Transfer
    decreases chunks.len(),
{
    if chunks.len() == 0 {
        transfer
    } else {
        after_chunks(transfer, chunks.drop_last()).received(chunks.last().count, chunks.last().now)
    }
}

/// Whatever chunks arrive, and whenever, the bytes that are there are those that were there
/// before and those of the chunks; so a transfer with a declared length ends well if and only
/// if the chunks hold exactly that length.
pub proof fn law_every_byte_is_counted(
    attempt: u8,
    initial_bytes: u64,
    content_length: Option<u64>,
    chunks: Seq<Chunk>,
)
    requires
        initial_bytes + chunk_bytes(chunks) <= u64::MAX,
        content_length matches Some(length) ==> length + initial_bytes <= u64::MAX,
    ensures
        ({
            let last = after_chunks(
                Transfer::started(attempt, initial_bytes, content_length),
                chunks,
            );
            &&& last.wf()
            &&& last.attempt == attempt
            &&& last.initial_bytes == initial_bytes
            &&& last.downloaded_bytes == initial_bytes + chunk_bytes(chunks)
            &&& content_length matches Some(length) ==> (last.total_bytes == Some(
                last.downloaded_bytes,
            ) <==> length == chunk_bytes(chunks))
        }),
    decreases chunks.len(),
{
    if chunks.len() > 0 {
        law_every_byte_is_counted(attempt, initial_bytes, content_length, chunks.drop_last());
        lemma_total_is_kept(
            Transfer::started(attempt, initial_bytes, content_length),
            chunks,
        );
    }
}

proof fn lemma_total_is_kept(transfer: Transfer, chunks: Seq<Chunk>)
    ensures
        after_chunks(transfer, chunks).total_bytes == transfer.total_bytes,
    decreases chunks.len(),
{
    if chunks.len() > 0 {
        lemma_total_is_kept(transfer, chunks.drop_last());
    }
}

/// Two progress reports of a transfer are at least the progress interval apart: after a report,
/// a chunk that arrives earlier than that brings no other.
pub proof fn law_reports_are_spaced(
    transfer: Transfer,
    count: u64,
    now: u128,
    next: u64,
    later: u128,
)
    requires
        transfer.step(count, now) == TransferStep::Report,
        later - now < PROGRESS_INTERVAL,
    ensures
        transfer.received(count, now).step(next, later) != TransferStep::Report,
{
}

// Trying again

/// The seconds to wait after a failed attempt, two to the power of the attempt. There is no wait
/// after the last attempt, and a slow transfer is tried again at once.
pub open spec fn pause_of(attempt: u8, slow: bool) -> Option<nat> {
    if attempt < MAX_DOWNLOAD_ATTEMPTS && !slow {
        Some(vstd::arithmetic::power2::pow2(attempt as nat))
    } else {
        None
    }
}

/// The seconds to wait after a failed attempt.
pub fn pause_after(attempt: u8, slow: bool) -> (pause: Option<u64>)
    ensures
        match pause_of(attempt, slow) {
            Some(seconds) => pause matches Some(wait) && wait == seconds,
            None => pause is None,
        },
{
    proof {
        vstd::arithmetic::power2::lemma2_to64();
    }
    if attempt < MAX_DOWNLOAD_ATTEMPTS && !slow {
        if attempt == 0 {
            Some(1)
        } else if attempt == 1 {
            Some(2)
        } else {
            Some(4)
        }
    } else {
        None
    }
}

/// What is said of a pack when its last attempt has failed with `error`.
pub open spec fn exhausted_text(pack_id: Seq<char>, error: Seq<char>) -> Seq<char> {
    "official pack "@ + pack_id + " failed after 3 attempts: "@ + error
}

/// What is said of a pack when its last attempt has failed.
pub fn exhausted_message(pack_id: &str, error: &str) -> (message: String)
    ensures
        message@ == exhausted_text(pack_id@, error@),
{
    let mut text: Vec<char> = Vec::new();
    push_text(&mut text, "official pack ");
    push_text(&mut text, pack_id);
    push_text(&mut text, " failed after 3 attempts: ");
    push_text(&mut text, error);
    assert(text@ =~= exhausted_text(pack_id@, error@));
    string_of(text.as_slice())
}

/// What is said of a slow transfer, whose rate in mebibytes per second is `rate`.
pub open spec fn slow_text(rate: Seq<char>) -> Seq<char> {
    "download rate "@ + rate
        + " MiB/s stayed below 1.00 MiB/s for 60 seconds; reconnecting"@
}

/// What is said of a slow transfer, whose rate in mebibytes per second is written as `rate`.
pub fn slow_message(rate: &str) -> (message: String)
    ensures
        message@ == slow_text(rate@),
{
    let mut text: Vec<char> = Vec::new();
    push_text(&mut text, "download rate ");
    push_text(&mut text, rate);
    push_text(&mut text, " MiB/s stayed below 1.00 MiB/s for 60 seconds; reconnecting");
    assert(text@ =~= slow_text(rate@));
    string_of(text.as_slice())
}

// What a transfer does

/// When a transfer is too slow: no byte came, or less than one mebibyte a second, where times are
/// in nanoseconds.
pub proof fn law_slow_is_below_a_mebibyte_a_second(window: int, bytes: int)
    ensures
        is_slow(window, bytes) <==> bytes == 0 || bytes * 1_000_000_000 < 1_048_576 * window,
{
}

/// What a transfer asks for: all of the file where nothing is there yet, else what comes behind the
/// bytes that are.
pub proof fn law_transfers_go_on_where_they_ended(existing: u64)
    ensures
        existing == 0 <==> range_text(existing) is None,
        existing > 0 ==> range_text(existing) == Some(
            "bytes="@ + crate::text::decimal(existing as nat) + "-"@,
        ),
{
}

/// What a transfer starts from: the bytes that are there, and in all those and the ones to come.
pub proof fn law_transfers_start_with_what_is_there(
    attempt: u8,
    initial_bytes: u64,
    content_length: Option<u64>,
)
    requires
        content_length matches Some(length) ==> length + initial_bytes <= u64::MAX,
    ensures
        ({
            let transfer = Transfer::started(attempt, initial_bytes, content_length);
            &&& transfer.attempt == attempt
            &&& transfer.initial_bytes == initial_bytes
            &&& transfer.downloaded_bytes == initial_bytes
            &&& content_length is None ==> transfer.total_bytes is None
            &&& content_length is Some ==> transfer.total_bytes is Some
                && transfer.total_bytes->Some_0 == content_length->Some_0 + initial_bytes
            &&& transfer.window_bytes == 0
        }),
{
}

/// What happens when bytes come: they are added to those that are there. Once a minute has passed
/// since the window began, the bytes of the window decide: if they are too few, the transfer is
/// given up, and else a new window begins. Otherwise the window goes on and counts them. Progress
/// is reported a quarter of a second after it last was, unless the transfer is given up.
pub proof fn law_receiving_bytes(transfer: Transfer, count: u64, now: u128)
    requires
        transfer.wf(),
        transfer.downloaded_bytes + count <= u64::MAX,
        transfer.window_start <= now,
        transfer.last_report <= now,
    ensures
        ({
            let window = now - transfer.window_start;
            let bytes = transfer.window_bytes + count;
            let over = window >= 60_000_000_000;
            let slow = over && (bytes == 0 || bytes * 1_000_000_000 < 1_048_576 * window);
            let due = now - transfer.last_report >= 250_000_000;
            let next = transfer.received(count, now);
            let step = transfer.step(count, now);
            &&& step is TooSlow <==> slow
            &&& step is Report <==> !slow && due
            &&& slow ==> step->window == window && step->bytes == bytes
            &&& next.downloaded_bytes == transfer.downloaded_bytes + count
            &&& next.attempt == transfer.attempt
            &&& next.initial_bytes == transfer.initial_bytes
            &&& next.total_bytes == transfer.total_bytes
            &&& over && !slow ==> next.window_start == now && next.window_bytes == 0
            &&& !over ==> next.window_start == transfer.window_start && next.window_bytes == bytes
            &&& !slow && due ==> next.last_report == now
            &&& !slow && !due ==> next.last_report == transfer.last_report
        }),
{
}

/// How long is waited after a failed attempt: two seconds after the first and twice as long after
/// each further one. Nothing is waited for after a slow transfer or after the third attempt.
pub proof fn law_pauses_double(attempt: u8)
    ensures
        pause_of(attempt, true) is None,
        attempt >= 3 <==> pause_of(attempt, false) is None,
        pause_of(0, false) == Some(1nat),
        pause_of(1, false) == Some(2nat),
        pause_of(2, false) == Some(4nat),
{
    vstd::arithmetic::power2::lemma2_to64();
}

/// What is said of a transfer that is given up names the pack and the last error, and of a slow
/// one the rate.
pub proof fn law_failed_transfers_are_told(
    pack_id: Seq<char>,
    error: Seq<char>,
    rate: Seq<char>,
)
    ensures
        exhausted_text(pack_id, error) == "official pack "@ + pack_id + " failed after 3 attempts: "@
            + error,
        slow_text(rate) == "download rate "@ + rate
            + " MiB/s stayed below 1.00 MiB/s for 60 seconds; reconnecting"@,
{
}

/// The time since a moment is the difference, or nothing if the clock went back.
pub proof fn law_elapsed_time(now: u128, since: u128)
    ensures
        now >= since ==> since + elapsed(now, since) == now,
        now < since ==> elapsed(now, since) == 0,
{
}

} // verus!
