//! Decisions the weather station takes around its sensors and uploads:
//! debouncing the rain gauge, counting its pulses, the simulated clock,
//! whether an hour still has to be uploaded, and the LCD status lines.
use vstd::prelude::*;
use vstd::string::StringSliceAdditionalSpecFns;
use vstd::utf8::{
    decode_utf8, decode_utf8_encode_utf8, encode_scalar, encode_utf8, encode_utf8_valid_utf8,
    is_char_boundary, is_char_boundary_start_end_of_seq, valid_utf8_split,
};

use crate::clock::{duration_secs, elapsed_since};
use crate::text::{decimal_text, padded_decimal, push_char, push_padded, push_str};

verus! {

/// Level of a digital input pin.
#[derive(Debug, Clone, Copy, PartialEq, Eq, Structural)]
pub enum PinState {
    High,
    Low,
}

/// Which transition the counter thread should count.
#[derive(Debug, Clone, Copy, PartialEq, Eq, Structural)]
pub enum CountOn {
    /// Count `PinState::High` (Low to High).
    Rising,
    /// Count `PinState::Low` (High to Low).
    Falling,
}

/// The edge a pin interrupt is armed for.
#[derive(Debug, Clone, Copy, PartialEq, Eq, Structural)]
pub enum EdgeTrigger {
    Positive,
    Negative,
}

/// The interrupt to arm while the pin rests at `state`: the edge that
/// leaves it.
pub fn next_edge(state: PinState) -> (r: EdgeTrigger)
    ensures
        r == (match state {
            PinState::Low => EdgeTrigger::Positive,
            PinState::High => EdgeTrigger::Negative,
        }),
{
    match state {
        PinState::Low => EdgeTrigger::Positive,
        PinState::High => EdgeTrigger::Negative,
    }
}

/// One debounce step: after an interrupt and the settling delay the pin
/// reads `confirmed`. A change becomes the new state and is emitted; a
/// reading equal to the current state is a spurious edge and is ignored.
pub fn debounce_step(state: PinState, confirmed: PinState) -> (r: (PinState, Option<PinState>))
    ensures
        r == debounce_step_spec(state, confirmed),
        r.0 == confirmed,
        r.1 == (if confirmed != state {
            Some(confirmed)
        } else {
            None
        }),
{
    if confirmed != state {
        (confirmed, Some(confirmed))
    } else {
        (state, None)
    }
}

/// One debounce step: the new state and the state emitted, if any.
pub open spec fn debounce_step_spec(state: PinState, confirmed: PinState) -> (PinState, Option<PinState>) {
    (confirmed, if confirmed != state {
        Some(confirmed)
    } else {
        None
    })
}

/// The state after a run of confirmed readings from `start`, and the
/// states emitted on the way, one `debounce_step` per reading.
pub open spec fn debounce_run(start: PinState, reads: Seq<PinState>) -> (PinState, Seq<PinState>)
    decreases reads.len(),
{
    if reads.len() == 0 {
        (start, Seq::empty())
    } else {
        let before = debounce_run(start, reads.drop_last());
        let step = debounce_step_spec(before.0, reads.last());
        (step.0, match step.1 {
            Some(x) => before.1.push(x),
            None => before.1,
        })
    }
}

/// Law: the debouncer emits alternating states: the first differs from the
/// state the pin started in, each differs from the one before, and the
/// state it rests in is the last one emitted (the start when none was).
pub proof fn law_debounce_alternates(start: PinState, reads: Seq<PinState>)
    ensures
        ({
            let (state, out) = debounce_run(start, reads);
            &&& state == (if out.len() == 0 {
                start
            } else {
                out.last()
            })
            &&& out.len() > 0 ==> out[0] != start
            &&& forall|i: int| 0 < i < out.len() ==> #[trigger] out[i] != out[i - 1]
        }),
    decreases reads.len(),
{
    if reads.len() > 0 {
        law_debounce_alternates(start, reads.drop_last());
        let before = debounce_run(start, reads.drop_last());
        let out = debounce_run(start, reads).1;
        if reads.last() != before.0 {
            assert(out == before.1.push(reads.last()));
            assert forall|i: int| 0 < i < out.len() implies #[trigger] out[i] != out[i - 1] by {
                if i < before.1.len() {
                    assert(out[i] == before.1[i] && out[i - 1] == before.1[i - 1]);
                }
            }
            if before.1.len() > 0 {
                assert(out[0] == before.1[0]);
            }
        }
    }
}

/// Whether a confirmed transition to `state` is one the counter counts.
pub open spec fn should_count_spec(state: PinState, count_on: CountOn) -> bool {
    match count_on {
        CountOn::Rising => state == PinState::High,
        CountOn::Falling => state == PinState::Low,
    }
}

/// How many of the emitted states the counter counts.
pub open spec fn counted(count_on: CountOn, states: Seq<PinState>) -> nat
    decreases states.len(),
{
    if states.len() == 0 {
        0
    } else {
        counted(count_on, states.drop_last()) + if should_count_spec(states.last(), count_on) {
            1nat
        } else {
            0nat
        }
    }
}

/// The 32-bit counter after the emitted states, starting from 0 and adding
/// one (wrapping) for each state that `should_count` accepts.
pub open spec fn counter_after(count_on: CountOn, states: Seq<PinState>) -> u32
    decreases states.len(),
{
    if states.len() == 0 {
        0
    } else {
        let c = counter_after(count_on, states.drop_last());
        if should_count_spec(states.last(), count_on) {
            ((c + 1) % 0x1_0000_0000) as u32
        } else {
            c
        }
    }
}

/// Law: the pulse counter holds the number of counted transitions, modulo
/// 2^32.
pub proof fn law_counter_counts(count_on: CountOn, states: Seq<PinState>)
    ensures
        counter_after(count_on, states) == counted(count_on, states) % 0x1_0000_0000,
    decreases states.len(),
{
    if states.len() > 0 {
        law_counter_counts(count_on, states.drop_last());
        let a = counted(count_on, states.drop_last()) as int;
        vstd::arithmetic::div_mod::lemma_add_mod_noop(a, 1, 0x1_0000_0000);
    }
}

/// Whether a confirmed transition to `state` is one the counter counts.
pub fn should_count(state: PinState, count_on: CountOn) -> (r: bool)
    ensures
        r == should_count_spec(state, count_on),
        r == (match count_on {
            CountOn::Rising => state == PinState::High,
            CountOn::Falling => state == PinState::Low,
        }),
{
    match count_on {
        CountOn::Rising => state == PinState::High,
        CountOn::Falling => state == PinState::Low,
    }
}

/// How many simulated seconds pass per real second in normal operation.
pub const TIME_SCALE_NORMAL: u64 = 1;

/// How many simulated seconds pass per real second in the test mode
/// (ten real seconds are about one simulated hour).
pub const TIME_SCALE_TEST: u64 = 360;

/// The simulated Unix time: the Unix time at boot plus the real seconds
/// elapsed since, scaled; `None` where that does not fit in 64 bits.
pub fn simulated_unix_at(boot_unix: u64, elapsed_secs: u64, time_scale: u64) -> (r: Option<u64>)
    ensures
        r is Some <==> boot_unix + elapsed_secs * time_scale <= u64::MAX,
        r matches Some(t) ==> t == boot_unix + elapsed_secs * time_scale,
{
    match elapsed_secs.checked_mul(time_scale) {
        Some(scaled) => boot_unix.checked_add(scaled),
        None => {
            proof {
                assert(elapsed_secs * time_scale > u64::MAX);
            }
            None
        },
    }
}

/// The simulated Unix time after `elapsed_secs` real seconds: the Unix
/// time at boot plus the elapsed seconds scaled, `None` past 64 bits.
pub open spec fn simulated_time(boot_unix: u64, elapsed_secs: u64, time_scale: u64) -> Option<u64> {
    if boot_unix + elapsed_secs * time_scale <= u64::MAX {
        Some((boot_unix + elapsed_secs * time_scale) as u64)
    } else {
        None
    }
}

/// The simulated Unix time now, for a clock that read `boot_unix` at
/// `boot_instant`; `None` where the simulated time does not fit in 64 bits.
/// The whole seconds elapsed since `boot_instant` are read from the clock,
/// so the result is the simulated time for some number of them.
pub fn simulated_unix(boot_unix: u64, boot_instant: &std::time::Instant, time_scale: u64) -> (r:
    Option<u64>)
    ensures
        exists|elapsed_secs: u64| r == #[trigger] simulated_time(boot_unix, elapsed_secs, time_scale),
        r matches Some(t) ==> t >= boot_unix,
        time_scale == 0 ==> r == Some(boot_unix),
{
    let elapsed = elapsed_since(boot_instant);
    let secs = duration_secs(&elapsed);
    let r = simulated_unix_at(boot_unix, secs, time_scale);
    assert(r == simulated_time(boot_unix, secs, time_scale));
    if time_scale == 0 {
        assert(secs * time_scale == 0) by (nonlinear_arith)
            requires
                time_scale == 0,
        ;
    }
    r
}

/// What the server's answer to an upload means for the hour being uploaded.
#[derive(Debug, Clone, Copy, PartialEq, Eq, Structural)]
pub enum UploadOutcome {
    /// 201: the reading was stored.
    Created,
    /// 422: the hour is already stored; nothing more to do.
    Duplicate,
    /// 429: the server asks us to slow down; the hour is tried again.
    RateLimited,
    /// Any other status: the hour is given up.
    Rejected(u16),
    /// No answer (connection, DNS, timeout); the hour is tried again.
    Unreachable,
}

/// How long to wait after a rate-limited upload, in milliseconds.
pub const RATE_LIMIT_BACKOFF_MS: u32 = 30_000;

impl UploadOutcome {
    /// The outcome of an upload that got `status` back (`None`: no answer).
    pub fn from_status(status: Option<u16>) -> (r: UploadOutcome)
        ensures
            r == (match status {
                Some(201) => UploadOutcome::Created,
                Some(422) => UploadOutcome::Duplicate,
                Some(429) => UploadOutcome::RateLimited,
                Some(s) => UploadOutcome::Rejected(s),
                None => UploadOutcome::Unreachable,
            }),
    {
        match status {
            Some(201) => UploadOutcome::Created,
            Some(422) => UploadOutcome::Duplicate,
            Some(429) => UploadOutcome::RateLimited,
            Some(s) => UploadOutcome::Rejected(s),
            None => UploadOutcome::Unreachable,
        }
    }

    pub open spec fn spec_finishes_hour(self) -> bool {
        match self {
            UploadOutcome::Created | UploadOutcome::Duplicate | UploadOutcome::Rejected(_) => true,
            UploadOutcome::RateLimited | UploadOutcome::Unreachable => false,
        }
    }

    /// Whether the hour counts as done: it is not uploaded again.
    pub fn finishes_hour(&self) -> (r: bool)
        ensures
            r == self.spec_finishes_hour(),
    {
        match self {
            UploadOutcome::Created | UploadOutcome::Duplicate | UploadOutcome::Rejected(_) => true,
            UploadOutcome::RateLimited | UploadOutcome::Unreachable => false,
        }
    }

    /// How long to pause before the next attempt, in milliseconds.
    pub fn backoff_ms(&self) -> (r: u32)
        ensures
            r == (if *self == UploadOutcome::RateLimited {
                RATE_LIMIT_BACKOFF_MS
            } else {
                0
            }),
    {
        match self {
            UploadOutcome::RateLimited => RATE_LIMIT_BACKOFF_MS,
            _ => 0,
        }
    }
}

/// The upload loop's memory: the last hour it is done with.
pub struct Uplink {
    last_posted_hour: String,
}

impl View for Uplink {
    type V = Seq<char>;

    closed spec fn view(&self) -> Seq<char> {
        self.last_posted_hour@
    }
}

impl Uplink {
    /// No hour done yet.
    pub fn new() -> (r: Uplink)
        ensures
            r@ == Seq::<char>::empty(),
    {
        Uplink { last_posted_hour: String::new() }
    }

    /// Whether `current_hour` still has to be uploaded.
    pub fn is_due(&self, current_hour: &String) -> (r: bool)
        ensures
            r == (current_hour@ != self@),
    {
        *current_hour != self.last_posted_hour
    }

    /// Takes note of the answer to the upload of `current_hour`: the hour is
    /// done unless the upload is to be retried.
    pub fn record(&mut self, current_hour: &String, status: Option<u16>) -> (r: UploadOutcome)
        ensures
            r == UploadOutcome::from_status_spec(status),
            final(self)@ == (if r.spec_finishes_hour() {
                current_hour@
            } else {
                old(self)@
            }),
            current_hour@ != old(self)@ ==> final(self)@ == poll_after(
                old(self)@,
                current_hour@,
                status,
            ),
    {
        let outcome = UploadOutcome::from_status(status);
        if outcome.finishes_hour() {
            self.last_posted_hour = current_hour.clone();
        }
        outcome
    }
}

impl UploadOutcome {
    pub open spec fn from_status_spec(status: Option<u16>) -> UploadOutcome {
        match status {
            Some(201) => UploadOutcome::Created,
            Some(422) => UploadOutcome::Duplicate,
            Some(429) => UploadOutcome::RateLimited,
            Some(s) => UploadOutcome::Rejected(s),
            None => UploadOutcome::Unreachable,
        }
    }
}

/// Law: once the server has answered an upload with anything but 429, the
/// same hour is not uploaded again; after a 429 or no answer it still is.
pub proof fn law_upload_retry(before: Seq<char>, hour: Seq<char>, status: Option<u16>)
    requires
        hour != before,
    ensures
        ({
            let outcome = UploadOutcome::from_status_spec(status);
            let after = if outcome.spec_finishes_hour() {
                hour
            } else {
                before
            };
            &&& (after != hour) <==> (status == Some(429u16) || status is None)
        }),
{
}

/// The last hour done after one poll of the upload loop: the poll uploads
/// its current `hour` when that hour is not done, and the hour is done
/// unless the upload is to be retried (`status` is the server's answer).
pub open spec fn poll_after(last: Seq<char>, hour: Seq<char>, status: Option<u16>) -> Seq<char> {
    if hour != last && UploadOutcome::from_status_spec(status).spec_finishes_hour() {
        hour
    } else {
        last
    }
}

/// The last hour done before poll `i` of a run of polls, each given as its
/// current hour and the answer its upload gets, from `start` done.
pub open spec fn done_before(start: Seq<char>, polls: Seq<(Seq<char>, Option<u16>)>, i: nat) -> Seq<
    char,
>
    decreases i,
{
    if i == 0 {
        start
    } else {
        poll_after(
            done_before(start, polls, (i - 1) as nat),
            polls[i - 1].0,
            polls[i - 1].1,
        )
    }
}

/// Whether poll `i` of the run uploads its hour.
pub open spec fn uploads_at(start: Seq<char>, polls: Seq<(Seq<char>, Option<u16>)>, i: nat) -> bool {
    polls[i as int].0 != done_before(start, polls, i)
}

/// The polls' hours never go back (the hour keys of a clock that does not
/// go back, see `law_hour_key_order`).
pub open spec fn hours_in_order(polls: Seq<(Seq<char>, Option<u16>)>) -> bool {
    forall|k: int, l: int|
        0 <= k < l < polls.len() ==> crate::hour_keys::text_le(
            #[trigger] polls[k].0,
            #[trigger] polls[l].0,
        )
}

/// Law: over a run of polls whose hours never go back, once an upload of
/// an hour gets an answer other than 429, that hour is not uploaded again.
pub proof fn law_hour_uploaded_once(
    start: Seq<char>,
    polls: Seq<(Seq<char>, Option<u16>)>,
    i: nat,
    j: nat,
)
    requires
        i < j < polls.len(),
        hours_in_order(polls),
        uploads_at(start, polls, i),
        polls[i as int].1 is Some,
        polls[i as int].1 != Some(429u16),
        polls[j as int].0 == polls[i as int].0,
    ensures
        !uploads_at(start, polls, j),
{
    lemma_done_stays(start, polls, i, j);
}

/// From the poll after a finished upload of `h` on, up to a later poll of
/// `h`, `h` stays the last hour done.
proof fn lemma_done_stays(start: Seq<char>, polls: Seq<(Seq<char>, Option<u16>)>, i: nat, k: nat)
    requires
        i < k < polls.len(),
        polls[k as int].0 == polls[i as int].0,
        hours_in_order(polls),
        uploads_at(start, polls, i),
        polls[i as int].1 is Some,
        polls[i as int].1 != Some(429u16),
    ensures
        done_before(start, polls, k) == polls[i as int].0,
    decreases k - i,
{
    let h = polls[i as int].0;
    if k > i + 1 {
        let m = (k - 1) as nat;
        assert(crate::hour_keys::text_le(polls[i as int].0, polls[m as int].0));
        assert(crate::hour_keys::text_le(polls[m as int].0, polls[k as int].0));
        crate::hour_keys::lemma_text_le_antisymmetric(polls[m as int].0, h);
        lemma_done_stays(start, polls, i, m);
    }
}

/// Law: after an upload answered 429 or not answered, the next poll
/// uploads the same hour again while it is still the current hour.
pub proof fn law_hour_retried(start: Seq<char>, polls: Seq<(Seq<char>, Option<u16>)>, i: nat)
    requires
        i + 1 < polls.len(),
        uploads_at(start, polls, i),
        polls[i as int].1 == Some(429u16) || polls[i as int].1 is None,
        polls[(i + 1) as int].0 == polls[i as int].0,
    ensures
        uploads_at(start, polls, (i + 1) as nat),
{
    assert(done_before(start, polls, (i + 1) as nat) == done_before(start, polls, i));
}

/// Reads of the DHT22 sensor taken at boot.
pub const SENSOR_READS: u32 = 5;

/// Pause between two reads of the DHT22, in milliseconds (it needs two
/// seconds between reads).
pub const SENSOR_READ_GAP_MS: u32 = 2500;

/// The pause after read `i` (1 to 5) of the sensor: none after the last.
pub fn sensor_pause_ms(i: u32) -> (r: u32)
    requires
        1 <= i <= SENSOR_READS,
    ensures
        r == (if i < SENSOR_READS {
            SENSOR_READ_GAP_MS
        } else {
            0
        }),
{
    if i < SENSOR_READS {
        SENSOR_READ_GAP_MS
    } else {
        0
    }
}

/// The last successful read of a run of reads (`None`: every read failed).
pub open spec fn latest_success<T>(reads: Seq<Option<T>>) -> Option<T>
    decreases reads.len(),
{
    if reads.len() == 0 {
        None
    } else {
        match reads.last() {
            Some(v) => Some(v),
            None => latest_success(reads.drop_last()),
        }
    }
}

/// The last successful read once one more read came back: that read when
/// it succeeded, else the one kept so far.
pub fn keep_latest<T>(latest: Option<T>, read: Option<T>) -> (r: Option<T>)
    ensures
        r == (match read {
            Some(v) => Some(v),
            None => latest,
        }),
{
    match read {
        Some(v) => Some(v),
        None => latest,
    }
}

/// Law: keeping the latest read over a run of reads, starting from none,
/// gives the last read that succeeded: `None` exactly when all failed, and
/// otherwise a read after which every read failed.
pub proof fn law_latest_success<T>(reads: Seq<Option<T>>, read: Option<T>)
    ensures
        latest_success(reads.push(read)) == (match read {
            Some(v) => Some(v),
            None => latest_success(reads),
        }),
        latest_success(reads) is None <==> forall|i: int|
            0 <= i < reads.len() ==> #[trigger] reads[i] is None,
        latest_success(reads) matches Some(v) ==> exists|i: int|
            0 <= i < reads.len() && #[trigger] reads[i] == Some(v) && forall|j: int|
                i < j < reads.len() ==> #[trigger] reads[j] is None,
    decreases reads.len(),
{
    assert(reads.push(read).drop_last() =~= reads);
    if reads.len() > 0 {
        let front = reads.drop_last();
        law_latest_success(front, reads.last());
        let n = reads.len() as int;
        match reads.last() {
            Some(v) => {
                assert(reads[n - 1] == Some(v));
            },
            None => {
                assert forall|i: int| 0 <= i < front.len() implies #[trigger] front[i] == reads[i] by {}
                if latest_success(front) is None {
                    assert forall|i: int| 0 <= i < reads.len() implies #[trigger] reads[i] is None by {
                        if i < n - 1 {
                            assert(front[i] == reads[i]);
                        }
                    }
                } else {
                    let k = choose|k: int| 0 <= k < front.len() && #[trigger] front[k] is Some;
                    assert(reads[k] == front[k]);
                }
                if let Some(v) = latest_success(front) {
                    let i = choose|i: int|
                        0 <= i < front.len() && #[trigger] front[i] == Some(v) && forall|j: int|
                            i < j < front.len() ==> #[trigger] front[j] is None;
                    assert(reads[i] == Some(v));
                    assert forall|j: int| i < j < reads.len() implies #[trigger] reads[j] is None by {
                        if j < n - 1 {
                            assert(front[j] == reads[j]);
                        }
                    }
                }
            },
        }
    }
}

/// Attempts the station makes to join the Wi-Fi network before it gives up.
pub const WIFI_ATTEMPTS: u32 = 5;

/// Pause after a failed attempt to join, in milliseconds.
pub const WIFI_RETRY_PAUSE_MS: u32 = 2000;

/// What the station does after an attempt to join the network.
#[derive(Debug, Clone, Copy, PartialEq, Eq, Structural)]
pub enum JoinAction {
    /// The attempt succeeded: go on and wait for an address.
    Proceed,
    /// The attempt failed: show the retry line and pause for
    /// `WIFI_RETRY_PAUSE_MS`; then try again, or give up after the last.
    Pause { again: bool },
}

/// The action after attempt `attempt` (1 to 5) to join the network.
pub fn join_action(attempt: u32, joined: bool) -> (r: JoinAction)
    requires
        1 <= attempt <= WIFI_ATTEMPTS,
    ensures
        r == (if joined {
            JoinAction::Proceed
        } else {
            JoinAction::Pause { again: attempt < WIFI_ATTEMPTS }
        }),
{
    if joined {
        JoinAction::Proceed
    } else {
        JoinAction::Pause { again: attempt < WIFI_ATTEMPTS }
    }
}

/// The LCD line after failed attempt `attempt`: "Retry {attempt}/5...".
pub open spec fn wifi_retry_text_spec(attempt: nat) -> Seq<char> {
    seq!['R', 'e', 't', 'r', 'y', ' '] + decimal_text(attempt) + seq!['/', '5', '.', '.', '.']
}

/// The LCD line after a failed attempt to join.
pub fn wifi_retry_text(attempt: u32) -> (r: String)
    ensures
        r@ == wifi_retry_text_spec(attempt as nat),
{
    let mut s = String::new();
    push_str(&mut s, "Retry ");
    push_padded(&mut s, attempt as u64, 0);
    push_str(&mut s, "/5...");
    proof {
        reveal_strlit("Retry ");
        reveal_strlit("/5...");
        assert(padded_decimal(attempt as nat, 0) == decimal_text(attempt as nat));
        assert(s@ =~= wifi_retry_text_spec(attempt as nat));
    }
    s
}

/// Width of one line of the 16x2 LCD.
pub const LCD_WIDTH: usize = 16;

/// `text` right-padded with spaces to `width` characters.
pub open spec fn space_pad(text: Seq<char>, width: nat) -> Seq<char> {
    if text.len() >= width {
        text
    } else {
        text + Seq::new((width - text.len()) as nat, |_i: int| ' ')
    }
}

/// The LCD line for `text`: its first 16 bytes (all of it when shorter),
/// padded with spaces to 16 characters, as
/// `format!("{:<16}", &text[..text.len().min(16)])` writes it.
pub open spec fn lcd_line_spec(text: Seq<u8>) -> Seq<char> {
    let k = if text.len() < 16 {
        text.len()
    } else {
        16
    };
    space_pad(decode_utf8(text.subrange(0, k as int)), 16)
}

/// One LCD line; a text longer than 16 bytes must not have a character
/// that straddles byte 16.
pub fn lcd_line(text: &str) -> (r: String)
    requires
        text.spec_bytes().len() <= 16 || is_char_boundary(text.spec_bytes(), 16),
    ensures
        r@ == lcd_line_spec(text.spec_bytes()),
{
    let n = text.as_bytes().len();
    let k = if n < LCD_WIDTH {
        n
    } else {
        LCD_WIDTH
    };
    proof {
        if k == n {
            vstd::utf8::encode_utf8_valid_utf8(text@);
            vstd::utf8::is_char_boundary_start_end_of_seq(text.spec_bytes());
        }
    }
    let (head, _tail) = text.split_at(k);
    let mut line = head.to_owned();
    proof {
        vstd::utf8::encode_utf8_decode_utf8(head@);
        assert(decode_utf8(text.spec_bytes().subrange(0, k as int)) == head@);
    }
    let chars = head.unicode_len();
    let mut i = chars;
    while i < LCD_WIDTH
        invariant
            chars <= i,
            i <= LCD_WIDTH || i == chars,
            chars == head@.len(),
            line@ == head@ + Seq::new((i - chars) as nat, |_j: int| ' '),
        decreases LCD_WIDTH - i,
    {
        push_char(&mut line, ' ');
        assert(head@ + Seq::new((i + 1 - chars) as nat, |_j: int| ' ') =~= (head@ + Seq::new(
            (i - chars) as nat,
            |_j: int| ' ',
        )).push(' '));
        i = i + 1;
    }
    proof {
        if chars >= 16 {
            assert(line@ =~= head@);
        }
    }
    line
}

/// A UTF-8 encoding takes at least one byte per character.
proof fn lemma_chars_within_bytes(chars: Seq<char>)
    ensures
        chars.len() <= encode_utf8(chars).len(),
    decreases chars.len(),
{
    if chars.len() > 0 {
        lemma_chars_within_bytes(chars.drop_first());
        assert(encode_scalar(chars[0] as u32).len() >= 1);
    }
}

/// Law: every LCD line is exactly 16 characters wide, so a new status
/// always overwrites all of the old one.
pub proof fn law_lcd_line_width(text: Seq<char>)
    requires
        encode_utf8(text).len() <= 16 || is_char_boundary(encode_utf8(text), 16),
    ensures
        lcd_line_spec(encode_utf8(text)).len() == 16,
{
    let b = encode_utf8(text);
    let k: int = if b.len() < 16 {
        b.len() as int
    } else {
        16
    };
    encode_utf8_valid_utf8(text);
    is_char_boundary_start_end_of_seq(b);
    assert(is_char_boundary(b, k));
    valid_utf8_split(b, k);
    let head = b.subrange(0, k);
    decode_utf8_encode_utf8(head);
    lemma_chars_within_bytes(decode_utf8(head));
    assert(decode_utf8(head).len() <= 16);
}

/// The two status lines of the LCD: a short label and a value.
pub fn status_lines(label: &str, value: &str) -> (r: (String, String))
    requires
        label.spec_bytes().len() <= 16 || is_char_boundary(label.spec_bytes(), 16),
        value.spec_bytes().len() <= 16 || is_char_boundary(value.spec_bytes(), 16),
    ensures
        r.0@ == lcd_line_spec(label.spec_bytes()),
        r.1@ == lcd_line_spec(value.spec_bytes()),
{
    (lcd_line(label), lcd_line(value))
}

} // verus!
