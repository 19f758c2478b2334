//! The clipboard monitor's per-tick state machine.
//!
//! A poller reads the clipboard device's change counter on a fixed interval
//! and hands each observation to [`poll_step`]. Two copies of identical text
//! observed less than a second apart are a double-copy gesture: the step
//! looks the text up in the mapping set and reports the outcome, exactly
//! once per gesture. Device failures (no text available) reset the machine
//! and are never errors.
use vstd::prelude::*;

use crate::store::Mapping;
use crate::store::MappingSet;

verus! {

use crate::store::EntryModel;
use crate::store::find_target;
use crate::store::lookup;
use crate::text::spec_trim;

/// How close together two observations of the same text must be, in
/// milliseconds, to count as a double copy.
pub const DOUBLE_COPY_WINDOW_MS: u64 = 1000;

/// The monitor's state between ticks. `consecutive_copies` is 0 when idle
/// and 1 when one copy is armed as a baseline; reaching 2 triggers and
/// resets within the same step.
#[derive(Debug, PartialEq)]
pub struct ClipboardState {
    pub last_change_count: i64,
    pub last_content: String,
    pub last_copy_time: u64,
    pub consecutive_copies: u32,
}

/// Mathematical model of a [`ClipboardState`].
pub ghost struct StateModel {
    pub last_change_count: int,
    pub last_content: Seq<char>,
    pub last_copy_time: int,
    pub consecutive_copies: int,
}

impl View for ClipboardState {
    type V = StateModel;

    open spec fn view(&self) -> StateModel {
        StateModel {
            last_change_count: self.last_change_count as int,
            last_content: self.last_content@,
            last_copy_time: self.last_copy_time as int,
            consecutive_copies: self.consecutive_copies as int,
        }
    }
}

/// Between ticks the machine is idle or holds one armed copy, never more.
pub open spec fn state_wf(s: StateModel) -> bool {
    0 <= s.consecutive_copies <= 1
}

impl ClipboardState {
    /// Between ticks the machine is idle or holds one armed copy, never
    /// more.
    pub open spec fn wf(&self) -> bool {
        state_wf(self@)
    }

    /// The monitor's starting state: zero counter, empty content, idle.
    pub fn new() -> (r: ClipboardState)
        ensures
            r@ == (StateModel {
                last_change_count: 0,
                last_content: Seq::<char>::empty(),
                last_copy_time: 0,
                consecutive_copies: 0,
            }),
            r.wf(),
    {
        let r = ClipboardState {
            last_change_count: 0,
            last_content: String::new(),
            last_copy_time: 0,
            consecutive_copies: 0,
        };
        r
    }
}

/// What one tick did, without the lookup's outcome.
pub ghost enum StepEvent {
    /// The change counter was unchanged: nothing happened.
    Unchanged,
    /// The clipboard held no text: hard reset.
    Cleared,
    /// A copy was observed and armed (or kept) as the baseline.
    Armed,
    /// A double copy of `query` was detected.
    Triggered { query: Seq<char> },
}

/// One tick of the monitor: how the state changes and what event it emits,
/// given the device's change counter, the text read (none when the clipboard
/// holds no text), and the current time in milliseconds.
pub open spec fn spec_step(s: StateModel, count: int, text: Option<Seq<char>>, now: int) -> (
    StateModel,
    StepEvent,
) {
    if count == s.last_change_count {
        (s, StepEvent::Unchanged)
    } else {
        match text {
            None => (
                StateModel {
                    last_change_count: count,
                    last_content: Seq::empty(),
                    last_copy_time: s.last_copy_time,
                    consecutive_copies: 0,
                },
                StepEvent::Cleared,
            ),
            Some(t) => {
                if t == s.last_content && now - s.last_copy_time < DOUBLE_COPY_WINDOW_MS as int {
                    if s.consecutive_copies + 1 == 2 {
                        (
                            StateModel {
                                last_change_count: count,
                                last_content: t,
                                last_copy_time: now,
                                consecutive_copies: 0,
                            },
                            StepEvent::Triggered { query: t },
                        )
                    } else {
                        (
                            StateModel {
                                last_change_count: count,
                                last_content: t,
                                last_copy_time: now,
                                consecutive_copies: s.consecutive_copies + 1,
                            },
                            StepEvent::Armed,
                        )
                    }
                } else {
                    (
                        StateModel {
                            last_change_count: count,
                            last_content: t,
                            last_copy_time: now,
                            consecutive_copies: 1,
                        },
                        StepEvent::Armed,
                    )
                }
            },
        }
    }
}

/// What a tick reports to the presentation sink.
#[derive(Debug, PartialEq)]
pub enum PollEvent {
    /// The change counter was unchanged: nothing happened.
    Unchanged,
    /// The clipboard held no text: the machine reset itself.
    Cleared,
    /// A copy was observed and armed as the baseline for a double copy.
    Armed,
    /// A double copy was detected and the copied text has a mapping.
    MappingFound { query: String, mapping: Mapping },
    /// A double copy was detected and the copied text has no mapping.
    MappingNotFound { query: String },
}

/// Whether the reported event `r` is the one the step model calls for,
/// with a trigger resolved against `entries` by exact lookup.
pub open spec fn event_matches(r: PollEvent, ev: StepEvent, entries: Seq<EntryModel>) -> bool {
    match ev {
        StepEvent::Unchanged => r is Unchanged,
        StepEvent::Cleared => r is Cleared,
        StepEvent::Armed => r is Armed,
        StepEvent::Triggered { query } => match lookup(entries, spec_trim(query)) {
            Some(m) => r matches PollEvent::MappingFound { query: q, mapping } && q@ == query
                && mapping@ == m,
            None => r matches PollEvent::MappingNotFound { query: q } && q@ == query,
        },
    }
}

/// One tick of the monitor. The state moves exactly as [`spec_step`] says;
/// on a double copy the copied text is looked up in `set` and the outcome
/// reported, and the machine is reset so a third rapid copy does not
/// re-trigger by itself.
pub fn poll_step(
    state: &mut ClipboardState,
    set: &MappingSet,
    change_count: i64,
    text: Option<String>,
    now_ms: u64,
) -> (r: PollEvent)
    requires
        old(state).wf(),
        now_ms >= old(state)@.last_copy_time,
    ensures
        final(state)@ == spec_step(
            old(state)@,
            change_count as int,
            text.deep_view(),
            now_ms as int,
        ).0,
        event_matches(
            r,
            spec_step(old(state)@, change_count as int, text.deep_view(), now_ms as int).1,
            set@,
        ),
        final(state).wf(),
{
    if change_count == state.last_change_count {
        return PollEvent::Unchanged;
    }
    state.last_change_count = change_count;
    match text {
        None => {
            state.consecutive_copies = 0;
            state.last_content = String::new();
            PollEvent::Cleared
        },
        Some(current_text) => {
            let elapsed = now_ms - state.last_copy_time;
            let event: PollEvent;
            if current_text == state.last_content && elapsed < DOUBLE_COPY_WINDOW_MS {
                state.consecutive_copies = state.consecutive_copies + 1;
                if state.consecutive_copies == 2 {
                    // The double-copy gesture: resolve the copied text.
                    event = match find_target(set, current_text.as_str()) {
                        Some(m) => PollEvent::MappingFound {
                            query: current_text.clone(),
                            mapping: Mapping {
                                source_name: m.source_name.clone(),
                                target_name: m.target_name.clone(),
                                value: m.value.clone(),
                            },
                        },
                        None => PollEvent::MappingNotFound { query: current_text.clone() },
                    };
                    state.consecutive_copies = 0;
                } else {
                    event = PollEvent::Armed;
                }
            } else {
                state.consecutive_copies = 1;
                event = PollEvent::Armed;
            }
            state.last_content = current_text;
            state.last_copy_time = now_ms;
            event
        },
    }
}

/// Debounce law: from an idle state, two polls that each observe a fresh
/// copy of the same text `t` trigger on the second exactly when the gap
/// between them is under the double-copy window, and never on the first.
pub proof fn lemma_debounce(s0: StateModel, t: Seq<char>, c1: int, c2: int, n1: int, n2: int)
    requires
        s0.consecutive_copies == 0,
        c1 != s0.last_change_count,
        c2 != c1,
        s0.last_copy_time <= n1 <= n2,
    ensures
        ({
            let (s1, e1) = spec_step(s0, c1, Some(t), n1);
            let (s2, e2) = spec_step(s1, c2, Some(t), n2);
            &&& !(e1 is Triggered)
            &&& (e2 is Triggered <==> n2 - n1 < DOUBLE_COPY_WINDOW_MS as int)
            &&& (e2 is Triggered ==> e2 == (StepEvent::Triggered { query: t }))
        }),
{
}

/// Different text never triggers: a copy of text other than the baseline
/// arms that text as the new baseline, whatever the interval.
pub proof fn lemma_different_text_resets(s: StateModel, t: Seq<char>, c: int, n: int)
    requires
        t != s.last_content,
        c != s.last_change_count,
    ensures
        ({
            let (s1, e1) = spec_step(s, c, Some(t), n);
            &&& e1 is Armed
            &&& s1.consecutive_copies == 1
            &&& s1.last_content == t
            &&& s1.last_copy_time == n
        }),
{
}

/// Triple-copy law: three rapid identical copies trigger exactly once, on
/// the second; the third alone only re-arms, and a fourth rapid copy
/// triggers again.
pub proof fn lemma_triple_copy(
    s0: StateModel,
    t: Seq<char>,
    c1: int,
    c2: int,
    c3: int,
    c4: int,
    n1: int,
    n2: int,
    n3: int,
    n4: int,
)
    requires
        s0.consecutive_copies == 0,
        c1 != s0.last_change_count,
        c2 != c1,
        c3 != c2,
        c4 != c3,
        s0.last_copy_time <= n1 <= n2 <= n3 <= n4,
        n2 - n1 < DOUBLE_COPY_WINDOW_MS as int,
        n3 - n2 < DOUBLE_COPY_WINDOW_MS as int,
        n4 - n3 < DOUBLE_COPY_WINDOW_MS as int,
    ensures
        ({
            let (s1, e1) = spec_step(s0, c1, Some(t), n1);
            let (s2, e2) = spec_step(s1, c2, Some(t), n2);
            let (s3, e3) = spec_step(s2, c3, Some(t), n3);
            let (s4, e4) = spec_step(s3, c4, Some(t), n4);
            &&& e1 is Armed
            &&& e2 == (StepEvent::Triggered { query: t })
            &&& e3 is Armed
            &&& e4 == (StepEvent::Triggered { query: t })
        }),
{
}

} // verus!
