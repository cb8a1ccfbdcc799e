//! The decisions of the live view: which session runs, what each timer
//! tick shows, and what an interrupt does. The caller waits for the events
//! and carries out the actions.

use crate::report::{hms_text, push_duration};
use crate::session::{last_open, Session};
use crate::stamp::{push_str, unix_seconds, Stamp};
use vstd::prelude::*;

verus! {

/// Where the live view stands.
#[derive(Clone, Copy, Debug, PartialEq, Eq, Structural)]
pub enum LiveState {
    /// Showing the time elapsed since `start`.
    Running { start: Stamp },
    /// The session was stopped; nothing more happens.
    Stopped,
}

/// What the live view waits for.
#[derive(Clone, Copy, Debug, PartialEq, Eq, Structural)]
pub enum LiveEvent {
    /// The one-second timer fired at `now`.
    Tick { now: Stamp },
    /// The user interrupted the view.
    Interrupt,
}

/// What the caller is to do after an event.
#[derive(Clone, Debug, PartialEq, Eq)]
pub enum LiveAction {
    /// Replace the previous output line with `line`.
    Show { line: String },
    /// Stop the running session and end the view.
    Stop,
    /// Nothing.
    Idle,
}

/// `Duration: HH:MM:SS`.
pub open spec fn live_line(d: int) -> Seq<char> {
    seq!['D', 'u', 'r', 'a', 't', 'i', 'o', 'n', ':', ' '] + hms_text(d)
}

/// The session that the live view shows: the open last session, which is
/// kept as it is (`true`), or else a session opened at `now` with an empty
/// objective (`false`).
pub fn live_entry(data: &mut Vec<Session>, now: Stamp) -> (r: (Stamp, bool))
    ensures
        last_open(old(data)@) ==> r == (old(data)@.last().start, true) && final(data)@ == old(
            data,
        )@,
        !last_open(old(data)@) ==> r == (now, false) && final(data)@.len() == old(data)@.len() + 1
            && final(data)@.drop_last() == old(data)@ && final(data)@.last().start == now
            && final(data)@.last().end is None && final(data)@.last().objective@.len() == 0,
{
    let n = data.len();
    if n > 0 && data[n - 1].end.is_none() {
        return (data[n - 1].start, true);
    }
    proof {
        reveal_strlit("");
    }
    data.push(Session::start(String::from_str(""), now));
    assert(final(data)@.drop_last() =~= old(data)@);
    (now, false)
}

/// The next state and the action for an event.
pub fn live_step(state: LiveState, event: LiveEvent) -> (r: (LiveState, LiveAction))
    requires
        state matches LiveState::Running { start } ==> start.wf(),
        event matches LiveEvent::Tick { now } ==> now.wf(),
    ensures
        match (state, event) {
            (LiveState::Running { start }, LiveEvent::Tick { now }) => r.0 == state && (r.1 matches LiveAction::Show { line }
                && line@ == live_line(now.unix() - start.unix())),
            (LiveState::Running { .. }, LiveEvent::Interrupt) => r.0 == LiveState::Stopped
                && r.1 == LiveAction::Stop,
            (LiveState::Stopped, _) => r.0 == LiveState::Stopped && r.1 == LiveAction::Idle,
        },
{
    match (state, event) {
        (LiveState::Running { start }, LiveEvent::Tick { now }) => {
            let d = unix_seconds(&now) as i128 - unix_seconds(&start) as i128;
            proof {
                reveal_strlit("Duration: ");
            }
            let mut line = String::from_str("Duration: ");
            push_duration(&mut line, d, true);
            assert(line@ =~= live_line(now.unix() - start.unix()));
            (state, LiveAction::Show { line })
        },
        (LiveState::Running { .. }, LiveEvent::Interrupt) => (LiveState::Stopped, LiveAction::Stop),
        (LiveState::Stopped, _) => (LiveState::Stopped, LiveAction::Idle),
    }
}

} // verus!
