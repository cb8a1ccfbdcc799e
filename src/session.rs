//! Work sessions and the rules for starting and stopping them.

use crate::stamp::{now_local, Stamp};
use vstd::prelude::*;

verus! {

/// One tracked interval of work. `end` is `None` while the session is open.
#[derive(Clone, Debug, PartialEq, Eq)]
pub struct Session {
    pub start: Stamp,
    pub end: Option<Stamp>,
    pub objective: String,
}

/// What a session holds, with the objective as its characters.
pub struct SessionView {
    pub start: Stamp,
    pub end: Option<Stamp>,
    pub objective: Seq<char>,
}

impl View for Session {
    type V = SessionView;

    open spec fn view(&self) -> SessionView {
        SessionView { start: self.start, end: self.end, objective: self.objective@ }
    }
}

/// The sessions' contents, in store order.
pub open spec fn sessions_view(v: Seq<Session>) -> Seq<SessionView> {
    v.map_values(|s: Session| s@)
}

/// Whether the last session of a sequence is open.
pub open spec fn last_open(v: Seq<Session>) -> bool {
    v.len() > 0 && v.last().end is None
}

/// Every stamp is valid, and only the last session may be open.
pub open spec fn valid_sessions(v: Seq<Session>) -> bool {
    &&& forall|i: int| 0 <= i < v.len() ==> (#[trigger] v[i]).start.wf()
    &&& forall|i: int| 0 <= i < v.len() ==> ((#[trigger] v[i]).end matches Some(e) ==> e.wf())
    &&& forall|i: int| 0 <= i < v.len() - 1 ==> (#[trigger] v[i]).end is Some
}

/// Why an operation on the store failed.
#[derive(Clone, Copy, Debug, PartialEq, Eq, Structural)]
pub enum TrackError {
    /// The store file could not be read or written.
    FileIO,
    /// Starting while a session is open, or stopping while none is.
    InvalidTransition,
    /// The system clock gave a time that a stamp cannot hold.
    Clock,
}

impl TrackError {
    /// A message for the user.
    pub fn message(&self) -> (r: String)
        ensures
            r@ == match self {
                TrackError::FileIO => "Could not read or write the storage file"@,
                TrackError::InvalidTransition =>
                    "Invalid transition: a session is already open, or there is no open session to stop"@,
                TrackError::Clock => "The system clock gave an unsupported time"@,
            },
    {
        match self {
            TrackError::FileIO => String::from_str("Could not read or write the storage file"),
            TrackError::InvalidTransition => String::from_str(
                "Invalid transition: a session is already open, or there is no open session to stop",
            ),
            TrackError::Clock => String::from_str("The system clock gave an unsupported time"),
        }
    }
}

/// Settings threaded through each call.
#[derive(Clone, Copy, Debug, PartialEq, Eq, Structural)]
pub struct Config {
    /// Print the parsed arguments and the raw records.
    pub debug: bool,
}

/// Whether debugging output is asked for.
pub fn debug(config: &Config) -> (r: bool)
    ensures
        r == config.debug,
{
    config.debug
}

impl Session {
    /// A session opened at `now` with the given objective.
    pub fn start(objective: String, now: Stamp) -> (r: Session)
        ensures
            r == (Session { start: now, end: None, objective }),
    {
        Session { start: now, end: None, objective }
    }

    /// A copy with the same contents.
    pub fn copy(&self) -> (r: Session)
        ensures
            r == *self,
    {
        Session { start: self.start, end: self.end, objective: self.objective.clone() }
    }
}

/// Appends a session opened at `now`, unless the last session is still open.
pub fn begin(data: &mut Vec<Session>, objective: String, now: Stamp) -> (r: Result<(), TrackError>)
    ensures
        last_open(old(data)@) ==> r == Err::<(), TrackError>(TrackError::InvalidTransition)
            && final(data)@ == old(data)@,
        !last_open(old(data)@) ==> r is Ok && final(data)@ == old(data)@.push(
            Session { start: now, end: None, objective },
        ),
        valid_sessions(old(data)@) && now.wf() ==> valid_sessions(final(data)@),
{
    let n = data.len();
    if n > 0 && data[n - 1].end.is_none() {
        return Err(TrackError::InvalidTransition);
    }
    data.push(Session::start(objective, now));
    Ok(())
}

/// Closes the last session at `now` and sets its objective, where that
/// session is open.
pub fn end_current(data: &mut Vec<Session>, objective: String, now: Stamp) -> (r: Result<
    (),
    TrackError,
>)
    ensures
        !last_open(old(data)@) ==> r == Err::<(), TrackError>(TrackError::InvalidTransition)
            && final(data)@ == old(data)@,
        last_open(old(data)@) ==> r is Ok && final(data)@ == old(data)@.update(
            old(data)@.len() - 1,
            Session { start: old(data)@.last().start, end: Some(now), objective },
        ),
        valid_sessions(old(data)@) && now.wf() ==> valid_sessions(final(data)@),
{
    let n = data.len();
    if n == 0 || data[n - 1].end.is_some() {
        return Err(TrackError::InvalidTransition);
    }
    let last = data.pop().unwrap();
    data.push(Session { start: last.start, end: Some(now), objective });
    assert(final(data)@ =~= old(data)@.update(
        old(data)@.len() - 1,
        Session { start: old(data)@.last().start, end: Some(now), objective },
    ));
    Ok(())
}

/// Starts a session now; see `begin`.
pub fn start(data: &mut Vec<Session>, objective: String) -> (r: Result<(), TrackError>)
    ensures
        last_open(old(data)@) ==> r == Err::<(), TrackError>(TrackError::InvalidTransition),
        r is Err ==> final(data)@ == old(data)@,
        r is Ok ==> !last_open(old(data)@) && exists|now: Stamp|
            now.wf() && final(data)@ == old(data)@.push(
                Session { start: now, end: None, objective },
            ),
        !last_open(old(data)@) ==> r != Err::<(), TrackError>(TrackError::InvalidTransition),
{
    if last_open_exec(data) {
        return Err(TrackError::InvalidTransition);
    }
    match now_local() {
        Some(now) => begin(data, objective, now),
        None => Err(TrackError::Clock),
    }
}

/// Stops the open session now; see `end_current`.
pub fn stop(data: &mut Vec<Session>, objective: String) -> (r: Result<(), TrackError>)
    ensures
        !last_open(old(data)@) ==> r == Err::<(), TrackError>(TrackError::InvalidTransition),
        r is Err ==> final(data)@ == old(data)@,
        r is Ok ==> last_open(old(data)@) && exists|now: Stamp|
            now.wf() && final(data)@ == old(data)@.update(
                old(data)@.len() - 1,
                Session { start: old(data)@.last().start, end: Some(now), objective },
            ),
        last_open(old(data)@) ==> r != Err::<(), TrackError>(TrackError::InvalidTransition),
{
    if !last_open_exec(data) {
        return Err(TrackError::InvalidTransition);
    }
    match now_local() {
        Some(now) => end_current(data, objective, now),
        None => Err(TrackError::Clock),
    }
}

/// Whether the last session is open.
pub fn last_open_exec(data: &Vec<Session>) -> (r: bool)
    ensures
        r == last_open(data@),
{
    let n = data.len();
    n > 0 && data[n - 1].end.is_none()
}

} // verus!
