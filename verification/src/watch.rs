//! The decisions of the watch loop. The loop itself lives with the caller,
//! who watches the template and data directories, debounces bursts of
//! filesystem events into settled batches, and performs the actions decided
//! here.

use vstd::prelude::*;

verus! {

/// What the watcher hands the loop: one settled batch of change events —
/// however many raw events the debounce window coalesced — or a fatal
/// watcher failure.
#[derive(Debug, PartialEq, Eq)]
pub enum WatchEvent {
    Settled,
    Fatal(String),
}

/// What the loop does next: run one whole build pass and re-arm the watch,
/// or stop watching.
#[derive(Debug, PartialEq, Eq)]
pub enum WatchAction {
    Rebuild,
    Stop,
}

/// One decision of the watch loop: a settled batch — of however many raw
/// events — triggers exactly one rebuild; only a fatal watcher failure stops
/// the loop.
pub fn watch_step(ev: &WatchEvent) -> (a: WatchAction)
    ensures
        a is Rebuild <==> ev is Settled,
        a is Stop <==> ev is Fatal,
{
    match ev {
        WatchEvent::Settled => WatchAction::Rebuild,
        WatchEvent::Fatal(_) => WatchAction::Stop,
    }
}

/// Whether the watch loop keeps running after a build pass: it always does.
/// A failed pass is reported and the next filesystem change is its retry
/// trigger; only a watcher failure, decided by `watch_step`, ends the loop.
pub fn watch_continues(build_succeeded: bool) -> (keep: bool)
    ensures
        keep,
{
    let _ = build_succeeded;
    true
}

} // verus!
