//! The local activity monitor's decisions.
//!
//! The monitor watches the host's authentication log through a filesystem
//! watch; failing to set that watch up is fatal at startup. Once running it
//! cycles `Idle -> Watching -> Idle`: each qualifying event fires the
//! handler exactly once, synchronously, with no debouncing — a burst of
//! events is a burst of invocations. A transient read error on the watch
//! channel is swallowed and the loop retries after a fixed short delay. No
//! log content is ever read: mere access to the log is the (deliberately
//! coarse) signal. The watch loop itself runs outside the library and asks
//! these functions what to do with each outcome.

use vstd::prelude::*;

verus! {

/// A filesystem event kind reported for the watched log.
#[derive(Clone, Copy, PartialEq, Eq, Structural, Debug)]
pub enum FsEvent {
    /// The log's content was read.
    ContentAccess,
    /// The log was opened.
    Open,
    /// The log's attributes changed.
    AttributeChange,
    /// Anything else the watch may report.
    Other,
}

/// The qualifying set: content access, open, and attribute change.
pub open spec fn qualifies_spec(e: FsEvent) -> bool {
    e == FsEvent::ContentAccess || e == FsEvent::Open || e == FsEvent::AttributeChange
}

/// Whether an event fires the handler.
pub fn event_qualifies(e: FsEvent) -> (r: bool)
    ensures
        r == qualifies_spec(e),
{
    match e {
        FsEvent::ContentAccess => true,
        FsEvent::Open => true,
        FsEvent::AttributeChange => true,
        FsEvent::Other => false,
    }
}

/// The outcome of one blocking read on the watch channel.
#[derive(Clone, Copy, PartialEq, Eq, Structural, Debug)]
pub enum WatchOutcome {
    /// A batch of events arrived.
    Events,
    /// The read failed.
    ReadError,
}

/// What the monitor loop does next.
#[derive(Clone, Copy, PartialEq, Eq, Structural, Debug)]
pub enum MonitorAction {
    /// Fire the handler, then keep watching.
    InvokeHandler,
    /// Swallow the error and retry after the fixed short delay; never
    /// fatal once the watch is set up.
    RetryAfterDelay,
}

/// The monitor's one decision: events fire the handler, a read error is
/// retried.
pub fn monitor_step(outcome: WatchOutcome) -> (a: MonitorAction)
    ensures
        a == MonitorAction::InvokeHandler <==> outcome == WatchOutcome::Events,
        a == MonitorAction::RetryAfterDelay <==> outcome == WatchOutcome::ReadError,
{
    match outcome {
        WatchOutcome::Events => MonitorAction::InvokeHandler,
        WatchOutcome::ReadError => MonitorAction::RetryAfterDelay,
    }
}

} // verus!
