use vstd::prelude::*;

verus! {

// The discipline of a cancellable stream: a blocking wait with a
// deadline, an external done flag that another thread may set, and one
// transport call per readiness event.

/// What the return of one poll wait means for the caller.
#[derive(Debug, PartialEq, Eq, Structural, Clone, Copy)]
pub enum WaitOutcome {
    /// The stream was shut down from another thread while the caller
    /// waited.
    NotConnected,
    /// The wait ran out without the transport becoming ready.
    TimedOut,
    /// The transport is ready; one call may be made.
    Ready,
}

/// Classifies one poll wait: zero events with the done flag set mean the
/// stream was cancelled, zero events without it mean the deadline ran
/// out, and any event means the transport may be used.
pub fn classify_wait(done: bool, n_events: usize) -> (r: WaitOutcome)
    ensures
        n_events == 0 && done ==> r is NotConnected,
        n_events == 0 && !done ==> r is TimedOut,
        n_events > 0 ==> r is Ready,
{
    if n_events == 0 {
        if done {
            WaitOutcome::NotConnected
        } else {
            WaitOutcome::TimedOut
        }
    } else {
        WaitOutcome::Ready
    }
}

/// What a finished read pass over the readiness events means.
#[derive(Debug, PartialEq, Eq, Structural, Clone, Copy)]
pub enum ReadOutcome {
    /// Nothing came and the stream was shut down: the connection is gone.
    Closed,
    /// Nothing came though the transport looked ready: a spurious
    /// wakeup; the caller may retry the whole operation.
    Interrupted,
    /// So many octets were transferred.
    Transferred(usize),
}

/// Classifies the end of one read pass: no octet with the done flag set
/// means the connection is gone, no octet without it is a spurious
/// wakeup to be retried, and otherwise the transferred count stands.
pub fn classify_read(done: bool, bytes_read: usize) -> (r: ReadOutcome)
    ensures
        bytes_read == 0 && done ==> r is Closed,
        bytes_read == 0 && !done ==> r is Interrupted,
        bytes_read > 0 ==> (r matches ReadOutcome::Transferred(n) && n == bytes_read),
{
    if bytes_read == 0 {
        if done {
            ReadOutcome::Closed
        } else {
            ReadOutcome::Interrupted
        }
    } else {
        ReadOutcome::Transferred(bytes_read)
    }
}

} // verus!
