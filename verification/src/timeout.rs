use vstd::prelude::*;

verus! {

/// The clock of one ongoing logical operation: the budget it was given,
/// and the seconds already spent on it across earlier calls.
#[derive(Debug, Clone, Copy)]
pub struct Operation {
    timeout_secs: u64,
    elapsed_secs: u64,
    running: bool,
}

impl Operation {
    /// The budget in seconds.
    pub closed spec fn spec_timeout(&self) -> u64 {
        self.timeout_secs
    }

    /// The seconds already spent.
    pub closed spec fn spec_elapsed(&self) -> u64 {
        self.elapsed_secs
    }

    /// Whether the clock is running.
    pub closed spec fn spec_running(&self) -> bool {
        self.running
    }

    /// The seconds that remain of a budget after some have been spent.
    pub open spec fn spec_remaining(timeout_secs: u64, elapsed_secs: u64) -> u64 {
        if elapsed_secs >= timeout_secs {
            0
        } else {
            (timeout_secs - elapsed_secs) as u64
        }
    }

    /// A fresh operation with a full budget.
    pub fn from_timeout(timeout_secs: u64) -> (r: Operation)
        ensures
            r.spec_timeout() == timeout_secs,
            r.spec_elapsed() == 0,
            !r.spec_running(),
    {
        Operation { timeout_secs, elapsed_secs: 0, running: false }
    }

    /// How many seconds remain of the budget; zero once it is spent.
    pub fn next_timeout(&self) -> (r: u64)
        ensures
            r == Self::spec_remaining(self.spec_timeout(), self.spec_elapsed()),
    {
        if self.elapsed_secs >= self.timeout_secs {
            0
        } else {
            self.timeout_secs - self.elapsed_secs
        }
    }

    /// Starts the clock before one call into the transport.
    pub fn start(&mut self)
        ensures
            final(self).spec_timeout() == old(self).spec_timeout(),
            final(self).spec_elapsed() == old(self).spec_elapsed(),
            final(self).spec_running(),
    {
        self.running = true;
    }

    /// Stops the clock after the call, charging the measured seconds to
    /// the budget; a clock that was not running charges nothing.
    pub fn stop(&mut self, measured_secs: u64)
        ensures
            final(self).spec_timeout() == old(self).spec_timeout(),
            !final(self).spec_running(),
            old(self).spec_running() ==> final(self).spec_elapsed() == if old(self).spec_elapsed()
                + measured_secs <= u64::MAX {
                (old(self).spec_elapsed() + measured_secs) as u64
            } else {
                u64::MAX
            },
            !old(self).spec_running() ==> final(self).spec_elapsed() == old(self).spec_elapsed(),
            final(self).spec_elapsed() >= old(self).spec_elapsed(),
    {
        if self.running {
            self.elapsed_secs = if self.elapsed_secs <= u64::MAX - measured_secs {
                self.elapsed_secs + measured_secs
            } else {
                u64::MAX
            };
        }
        self.running = false;
    }
}

/// A budget once spent stays spent: no later charge brings seconds back.
pub proof fn lemma_deadline_terminal(before: Operation, after: Operation)
    requires
        after.spec_timeout() == before.spec_timeout(),
        after.spec_elapsed() >= before.spec_elapsed(),
        Operation::spec_remaining(before.spec_timeout(), before.spec_elapsed()) == 0,
    ensures
        Operation::spec_remaining(after.spec_timeout(), after.spec_elapsed()) == 0,
{
}

/// What a read or write should do next: go straight to the transport,
/// fail at once because the message's budget is spent, or wait at most
/// the remaining seconds.
#[derive(Debug, PartialEq, Eq, Structural, Clone, Copy)]
pub enum IoPlan {
    /// No deadline is set; use the transport directly.
    PassThrough,
    /// The budget for this message is spent; fail without touching the
    /// transport.
    TimedOut,
    /// Wait at most this many seconds in the transport.
    WaitFor(u64),
}

/// The deadline bookkeeping of one stream: an optional read budget and an
/// optional write budget, each applying to a whole logical message across
/// any number of calls.
#[derive(Debug)]
pub struct TimeoutStream {
    read: Option<u64>,
    write: Option<u64>,
    ongoing_read: Option<Operation>,
    ongoing_write: Option<Operation>,
}

impl TimeoutStream {
    /// The read budget in seconds, if one is set.
    pub closed spec fn spec_read(&self) -> Option<u64> {
        self.read
    }

    /// The write budget in seconds, if one is set.
    pub closed spec fn spec_write(&self) -> Option<u64> {
        self.write
    }

    /// The clock of the ongoing read, if one has started.
    pub closed spec fn spec_ongoing_read(&self) -> Option<Operation> {
        self.ongoing_read
    }

    /// The clock of the ongoing write, if one has started.
    pub closed spec fn spec_ongoing_write(&self) -> Option<Operation> {
        self.ongoing_write
    }

    /// Wraps the given budgets; no operation is ongoing.
    pub fn from(read_timeout: Option<u64>, write_timeout: Option<u64>) -> (r: TimeoutStream)
        ensures
            r.spec_read() == read_timeout,
            r.spec_write() == write_timeout,
            r.spec_ongoing_read() is None,
            r.spec_ongoing_write() is None,
    {
        TimeoutStream {
            read: read_timeout,
            write: write_timeout,
            ongoing_read: None,
            ongoing_write: None,
        }
    }

    /// Decides one read call: with no budget the transport is used as it
    /// stands; with the message budget spent the call fails at once; else
    /// the call may wait the remaining seconds, and the clock runs.
    pub fn begin_read(&mut self) -> (p: IoPlan)
        ensures
            final(self).spec_read() == old(self).spec_read(),
            final(self).spec_write() == old(self).spec_write(),
            final(self).spec_ongoing_write() == old(self).spec_ongoing_write(),
            match old(self).spec_read() {
                None => p == IoPlan::PassThrough && final(self).spec_ongoing_read() == old(self).spec_ongoing_read(),
                Some(t) => {
                    let bt = match old(self).spec_ongoing_read() {
                        Some(o) => o.spec_timeout(),
                        None => t,
                    };
                    let be = match old(self).spec_ongoing_read() {
                        Some(o) => o.spec_elapsed(),
                        None => 0u64,
                    };
                    let remaining = Operation::spec_remaining(bt, be);
                    if remaining == 0 {
                        p == IoPlan::TimedOut && (final(self).spec_ongoing_read() matches Some(o2)
                            && o2.spec_timeout() == bt && o2.spec_elapsed() == be)
                    } else {
                        p == IoPlan::WaitFor(remaining) && (final(self).spec_ongoing_read() matches Some(o2) && o2.spec_timeout() == bt
                            && o2.spec_elapsed() == be && o2.spec_running())
                    }
                },
            },
    {
        let t = match self.read {
            None => {
                return IoPlan::PassThrough;
            },
            Some(t) => t,
        };
        if self.ongoing_read.is_none() {
            self.ongoing_read = Some(Operation::from_timeout(t));
        }
        let remaining = match &self.ongoing_read {
            Some(o) => o.next_timeout(),
            None => 0,
        };
        if remaining == 0 {
            return IoPlan::TimedOut;
        }
        match &mut self.ongoing_read {
            Some(o) => o.start(),
            None => (),
        }
        IoPlan::WaitFor(remaining)
    }

    /// Charges the measured seconds of the last read call to the message
    /// budget.
    pub fn end_read(&mut self, measured_secs: u64)
        ensures
            final(self).spec_read() == old(self).spec_read(),
            final(self).spec_write() == old(self).spec_write(),
            final(self).spec_ongoing_write() == old(self).spec_ongoing_write(),
            match old(self).spec_ongoing_read() {
                None => final(self).spec_ongoing_read() is None,
                Some(o) => final(self).spec_ongoing_read() matches Some(o2) && o2.spec_timeout()
                    == o.spec_timeout() && !o2.spec_running() && o2.spec_elapsed() == (
                if o.spec_running() {
                    if o.spec_elapsed() + measured_secs <= u64::MAX {
                        (o.spec_elapsed() + measured_secs) as u64
                    } else {
                        u64::MAX
                    }
                } else {
                    o.spec_elapsed()
                }),
            },
    {
        match &mut self.ongoing_read {
            Some(o) => o.stop(measured_secs),
            None => (),
        }
    }

    /// Decides one write call, as [`Self::begin_read`] does for reads.
    pub fn begin_write(&mut self) -> (p: IoPlan)
        ensures
            final(self).spec_read() == old(self).spec_read(),
            final(self).spec_write() == old(self).spec_write(),
            final(self).spec_ongoing_read() == old(self).spec_ongoing_read(),
            match old(self).spec_write() {
                None => p == IoPlan::PassThrough && final(self).spec_ongoing_write() == old(self).spec_ongoing_write(),
                Some(t) => {
                    let bt = match old(self).spec_ongoing_write() {
                        Some(o) => o.spec_timeout(),
                        None => t,
                    };
                    let be = match old(self).spec_ongoing_write() {
                        Some(o) => o.spec_elapsed(),
                        None => 0u64,
                    };
                    let remaining = Operation::spec_remaining(bt, be);
                    if remaining == 0 {
                        p == IoPlan::TimedOut && (final(self).spec_ongoing_write() matches Some(o2)
                            && o2.spec_timeout() == bt && o2.spec_elapsed() == be)
                    } else {
                        p == IoPlan::WaitFor(remaining) && (final(self).spec_ongoing_write() matches Some(o2) && o2.spec_timeout() == bt
                            && o2.spec_elapsed() == be && o2.spec_running())
                    }
                },
            },
    {
        let t = match self.write {
            None => {
                return IoPlan::PassThrough;
            },
            Some(t) => t,
        };
        if self.ongoing_write.is_none() {
            self.ongoing_write = Some(Operation::from_timeout(t));
        }
        let remaining = match &self.ongoing_write {
            Some(o) => o.next_timeout(),
            None => 0,
        };
        if remaining == 0 {
            return IoPlan::TimedOut;
        }
        match &mut self.ongoing_write {
            Some(o) => o.start(),
            None => (),
        }
        IoPlan::WaitFor(remaining)
    }

    /// Charges the measured seconds of the last write call to the message
    /// budget.
    pub fn end_write(&mut self, measured_secs: u64)
        ensures
            final(self).spec_read() == old(self).spec_read(),
            final(self).spec_write() == old(self).spec_write(),
            final(self).spec_ongoing_read() == old(self).spec_ongoing_read(),
            match old(self).spec_ongoing_write() {
                None => final(self).spec_ongoing_write() is None,
                Some(o) => final(self).spec_ongoing_write() matches Some(o2) && o2.spec_timeout()
                    == o.spec_timeout() && !o2.spec_running() && o2.spec_elapsed() == (
                if o.spec_running() {
                    if o.spec_elapsed() + measured_secs <= u64::MAX {
                        (o.spec_elapsed() + measured_secs) as u64
                    } else {
                        u64::MAX
                    }
                } else {
                    o.spec_elapsed()
                }),
            },
    {
        match &mut self.ongoing_write {
            Some(o) => o.stop(measured_secs),
            None => (),
        }
    }
}

} // verus!
