//! The decision logic of the TLS stream adapter's handshake drive.
//!
//! The adapter bridges a non-blocking socket and a TLS session.  The
//! session itself and the socket belong to the embedder; what is decided
//! here is the drive's control flow: while the session wants to write,
//! push records; flush; if the session was not handshaking, stop; pull
//! records while the session wants to read and the peer has not closed;
//! process what arrived; loop until the handshake completes or fails.
//! The embedder performs one socket-facing operation per step and hands
//! its outcome back.

use vstd::prelude::*;

use crate::server_G::IoErr;

verus! {

/// Where the drive stands between socket operations.
#[derive(Debug, PartialEq, Eq, Structural, Clone, Copy)]
pub enum HsPhase {
    /// At the top of the drive loop, about to observe the session.
    Top,
    /// Pushing pending records into the socket.
    Pushing,
    /// Flushing the socket after the records were pushed.
    Flushing,
    /// Flushing one last time after a zero-byte record write: the peer
    /// closed, and the drive finishes quietly.
    FlushingToFinish,
    /// Pulling records from the socket.
    Pulling,
    /// Handing the received records to the session.
    Processing,
}

/// The outcome of the one socket-facing operation the embedder just
/// performed, if any.
#[derive(Debug, PartialEq, Eq, Structural, Clone, Copy)]
pub enum HsOutcome {
    /// No operation yet: entering the drive, or back at the loop top.
    Entered,
    /// `write_tls` wrote this many bytes, or failed.
    Wrote(usize),
    WriteFailed(IoErr),
    /// The socket flush succeeded or failed.
    Flushed,
    FlushFailed(IoErr),
    /// `read_tls` pulled this many bytes, or failed.
    Pulled(usize),
    ReadFailed(IoErr),
    /// `process_new_packets` succeeded or reported a protocol error.
    Processed(bool),
}

/// What the embedder must do next.
#[derive(Debug, PartialEq, Eq, Structural, Clone, Copy)]
pub enum HsAction {
    /// Push one record: `write_tls` on the socket.
    WriteRecord,
    /// Flush the socket.
    FlushSocket,
    /// Pull one record: `read_tls` on the socket.
    ReadRecord,
    /// Hand the received records to the session.
    ProcessPackets,
    /// Observe the session again and call back in.
    Again,
    /// The drive is done; the handshake made all the progress it could.
    Finish,
    /// The drive failed with this error.
    Fail(IoErr),
}

/// The drive's state: the phase, whether the session was still
/// handshaking when the pass began, and whether the peer has closed.
#[derive(Debug, PartialEq, Eq, Structural, Clone, Copy)]
pub struct HsDriver {
    pub phase: HsPhase,
    pub until_handshaked: bool,
    pub eof: bool,
}

/// When the push loop has nothing more to write, the drive moves on to
/// flushing.
pub open spec fn spec_push_decision(d: HsDriver, wants_write: bool) -> (HsDriver, HsAction) {
    if wants_write {
        (HsDriver { phase: HsPhase::Pushing, ..d }, HsAction::WriteRecord)
    } else {
        (HsDriver { phase: HsPhase::Flushing, ..d }, HsAction::FlushSocket)
    }
}

/// When the pull loop has nothing more to read, the drive moves on to
/// processing.
pub open spec fn spec_pull_decision(d: HsDriver, wants_read: bool) -> (HsDriver, HsAction) {
    if !d.eof && wants_read {
        (HsDriver { phase: HsPhase::Pulling, ..d }, HsAction::ReadRecord)
    } else {
        (HsDriver { phase: HsPhase::Processing, ..d }, HsAction::ProcessPackets)
    }
}

/// The whole transition table of the handshake drive: from the current
/// state, the session's flags, and the outcome of the last socket
/// operation, to the new state and the next action.
pub open spec fn spec_hs_step(
    d: HsDriver,
    handshaking: bool,
    wants_read: bool,
    wants_write: bool,
    outcome: HsOutcome,
) -> (HsDriver, HsAction) {
    match d.phase {
        HsPhase::Top => spec_push_decision(
            HsDriver { phase: HsPhase::Pushing, until_handshaked: handshaking, eof: d.eof },
            wants_write,
        ),
        HsPhase::Pushing => match outcome {
            HsOutcome::Wrote(n) => if n == 0 {
                (HsDriver { phase: HsPhase::FlushingToFinish, ..d }, HsAction::FlushSocket)
            } else {
                spec_push_decision(d, wants_write)
            },
            HsOutcome::WriteFailed(e) => (d, HsAction::Fail(e)),
            _ => (d, HsAction::Fail(IoErr::Other)),
        },
        HsPhase::FlushingToFinish => match outcome {
            HsOutcome::Flushed => (d, HsAction::Finish),
            HsOutcome::FlushFailed(e) => (d, HsAction::Fail(e)),
            _ => (d, HsAction::Fail(IoErr::Other)),
        },
        HsPhase::Flushing => match outcome {
            HsOutcome::Flushed => if !d.until_handshaked {
                (d, HsAction::Finish)
            } else {
                spec_pull_decision(d, wants_read)
            },
            HsOutcome::FlushFailed(e) => (d, HsAction::Fail(e)),
            _ => (d, HsAction::Fail(IoErr::Other)),
        },
        HsPhase::Pulling => match outcome {
            HsOutcome::Pulled(n) => if n == 0 {
                (
                    HsDriver { phase: HsPhase::Processing, eof: true, ..d },
                    HsAction::ProcessPackets,
                )
            } else {
                (HsDriver { phase: HsPhase::Processing, ..d }, HsAction::ProcessPackets)
            },
            HsOutcome::ReadFailed(IoErr::Interrupted) => spec_pull_decision(d, wants_read),
            HsOutcome::ReadFailed(e) => (d, HsAction::Fail(e)),
            _ => (d, HsAction::Fail(IoErr::Other)),
        },
        HsPhase::Processing => match outcome {
            HsOutcome::Processed(true) => {
                if d.until_handshaked && !handshaking && wants_write {
                    (HsDriver { phase: HsPhase::Top, ..d }, HsAction::Again)
                } else if d.eof {
                    (d, HsAction::Fail(IoErr::ConnectionAborted))
                } else {
                    (HsDriver { phase: HsPhase::Top, ..d }, HsAction::Again)
                }
            },
            HsOutcome::Processed(false) => (d, HsAction::Fail(IoErr::ConnectionAborted)),
            _ => (d, HsAction::Fail(IoErr::Other)),
        },
    }
}

impl HsDriver {
    /// A drive about to make its first pass.
    pub fn begin() -> (r: HsDriver)
        ensures
            r == (HsDriver { phase: HsPhase::Top, until_handshaked: false, eof: false }),
    {
        HsDriver { phase: HsPhase::Top, until_handshaked: false, eof: false }
    }

    /// One decision step: fold the session's current flags and the last
    /// operation's outcome into the state, and say what to do next.
    pub fn step(
        &mut self,
        handshaking: bool,
        wants_read: bool,
        wants_write: bool,
        outcome: HsOutcome,
    ) -> (r: HsAction)
        ensures
            (*final(self), r) == spec_hs_step(
                *old(self),
                handshaking,
                wants_read,
                wants_write,
                outcome,
            ),
    {
        match self.phase {
            HsPhase::Top => {
                self.until_handshaked = handshaking;
                self.push_decision(wants_write)
            },
            HsPhase::Pushing => match outcome {
                HsOutcome::Wrote(0) => {
                    self.phase = HsPhase::FlushingToFinish;
                    HsAction::FlushSocket
                },
                HsOutcome::Wrote(_) => self.push_decision(wants_write),
                HsOutcome::WriteFailed(e) => HsAction::Fail(e),
                _ => HsAction::Fail(IoErr::Other),
            },
            HsPhase::FlushingToFinish => match outcome {
                HsOutcome::Flushed => HsAction::Finish,
                HsOutcome::FlushFailed(e) => HsAction::Fail(e),
                _ => HsAction::Fail(IoErr::Other),
            },
            HsPhase::Flushing => match outcome {
                HsOutcome::Flushed => {
                    if !self.until_handshaked {
                        HsAction::Finish
                    } else {
                        self.pull_decision(wants_read)
                    }
                },
                HsOutcome::FlushFailed(e) => HsAction::Fail(e),
                _ => HsAction::Fail(IoErr::Other),
            },
            HsPhase::Pulling => match outcome {
                HsOutcome::Pulled(0) => {
                    self.eof = true;
                    self.phase = HsPhase::Processing;
                    HsAction::ProcessPackets
                },
                HsOutcome::Pulled(_) => {
                    self.phase = HsPhase::Processing;
                    HsAction::ProcessPackets
                },
                HsOutcome::ReadFailed(IoErr::Interrupted) => self.pull_decision(wants_read),
                HsOutcome::ReadFailed(e) => HsAction::Fail(e),
                _ => HsAction::Fail(IoErr::Other),
            },
            HsPhase::Processing => match outcome {
                HsOutcome::Processed(true) => {
                    if self.until_handshaked && !handshaking && wants_write {
                        self.phase = HsPhase::Top;
                        HsAction::Again
                    } else if self.eof {
                        HsAction::Fail(IoErr::ConnectionAborted)
                    } else {
                        self.phase = HsPhase::Top;
                        HsAction::Again
                    }
                },
                HsOutcome::Processed(false) => HsAction::Fail(IoErr::ConnectionAborted),
                _ => HsAction::Fail(IoErr::Other),
            },
        }
    }

    fn push_decision(&mut self, wants_write: bool) -> (r: HsAction)
        ensures
            (*final(self), r) == spec_push_decision(*old(self), wants_write),
    {
        if wants_write {
            self.phase = HsPhase::Pushing;
            HsAction::WriteRecord
        } else {
            self.phase = HsPhase::Flushing;
            HsAction::FlushSocket
        }
    }

    fn pull_decision(&mut self, wants_read: bool) -> (r: HsAction)
        ensures
            (*final(self), r) == spec_pull_decision(*old(self), wants_read),
    {
        if !self.eof && wants_read {
            self.phase = HsPhase::Pulling;
            HsAction::ReadRecord
        } else {
            self.phase = HsPhase::Processing;
            HsAction::ProcessPackets
        }
    }
}

} // verus!
