//! Tests of the TLS handshake drive's decision table.

use simple_server::server_G::IoErr;
use simple_server::TLS::{HsAction, HsDriver, HsOutcome};

#[test]
fn handshake_drive_pushes_flushes_pulls_and_finishes() {
    let mut d = HsDriver::begin();
    // The session is handshaking and has records to push.
    assert_eq!(d.step(true, false, true, HsOutcome::Entered), HsAction::WriteRecord);
    // One record went out and nothing more is pending: flush.
    assert_eq!(d.step(true, false, false, HsOutcome::Wrote(100)), HsAction::FlushSocket);
    // Still handshaking, so pull the peer's records.
    assert_eq!(d.step(true, true, false, HsOutcome::Flushed), HsAction::ReadRecord);
    assert_eq!(d.step(true, true, false, HsOutcome::Pulled(50)), HsAction::ProcessPackets);
    // Processing completed the handshake; the final flight wants out.
    assert_eq!(d.step(false, false, true, HsOutcome::Processed(true)), HsAction::Again);
    assert_eq!(d.step(false, false, true, HsOutcome::Entered), HsAction::WriteRecord);
    assert_eq!(d.step(false, false, false, HsOutcome::Wrote(60)), HsAction::FlushSocket);
    // This pass began with the handshake already done: finish.
    assert_eq!(d.step(false, false, false, HsOutcome::Flushed), HsAction::Finish);
}

#[test]
fn zero_byte_record_write_finishes_after_a_flush() {
    let mut d = HsDriver::begin();
    assert_eq!(d.step(true, false, true, HsOutcome::Entered), HsAction::WriteRecord);
    assert_eq!(d.step(true, false, true, HsOutcome::Wrote(0)), HsAction::FlushSocket);
    assert_eq!(d.step(true, false, true, HsOutcome::Flushed), HsAction::Finish);
}

#[test]
fn eof_during_the_handshake_fails() {
    let mut d = HsDriver::begin();
    assert_eq!(d.step(true, true, false, HsOutcome::Entered), HsAction::FlushSocket);
    assert_eq!(d.step(true, true, false, HsOutcome::Flushed), HsAction::ReadRecord);
    // The peer closed: note the end of input, process what arrived.
    assert_eq!(d.step(true, true, false, HsOutcome::Pulled(0)), HsAction::ProcessPackets);
    assert_eq!(
        d.step(true, true, false, HsOutcome::Processed(true)),
        HsAction::Fail(IoErr::ConnectionAborted)
    );
}

#[test]
fn interrupted_reads_are_retried() {
    let mut d = HsDriver::begin();
    assert_eq!(d.step(true, true, false, HsOutcome::Entered), HsAction::FlushSocket);
    assert_eq!(d.step(true, true, false, HsOutcome::Flushed), HsAction::ReadRecord);
    assert_eq!(
        d.step(true, true, false, HsOutcome::ReadFailed(IoErr::Interrupted)),
        HsAction::ReadRecord
    );
}

#[test]
fn would_block_surfaces_as_a_failure_to_retry_later() {
    let mut d = HsDriver::begin();
    assert_eq!(d.step(true, false, true, HsOutcome::Entered), HsAction::WriteRecord);
    assert_eq!(
        d.step(true, false, true, HsOutcome::WriteFailed(IoErr::WouldBlock)),
        HsAction::Fail(IoErr::WouldBlock)
    );
}

#[test]
fn session_protocol_errors_abort() {
    let mut d = HsDriver::begin();
    assert_eq!(d.step(true, false, false, HsOutcome::Entered), HsAction::FlushSocket);
    assert_eq!(d.step(true, false, false, HsOutcome::Flushed), HsAction::ProcessPackets);
    assert_eq!(
        d.step(true, false, false, HsOutcome::Processed(false)),
        HsAction::Fail(IoErr::ConnectionAborted)
    );
}
