//! Tests of what the debug target decides.

use tricore_probe::target::{
    BreakpointRequest, CoreState, StopReason, TricoreTarget, WaitAction, WaitEvent,
};

#[test]
fn stop_reason_follows_the_resume_request() {
    let mut target = TricoreTarget::new();
    assert_eq!(target.poll_stop(Some(CoreState::NotRunning)), Some(StopReason::HwBreak));
    target.step();
    assert_eq!(target.poll_stop(Some(CoreState::NotRunning)), Some(StopReason::DoneStep));
    target.resume();
    assert_eq!(target.poll_stop(Some(CoreState::NotRunning)), Some(StopReason::HwBreak));
}

#[test]
fn running_core_has_no_stop_reason() {
    let mut target = TricoreTarget::new();
    assert_eq!(target.poll_stop(Some(CoreState::Running)), None);
    assert_eq!(target.poll_stop(None), None);
    target.step();
    assert_eq!(target.poll_stop(Some(CoreState::Running)), None);
    assert_eq!(target.poll_stop(None), None);
}

#[test]
fn breakpoints_cover_two_bytes() {
    assert_eq!(
        TricoreTarget::breakpoint_request(0xFFFF_FFFE),
        BreakpointRequest { address: 0xFFFF_FFFE, size: 2 }
    );
}

#[test]
fn removal_undoes_addition() {
    let mut target = TricoreTarget::new();
    assert_eq!(target.remove_hw_breakpoint(0x8000_0000), None);
    assert_eq!(target.add_hw_breakpoint::<&str>(0x8000_0000, Ok(7)), Ok(true));
    assert_eq!(target.remove_hw_breakpoint(0x8000_0002), None);
    assert_eq!(target.remove_hw_breakpoint(0x8000_0000), Some(7));
    assert_eq!(target.remove_hw_breakpoint(0x8000_0000), None);
}

#[test]
fn oldest_breakpoint_goes_first() {
    let mut target = TricoreTarget::new();
    assert_eq!(target.add_hw_breakpoint::<&str>(0x10, Ok(1)), Ok(true));
    assert_eq!(target.add_hw_breakpoint::<&str>(0x20, Ok(2)), Ok(true));
    assert_eq!(target.add_hw_breakpoint::<&str>(0x10, Ok(3)), Ok(true));
    assert_eq!(target.remove_hw_breakpoint(0x10), Some(1));
    assert_eq!(target.remove_hw_breakpoint(0x20), Some(2));
    assert_eq!(target.remove_hw_breakpoint(0x10), Some(3));
    assert_eq!(target.remove_hw_breakpoint(0x10), None);
}

#[test]
fn refused_breakpoint_is_not_installed() {
    let mut target = TricoreTarget::new();
    assert_eq!(target.add_hw_breakpoint(0x10, Err("no trigger left")), Err("no trigger left"));
    assert_eq!(target.remove_hw_breakpoint(0x10), None);
}

#[test]
fn wait_looks_at_gdb_before_the_core() {
    let mut target = TricoreTarget::new();
    assert_eq!(target.wait_for_stop_reason(WaitEvent::Begin), WaitAction::Peek);
    assert_eq!(target.wait_for_stop_reason(WaitEvent::Peeked(true)), WaitAction::Receive);
    assert_eq!(
        target.wait_for_stop_reason(WaitEvent::Received(0x03)),
        WaitAction::IncomingData(0x03)
    );
    assert_eq!(target.wait_for_stop_reason(WaitEvent::Peeked(false)), WaitAction::Poll);
    assert_eq!(
        target.wait_for_stop_reason(WaitEvent::Polled(Some(CoreState::Running))),
        WaitAction::Sleep(2)
    );
    assert_eq!(target.wait_for_stop_reason(WaitEvent::Polled(None)), WaitAction::Sleep(2));
    assert_eq!(target.wait_for_stop_reason(WaitEvent::Slept), WaitAction::Peek);
    assert_eq!(
        target.wait_for_stop_reason(WaitEvent::Polled(Some(CoreState::NotRunning))),
        WaitAction::TargetStopped(StopReason::HwBreak)
    );
    target.step();
    assert_eq!(
        target.wait_for_stop_reason(WaitEvent::Polled(Some(CoreState::NotRunning))),
        WaitAction::TargetStopped(StopReason::DoneStep)
    );
}

#[test]
fn interrupt_is_reported_as_a_signal() {
    assert_eq!(
        TricoreTarget::on_interrupt::<&str>(Ok(())),
        Ok(Some(StopReason::Interrupt))
    );
    assert_eq!(TricoreTarget::on_interrupt(Err("core lost")), Err("core lost"));
}
