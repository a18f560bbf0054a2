//! Errors of the device adapter, and the control-loop state machine that
//! decides each tick of a session.

use vstd::prelude::*;
use crate::interpolation::interp_seq;
use crate::interpolation::sorted_unique;
use crate::interpolation::Interpolator;

verus! {

/// Seconds slept between ticks of the control loop.
pub const SLEEP_SECONDS: u64 = 5;

/// Failures around the device's control files. The open and write
/// variants carry the operator-facing description supplied by the caller
/// that did the I/O; the read variant carries the sensor report that
/// failed to parse.
#[derive(Debug)]
pub enum Error {
    OpenFile(String),
    ManualControl(String),
    ReadTemperature(Vec<u8>),
    WritePwm(String),
}

/// The two states of the control loop.
#[derive(Clone, Copy, PartialEq, Eq, Structural, Debug)]
pub enum LoopState {
    Running,
    Stopped,
}

/// What the loop learns on a tick: a temperature reading, a failed read,
/// a failed duty write, or the stop request relayed from outside.
#[derive(Clone, Copy, PartialEq, Eq, Structural, Debug)]
pub enum TickEvent {
    Temperature(i16),
    ReadFailed,
    WriteFailed,
    StopRequested,
}

/// What the driver of the loop must do next: write this duty and sleep
/// one period, or release the guard and exit.
#[derive(Clone, Copy, PartialEq, Eq, Structural, Debug)]
pub enum TickAction {
    WriteDuty(u8),
    Shutdown,
}

/// The control loop. Readings feed events in; actions command the duty
/// writes. Any failure and the stop request are terminal, and every
/// terminal answer demands the guard's release before the process exits.
pub struct ControlLoop {
    table: Interpolator,
    state: LoopState,
}

impl ControlLoop {
    /// The curve table driving the loop; immutable for the session.
    pub closed spec fn table_spec(&self) -> Seq<(i16, u8)> {
        self.table@
    }

    pub closed spec fn state_spec(&self) -> LoopState {
        self.state
    }

    pub open spec fn wf(&self) -> bool {
        sorted_unique(self.table_spec())
    }

    pub open spec fn running(&self) -> bool {
        self.state_spec() is Running
    }

    /// A fresh loop around a built table, in the running state.
    pub fn new(table: Interpolator) -> (l: ControlLoop)
        requires
            table.wf(),
        ensures
            l.wf(),
            l.running(),
            l.table_spec() == table@,
    {
        ControlLoop { table, state: LoopState::Running }
    }

    /// One tick. A temperature while running answers with the curve's
    /// duty for it and keeps running; any failure, the stop request, or
    /// a tick after stopping answers with the shutdown action.
    pub fn on_tick(&mut self, ev: TickEvent) -> (a: TickAction)
        requires
            old(self).wf(),
        ensures
            final(self).wf(),
            final(self).table_spec() == old(self).table_spec(),
            match ev {
                TickEvent::Temperature(t) => if old(self).running() {
                    &&& (a matches TickAction::WriteDuty(d) && d as int == interp_seq(
                        old(self).table_spec(),
                        t as int,
                    ))
                    &&& final(self).running()
                } else {
                    &&& a is Shutdown
                    &&& !final(self).running()
                },
                _ => a is Shutdown && !final(self).running(),
            },
    {
        match ev {
            TickEvent::Temperature(t) => {
                match self.state {
                    LoopState::Running => TickAction::WriteDuty(self.table.interpolate(t)),
                    LoopState::Stopped => TickAction::Shutdown,
                }
            },
            _ => {
                self.state = LoopState::Stopped;
                TickAction::Shutdown
            },
        }
    }
}

} // verus!
