//! Tests of the guard, the control loop, and the device-file protocols.

use amdfand::config::SensorType;
use amdfand::error::Error;
use amdfand::fan_control::{self, ControlLoop, TickAction, TickEvent};
use amdfand::hwmon::{is_amdgpu_name, Mode};
use amdfand::interpolation::Interpolator;
use amdfand::mode::{next_revert_step, ManualFanControl, RevertStep, REVERT_RETRIES};
use amdfand::pwm_writer::pwm_command;
use amdfand::temperature_reader::read_temperature;

#[test]
fn release_twice_reverts_exactly_once() {
    let mut guard = ManualFanControl::enable();
    assert!(guard.armed());
    let mut reverts: u32 = 0;
    if guard.disable() {
        reverts += 1;
    }
    if guard.disable() {
        reverts += 1;
    }
    assert_eq!(reverts, 1);
    assert!(!guard.armed());
}

#[test]
fn racing_releases_perform_one_revert_in_either_order() {
    // The lock serializes the interrupt path and the normal unwind into
    // one of two orders; each order is two successive takes.
    for interrupt_first in [true, false] {
        let mut guard = ManualFanControl::enable();
        let interrupt_reverts = if interrupt_first {
            guard.disable()
        } else {
            let unwind = guard.disable();
            assert!(unwind);
            guard.disable()
        };
        let second = guard.disable();
        assert!(!second);
        if interrupt_first {
            assert!(interrupt_reverts);
        } else {
            assert!(!interrupt_reverts);
        }
        assert!(!guard.armed());
    }
}

#[test]
fn revert_retry_plan_is_bounded() {
    assert_eq!(next_revert_step(true, 1), RevertStep::Done);
    assert_eq!(next_revert_step(true, REVERT_RETRIES), RevertStep::Done);
    assert_eq!(next_revert_step(false, 1), RevertStep::RetryAfterBackoff);
    assert_eq!(next_revert_step(false, 2), RevertStep::RetryAfterBackoff);
    assert_eq!(next_revert_step(false, 3), RevertStep::GiveUp);
}

fn curve() -> Interpolator {
    let lines: Vec<Vec<u8>> = vec![b"0 => 10".to_vec(), b"50 => 40".to_vec()];
    Interpolator::from_lines(&lines).unwrap()
}

#[test]
fn loop_writes_curve_duty_while_running() {
    let mut ctl = ControlLoop::new(curve());
    assert_eq!(ctl.on_tick(TickEvent::Temperature(25)), TickAction::WriteDuty(63));
    assert_eq!(ctl.on_tick(TickEvent::Temperature(-10)), TickAction::WriteDuty(25));
    assert_eq!(ctl.on_tick(TickEvent::Temperature(60)), TickAction::WriteDuty(255));
}

#[test]
fn loop_stops_on_stop_request_and_stays_stopped() {
    let mut ctl = ControlLoop::new(curve());
    assert_eq!(ctl.on_tick(TickEvent::StopRequested), TickAction::Shutdown);
    assert_eq!(ctl.on_tick(TickEvent::Temperature(25)), TickAction::Shutdown);
}

#[test]
fn loop_stops_on_read_or_write_failure() {
    let mut ctl = ControlLoop::new(curve());
    assert_eq!(ctl.on_tick(TickEvent::ReadFailed), TickAction::Shutdown);
    let mut ctl = ControlLoop::new(curve());
    assert_eq!(ctl.on_tick(TickEvent::WriteFailed), TickAction::Shutdown);
}

#[test]
fn pwm_command_is_decimal_with_newline() {
    assert_eq!(pwm_command(0), b"0\n".to_vec());
    assert_eq!(pwm_command(7), b"7\n".to_vec());
    assert_eq!(pwm_command(10), b"10\n".to_vec());
    assert_eq!(pwm_command(42), b"42\n".to_vec());
    assert_eq!(pwm_command(100), b"100\n".to_vec());
    assert_eq!(pwm_command(255), b"255\n".to_vec());
}

#[test]
fn mode_commands_match_the_driver_protocol() {
    assert_eq!(Mode::Manual.command(), b"1\n".to_vec());
    assert_eq!(Mode::Automatic.command(), b"2\n".to_vec());
    assert_eq!(Mode::Manual.code(), b'1');
    assert_eq!(Mode::Automatic.code(), b'2');
}

#[test]
fn temperature_reports_reduce_to_whole_degrees() {
    assert_eq!(read_temperature(&b"45000\n".to_vec()).unwrap(), 45);
    assert_eq!(read_temperature(&b"45999\n".to_vec()).unwrap(), 45);
    assert_eq!(read_temperature(&b"-500\n".to_vec()).unwrap(), 0);
    assert_eq!(read_temperature(&b"-45999\n".to_vec()).unwrap(), -45);
    assert_eq!(read_temperature(&b"500".to_vec()).unwrap(), 0);
    assert_eq!(read_temperature(&b"0\n".to_vec()).unwrap(), 0);
    assert_eq!(read_temperature(&b"32767999\n".to_vec()).unwrap(), 32767);
    assert_eq!(read_temperature(&b"-32768999\n".to_vec()).unwrap(), -32768);
    assert!(read_temperature(&b"32768999\n".to_vec()).is_err());
}

#[test]
fn garbage_temperature_reports_hand_the_report_back() {
    match read_temperature(&b"abc\n".to_vec()) {
        Err(fan_control::Error::ReadTemperature(raw)) => {
            assert_eq!(raw, b"abc\n".to_vec());
        },
        other => panic!("expected a read error, got {other:?}"),
    }
    assert!(read_temperature(&b"".to_vec()).is_err());
    assert!(read_temperature(&b"-\n".to_vec()).is_err());
    assert!(read_temperature(&b"99999999999\n".to_vec()).is_err());
}

#[test]
fn discovery_predicate_matches_the_driver_name_exactly() {
    assert!(is_amdgpu_name(&b"amdgpu\n".to_vec()));
    assert!(!is_amdgpu_name(&b"amdgpu".to_vec()));
    assert!(!is_amdgpu_name(&b"radeon\n".to_vec()));
    assert!(!is_amdgpu_name(&b"amdgpu\n\n".to_vec()));
    assert!(!is_amdgpu_name(&b"".to_vec()));
}

#[test]
fn sensor_nodes_and_fallback() {
    assert_eq!(SensorType::Edge.file_name(), "temp1_input");
    assert_eq!(SensorType::Junction.file_name(), "temp2_input");
    assert_eq!(SensorType::Memory.file_name(), "temp3_input");
    assert_eq!(SensorType::Memory.resolve(true), SensorType::Memory);
    assert_eq!(SensorType::Memory.resolve(false), SensorType::Edge);
    assert_eq!(SensorType::Edge.resolve(false), SensorType::Edge);
}

#[test]
fn session_errors_wrap_their_sources() {
    let e = Error::from(fan_control::Error::WritePwm(String::from("pwm1 unwritable")));
    assert!(matches!(e, Error::FanControl(_)));
    let bad = Interpolator::from_lines(&vec![b"x".to_vec()]).unwrap_err();
    let e = Error::from(bad);
    assert!(matches!(e, Error::Interpolation(_)));
    let e = amdfand::app_error::AppError::from(
        Interpolator::from_lines(&vec![b"x".to_vec()]).unwrap_err(),
    );
    assert!(matches!(e, amdfand::app_error::AppError::Interpolation(_)));
}
