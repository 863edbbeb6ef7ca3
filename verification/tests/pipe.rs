//! Commands, the pipe's path and failures.
use std::path::PathBuf;
use std::time::Duration;
use xbox_controller_macos_gip::binary32::Binary32;
use xbox_controller_macos_gip::mapping::DolphinState;
use xbox_controller_macos_gip::pipe::{
    after_open_failure, after_write_failure, default_pipe_path, emit_button_delta,
    emit_state_delta, AfterOpenFailure, AfterWriteFailure, Button, ANALOG_EPS_BITS,
    ANALOG_PERIOD_NS, OPEN_RETRY_MS,
};

fn b(v: f32) -> Binary32 {
    Binary32::from_bits(v.to_bits())
}

fn buttons() -> [Button; 10] {
    [
        Button::A,
        Button::B,
        Button::X,
        Button::Y,
        Button::Z,
        Button::Start,
        Button::DUp,
        Button::DDown,
        Button::DLeft,
        Button::DRight,
    ]
}

fn all_held() -> DolphinState {
    DolphinState {
        a: true,
        b: true,
        x: true,
        y: true,
        z: true,
        start: true,
        d_up: true,
        d_down: true,
        d_left: true,
        d_right: true,
        ..DolphinState::default()
    }
}

#[test]
fn pipe_constants() {
    assert_eq!(ANALOG_EPS_BITS, 0.0025f32.to_bits());
    assert_eq!(ANALOG_PERIOD_NS, Duration::from_secs_f32(1.0 / 120.0).as_nanos());
    assert_eq!(OPEN_RETRY_MS, 250);
}

#[test]
fn one_button() {
    let mut lines = vec![String::from("SET L 0.0000")];
    emit_button_delta(&mut lines, "START", false, false);
    emit_button_delta(&mut lines, "START", true, true);
    emit_button_delta(&mut lines, "START", false, true);
    emit_button_delta(&mut lines, "A", true, false);
    assert_eq!(lines, ["SET L 0.0000", "PRESS START", "RELEASE A"]);
}

#[test]
fn all_buttons_in_order() {
    let none = DolphinState::default();
    let names = ["A", "B", "X", "Y", "Z", "START", "D_UP", "D_DOWN", "D_LEFT", "D_RIGHT"];
    let down = emit_state_delta(none, all_held(), 0);
    let want: Vec<String> = names.iter().map(|n| format!("PRESS {n}")).collect();
    assert_eq!((down.lines, down.analog), (want, false));
    let up = emit_state_delta(all_held(), none, 0);
    let want: Vec<String> = names.iter().map(|n| format!("RELEASE {n}")).collect();
    assert_eq!((up.lines, up.analog), (want, false));
    for (button, name) in buttons().iter().zip(names) {
        assert_eq!(button.label(), name);
        assert!(button.is_held(&all_held()) && !button.is_held(&none));
    }
}

#[test]
fn analog_values_follow_buttons() {
    let prev = DolphinState { b: true, ..DolphinState::default() };
    let now = DolphinState {
        a: true,
        main_x: b(0.5),
        main_y: b(0.25),
        c_x: b(1.0),
        c_y: b(0.0),
        l: b(0.12345),
        r: b(0.99999),
        ..DolphinState::default()
    };
    let delta = emit_state_delta(prev, now, ANALOG_PERIOD_NS);
    assert!(delta.analog);
    assert_eq!(
        delta.lines,
        ["PRESS A", "RELEASE B", "SET MAIN 0.5000 0.2500", "SET C 1.0000 0.0000", "SET L 0.1235", "SET R 1.0000"]
    );
}

#[test]
fn analog_values_are_clamped() {
    let prev = DolphinState { l: b(0.5), ..DolphinState::default() };
    let now = DolphinState { main_x: b(7.0), main_y: b(-3.0), c_x: b(f32::NAN), c_y: b(f32::INFINITY), ..DolphinState::default() };
    let delta = emit_state_delta(prev, now, u128::MAX);
    assert_eq!(delta.lines, ["SET MAIN 1.0000 0.0000", "SET C 0.0000 1.0000", "SET L 0.0000", "SET R 0.0000"]);
}

#[test]
fn analog_text_matches_the_machine() {
    let mut all = vec![0.03125f32, 0.09375, 0.00005, 0.00015, 0.15625, 0.99995, 0.999949, 0.5, 1.0, -0.0, 1.0e-45, 0.00003051758];
    for v in 0..=1023u16 {
        all.push(v as f32 / 1023.0);
    }
    for k in 0..2000u32 {
        all.push((k * 8 + 1) as f32 / 16384.0);
        all.push(f32::from_bits(0x3F80_0000 - k * 7919));
    }
    for v in all {
        let prev = DolphinState { r: b(1.0), ..DolphinState::default() };
        let now = DolphinState { l: b(v), ..DolphinState::default() };
        let delta = emit_state_delta(prev, now, u128::MAX);
        assert_eq!(delta.lines[2], format!("SET L {v:.4}"));
        let text: f64 = format!("{v:.4}").parse().unwrap();
        assert!((text - v as f64).abs() <= 0.00005 + 1e-12);
    }
}

#[test]
fn rate_is_limited() {
    let prev = DolphinState::default();
    let now = DolphinState { y: true, main_x: b(1.0), ..prev };
    let early = emit_state_delta(prev, now, ANALOG_PERIOD_NS - 1);
    assert_eq!((early.lines, early.analog), (vec![String::from("PRESS Y")], false));
    let due = emit_state_delta(prev, now, ANALOG_PERIOD_NS);
    assert_eq!((due.lines.len(), due.analog), (5, true));
}

#[test]
fn small_moves_are_not_sent() {
    let eps = 0.0025f32;
    let above = f32::from_bits(eps.to_bits() + 1);
    let rest = DolphinState::default();
    for field in 0..6 {
        for (v, sent) in [(eps, false), (above, true)] {
            let mut now = rest;
            match field {
                0 => now.main_x = b(v),
                1 => now.main_y = b(v),
                2 => now.c_x = b(v),
                3 => now.c_y = b(v),
                4 => now.l = b(v),
                _ => now.r = b(v),
            }
            assert_eq!(emit_state_delta(rest, now, u128::MAX).analog, sent);
            assert_eq!(emit_state_delta(now, rest, u128::MAX).analog, sent);
        }
    }
}

#[test]
fn same_state_is_silent() {
    for v in [0.0, 0.5, 1.0, f32::NAN, f32::INFINITY] {
        let s = DolphinState { main_x: b(v), r: b(v), ..all_held() };
        let delta = emit_state_delta(s, s, u128::MAX);
        assert!(delta.lines.is_empty() && !delta.analog);
    }
}

#[test]
fn commands_lead_to_state() {
    for from in 0..32u16 {
        for to in 0..32u16 {
            let state = |w: u16| DolphinState {
                a: w & 1 != 0,
                z: w & 2 != 0,
                start: w & 4 != 0,
                d_up: w & 8 != 0,
                d_right: w & 16 != 0,
                l: b(w as f32 / 32.0),
                ..DolphinState::default()
            };
            let (prev, now) = (state(from), state(to));
            let delta = emit_state_delta(prev, now, u128::MAX);
            for button in buttons() {
                let mut held = button.is_held(&prev);
                for line in &delta.lines {
                    if *line == format!("PRESS {}", button.label()) {
                        held = true;
                    } else if *line == format!("RELEASE {}", button.label()) {
                        held = false;
                    }
                }
                assert_eq!(held, button.is_held(&now));
            }
        }
    }
}

#[test]
fn path_is_below_home() {
    assert_eq!(
        default_pipe_path("/Users/me"),
        "/Users/me/Library/Application Support/Dolphin/Pipes/powera"
    );
    for home in ["/Users/me", "/Users/me/", "", "/", "rel", "a//", "/Users/\u{e9}\u{4e2d}"] {
        let want = PathBuf::from(home)
            .join("Library")
            .join("Application Support")
            .join("Dolphin")
            .join("Pipes")
            .join("powera");
        assert_eq!(default_pipe_path(home), want.to_str().unwrap());
    }
}

#[test]
fn waits_for_a_reader() {
    let retry = AfterOpenFailure::Retry { delay_ms: 250 };
    assert_eq!(after_open_failure(Some(libc::ENXIO), libc::ENXIO), retry);
    assert_eq!(after_open_failure(Some(libc::EACCES), libc::ENXIO), AfterOpenFailure::Fail);
    assert_eq!(after_open_failure(None, libc::ENXIO), AfterOpenFailure::Fail);
}

#[test]
fn reconnects_to_a_lost_reader() {
    assert_eq!(after_write_failure(Some(libc::EPIPE), libc::EPIPE), AfterWriteFailure::Reconnect);
    assert_eq!(after_write_failure(Some(libc::EAGAIN), libc::EPIPE), AfterWriteFailure::Fail);
    assert_eq!(after_write_failure(None, libc::EPIPE), AfterWriteFailure::Fail);
}
