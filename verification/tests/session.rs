//! Runs of packets.
use xbox_controller_macos_gip::packet::ParseError;
use xbox_controller_macos_gip::session::{
    dump_lines, Outcome, Reaction, Session, Times, RAW_DUMP_PACKETS,
};

const LATE: u128 = 10_000_000_000;

fn at(layout_ns: u128, calibration_ns: u128, analog_ns: u128) -> Times {
    Times { layout_ns, calibration_ns, analog_ns }
}

fn packet(extra: &[u8], buttons: u16, lt: u16, axes: [i16; 4]) -> Vec<u8> {
    let mut p = vec![0x20, 0x00];
    p.extend_from_slice(extra);
    for w in [buttons, lt, 0] {
        p.extend_from_slice(&w.to_le_bytes());
    }
    for a in axes {
        p.extend_from_slice(&a.to_le_bytes());
    }
    p
}

fn send(s: &mut Session, pkt: &[u8], times: Times) -> Outcome {
    assert!(s.can_accept(pkt));
    s.step(pkt, times)
}

/// The commands of an outcome.
fn lines(o: Outcome) -> Vec<String> {
    match o.reaction {
        Reaction::Emit { delta } => delta.lines,
        other => panic!("{other:?}"),
    }
}

/// A session whose layout is known.
fn locked(extra: &[u8]) -> Session {
    let mut s = Session::new();
    for i in 0..119i16 {
        let o = send(&mut s, &packet(extra, 0, 0, [1000 + i, 0, 0, 0]), at(LATE, LATE, LATE));
        assert_eq!(o.locked, None);
        assert!(matches!(o.reaction, Reaction::Held));
    }
    let o = send(&mut s, &packet(extra, 0, 0, [0; 4]), at(LATE, LATE, LATE));
    assert_eq!(o.locked, Some(extra.len()));
    assert_eq!(
        lines(o),
        ["SET MAIN 0.5000 0.5000", "SET C 0.5000 0.5000", "SET L 0.0000", "SET R 0.0000"]
    );
    s
}

#[test]
fn other_packets_are_ignored() {
    let mut s = Session::new();
    for p in [&[][..], &[0x07], &[0x02, 0x20, 0x00], &[0x21; 40]] {
        let o = send(&mut s, p, at(LATE, 0, LATE));
        assert_eq!(o.locked, None);
        assert!(matches!(o.reaction, Reaction::Ignored));
    }
}

#[test]
fn header_is_needed_while_watching() {
    assert!(!Session::new().can_accept(&[0x20]));
    assert!(Session::new().can_accept(&[0x20, 0x00]));
    let mut s = locked(&[]);
    let o = send(&mut s, &[0x20], at(LATE, LATE, LATE));
    assert!(matches!(o.reaction, Reaction::Rejected { error: ParseError::PacketTooShort, dump: true }));
}

#[test]
fn locks_and_emits() {
    let mut s = locked(&[]);
    let o = send(&mut s, &packet(&[], 0x0110, 0, [0; 4]), at(0, LATE, 0));
    assert_eq!(o.locked, None);
    assert_eq!(lines(o), ["PRESS A", "PRESS D_UP"]);
    let o = send(&mut s, &packet(&[], 0x0100, 1023, [32767, 0, 0, 0]), at(0, LATE, LATE));
    assert_eq!(
        lines(o),
        ["RELEASE A", "SET MAIN 1.0000 0.5000", "SET C 0.5000 0.5000", "SET L 1.0000", "SET R 0.0000"]
    );
    let o = send(&mut s, &packet(&[], 0x0100, 1023, [32767, 0, 0, 0]), at(0, LATE, LATE));
    assert!(lines(o).is_empty());
}

#[test]
fn locks_behind_extra_bytes() {
    let extra = [0xFF, 0xFF, 0xFF, 0xFF];
    let mut s = locked(&extra);
    let o = send(&mut s, &packet(&extra, 0x0004, 0, [0; 4]), at(LATE, LATE, 0));
    assert_eq!(lines(o), ["PRESS START"]);
}

#[test]
fn window_must_pass() {
    let mut s = Session::new();
    for _ in 0..300 {
        let o = send(&mut s, &packet(&[], 0x0010, 0, [0; 4]), at(1_999_999_999, LATE, LATE));
        assert!(o.locked.is_none() && matches!(o.reaction, Reaction::Held));
    }
    let o = send(&mut s, &packet(&[], 0x0010, 0, [0; 4]), at(2_000_000_000, LATE, 0));
    assert_eq!(o.locked, Some(0));
    assert_eq!(lines(o), ["PRESS A"]);
}

#[test]
fn known_layout_stays() {
    let mut s = locked(&[]);
    for _ in 0..300 {
        let o = send(&mut s, &packet(&[0xFF, 0xFF, 0xFF, 0xFF], 0, 0, [900; 4]), at(LATE, LATE, 0));
        assert_eq!(o.locked, None);
    }
    let o = send(&mut s, &packet(&[], 0, 0, [0; 4]), at(LATE, LATE, 0));
    assert_eq!(lines(o).iter().filter(|l| l.starts_with("RELEASE")).count(), 10);
}

#[test]
fn centres_are_learned_in_window() {
    let stick = [6000i16, 0, 0, 0];
    let run = |calibration_ns: u128| {
        let mut s = Session::new();
        for _ in 0..119 {
            send(&mut s, &packet(&[], 0, 0, stick), at(0, calibration_ns, LATE));
        }
        lines(send(&mut s, &packet(&[], 0, 0, stick), at(LATE, LATE, LATE)))
    };
    assert_eq!(run(750_000_000)[0], "SET MAIN 0.5000 0.5000");
    assert_ne!(run(750_000_001)[0], "SET MAIN 0.5000 0.5000");
}

#[test]
fn first_rejects_are_shown() {
    let mut s = Session::new();
    for i in 0..25usize {
        let o = send(&mut s, &[0x20, 0x00, 0xAB], at(LATE, LATE, LATE));
        match o.reaction {
            Reaction::Rejected { error, dump } => {
                assert_eq!(error, ParseError::PayloadTooShort { len: 1, needed: 14 });
                assert_eq!(dump, i < RAW_DUMP_PACKETS);
            }
            other => panic!("{other:?}"),
        }
    }
    assert_eq!(RAW_DUMP_PACKETS, 10);
}

#[test]
fn shown_packets_are_hexadecimal() {
    let error = ParseError::PayloadTooShort { len: 3, needed: 14 };
    let pkt = [0x20, 0x00, 0xAB, 0x0F, 0xF0];
    assert_eq!(
        dump_lines(&error, &pkt),
        (
            String::from("Parse error: payload too short: 3 bytes (need at least 14)"),
            String::from("Raw packet (5 bytes): 2000ab0ff0"),
        )
    );
    let all: Vec<u8> = (0..=255).collect();
    let want: String = all.iter().map(|v| format!("{v:02x}")).collect();
    let got = dump_lines(&ParseError::PacketTooShort, &all);
    assert_eq!(got.0, "Parse error: packet too short");
    assert_eq!(got.1, format!("Raw packet (256 bytes): {want}"));
    assert_eq!(dump_lines(&ParseError::PacketTooShort, &[]).1, "Raw packet (0 bytes): ");
}

#[test]
fn reader_follows_pad() {
    let mut s = locked(&[]);
    let mut held: Vec<String> = vec![];
    for word in [0x0010u16, 0x0FFC, 0x0A5C, 0, 0xF003, 0x0404, 0x0800] {
        for line in lines(send(&mut s, &packet(&[], word, 0, [0; 4]), at(LATE, LATE, LATE))) {
            if let Some(name) = line.strip_prefix("PRESS ") {
                held.push(String::from(name));
            } else if let Some(name) = line.strip_prefix("RELEASE ") {
                held.retain(|h| h != name);
            }
        }
        let names = ["START", "Z", "A", "B", "X", "Y", "D_UP", "D_DOWN", "D_LEFT", "D_RIGHT"];
        for (k, name) in names.iter().enumerate() {
            assert_eq!(held.iter().any(|h| h == name), word & (4 << k) != 0, "{name} {word:04X}");
        }
    }
}
