//! Input packets.
use xbox_controller_macos_gip::packet::{
    le_i16, le_u16, parse_gip_input_packet, ParseError, ParsedInput, GIP_INIT_PACKET,
};

/// An input packet with `extra` before its input block.
fn packet(extra: &[u8], buttons: u16, lt: u16, rt: u16, axes: [i16; 4]) -> Vec<u8> {
    let mut p = vec![0x20, 0x00];
    p.extend_from_slice(extra);
    for w in [buttons, lt, rt] {
        p.extend_from_slice(&w.to_le_bytes());
    }
    for a in axes {
        p.extend_from_slice(&a.to_le_bytes());
    }
    p
}

#[test]
fn words_are_little_endian() {
    assert_eq!(le_u16(&[0x34, 0x12]), 0x1234);
    assert_eq!(le_u16(&[0xFF, 0xFF, 0x01]), 0xFFFF);
    for v in [0i16, 1, -1, 512, -513, i16::MIN, i16::MAX] {
        assert_eq!(le_i16(&v.to_le_bytes()), v);
    }
}

#[test]
fn reads_every_field() {
    let p = packet(&[], 0x1234, 0x0155, 0x02AA, [1, -2, i16::MAX, i16::MIN]);
    let want = ParsedInput { buttons: 0x1234, lt10: 0x155, rt10: 0x2AA, lx: 1, ly: -2, rx: i16::MAX, ry: i16::MIN };
    assert_eq!(parse_gip_input_packet(&p, 0), Ok(want));
}

#[test]
fn triggers_keep_ten_bits() {
    let p = packet(&[], 0, 0xFFFF, 0xFC01, [0; 4]);
    let got = parse_gip_input_packet(&p, 0).unwrap();
    assert_eq!((got.lt10, got.rt10), (0x3FF, 1));
}

#[test]
fn gives_back_input_at_any_offset() {
    for extra in 0..9usize {
        let mut p = packet(&vec![0xEE; extra], 0x0810, 5, 1023, [-300, 7, 0, 32767]);
        p.extend_from_slice(&[0xAB, 0xCD]);
        let want = ParsedInput { buttons: 0x0810, lt10: 5, rt10: 1023, lx: -300, ly: 7, rx: 0, ry: 32767 };
        assert_eq!(parse_gip_input_packet(&p, extra), Ok(want));
    }
}

#[test]
fn short_packets_are_refused() {
    assert_eq!(parse_gip_input_packet(&[], 0), Err(ParseError::PacketTooShort));
    assert_eq!(parse_gip_input_packet(&[0x20], 0), Err(ParseError::PacketTooShort));
    assert_eq!(parse_gip_input_packet(&[0x07], 3), Err(ParseError::PacketTooShort));
    assert_eq!(ParseError::PacketTooShort.message(), "packet too short");
}

#[test]
fn other_commands_are_refused() {
    let e = parse_gip_input_packet(&[0x07, 0x20], 0).unwrap_err();
    assert_eq!(e, ParseError::UnexpectedCommand { command: 7 });
    for command in 0..=255u8 {
        let e = ParseError::UnexpectedCommand { command };
        assert_eq!(e.message(), format!("unexpected command byte 0x{command:02X}"));
    }
}

#[test]
fn short_payloads_are_refused() {
    let p = packet(&[], 0, 0, 0, [0; 4]);
    let e = parse_gip_input_packet(&p[..15], 0).unwrap_err();
    assert_eq!(e, ParseError::PayloadTooShort { len: 13, needed: 14 });
    assert_eq!(e.message(), "payload too short: 13 bytes (need at least 14)");
    let e = parse_gip_input_packet(&p, 2).unwrap_err();
    assert_eq!(e, ParseError::PayloadTooShort { len: 14, needed: 16 });
    let e = ParseError::PayloadTooShort { len: 0, needed: usize::MAX };
    assert_eq!(e.message(), format!("payload too short: 0 bytes (need at least {})", usize::MAX));
}

#[test]
fn parsing_succeeds_exactly_on_whole_blocks() {
    let p = packet(&[1, 2, 3, 4, 5, 6], 0, 0, 0, [0; 4]);
    for len in 2..=p.len() {
        for off in 0..10usize {
            assert_eq!(parse_gip_input_packet(&p[..len], off).is_ok(), len - 2 >= off + 14);
        }
    }
}

#[test]
fn no_input_is_all_zero() {
    let p = packet(&[], 0, 0, 0, [0; 4]);
    assert_eq!(parse_gip_input_packet(&p, 0), Ok(ParsedInput::default()));
    assert_eq!(GIP_INIT_PACKET, [0x05, 0x20, 0x00, 0x01, 0x00]);
}
