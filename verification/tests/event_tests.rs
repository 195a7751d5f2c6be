use maimai_touch::event::{parse_hex, parse_line, split_words, str_chars, EventKind, LineEvent};

fn hex(s: &str) -> Option<i64> {
    parse_hex(&str_chars(s))
}

#[test]
fn parse_hex_matches_from_str_radix() {
    for s in [
        "0", "ffffffff", "000003a8", "+1f", "-1f", "7fffffffffffffff", "8000000000000000",
        "-8000000000000000", "-8000000000000001", "", "+", "-", "g", "1g", "00000000000000000001",
        "ABCDEF", "+-1", "12345678901234567",
    ] {
        assert_eq!(hex(s), i64::from_str_radix(s, 16).ok(), "{:?}", s);
    }
}

#[test]
fn split_words_splits_on_white_space() {
    let words: Vec<String> = split_words(&str_chars("  a\tbc \u{3000} d  "))
        .into_iter()
        .map(|w| w.into_iter().collect())
        .collect();
    assert_eq!(words, vec!["a", "bc", "d"]);
}

#[test]
fn parse_position_line() {
    let e = parse_line("/dev/input/event5: EV_ABS       ABS_MT_POSITION_X    000003a8");
    assert_eq!(e, LineEvent::Event { kind: EventKind::PositionX, value: 0x3a8, released: false });
}

#[test]
fn parse_release_line() {
    let e = parse_line("/dev/input/event5: EV_ABS       ABS_MT_TRACKING_ID   ffffffff");
    assert_eq!(e, LineEvent::Event { kind: EventKind::TrackingId, value: 0xffffffff, released: true });
}

#[test]
fn parse_other_kinds() {
    assert_eq!(
        parse_line("/dev/input/event5: EV_SYN       SYN_REPORT           00000000"),
        LineEvent::Event { kind: EventKind::SynReport, value: 0, released: false }
    );
    assert_eq!(
        parse_line("/dev/input/event5: EV_ABS ABS_MT_SLOT 00000001"),
        LineEvent::Event { kind: EventKind::Slot, value: 1, released: false }
    );
    assert_eq!(
        parse_line("/dev/input/event5: EV_KEY BTN_TOUCH DOWN"),
        LineEvent::BadValue
    );
    assert_eq!(
        parse_line("/dev/input/event5: EV_ABS ABS_MT_PRESSURE 0000001f"),
        LineEvent::Event { kind: EventKind::Other, value: 0x1f, released: false }
    );
}

#[test]
fn parse_short_lines() {
    assert_eq!(parse_line("  name:     \"goodix_ts\""), LineEvent::Short { mentions_name: true });
    assert_eq!(parse_line("add device 1: /dev/input/event5"), LineEvent::BadValue);
    assert_eq!(parse_line("could not get driver version"), LineEvent::BadValue);
    assert_eq!(parse_line("could not open"), LineEvent::Short { mentions_name: false });
    assert_eq!(parse_line(""), LineEvent::Short { mentions_name: false });
}
