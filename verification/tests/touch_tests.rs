use maimai_touch::image_access::PanelImage;
use maimai_touch::serial::SerialManager;
use maimai_touch::touch::{convert, LineAction, TouchSlot, TouchTracker};
use maimai_touch::zone::ZoneLookup;

fn feed(t: &mut TouchTracker, line: &str) -> LineAction {
    t.handle_line(line, false)
}

#[test]
fn tracker_reports_after_changes() {
    let mut t = TouchTracker::new(2);
    assert_eq!(feed(&mut t, "/dev/input/event5: EV_SYN SYN_REPORT 00000000"), LineAction::Ignore);
    assert_eq!(feed(&mut t, "/dev/input/event5: EV_ABS ABS_MT_TRACKING_ID 00000010"), LineAction::Ignore);
    assert_eq!(feed(&mut t, "/dev/input/event5: EV_ABS ABS_MT_POSITION_X 00000064"), LineAction::Ignore);
    assert_eq!(feed(&mut t, "/dev/input/event5: EV_ABS ABS_MT_POSITION_Y 000000c8"), LineAction::Ignore);
    assert_eq!(feed(&mut t, "/dev/input/event5: EV_SYN SYN_REPORT 00000000"), LineAction::Report);
    assert_eq!(feed(&mut t, "/dev/input/event5: EV_SYN SYN_REPORT 00000000"), LineAction::Ignore);
    assert_eq!(
        t.pressed_slots(),
        vec![TouchSlot { pressed: true, x: 100, x_reversed: false, y: 200, y_reversed: false }]
    );
}

#[test]
fn tracker_slots_and_release() {
    let mut t = TouchTracker::new(2);
    feed(&mut t, "e: EV_ABS ABS_MT_SLOT 00000001");
    feed(&mut t, "e: EV_ABS ABS_MT_TRACKING_ID 00000003");
    assert!(t.handle_line("e: EV_ABS ABS_MT_POSITION_X 00000005", true) == LineAction::Ignore);
    feed(&mut t, "e: EV_SYN SYN_REPORT 00000000");
    assert_eq!(t.slots()[0], TouchSlot::default());
    assert_eq!(t.slots()[1], TouchSlot { pressed: true, x: 5, x_reversed: true, y: 0, y_reversed: false });
    feed(&mut t, "e: EV_ABS ABS_MT_TRACKING_ID ffffffff");
    assert_eq!(feed(&mut t, "e: EV_SYN SYN_REPORT 00000000"), LineAction::Report);
    assert!(t.pressed_slots().is_empty());
}

#[test]
fn tracker_ignores_out_of_range_slots_but_notes_the_change() {
    let mut t = TouchTracker::new(1);
    feed(&mut t, "e: EV_ABS ABS_MT_SLOT 00000005");
    feed(&mut t, "e: EV_ABS ABS_MT_TRACKING_ID 00000001");
    assert_eq!(feed(&mut t, "e: EV_SYN SYN_REPORT 00000000"), LineAction::Report);
    assert_eq!(t.slots(), &[TouchSlot::default()]);
}

#[test]
fn tracker_shows_device_names() {
    let mut t = TouchTracker::new(1);
    assert_eq!(feed(&mut t, "  name:     \"touchscreen\""), LineAction::ShowLine);
    assert_eq!(feed(&mut t, "add device 1: /dev/input/event5"), LineAction::Ignore);
    assert_eq!(feed(&mut t, "e: EV_SYN SYN_REPORT zz"), LineAction::Ignore);
}

#[test]
fn convert_queues_the_packet_of_seen_zones() {
    // 2 x 1 picture: red then blue.
    let image = PanelImage::from_raw(2, 1, vec![255, 0, 0, 0, 0, 255]).unwrap();
    let lookup = ZoneLookup::new(
        image,
        vec![("255-0-0".to_string(), "A2".to_string()), ("0-0-255".to_string(), "E5".to_string())],
        vec![(1, 0)],
    );
    let mut m = SerialManager::new();
    m.next_update();
    convert(&[(0, 0), (1, 0)], &mut m, &lookup);
    let (packet, mut keys) = m.next_update().unwrap();
    keys.sort();
    assert_eq!(packet, vec![0x28, 0b10, 0, 0, 0, 0, 0, 1, 0x29]);
    assert_eq!(keys, vec!["A2".to_string(), "E5".to_string()]);

    convert(&[], &mut m, &lookup);
    let (packet, keys) = m.next_update().unwrap();
    assert_eq!(packet, SerialManager::build_empty_packet());
    assert!(keys.is_empty());
}

#[test]
fn lines_never_change_the_slot_count() {
    let mut t = TouchTracker::new(3);
    for line in [
        "e: EV_ABS ABS_MT_SLOT 00000002",
        "e: EV_ABS ABS_MT_TRACKING_ID 00000001",
        "e: EV_ABS ABS_MT_SLOT -1",
        "e: EV_ABS ABS_MT_POSITION_Y 00000010",
        "e: EV_SYN SYN_REPORT 00000000",
        "garbage",
    ] {
        t.handle_line(line, false);
        assert_eq!(t.slots().len(), 3);
    }
    assert_eq!(t.pressed_slots().len(), 1);
}
