use maimai_touch::serial::SerialManager;
use maimai_touch::zone::ZoneLookup;

fn names(list: &[&str]) -> Vec<String> {
    list.iter().map(|s| s.to_string()).collect()
}

#[test]
fn build_touch_packet_packs_bits_per_group() {
    let grid = vec![
        vec![1, 0, 0, 0, 1],
        vec![0, 1, 0, 0, 0],
        vec![0, 0, 0, 0, 0],
        vec![1, 1, 1, 1, 1],
        vec![0, 0, 0, 0, 0],
        vec![0, 0, 0, 0, 0],
        vec![0, 0, 0, 1],
    ];
    let packet = SerialManager::build_touch_packet(&grid);
    assert_eq!(packet, vec![0x28, 0b10001, 0b10, 0, 0b11111, 0, 0, 0b1000, 0x29]);
}

#[test]
fn build_touch_packet_pads_missing_groups() {
    let grid = vec![vec![0, 0, 1]];
    let packet = SerialManager::build_touch_packet(&grid);
    assert_eq!(packet, vec![0x28, 4, 0, 0, 0, 0, 0, 0, 0x29]);
}

#[test]
fn build_touch_packet_ignores_groups_after_the_seventh_and_non_one_flags() {
    let mut grid = vec![vec![2, 1]; 7];
    grid.push(vec![1, 1, 1]);
    let packet = SerialManager::build_touch_packet(&grid);
    assert_eq!(packet, vec![0x28, 2, 2, 2, 2, 2, 2, 2, 0x29]);
}

#[test]
fn build_touch_packet_uses_all_eight_bits() {
    let grid = vec![vec![1; 8]];
    let packet = SerialManager::build_touch_packet(&grid);
    assert_eq!(packet, vec![0x28, 0xff, 0, 0, 0, 0, 0, 0, 0x29]);
}

#[test]
fn build_empty_packet_is_all_zero() {
    assert_eq!(SerialManager::build_empty_packet(), vec![0x28, 0, 0, 0, 0, 0, 0, 0, 0x29]);
}

#[test]
fn zones_to_grid_follows_the_layout() {
    let grid = ZoneLookup::zones_to_grid(&names(&["A1", "B2", "E8", "C1", "X9"]));
    assert_eq!(
        grid,
        vec![
            vec![1, 0, 0, 0, 0],
            vec![0, 0, 0, 0, 1],
            vec![0, 0, 0, 0, 0],
            vec![0, 1, 0, 0, 0],
            vec![0, 0, 0, 0, 0],
            vec![0, 0, 0, 0, 0],
            vec![0, 0, 0, 1],
        ]
    );
}

#[test]
fn each_zone_is_one_bit_of_the_packet() {
    let layout = [
        ["A1", "A2", "A3", "A4", "A5"].as_slice(),
        &["A6", "A7", "A8", "B1", "B2"],
        &["B3", "B4", "B5", "B6", "B7"],
        &["B8", "C1", "C2", "D1", "D2"],
        &["D3", "D4", "D5", "D6", "D7"],
        &["D8", "E1", "E2", "E3", "E4"],
        &["E5", "E6", "E7", "E8"],
    ];
    for (g, group) in layout.iter().enumerate() {
        for (j, zone) in group.iter().enumerate() {
            let grid = ZoneLookup::zones_to_grid(&names(&[zone]));
            let packet = SerialManager::build_touch_packet(&grid);
            let mut expected = vec![0x28u8, 0, 0, 0, 0, 0, 0, 0, 0x29];
            expected[g + 1] = 1 << j;
            assert_eq!(packet, expected, "zone {}", zone);
        }
    }
}

#[test]
fn zones_to_grid_of_nothing_is_empty() {
    let grid = ZoneLookup::zones_to_grid(&[]);
    assert_eq!(SerialManager::build_touch_packet(&grid), SerialManager::build_empty_packet());
}

#[test]
fn build_touch_packet_accepts_long_groups_without_high_flags() {
    let grid = vec![vec![1, 0, 0, 0, 0, 0, 0, 1, 0, 2, 0]];
    let packet = SerialManager::build_touch_packet(&grid);
    assert_eq!(packet, vec![0x28, 0x81, 0, 0, 0, 0, 0, 0, 0x29]);
}
