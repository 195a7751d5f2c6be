use maimai_touch::image_access::PanelImage;
use maimai_touch::layout::{pixel_to_key, zone_name_string};
use maimai_touch::zone::ZoneLookup;

fn sorted(mut v: Vec<String>) -> Vec<String> {
    v.sort();
    v
}

/// A 4 x 3 picture: column 0 red, column 1 green, column 2 blue, column 3 grey.
fn picture() -> PanelImage {
    let mut data = Vec::new();
    for _y in 0..3 {
        data.extend_from_slice(&[255, 0, 0, 0, 255, 0, 0, 0, 255, 7, 7, 7]);
    }
    PanelImage::from_raw(4, 3, data).unwrap()
}

fn table() -> Vec<(String, String)> {
    vec![
        ("255-0-0".to_string(), "A1".to_string()),
        ("0-255-0".to_string(), "B2".to_string()),
        ("0-0-255".to_string(), "C1".to_string()),
    ]
}

#[test]
fn pixel_to_key_is_decimal_rgb() {
    assert_eq!(pixel_to_key((255, 0, 0)), "255-0-0");
    assert_eq!(pixel_to_key((0, 12, 100)), "0-12-100");
    assert_eq!(pixel_to_key((9, 10, 99)), "9-10-99");
}

#[test]
fn zone_names_follow_layout_order() {
    let all: Vec<String> = (0..34).map(zone_name_string).collect();
    assert_eq!(all[0], "A1");
    assert_eq!(all[7], "A8");
    assert_eq!(all[8], "B1");
    assert_eq!(all[16], "C1");
    assert_eq!(all[17], "C2");
    assert_eq!(all[18], "D1");
    assert_eq!(all[26], "E1");
    assert_eq!(all[33], "E8");
}

#[test]
fn from_raw_refuses_short_data() {
    assert!(PanelImage::from_raw(2, 2, vec![0; 11]).is_none());
    assert!(PanelImage::from_raw(2, 2, vec![0; 12]).is_some());
}

#[test]
fn lookup_center_only() {
    let lookup = ZoneLookup::new(picture(), table(), vec![]);
    assert_eq!(lookup.lookup_zones(0, 1), vec!["A1".to_string()]);
    assert_eq!(lookup.lookup_zones(2, 2), vec!["C1".to_string()]);
    assert!(lookup.lookup_zones(3, 0).is_empty());
    assert!(lookup.lookup_zones(-1, 0).is_empty());
    assert!(lookup.lookup_zones(4, 0).is_empty());
    assert!(lookup.lookup_zones(0, 3).is_empty());
}

#[test]
fn lookup_samples_the_circle_without_repeats() {
    let offsets = vec![(1, 0), (-1, 0), (0, 1), (0, -1), (2, 0)];
    let lookup = ZoneLookup::new(picture(), table(), offsets);
    assert_eq!(
        sorted(lookup.lookup_zones(1, 1)),
        vec!["A1".to_string(), "B2".to_string(), "C1".to_string()]
    );
    // Off-picture samples are skipped; the centre is outside here.
    assert_eq!(sorted(lookup.lookup_zones(-1, 1)), vec!["A1".to_string(), "B2".to_string()]);
}

#[test]
fn lookup_uses_exact_colour_keys() {
    let lookup = ZoneLookup::new(
        picture(),
        vec![("255-000-0".to_string(), "A1".to_string()), ("7-7-7".to_string(), "E8".to_string())],
        vec![],
    );
    assert!(lookup.lookup_zones(0, 0).is_empty());
    assert_eq!(lookup.lookup_zones(3, 0), vec!["E8".to_string()]);
}

#[test]
fn colour_keys_are_unambiguous() {
    let colours = [(1, 11, 1), (11, 1, 1), (1, 1, 11), (111, 1, 1), (11, 11, 1), (0, 0, 0), (255, 255, 255)];
    for (i, a) in colours.iter().enumerate() {
        for (j, b) in colours.iter().enumerate() {
            assert_eq!(pixel_to_key(*a) == pixel_to_key(*b), i == j);
        }
    }
}
