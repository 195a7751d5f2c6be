//! Zone detection: a touch point is mapped to panel zones by sampling the
//! colour of the panel picture at the point and on a circle around it, and
//! looking the colours up in the configured colour table.

use vstd::prelude::*;
use crate::image_access::{
    image_height, image_pixel, image_width, rgb_image_height, rgb_image_pixel, rgb_image_width,
    PanelImage,
};
use crate::layout::{color_key_text, group_len, pixel_to_key, zone_index, zone_name, zone_name_string};

verus! {

/// The zone configured for colour key `key`: the value of the first entry of
/// `table` whose key is `key`.
pub open spec fn table_zone(table: Seq<(String, String)>, key: Seq<char>) -> Option<Seq<char>>
    decreases table.len(),
{
    if table.len() == 0 {
        None
    } else if table[0].0@ == key {
        Some(table[0].1@)
    } else {
        table_zone(table.drop_first(), key)
    }
}

/// Whether `names` holds a string equal to `name`.
pub open spec fn names_contain(names: Seq<String>, name: Seq<char>) -> bool {
    exists|i: int| 0 <= i < names.len() && #[trigger] names[i]@ == name
}

/// Whether no two strings of `names` are equal.
pub open spec fn names_distinct(names: Seq<String>) -> bool {
    forall|i: int, j: int| 0 <= i < j < names.len() ==> #[trigger] names[i]@ != #[trigger] names[j]@
}

/// Zone lookup over a picture of the panel.
pub struct ZoneLookup {
    image: PanelImage,
    color_to_zone: Vec<(String, String)>,
    offsets: Vec<(i32, i32)>,
}

impl ZoneLookup {
    /// The picture zone colours are read from.
    pub closed spec fn image_spec(&self) -> PanelImage {
        self.image
    }

    /// The colour table: colour keys `r-g-b` with their zone names.
    pub closed spec fn colors_spec(&self) -> Seq<(String, String)> {
        self.color_to_zone@
    }

    /// The sampling offsets around a touch point.
    pub closed spec fn offsets_spec(&self) -> Seq<(i32, i32)> {
        self.offsets@
    }

    /// The zone seen at pixel `(px, py)`: none outside the picture (whose
    /// dimensions are taken as `i32`), else the zone of the pixel's colour key.
    pub open spec fn zone_at(&self, px: int, py: int) -> Option<Seq<char>> {
        let w = image_width(self.image_spec()) as i32;
        let h = image_height(self.image_spec()) as i32;
        if 0 <= px < w && 0 <= py < h {
            table_zone(
                self.colors_spec(),
                color_key_text(image_pixel(self.image_spec(), px as u32, py as u32)),
            )
        } else {
            None
        }
    }

    /// Whether sampling around `(x, y)` (the point itself and each offset from
    /// it) sees zone `zone`.
    pub open spec fn sees_zone(&self, x: int, y: int, zone: Seq<char>) -> bool {
        ||| self.zone_at(x, y) == Some(zone)
        ||| exists|i: int|
            0 <= i < self.offsets_spec().len() && #[trigger] self.zone_at(
                x + self.offsets_spec()[i].0,
                y + self.offsets_spec()[i].1,
            ) == Some(zone)
    }

    /// Whether every sample point around `(x, y)` fits in `i32`.
    pub open spec fn samples_fit(&self, x: int, y: int) -> bool {
        forall|i: int|
            0 <= i < self.offsets_spec().len() ==> {
                &&& i32::MIN <= x + #[trigger] self.offsets_spec()[i].0 <= i32::MAX
                &&& i32::MIN <= y + self.offsets_spec()[i].1 <= i32::MAX
            }
    }

    /// Makes a lookup over `image` with the colour table `zone_colors` (colour
    /// key `r-g-b` to zone name) and the sampling offsets around a touch point.
    pub fn new(image: PanelImage, zone_colors: Vec<(String, String)>, offsets: Vec<(i32, i32)>) -> (lookup: Self)
        ensures
            lookup.image_spec() == image,
            lookup.colors_spec() == zone_colors@,
            lookup.offsets_spec() == offsets@,
    {
        ZoneLookup { image, color_to_zone: zone_colors, offsets }
    }

    /// The sampling offsets around a touch point.
    pub fn offsets(&self) -> (offsets: &[(i32, i32)])
        ensures
            offsets@ == self.offsets_spec(),
    {
        self.offsets.as_slice()
    }

    /// The zone configured for colour key `key`.
    fn zone_for_key(&self, key: &String) -> (zone: Option<String>)
        ensures
            match zone {
                Some(z) => table_zone(self.colors_spec(), key@) == Some(z@),
                None => table_zone(self.colors_spec(), key@) is None,
            },
    {
        let mut i: usize = 0;
        assert(self.colors_spec().skip(0) =~= self.colors_spec());
        while i < self.color_to_zone.len()
            invariant
                i <= self.color_to_zone@.len(),
                table_zone(self.colors_spec(), key@) == table_zone(self.colors_spec().skip(i as int), key@),
            decreases self.color_to_zone@.len() - i,
        {
            let ghost rest = self.colors_spec().skip(i as int);
            assert(rest[0] == self.color_to_zone@[i as int]);
            if self.color_to_zone[i].0 == *key {
                return Some(self.color_to_zone[i].1.clone());
            }
            assert(rest.drop_first() =~= self.colors_spec().skip(i + 1));
            i = i + 1;
        }
        None
    }

    /// The zone seen at pixel `(px, py)`.
    fn sample(&self, px: i32, py: i32) -> (zone: Option<String>)
        ensures
            match zone {
                Some(z) => self.zone_at(px as int, py as int) == Some(z@),
                None => self.zone_at(px as int, py as int) is None,
            },
    {
        let w = rgb_image_width(&self.image) as i32;
        let h = rgb_image_height(&self.image) as i32;
        if px >= 0 && px < w && py >= 0 && py < h {
            let pixel = rgb_image_pixel(&self.image, px as u32, py as u32);
            let key = pixel_to_key(pixel);
            self.zone_for_key(&key)
        } else {
            None
        }
    }

    /// The zones seen around the touch point `(x, y)`: the pixel at the
    /// point and the pixels at each sampling offset from it, each without
    /// repetition.
    pub fn lookup_zones(&self, x: i32, y: i32) -> (zones: Vec<String>)
        requires
            self.samples_fit(x as int, y as int),
        ensures
            names_distinct(zones@),
            forall|z: Seq<char>| names_contain(zones@, z) <==> self.sees_zone(x as int, y as int, z),
            forall|z: Seq<char>| self.zone_at(x as int, y as int) == Some(z) ==> #[trigger] names_contain(zones@, z),
            forall|i: int, z: Seq<char>|
                #![trigger self.zone_at(x + self.offsets_spec()[i].0, y + self.offsets_spec()[i].1), names_contain(zones@, z)]
                0 <= i < self.offsets_spec().len() && self.zone_at(
                    x + self.offsets_spec()[i].0,
                    y + self.offsets_spec()[i].1,
                ) == Some(z) ==> names_contain(zones@, z),
    {
        let mut zones: Vec<String> = Vec::new();
        if let Some(z) = self.sample(x, y) {
            insert_name(&mut zones, z);
        }
        let mut i: usize = 0;
        while i < self.offsets.len()
            invariant
                i <= self.offsets_spec().len(),
                self.samples_fit(x as int, y as int),
                names_distinct(zones@),
                forall|z: Seq<char>|
                    names_contain(zones@, z) <==> (self.zone_at(x as int, y as int) == Some(z)
                        || exists|k: int|
                        0 <= k < i && #[trigger] self.zone_at(
                            x + self.offsets_spec()[k].0,
                            y + self.offsets_spec()[k].1,
                        ) == Some(z)),
            decreases self.offsets_spec().len() - i,
        {
            let (dx, dy) = self.offsets[i];
            assert(self.offsets_spec()[i as int] == (dx, dy));
            let px = x + dx;
            let py = y + dy;
            let found = self.sample(px, py);
            let ghost before = zones@;
            if let Some(z) = found {
                insert_name(&mut zones, z);
            }
            assert forall|z: Seq<char>|
                names_contain(zones@, z) <==> (self.zone_at(x as int, y as int) == Some(z)
                    || exists|k: int|
                    0 <= k < i + 1 && #[trigger] self.zone_at(
                        x + self.offsets_spec()[k].0,
                        y + self.offsets_spec()[k].1,
                    ) == Some(z)) by {
                if exists|k: int|
                    0 <= k < i + 1 && #[trigger] self.zone_at(
                        x + self.offsets_spec()[k].0,
                        y + self.offsets_spec()[k].1,
                    ) == Some(z) {
                    let k = choose|k: int|
                        0 <= k < i + 1 && #[trigger] self.zone_at(
                            x + self.offsets_spec()[k].0,
                            y + self.offsets_spec()[k].1,
                        ) == Some(z);
                    if k < i {
                        assert(names_contain(before, z));
                    }
                }
            }
            i = i + 1;
        }
        zones
    }

    /// The zone grid of the layout for the set of touched zone names: group
    /// `g` has one entry per zone of the group, `1` when its name is touched
    /// and `0` otherwise.
    pub fn zones_to_grid(touched: &[String]) -> (grid: Vec<Vec<u8>>)
        ensures
            grid.deep_view() == zone_grid(touched@),
    {
        let mut grid: Vec<Vec<u8>> = Vec::new();
        let mut g: usize = 0;
        while g < 7
            invariant
                g <= 7,
                grid@.len() == g,
                forall|k: int| 0 <= k < g ==> grid_group_matches(touched@, k, #[trigger] grid@[k]@),
            decreases 7 - g,
        {
            let len: usize = if g < 6 { 5 } else { 4 };
            let mut group: Vec<u8> = Vec::new();
            let mut j: usize = 0;
            while j < len
                invariant
                    g < 7,
                    len == group_len(g as int),
                    j <= len,
                    group@.len() == j,
                    forall|m: int| 0 <= m < j ==> #[trigger] group@[m] == zone_flag(touched@, zone_index(g as int, m)),
                decreases len - j,
            {
                let name = zone_name_string(5 * g + j);
                let flag: u8 = if contains_name(touched, &name) { 1 } else { 0 };
                group.push(flag);
                j = j + 1;
            }
            let ghost before = grid@;
            grid.push(group);
            assert(grid_group_matches(touched@, g as int, grid@[g as int]@));
            assert forall|k: int| 0 <= k < g + 1 implies grid_group_matches(touched@, k, #[trigger] grid@[k]@) by {
                if k < g {
                    assert(grid@[k] == before[k]);
                }
            }
            g = g + 1;
        }
        assert forall|k: int| 0 <= k < 7 implies #[trigger] grid.deep_view()[k] == zone_grid(touched@)[k] by {
            assert(grid_group_matches(touched@, k, grid@[k]@));
            assert(grid.deep_view()[k] == grid@[k]@);
            assert(grid@[k]@ =~= zone_grid(touched@)[k]);
        }
        assert(grid.deep_view() =~= zone_grid(touched@));
        grid
    }
}

/// `1` when the zone with index `z` is named in `touched`, else `0`.
pub open spec fn zone_flag(touched: Seq<String>, z: int) -> u8 {
    if names_contain(touched, zone_name(z)) {
        1
    } else {
        0
    }
}

/// The zone grid for the touched zone names `touched`: seven groups in layout
/// order, each with one flag per zone, `1` when the zone's name is touched.
pub open spec fn zone_grid(touched: Seq<String>) -> Seq<Seq<u8>> {
    Seq::new(
        7,
        |g: int| Seq::new(group_len(g) as nat, |j: int| zone_flag(touched, zone_index(g, j))),
    )
}

/// Whether `group` is group `g` of the zone grid for `touched`: one flag per
/// zone of the group, in layout order.
pub open spec fn grid_group_matches(touched: Seq<String>, g: int, group: Seq<u8>) -> bool {
    &&& group.len() == group_len(g)
    &&& forall|j: int| 0 <= j < group_len(g) ==> #[trigger] group[j] == zone_flag(touched, zone_index(g, j))
}

/// The zone under the touch point itself is always seen, whatever the
/// sampling offsets.
pub proof fn lemma_center_is_seen(lookup: ZoneLookup, x: int, y: int, zone: Seq<char>)
    requires
        lookup.zone_at(x, y) == Some(zone),
    ensures
        lookup.sees_zone(x, y, zone),
{
}

/// The zone at each sampling offset from the touch point is seen.
pub proof fn lemma_offset_is_seen(lookup: ZoneLookup, x: int, y: int, i: int, zone: Seq<char>)
    requires
        0 <= i < lookup.offsets_spec().len(),
        lookup.zone_at(x + lookup.offsets_spec()[i].0, y + lookup.offsets_spec()[i].1) == Some(zone),
    ensures
        lookup.sees_zone(x, y, zone),
{
}

/// Only sampled pixels are seen: a seen zone is the zone of the touch point
/// or of one of the offsets from it.
pub proof fn lemma_seen_is_sampled(lookup: ZoneLookup, x: int, y: int, zone: Seq<char>)
    requires
        lookup.sees_zone(x, y, zone),
    ensures
        lookup.zone_at(x, y) == Some(zone) || exists|i: int|
            0 <= i < lookup.offsets_spec().len() && lookup.zone_at(
                x + lookup.offsets_spec()[i].0,
                y + lookup.offsets_spec()[i].1,
            ) == Some(zone),
{
}

/// Pixels outside the picture show no zone.
pub proof fn lemma_outside_has_no_zone(lookup: ZoneLookup, px: int, py: int)
    requires
        !(0 <= px < image_width(lookup.image_spec()) as i32 && 0 <= py < image_height(lookup.image_spec()) as i32),
    ensures
        lookup.zone_at(px, py) is None,
{
}

/// A pixel inside the picture shows the zone of the first table entry whose
/// key is the pixel's `r-g-b` text, and no zone when no entry has that key.
pub proof fn lemma_pixel_zone(lookup: ZoneLookup, px: int, py: int, i: int)
    requires
        0 <= px < image_width(lookup.image_spec()) as i32,
        0 <= py < image_height(lookup.image_spec()) as i32,
    ensures
        ({
            let key = color_key_text(image_pixel(lookup.image_spec(), px as u32, py as u32));
            let table = lookup.colors_spec();
            &&& (0 <= i < table.len() && table[i].0@ == key && forall|k: int| 0 <= k < i ==> table[k].0@ != key)
                ==> lookup.zone_at(px, py) == Some(table[i].1@)
            &&& (forall|k: int| 0 <= k < table.len() ==> table[k].0@ != key) ==> lookup.zone_at(px, py) is None
        }),
{
    let key = color_key_text(image_pixel(lookup.image_spec(), px as u32, py as u32));
    let table = lookup.colors_spec();
    if 0 <= i < table.len() && table[i].0@ == key && forall|k: int| 0 <= k < i ==> table[k].0@ != key {
        lemma_table_zone_first(table, key, i);
    }
    if forall|k: int| 0 <= k < table.len() ==> table[k].0@ != key {
        lemma_table_zone_absent(table, key);
    }
}

/// The colour table maps a key to the zone of its first entry with that key,
/// and to nothing when no entry has it.
pub proof fn lemma_table_zone_first(table: Seq<(String, String)>, key: Seq<char>, i: int)
    requires
        0 <= i < table.len(),
        table[i].0@ == key,
        forall|k: int| 0 <= k < i ==> table[k].0@ != key,
    ensures
        table_zone(table, key) == Some(table[i].1@),
    decreases i,
{
    if i > 0 {
        assert forall|k: int| 0 <= k < i - 1 implies table.drop_first()[k].0@ != key by {
            assert(table.drop_first()[k] == table[k + 1]);
        }
        lemma_table_zone_first(table.drop_first(), key, i - 1);
    }
}

/// A key no entry has maps to no zone.
pub proof fn lemma_table_zone_absent(table: Seq<(String, String)>, key: Seq<char>)
    requires
        forall|k: int| 0 <= k < table.len() ==> table[k].0@ != key,
    ensures
        table_zone(table, key) is None,
    decreases table.len(),
{
    if table.len() > 0 {
        assert forall|k: int| 0 <= k < table.len() - 1 implies table.drop_first()[k].0@ != key by {
            assert(table.drop_first()[k] == table[k + 1]);
        }
        lemma_table_zone_absent(table.drop_first(), key);
    }
}

/// Whether `names` holds a string equal to `name`.
fn contains_name(names: &[String], name: &String) -> (found: bool)
    ensures
        found == names_contain(names@, name@),
{
    let mut i: usize = 0;
    while i < names.len()
        invariant
            i <= names@.len(),
            forall|k: int| 0 <= k < i ==> names@[k]@ != name@,
        decreases names@.len() - i,
    {
        if names[i] == *name {
            return true;
        }
        i = i + 1;
    }
    false
}

/// Adds `name` to the distinct names `names` unless it is already there.
pub(crate) fn insert_name(names: &mut Vec<String>, name: String)
    requires
        names_distinct(old(names)@),
    ensures
        names_distinct(final(names)@),
        forall|z: Seq<char>| names_contain(final(names)@, z) <==> (names_contain(old(names)@, z) || z == name@),
{
    if !contains_name(names.as_slice(), &name) {
        let ghost before = names@;
        names.push(name);
        assert forall|z: Seq<char>| names_contain(names@, z) implies (names_contain(before, z) || z == names@[before.len() as int]@) by {
            let i = choose|i: int| 0 <= i < names@.len() && #[trigger] names@[i]@ == z;
            if i < before.len() {
                assert(before[i] == names@[i]);
            }
        }
        assert forall|z: Seq<char>| names_contain(before, z) implies names_contain(names@, z) by {
            let i = choose|i: int| 0 <= i < before.len() && #[trigger] before[i]@ == z;
            assert(names@[i] == before[i]);
        }
        assert(names_contain(names@, name@) ) by {
            assert(names@[before.len() as int]@ == name@);
        }
    }
}

} // verus!
