//! The multi-touch (protocol type B) state machine fed with `getevent -l`
//! lines, and the conversion of the pressed contacts into a touch update.

use vstd::prelude::*;
use crate::event::{line_event, parse_line, EventKind, LineEvent};
use crate::packet::{lemma_zone_grid_fits, touch_packet};
use crate::serial::{queued, SerialManager};
use crate::zone::{names_contain, names_distinct, zone_grid, ZoneLookup};




verus! {

/// One contact slot. Positions are kept as the raw event values together
/// with whether the screen was reversed when they were reported; they are
/// scaled to screen pixels by the caller.
#[derive(Clone, Copy, Debug, PartialEq, Eq, Structural)]
pub struct TouchSlot {
    pub pressed: bool,
    pub x: i64,
    pub x_reversed: bool,
    pub y: i64,
    pub y_reversed: bool,
}

impl Default for TouchSlot {
    fn default() -> (slot: Self)
        ensures
            slot == released_slot(),
    {
        TouchSlot { pressed: false, x: 0, x_reversed: false, y: 0, y_reversed: false }
    }
}

/// A released slot at the origin.
pub open spec fn released_slot() -> TouchSlot {
    TouchSlot { pressed: false, x: 0, x_reversed: false, y: 0, y_reversed: false }
}

/// Abstract state of a [`TouchTracker`].
pub struct TrackerState {
    /// The contact slots.
    pub slots: Seq<TouchSlot>,
    /// The slot that position and tracking events apply to.
    pub index: usize,
    /// Whether a contact changed since the last report.
    pub changed: bool,
}

/// What the caller does after a line.
#[derive(Clone, Copy, Debug, PartialEq, Eq, Structural)]
pub enum LineAction {
    /// Nothing.
    Ignore,
    /// Show the line (a device description).
    ShowLine,
    /// Convert the pressed contacts into a touch update.
    Report,
}

/// The state after setting slot `s.index`, when it exists, to `slot`.
pub open spec fn with_current_slot(s: TrackerState, slot: TouchSlot) -> TrackerState {
    if s.index < s.slots.len() {
        TrackerState { slots: s.slots.update(s.index as int, slot), changed: true, ..s }
    } else {
        TrackerState { changed: true, ..s }
    }
}

/// The transition of the tracker on one classified line, with the screen
/// reversed or not, and the action it asks for.
pub open spec fn step(s: TrackerState, event: LineEvent, reverse: bool) -> (TrackerState, LineAction) {
    match event {
        LineEvent::Short { mentions_name } => (
            s,
            if mentions_name {
                LineAction::ShowLine
            } else {
                LineAction::Ignore
            },
        ),
        LineEvent::BadValue => (s, LineAction::Ignore),
        LineEvent::Event { kind, value, released } => {
            let cur = s.slots[s.index as int];
            match kind {
                EventKind::PositionX => (
                    with_current_slot(s, TouchSlot { x: value, x_reversed: reverse, ..cur }),
                    LineAction::Ignore,
                ),
                EventKind::PositionY => (
                    with_current_slot(s, TouchSlot { y: value, y_reversed: reverse, ..cur }),
                    LineAction::Ignore,
                ),
                EventKind::TrackingId => (
                    with_current_slot(s, TouchSlot { pressed: !released, ..cur }),
                    LineAction::Ignore,
                ),
                EventKind::Slot => (
                    TrackerState { index: value as usize, changed: true, ..s },
                    LineAction::Ignore,
                ),
                EventKind::SynReport => if s.changed {
                    (TrackerState { changed: false, ..s }, LineAction::Report)
                } else {
                    (s, LineAction::Ignore)
                },
                EventKind::Other => (s, LineAction::Ignore),
            }
        },
    }
}

/// A line never changes the number of contact slots.
pub proof fn lemma_step_keeps_slot_count(s: TrackerState, event: LineEvent, reverse: bool)
    ensures
        step(s, event, reverse).0.slots.len() == s.slots.len(),
{
}

/// A report is asked for exactly at a `SYN_REPORT` event after a change, and
/// it clears the change; a line that is not an event changes nothing.
pub proof fn lemma_report_after_change(s: TrackerState, event: LineEvent, reverse: bool)
    ensures
        (step(s, event, reverse).1 == LineAction::Report) <==> (s.changed && event matches LineEvent::Event { kind: EventKind::SynReport, .. }),
        step(s, event, reverse).1 == LineAction::Report ==> !step(s, event, reverse).0.changed
            && step(s, event, reverse).0.slots == s.slots,
        !(event is Event) ==> step(s, event, reverse).0 == s,
        (step(s, event, reverse).1 == LineAction::ShowLine) <==> (event matches LineEvent::Short { mentions_name } && mentions_name),
{
}

/// A tracking-id event on an existing slot releases it when the value was
/// written `ffffffff` and presses it otherwise, leaving its position.
pub proof fn lemma_tracking_id_presses(s: TrackerState, value: i64, released: bool, reverse: bool)
    requires
        s.index < s.slots.len(),
    ensures
        ({
            let t = step(s, LineEvent::Event { kind: EventKind::TrackingId, value, released }, reverse).0;
            &&& t.slots[s.index as int].pressed == !released
            &&& t.slots[s.index as int].x == s.slots[s.index as int].x
            &&& t.slots[s.index as int].y == s.slots[s.index as int].y
            &&& t.changed
        }),
{
}

/// A position event records the value in the current slot, with the
/// reversal in force, keeps the slot's pressed state and the other slots,
/// and marks a change, so the next `SYN_REPORT` asks for a report.
pub proof fn lemma_position_marks_change(s: TrackerState, kind: EventKind, value: i64, released: bool, reverse: bool)
    requires
        kind == EventKind::PositionX || kind == EventKind::PositionY,
    ensures
        ({
            let t = step(s, LineEvent::Event { kind, value, released }, reverse).0;
            &&& t.changed
            &&& t.index == s.index
            &&& t.slots.len() == s.slots.len()
            &&& step(s, LineEvent::Event { kind, value, released }, reverse).1 == LineAction::Ignore
            &&& step(t, LineEvent::Event { kind: EventKind::SynReport, value: 0, released: false }, reverse).1
                == LineAction::Report
            &&& forall|k: int| 0 <= k < s.slots.len() && k != s.index ==> t.slots[k] == s.slots[k]
            &&& s.index < s.slots.len() ==> {
                let old_slot = s.slots[s.index as int];
                let new_slot = t.slots[s.index as int];
                &&& new_slot.pressed == old_slot.pressed
                &&& kind == EventKind::PositionX ==> new_slot.x == value && new_slot.x_reversed == reverse
                    && new_slot.y == old_slot.y && new_slot.y_reversed == old_slot.y_reversed
                &&& kind == EventKind::PositionY ==> new_slot.y == value && new_slot.y_reversed == reverse
                    && new_slot.x == old_slot.x && new_slot.x_reversed == old_slot.x_reversed
            }
        }),
{
}

/// A slot event selects the slot the following events apply to and marks a
/// change.
pub proof fn lemma_slot_selects(s: TrackerState, value: i64, released: bool, reverse: bool)
    ensures
        ({
            let t = step(s, LineEvent::Event { kind: EventKind::Slot, value, released }, reverse).0;
            &&& t.index == value as usize
            &&& t.changed
            &&& t.slots == s.slots
        }),
{
}

/// Tracks the contacts reported by `getevent -l`.
pub struct TouchTracker {
    slots: Vec<TouchSlot>,
    index: usize,
    changed: bool,
}

impl View for TouchTracker {
    type V = TrackerState;

    closed spec fn view(&self) -> TrackerState {
        TrackerState { slots: self.slots@, index: self.index, changed: self.changed }
    }
}

impl TouchTracker {
    /// A tracker with `max_slot` released slots, pointing at slot 0.
    pub fn new(max_slot: usize) -> (tracker: Self)
        ensures
            tracker@.slots == Seq::new(max_slot as nat, |i: int| released_slot()),
            tracker@.index == 0,
            !tracker@.changed,
    {
        let mut slots: Vec<TouchSlot> = Vec::new();
        let mut i: usize = 0;
        while i < max_slot
            invariant
                i <= max_slot,
                slots@ == Seq::new(i as nat, |k: int| released_slot()),
            decreases max_slot - i,
        {
            slots.push(TouchSlot::default());
            i = i + 1;
            assert(slots@ =~= Seq::new(i as nat, |k: int| released_slot()));
        }
        TouchTracker { slots, index: 0, changed: false }
    }

    /// The contact slots.
    pub fn slots(&self) -> (slots: &[TouchSlot])
        ensures
            slots@ == self@.slots,
    {
        self.slots.as_slice()
    }

    /// The pressed slots, in slot order.
    pub fn pressed_slots(&self) -> (pressed: Vec<TouchSlot>)
        ensures
            pressed@ == self@.slots.filter(|slot: TouchSlot| slot.pressed),
    {
        let mut pressed: Vec<TouchSlot> = Vec::new();
        let mut i: usize = 0;
        while i < self.slots.len()
            invariant
                i <= self.slots@.len(),
                pressed@ == self.slots@.take(i as int).filter(|slot: TouchSlot| slot.pressed),
            decreases self.slots@.len() - i,
        {
            proof {
                reveal_with_fuel(Seq::<_>::filter, 1);
            }
            assert(self.slots@.take(i + 1).drop_last() =~= self.slots@.take(i as int));
            if self.slots[i].pressed {
                pressed.push(self.slots[i]);
            }
            i = i + 1;
        }
        assert(self.slots@.take(i as int) =~= self.slots@);
        pressed
    }

    /// Sets slot `self.index`, when it exists, to `slot`, and notes a change.
    fn set_current(&mut self, slot: TouchSlot)
        ensures
            final(self)@ == with_current_slot(old(self)@, slot),
    {
        if self.index < self.slots.len() {
            self.slots.set(self.index, slot);
        }
        self.changed = true;
    }

    /// Feeds one line of `getevent -l` output, with the screen reversed or
    /// not, and returns what the caller should do.
    pub fn handle_line(&mut self, line: &str, reverse: bool) -> (action: LineAction)
        ensures
            (final(self)@, action) == step(old(self)@, line_event(line@), reverse),
    {
        let event = parse_line(line);
        match event {
            LineEvent::Short { mentions_name } => {
                if mentions_name {
                    LineAction::ShowLine
                } else {
                    LineAction::Ignore
                }
            },
            LineEvent::BadValue => LineAction::Ignore,
            LineEvent::Event { kind, value, released } => {
                match kind {
                    EventKind::PositionX => {
                        if self.index < self.slots.len() {
                            let cur = self.slots[self.index];
                            self.set_current(TouchSlot { x: value, x_reversed: reverse, ..cur });
                        } else {
                            self.changed = true;
                        }
                        LineAction::Ignore
                    },
                    EventKind::PositionY => {
                        if self.index < self.slots.len() {
                            let cur = self.slots[self.index];
                            self.set_current(TouchSlot { y: value, y_reversed: reverse, ..cur });
                        } else {
                            self.changed = true;
                        }
                        LineAction::Ignore
                    },
                    EventKind::TrackingId => {
                        if self.index < self.slots.len() {
                            let cur = self.slots[self.index];
                            self.set_current(TouchSlot { pressed: !released, ..cur });
                        } else {
                            self.changed = true;
                        }
                        LineAction::Ignore
                    },
                    EventKind::Slot => {
                        self.index = value as usize;
                        self.changed = true;
                        LineAction::Ignore
                    },
                    EventKind::SynReport => {
                        if self.changed {
                            self.changed = false;
                            LineAction::Report
                        } else {
                            LineAction::Ignore
                        }
                    },
                    EventKind::Other => LineAction::Ignore,
                }
            },
        }
    }
}

/// Whether the zone lookup sees zone `zone` around any of `points`.
pub open spec fn seen_at_any(lookup: ZoneLookup, points: Seq<(i32, i32)>, zone: Seq<char>) -> bool {
    exists|i: int| 0 <= i < points.len() && #[trigger] lookup.sees_zone(points[i].0 as int, points[i].1 as int, zone)
}

/// Queues on `serial_manager` the touch update for the pressed contacts at
/// screen positions `points`: the zones seen around any point, without
/// repetition, and the packet of their zone grid.
pub fn convert(points: &[(i32, i32)], serial_manager: &mut SerialManager, zone_lookup: &ZoneLookup)
    requires
        forall|i: int| 0 <= i < points@.len() ==> zone_lookup.samples_fit(points@[i].0 as int, #[trigger] points@[i].1 as int),
    ensures
        exists|keys: Seq<String>| {
            &&& names_distinct(keys)
            &&& forall|z: Seq<char>| #[trigger] names_contain(keys, z) <==> seen_at_any(*zone_lookup, points@, z)
            &&& forall|i: int, z: Seq<char>|
                0 <= i < points@.len() && #[trigger] zone_lookup.sees_zone(points@[i].0 as int, points@[i].1 as int, z)
                    ==> names_contain(keys, z)
            &&& forall|z: Seq<char>|
                #[trigger] names_contain(keys, z) ==> exists|i: int|
                    0 <= i < points@.len() && zone_lookup.sees_zone(points@[i].0 as int, points@[i].1 as int, z)
            &&& final(serial_manager)@.pending == old(serial_manager)@.pending.push((touch_packet(zone_grid(keys)), keys))
            &&& final(serial_manager)@.current_packet == old(serial_manager)@.current_packet
            &&& final(serial_manager)@.started == old(serial_manager)@.started
            &&& final(serial_manager)@ == queued(old(serial_manager)@, touch_packet(zone_grid(keys)), keys)
        },
{
    let mut all_zones: Vec<String> = Vec::new();
    let mut i: usize = 0;
    while i < points.len()
        invariant
            i <= points@.len(),
            forall|k: int| 0 <= k < points@.len() ==> zone_lookup.samples_fit(points@[k].0 as int, #[trigger] points@[k].1 as int),
            names_distinct(all_zones@),
            forall|z: Seq<char>| #[trigger] names_contain(all_zones@, z) <==> seen_at_any(*zone_lookup, points@.take(i as int), z),
        decreases points@.len() - i,
    {
        let (x, y) = points[i];
        let zones = zone_lookup.lookup_zones(x, y);
        let ghost before = all_zones@;
        let mut k: usize = 0;
        while k < zones.len()
            invariant
                k <= zones@.len(),
                names_distinct(all_zones@),
                forall|z: Seq<char>| #[trigger] names_contain(all_zones@, z) <==> (names_contain(before, z) || exists|m: int| 0 <= m < k && zones@[m]@ == z),
            decreases zones@.len() - k,
        {
            crate::zone::insert_name(&mut all_zones, zones[k].clone());
            k = k + 1;
        }
        assert forall|z: Seq<char>| #[trigger] names_contain(all_zones@, z) <==> seen_at_any(*zone_lookup, points@.take(i + 1), z) by {
            let pts = points@.take(i + 1);
            assert(pts[i as int] == (x, y));
            if names_contain(all_zones@, z) {
                if names_contain(before, z) {
                    let m = choose|m: int| 0 <= m < i && #[trigger] zone_lookup.sees_zone(points@.take(i as int)[m].0 as int, points@.take(i as int)[m].1 as int, z);
                    assert(pts[m] == points@.take(i as int)[m]);
                } else {
                    let m = choose|m: int| 0 <= m < k && zones@[m]@ == z;
                    assert(names_contain(zones@, z));
                }
            }
            if seen_at_any(*zone_lookup, pts, z) {
                let m = choose|m: int| 0 <= m < pts.len() && #[trigger] zone_lookup.sees_zone(pts[m].0 as int, pts[m].1 as int, z);
                if m < i {
                    assert(points@.take(i as int)[m] == pts[m]);
                    assert(seen_at_any(*zone_lookup, points@.take(i as int), z));
                } else {
                    assert(names_contain(zones@, z));
                    let q = choose|q: int| 0 <= q < zones@.len() && #[trigger] zones@[q]@ == z;
                    assert(exists|m: int| 0 <= m < k && zones@[m]@ == z);
                }
            }
        }
        i = i + 1;
    }
    assert(points@.take(i as int) =~= points@);
    let grid = ZoneLookup::zones_to_grid(all_zones.as_slice());
    proof {
        lemma_zone_grid_fits(all_zones@);
    }
    let ghost keys = all_zones@;
    serial_manager.change_touch(grid.as_slice(), all_zones);
    proof {
        assert forall|i: int, z: Seq<char>|
            0 <= i < points@.len() && #[trigger] zone_lookup.sees_zone(points@[i].0 as int, points@[i].1 as int, z)
                implies names_contain(keys, z) by {
            lemma_every_point_counts(*zone_lookup, points@, i, z);
        }
    }
}

/// Every point counts: a zone seen around any one of the points is seen
/// around the points.
pub proof fn lemma_every_point_counts(lookup: ZoneLookup, points: Seq<(i32, i32)>, i: int, zone: Seq<char>)
    requires
        0 <= i < points.len(),
        lookup.sees_zone(points[i].0 as int, points[i].1 as int, zone),
    ensures
        seen_at_any(lookup, points, zone),
{
}

/// Only the points count: a zone seen around the points is seen around one
/// of them.
pub proof fn lemma_only_points_count(lookup: ZoneLookup, points: Seq<(i32, i32)>, zone: Seq<char>)
    requires
        seen_at_any(lookup, points, zone),
    ensures
        exists|i: int| 0 <= i < points.len() && lookup.sees_zone(points[i].0 as int, points[i].1 as int, zone),
{
}

} // verus!
