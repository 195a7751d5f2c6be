//! The state shared between the serial link's threads: the packet the game
//! is currently shown, whether the game has connected, and the queue of
//! touch updates waiting to be written. Also the game's handshake protocol.

use vstd::prelude::*;
use crate::packet::{empty_packet, grid_fits, touch_packet, PACKET_END, PACKET_START};

verus! {

/// A touch update: the packet to send and the names of the touched zones
/// (for display).
pub type TouchUpdate = (Vec<u8>, Vec<String>);

/// Length of a handshake frame sent by the game.
pub const HANDSHAKE_LEN: usize = 6;

/// Abstract state of a [`SerialManager`].
pub struct SerialState {
    /// The packet the writer repeats while the game is connected.
    pub current_packet: Seq<u8>,
    /// Whether the game has connected.
    pub started: bool,
    /// Touch updates not yet written, oldest first.
    pub pending: Seq<(Seq<u8>, Seq<String>)>,
}

/// What the game's handshake frame asks for.
pub enum HandshakeReply {
    /// The game disconnected; the writer stops.
    Disconnected,
    /// The game exchanged settings; this frame is echoed back.
    Settings(Vec<u8>),
    /// The game connected; the writer starts.
    Connected,
    /// The frame is none of the above and is ignored.
    Ignored,
}

/// The state of the serial link that its reader and writer share.
pub struct SerialManager {
    current_packet: Vec<u8>,
    started: bool,
    pending: Vec<TouchUpdate>,
}

/// The abstract view of one touch update.
pub open spec fn update_view(update: TouchUpdate) -> (Seq<u8>, Seq<String>) {
    (update.0@, update.1@)
}

/// The state a link starts in: the empty packet is current and queued once,
/// and the game has not connected.
pub open spec fn initial_state() -> SerialState {
    SerialState {
        current_packet: empty_packet(),
        started: false,
        pending: seq![(empty_packet(), Seq::<String>::empty())],
    }
}

/// The state after a touch update with `packet` and `keys` is queued.
pub open spec fn queued(s: SerialState, packet: Seq<u8>, keys: Seq<String>) -> SerialState {
    SerialState { pending: s.pending.push((packet, keys)), ..s }
}

/// The state after the oldest queued update, if any, is taken: it becomes the
/// current packet.
pub open spec fn taken(s: SerialState) -> SerialState {
    if s.pending.len() == 0 {
        s
    } else {
        SerialState { current_packet: s.pending[0].0, pending: s.pending.drop_first(), ..s }
    }
}

/// The kind of a handshake frame, from its fourth byte: `L` or `E` disconnect,
/// `r` or `k` exchange settings, `A` connects.
pub open spec fn handshake_kind(frame: Seq<u8>) -> int {
    let b = frame[3];
    if b == 76 || b == 69 {
        0
    } else if b == 114 || b == 107 {
        1
    } else if b == 65 {
        2
    } else {
        3
    }
}

/// The settings echo for a frame: its bytes 1 to 4 between the frame bytes.
pub open spec fn settings_echo(frame: Seq<u8>) -> Seq<u8> {
    seq![PACKET_START, frame[1], frame[2], frame[3], frame[4], PACKET_END]
}

/// The state after a handshake frame.
pub open spec fn after_handshake(s: SerialState, frame: Seq<u8>) -> SerialState {
    let k = handshake_kind(frame);
    if k == 0 {
        SerialState { started: false, ..s }
    } else if k == 2 {
        SerialState { started: true, ..s }
    } else {
        s
    }
}

/// What the writer sends in a state: the current packet once the game has
/// connected, nothing before.
pub open spec fn to_send(s: SerialState) -> Option<Seq<u8>> {
    if s.started {
        Some(s.current_packet)
    } else {
        None
    }
}

/// Touch updates are written in the order they were queued: from a state with
/// nothing queued, queuing two updates and taking twice makes the first and
/// then the second packet current, leaving nothing queued.
pub proof fn lemma_updates_in_order(
    s: SerialState,
    first: Seq<u8>,
    first_keys: Seq<String>,
    second: Seq<u8>,
    second_keys: Seq<String>,
)
    requires
        s.pending.len() == 0,
    ensures
        ({
            let q = queued(queued(s, first, first_keys), second, second_keys);
            &&& taken(q).current_packet == first
            &&& taken(taken(q)).current_packet == second
            &&& taken(taken(q)).pending.len() == 0
            &&& taken(taken(q)).started == s.started
        }),
{
    let q = queued(queued(s, first, first_keys), second, second_keys);
    assert(q.pending =~= seq![(first, first_keys), (second, second_keys)]);
    assert(taken(q).pending =~= seq![(second, second_keys)]);
}

/// Queuing loses nothing, from any state: every update already queued stays,
/// in its place, and the new one comes after them.
pub proof fn lemma_queue_keeps_every_update(s: SerialState, packet: Seq<u8>, keys: Seq<String>)
    ensures
        queued(s, packet, keys).pending.len() == s.pending.len() + 1,
        forall|i: int| 0 <= i < s.pending.len() ==> #[trigger] queued(s, packet, keys).pending[i] == s.pending[i],
        queued(s, packet, keys).pending[s.pending.len() as int] == (packet, keys),
        queued(s, packet, keys).current_packet == s.current_packet,
        queued(s, packet, keys).started == s.started,
{
}

/// Taking removes the oldest update and keeps the others in order: from a
/// non-empty queue, the oldest packet becomes current and update `i + 1`
/// becomes update `i`.
pub proof fn lemma_take_oldest(s: SerialState)
    requires
        s.pending.len() > 0,
    ensures
        taken(s).current_packet == s.pending[0].0,
        taken(s).pending.len() == s.pending.len() - 1,
        forall|i: int| 0 <= i < taken(s).pending.len() ==> #[trigger] taken(s).pending[i] == s.pending[i + 1],
        taken(s).started == s.started,
{
}

/// Queuing and taking commute when something is already queued: the update
/// taken is the oldest one, whatever is queued after it.
pub proof fn lemma_queue_then_take(s: SerialState, packet: Seq<u8>, keys: Seq<String>)
    requires
        s.pending.len() > 0,
    ensures
        taken(queued(s, packet, keys)).current_packet == s.pending[0].0,
        taken(queued(s, packet, keys)).pending == taken(s).pending.push((packet, keys)),
{
    assert(taken(queued(s, packet, keys)).pending =~= taken(s).pending.push((packet, keys)));
}

/// The handshake is decided by the fourth byte of the frame: `A` connects,
/// `L` and `E` disconnect, and any other byte leaves the state as it is.
pub proof fn lemma_handshake_bytes(s: SerialState, frame: Seq<u8>)
    requires
        frame.len() == HANDSHAKE_LEN,
    ensures
        frame[3] == 65 ==> after_handshake(s, frame).started,
        frame[3] == 76 || frame[3] == 69 ==> !after_handshake(s, frame).started,
        frame[3] != 65 && frame[3] != 76 && frame[3] != 69 ==> after_handshake(s, frame) == s,
        frame[3] == 114 || frame[3] == 107 ==> settings_echo(frame) == seq![0x28u8, frame[1], frame[2], frame[3], frame[4], 0x29u8],
        after_handshake(s, frame).current_packet == s.current_packet,
        after_handshake(s, frame).pending == s.pending,
{
}

/// A queued update reaches the writer: once the game has connected, taking
/// the only queued update makes the writer send its packet.
pub proof fn lemma_queued_packet_is_sent(s: SerialState, packet: Seq<u8>, keys: Seq<String>)
    requires
        s.pending.len() == 0,
        s.started,
    ensures
        to_send(taken(queued(s, packet, keys))) == Some(packet),
{
    assert(queued(s, packet, keys).pending =~= seq![(packet, keys)]);
}

/// The handshake alone decides whether the writer sends: after a connect
/// frame it sends the current packet, after a disconnect frame nothing, and
/// other frames change nothing.
pub proof fn lemma_handshake_controls_writer(s: SerialState, frame: Seq<u8>)
    requires
        frame.len() == HANDSHAKE_LEN,
    ensures
        handshake_kind(frame) == 2 ==> to_send(after_handshake(s, frame)) == Some(s.current_packet),
        handshake_kind(frame) == 0 ==> to_send(after_handshake(s, frame)) is None,
        handshake_kind(frame) == 1 || handshake_kind(frame) == 3 ==> after_handshake(s, frame) == s,
        after_handshake(s, frame).current_packet == s.current_packet,
        after_handshake(s, frame).pending == s.pending,
{
}

/// A new link sends nothing until the game connects, and the first update
/// it writes is the empty packet.
pub proof fn lemma_initial_state()
    ensures
        to_send(initial_state()) is None,
        taken(initial_state()).current_packet == empty_packet(),
        taken(initial_state()).pending.len() == 0,
{
}

impl View for SerialManager {
    type V = SerialState;

    closed spec fn view(&self) -> SerialState {
        SerialState {
            current_packet: self.current_packet@,
            started: self.started,
            pending: self.pending@.map_values(|u: TouchUpdate| update_view(u)),
        }
    }
}

impl SerialManager {
    /// A link that has not heard from the game, showing the empty packet,
    /// which is also queued to be written once.
    pub fn new() -> (manager: Self)
        ensures
            manager@ == initial_state(),
    {
        let packet = Self::build_empty_packet();
        let first = Self::build_empty_packet();
        let mut pending: Vec<TouchUpdate> = Vec::new();
        pending.push((first, Vec::new()));
        let manager = SerialManager { current_packet: packet, started: false, pending };
        assert(manager@.pending =~= initial_state().pending);
        manager
    }

    /// Queues the packet for `grid` with the touched zone names `touch_keys`.
    pub fn change_touch(&mut self, grid: &[Vec<u8>], touch_keys: Vec<String>)
        requires
            grid_fits(grid.deep_view()),
        ensures
            final(self)@ == queued(old(self)@, touch_packet(grid.deep_view()), touch_keys@),
            final(self)@.pending == old(self)@.pending.push((touch_packet(grid.deep_view()), touch_keys@)),
            final(self)@.current_packet == old(self)@.current_packet,
            final(self)@.started == old(self)@.started,
    {
        let packet = Self::build_touch_packet(grid);
        self.pending.push((packet, touch_keys));
        assert(self@.pending =~= old(self)@.pending.push((touch_packet(grid.deep_view()), touch_keys@)));
    }

    /// Sets whether the game counts as connected.
    pub fn set_started(&mut self, started: bool)
        ensures
            final(self)@ == (SerialState { started, ..old(self)@ }),
    {
        self.started = started;
        assert(self@.pending =~= old(self)@.pending);
    }

    /// Takes the oldest queued update, which becomes the current packet; the
    /// caller writes its packet and shows its zone names.
    pub fn next_update(&mut self) -> (update: Option<TouchUpdate>)
        ensures
            final(self)@ == taken(old(self)@),
            match update {
                Some(u) => old(self)@.pending.len() > 0 && update_view(u) == old(self)@.pending[0],
                None => old(self)@.pending.len() == 0,
            },
    {
        if self.pending.len() == 0 {
            return None;
        }
        let update = self.pending.remove(0);
        self.current_packet = update.0.clone();
        assert(self@.pending =~= old(self)@.pending.drop_first());
        Some(update)
    }

    /// Handles a handshake frame from the game.
    pub fn handle_handshake(&mut self, frame: &[u8]) -> (reply: HandshakeReply)
        requires
            frame@.len() == HANDSHAKE_LEN,
        ensures
            final(self)@ == after_handshake(old(self)@, frame@),
            match reply {
                HandshakeReply::Disconnected => handshake_kind(frame@) == 0,
                HandshakeReply::Settings(echo) => handshake_kind(frame@) == 1 && echo@ == settings_echo(frame@),
                HandshakeReply::Connected => handshake_kind(frame@) == 2,
                HandshakeReply::Ignored => handshake_kind(frame@) == 3,
            },
    {
        let byte3 = frame[3];
        if byte3 == 76 || byte3 == 69 {
            self.started = false;
            assert(self@.pending =~= old(self)@.pending);
            HandshakeReply::Disconnected
        } else if byte3 == 114 || byte3 == 107 {
            let mut setting_packet: Vec<u8> = vec![PACKET_START, 0, 0, 0, 0, PACKET_END];
            let mut i: usize = 1;
            while i < 5
                invariant
                    1 <= i <= 5,
                    frame@.len() == HANDSHAKE_LEN,
                    setting_packet@.len() == 6,
                    setting_packet@[0] == PACKET_START,
                    setting_packet@[5] == PACKET_END,
                    forall|k: int| 1 <= k < i ==> setting_packet@[k] == frame@[k],
                decreases 5 - i,
            {
                setting_packet.set(i, frame[i]);
                i = i + 1;
            }
            assert(setting_packet@ =~= settings_echo(frame@));
            HandshakeReply::Settings(setting_packet)
        } else if byte3 == 65 {
            self.started = true;
            assert(self@.pending =~= old(self)@.pending);
            HandshakeReply::Connected
        } else {
            HandshakeReply::Ignored
        }
    }

    /// The packet the writer sends now: the current packet once the game has
    /// connected, nothing before.
    pub fn packet_to_send(&self) -> (packet: Option<Vec<u8>>)
        ensures
            match packet {
                Some(p) => to_send(self@) == Some(p@),
                None => to_send(self@) is None,
            },
    {
        if self.started {
            Some(self.current_packet.clone())
        } else {
            None
        }
    }
}

} // verus!
