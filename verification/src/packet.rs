//! The 9-byte touch packet sent to the game: a `(` frame byte, seven
//! bit-packed group bytes and a `)` frame byte.

use vstd::prelude::*;
use vstd::arithmetic::power2::*;
use vstd::arithmetic::div_mod::*;
use crate::serial::SerialManager;
use crate::layout::{group_len, zone_index, zone_name};
use crate::zone::{names_contain, zone_grid, ZoneLookup};

verus! {

/// First byte of every touch packet (`(`).
pub const PACKET_START: u8 = 0x28;

/// Last byte of every touch packet (`)`).
pub const PACKET_END: u8 = 0x29;

/// Number of bit-packed group bytes in a touch packet.
pub const GROUP_COUNT: usize = 7;

/// The byte that encodes one group: bit `j` is set exactly when entry `j` is `1`.
pub open spec fn group_byte(group: Seq<u8>) -> nat
    decreases group.len(),
{
    if group.len() == 0 {
        0
    } else {
        group_byte(group.drop_last()) + if group.last() == 1 {
            pow2((group.len() - 1) as nat)
        } else {
            0
        }
    }
}

/// Groups that fit in a byte: no entry past the eighth is `1`.
pub open spec fn group_fits(group: Seq<u8>) -> bool {
    forall|j: int| 8 <= j < group.len() ==> #[trigger] group[j] != 1
}

/// Grids the packet encoder accepts: each of the first seven groups fits in
/// a byte.
pub open spec fn grid_fits(grid: Seq<Seq<u8>>) -> bool {
    forall|g: int| 0 <= g < grid.len() && g < GROUP_COUNT ==> group_fits(#[trigger] grid[g])
}

/// Payload byte `g` of the packet for `grid`; missing groups encode as 0.
pub open spec fn payload_byte(grid: Seq<Seq<u8>>, g: int) -> nat {
    if 0 <= g < grid.len() {
        group_byte(grid[g])
    } else {
        0
    }
}

/// The packet for `grid`.
pub open spec fn touch_packet(grid: Seq<Seq<u8>>) -> Seq<u8> {
    seq![PACKET_START] + Seq::new(GROUP_COUNT as nat, |g: int| payload_byte(grid, g) as u8) + seq![
        PACKET_END,
    ]
}

/// A group of at most eight entries encodes below `2^len`, so in one byte.
pub proof fn lemma_group_byte_bound(group: Seq<u8>)
    ensures
        group_byte(group) < pow2(group.len()),
    decreases group.len(),
{
    if group.len() == 0 {
        lemma2_to64();
    } else {
        lemma_group_byte_bound(group.drop_last());
        lemma_pow2_unfold(group.len());
    }
}

/// A group that fits in a byte encodes below 256.
pub proof fn lemma_group_byte_fits(group: Seq<u8>)
    requires
        group_fits(group),
    ensures
        group_byte(group) < 256,
    decreases group.len(),
{
    if group.len() <= 8 {
        lemma_group_byte_bound(group);
        lemma2_to64();
        if group.len() < 8 {
            lemma_pow2_strictly_increases(group.len(), 8);
        }
    } else {
        assert(group.last() != 1);
        lemma_group_byte_fits(group.drop_last());
    }
}

/// Bit `j` of a byte value (counting from the least significant bit).
pub open spec fn byte_bit(byte: nat, j: nat) -> bool {
    (byte / pow2(j)) % 2 == 1
}

/// Bit `j` of a group's byte is set exactly when entry `j` of the group is `1`.
pub proof fn lemma_group_byte_bits(group: Seq<u8>, j: nat)
    ensures
        byte_bit(group_byte(group), j) == (j < group.len() && group[j as int] == 1),
    decreases group.len(),
{
    let n = group.len();
    lemma_pow2_pos(j);
    let d = pow2(j) as int;
    if n == 0 {
        assert(group_byte(group) == 0);
        lemma_div_of0(d);
    } else if j >= n {
        lemma_group_byte_bound(group);
        if j > n {
            lemma_pow2_strictly_increases(n, j);
        }
        lemma_basic_div_specific_divisor(d);
        assert(group_byte(group) as int / d == 0);
    } else {
        let rest = group.drop_last();
        let b0 = group_byte(rest) as int;
        let c: int = if group.last() == 1 { 1 } else { 0 };
        let p = pow2((n - 1 - j) as nat) as int;
        lemma_pow2_adds(j, (n - 1 - j) as nat);
        assert(pow2((n - 1) as nat) as int == d * p);
        assert(group_byte(group) as int == b0 + c * (d * p));
        lemma_fundamental_div_mod(b0, d);
        lemma_mod_bound(b0, d);
        let q = c * p + b0 / d;
        assert(c * (d * p) == d * (c * p)) by (nonlinear_arith);
        assert(d * q == d * (c * p) + d * (b0 / d)) by (nonlinear_arith)
            requires
                q == c * p + b0 / d,
        ;
        assert(group_byte(group) as int == d * q + b0 % d);
        lemma_div_multiples_vanish_fancy(q, b0 % d, d);
        assert(group_byte(group) as int / d == q);
        if j == n - 1 {
            lemma_group_byte_bound(rest);
            lemma_basic_div_specific_divisor(d);
            assert(b0 / d == 0);
            assert(p == 1) by {
                lemma2_to64();
            }
        } else {
            lemma_group_byte_bits(rest, j);
            lemma_pow2_unfold((n - 1 - j) as nat);
            let p2 = pow2((n - 2 - j) as nat) as int;
            assert(c * p == 2 * (c * p2)) by (nonlinear_arith)
                requires
                    p == 2 * p2,
            ;
            lemma_mod_multiples_vanish(c * p2, b0 / d, 2);
            assert(q % 2 == (b0 / d) % 2);
            assert(rest[j as int] == group[j as int]);
        }
    }
}

/// Encodes one group into its byte.
fn encode_group(group: &Vec<u8>) -> (byte: u8)
    requires
        group_fits(group@),
    ensures
        byte == group_byte(group@),
{
    let mut byte_val: u8 = 0;
    let mut j: usize = 0;
    while j < group.len()
        invariant
            j <= group@.len(),
            group_fits(group@),
            byte_val == group_byte(group@.take(j as int)),
        decreases group@.len() - j,
    {
        let ghost prefix = group@.take(j as int);
        assert(group@.take(j + 1).drop_last() =~= prefix);
        proof {
            assert(group_fits(group@.take(j + 1)));
            lemma_group_byte_fits(group@.take(j + 1));
            lemma2_to64();
            if j < 7 {
                lemma_pow2_strictly_increases(j as nat, 7);
            }
        }
        if group[j] == 1 {
            proof {
                vstd::bits::lemma_u8_shl_is_mul(1u8, j as u8);
            }
            byte_val = byte_val + (1u8 << (j as u8));
        }
        j = j + 1;
    }
    assert(group@.take(j as int) =~= group@);
    byte_val
}


/// A group of entries none of which is `1` encodes as 0.
pub proof fn lemma_group_byte_zero(group: Seq<u8>)
    requires
        forall|j: int| 0 <= j < group.len() ==> group[j] != 1,
    ensures
        group_byte(group) == 0,
    decreases group.len(),
{
    if group.len() > 0 {
        lemma_group_byte_zero(group.drop_last());
    }
}

/// Every packet is nine bytes long, framed by `(` and `)`.
pub proof fn lemma_touch_packet_frame(grid: Seq<Seq<u8>>)
    ensures
        touch_packet(grid).len() == 9,
        touch_packet(grid)[0] == PACKET_START,
        touch_packet(grid)[8] == PACKET_END,
{
}

/// Every flag of the first seven groups is one bit of the packet: bit `j`
/// of payload byte `g` is set exactly when group `g` exists, has an entry
/// `j`, and that entry is `1`.
pub proof fn lemma_packet_bits(grid: Seq<Seq<u8>>, g: int, j: nat)
    requires
        grid_fits(grid),
        0 <= g < GROUP_COUNT,
    ensures
        byte_bit(touch_packet(grid)[g + 1] as nat, j) == (g < grid.len() && j < grid[g].len() && grid[g][j as int] == 1),
{
    assert(touch_packet(grid)[g + 1] == payload_byte(grid, g) as u8);
    if g < grid.len() {
        lemma_group_byte_fits(grid[g]);
        lemma_group_byte_bits(grid[g], j);
    } else {
        lemma_pow2_pos(j);
        assert(0nat / pow2(j) == 0) by {
            vstd::arithmetic::div_mod::lemma_div_of0(pow2(j) as int);
        }
    }
}

/// Every zone grid fits the packet encoder.
pub proof fn lemma_zone_grid_fits(touched: Seq<String>)
    ensures
        grid_fits(zone_grid(touched)),
{
}

/// Each zone of the layout is one bit of the packet: for the touched zone
/// names `touched`, bit `j` of payload byte `g` of the packet built from the
/// zone grid is set exactly when group `g` has a zone at position `j` whose
/// name is touched.
pub proof fn lemma_packet_zone_bits(touched: Seq<String>, g: int, j: nat)
    requires
        0 <= g < GROUP_COUNT,
    ensures
        byte_bit(touch_packet(zone_grid(touched))[g + 1] as nat, j) == (j < group_len(g)
            && names_contain(touched, zone_name(zone_index(g, j as int)))),
{
    let group = zone_grid(touched)[g];
    lemma_group_byte_bound(group);
    lemma_pow2_strictly_increases(group.len(), 8);
    lemma2_to64();
    assert(touch_packet(zone_grid(touched))[g + 1] == payload_byte(zone_grid(touched), g) as u8);
    assert(payload_byte(zone_grid(touched), g) == group_byte(group));
    lemma_group_byte_bits(group, j);
}

/// The packet with no zone touched.
pub open spec fn empty_packet() -> Seq<u8> {
    seq![PACKET_START, 0, 0, 0, 0, 0, 0, 0, PACKET_END]
}

impl SerialManager {
    /// Builds the packet `( g0 g1 .. g6 )` for a grid of zone flags, padding
    /// missing groups with zero bytes and ignoring groups after the seventh.
    pub fn build_touch_packet(grid: &[Vec<u8>]) -> (packet: Vec<u8>)
        requires
            grid_fits(grid.deep_view()),
        ensures
            packet@ == touch_packet(grid.deep_view()),
    {
        let mut packet: Vec<u8> = Vec::with_capacity(9);
        packet.push(PACKET_START);
        let mut g: usize = 0;
        while g < grid.len() && g < GROUP_COUNT
            invariant
                g <= GROUP_COUNT,
                g <= grid@.len(),
                grid_fits(grid.deep_view()),
                packet@.len() == g + 1,
                packet@[0] == PACKET_START,
                forall|k: int| 0 <= k < g ==> packet@[k + 1] == payload_byte(grid.deep_view(), k) as u8,
            decreases GROUP_COUNT - g,
        {
            assert(grid.deep_view()[g as int] == grid@[g as int]@);
            let b = encode_group(&grid[g]);
            packet.push(b);
            g = g + 1;
        }
        while packet.len() < 8
            invariant
                1 <= packet@.len() <= 8,
                packet@.len() - 1 >= grid@.len() || packet@.len() == 8,
                grid.deep_view().len() == grid@.len(),
                packet@[0] == PACKET_START,
                forall|k: int| 0 <= k < packet@.len() - 1 ==> packet@[k + 1] == payload_byte(grid.deep_view(), k) as u8,
            decreases 8 - packet@.len(),
        {
            packet.push(0);
        }
        packet.push(PACKET_END);
        assert(packet@ =~= touch_packet(grid.deep_view()));
        packet
    }

    /// The packet with no zone touched, `( 0 0 0 0 0 0 0 )`.
    pub fn build_empty_packet() -> (packet: Vec<u8>)
        ensures
            packet@ == empty_packet(),
    {
        let none: Vec<String> = Vec::new();
        let grid = ZoneLookup::zones_to_grid(none.as_slice());
        proof {
            lemma_zone_grid_fits(none@);
            assert forall|g: int| 0 <= g < GROUP_COUNT implies payload_byte(grid.deep_view(), g) == 0 by {
                assert forall|j: int| 0 <= j < zone_grid(none@)[g].len() implies zone_grid(none@)[g][j] != 1 by {
                    assert(!names_contain(none@, zone_name(zone_index(g, j))));
                }
                lemma_group_byte_zero(zone_grid(none@)[g]);
            }
        }
        let packet = Self::build_touch_packet(grid.as_slice());
        assert forall|k: int| 0 <= k < 9 implies packet@[k] == empty_packet()[k] by {
            if 1 <= k < 8 {
                assert(payload_byte(grid.deep_view(), k - 1) == 0);
            }
        }
        assert(packet@ =~= empty_packet());
        packet
    }
}

} // verus!
