//! The touch-panel zone layout and the textual names of zones and colours.
//!
//! The panel has 34 zones, `A1`..`A8`, `B1`..`B8`, `C1`, `C2`, `D1`..`D8`
//! and `E1`..`E8`, packed in that order into seven groups of five zones
//! (the last group holds four). Group `g` is byte `g` of the packet payload
//! and the zone at position `j` of the group is bit `j` of that byte.

use vstd::prelude::*;
use vstd::string::*;

verus! {

/// Number of zones on the panel.
pub const ZONE_COUNT: usize = 34;

/// Number of zones in group `g` of the layout.
pub open spec fn group_len(g: int) -> int {
    if 0 <= g < 6 {
        5
    } else if g == 6 {
        4
    } else {
        0
    }
}

/// Index (in layout order) of the zone at position `j` of group `g`.
pub open spec fn zone_index(g: int, j: int) -> int {
    5 * g + j
}

/// The decimal digit character for `d` in `0..10`.
pub open spec fn decimal_digit(d: int) -> char {
    if d == 0 {
        '0'
    } else if d == 1 {
        '1'
    } else if d == 2 {
        '2'
    } else if d == 3 {
        '3'
    } else if d == 4 {
        '4'
    } else if d == 5 {
        '5'
    } else if d == 6 {
        '6'
    } else if d == 7 {
        '7'
    } else if d == 8 {
        '8'
    } else {
        '9'
    }
}

/// Letter of the zone with index `z`.
pub open spec fn zone_letter(z: int) -> char {
    if z < 8 {
        'A'
    } else if z < 16 {
        'B'
    } else if z < 18 {
        'C'
    } else if z < 26 {
        'D'
    } else {
        'E'
    }
}

/// Number (1-based, within its letter) of the zone with index `z`.
pub open spec fn zone_number(z: int) -> int {
    if z < 8 {
        z + 1
    } else if z < 16 {
        z - 7
    } else if z < 18 {
        z - 15
    } else if z < 26 {
        z - 17
    } else {
        z - 25
    }
}

/// Name of the zone with index `z`, such as `A1` or `E8`.
pub open spec fn zone_name(z: int) -> Seq<char> {
    seq![zone_letter(z), decimal_digit(zone_number(z))]
}

/// Canonical decimal text of `n` (no leading zeros).
pub open spec fn decimal_text(n: nat) -> Seq<char>
    decreases n,
{
    if n < 10 {
        seq![decimal_digit(n as int)]
    } else {
        decimal_text(n / 10).push(decimal_digit((n % 10) as int))
    }
}

/// Text of the colour key of an RGB pixel, `r-g-b` in decimal (e.g. `255-0-0`).
pub open spec fn color_key_text(pixel: (u8, u8, u8)) -> Seq<char> {
    decimal_text(pixel.0 as nat) + seq!['-'] + decimal_text(pixel.1 as nat) + seq!['-']
        + decimal_text(pixel.2 as nat)
}

/// Decimal text is never empty and holds no `-`.
pub proof fn lemma_decimal_text_shape(n: nat)
    ensures
        decimal_text(n).len() >= 1,
        forall|i: int| 0 <= i < decimal_text(n).len() ==> decimal_text(n)[i] != '-',
    decreases n,
{
    if n >= 10 {
        lemma_decimal_text_shape(n / 10);
        assert forall|i: int| 0 <= i < decimal_text(n).len() implies decimal_text(n)[i] != '-' by {
            if i < decimal_text(n / 10).len() {
                assert(decimal_text(n)[i] == decimal_text(n / 10)[i]);
            }
        }
    }
}

/// The layout, group by group: `A1`..`A5`, `A6`..`B2`, `B3`..`B7`,
/// `B8`..`D2`, `D3`..`D7`, `D8`..`E4`, `E5`..`E8`.
pub proof fn lemma_layout_names()
    ensures
        zone_name(zone_index(0, 0)) == "A1"@,
        zone_name(zone_index(0, 1)) == "A2"@,
        zone_name(zone_index(0, 2)) == "A3"@,
        zone_name(zone_index(0, 3)) == "A4"@,
        zone_name(zone_index(0, 4)) == "A5"@,
        zone_name(zone_index(1, 0)) == "A6"@,
        zone_name(zone_index(1, 1)) == "A7"@,
        zone_name(zone_index(1, 2)) == "A8"@,
        zone_name(zone_index(1, 3)) == "B1"@,
        zone_name(zone_index(1, 4)) == "B2"@,
        zone_name(zone_index(2, 0)) == "B3"@,
        zone_name(zone_index(2, 1)) == "B4"@,
        zone_name(zone_index(2, 2)) == "B5"@,
        zone_name(zone_index(2, 3)) == "B6"@,
        zone_name(zone_index(2, 4)) == "B7"@,
        zone_name(zone_index(3, 0)) == "B8"@,
        zone_name(zone_index(3, 1)) == "C1"@,
        zone_name(zone_index(3, 2)) == "C2"@,
        zone_name(zone_index(3, 3)) == "D1"@,
        zone_name(zone_index(3, 4)) == "D2"@,
        zone_name(zone_index(4, 0)) == "D3"@,
        zone_name(zone_index(4, 1)) == "D4"@,
        zone_name(zone_index(4, 2)) == "D5"@,
        zone_name(zone_index(4, 3)) == "D6"@,
        zone_name(zone_index(4, 4)) == "D7"@,
        zone_name(zone_index(5, 0)) == "D8"@,
        zone_name(zone_index(5, 1)) == "E1"@,
        zone_name(zone_index(5, 2)) == "E2"@,
        zone_name(zone_index(5, 3)) == "E3"@,
        zone_name(zone_index(5, 4)) == "E4"@,
        zone_name(zone_index(6, 0)) == "E5"@,
        zone_name(zone_index(6, 1)) == "E6"@,
        zone_name(zone_index(6, 2)) == "E7"@,
        zone_name(zone_index(6, 3)) == "E8"@,
        group_len(0) == 5 && group_len(1) == 5 && group_len(2) == 5 && group_len(3) == 5,
        group_len(4) == 5 && group_len(5) == 5 && group_len(6) == 4,
{
    reveal_strlit("A1");
    reveal_strlit("A2");
    reveal_strlit("A3");
    reveal_strlit("A4");
    reveal_strlit("A5");
    reveal_strlit("A6");
    reveal_strlit("A7");
    reveal_strlit("A8");
    reveal_strlit("B1");
    reveal_strlit("B2");
    reveal_strlit("B3");
    reveal_strlit("B4");
    reveal_strlit("B5");
    reveal_strlit("B6");
    reveal_strlit("B7");
    reveal_strlit("B8");
    reveal_strlit("C1");
    reveal_strlit("C2");
    reveal_strlit("D1");
    reveal_strlit("D2");
    reveal_strlit("D3");
    reveal_strlit("D4");
    reveal_strlit("D5");
    reveal_strlit("D6");
    reveal_strlit("D7");
    reveal_strlit("D8");
    reveal_strlit("E1");
    reveal_strlit("E2");
    reveal_strlit("E3");
    reveal_strlit("E4");
    reveal_strlit("E5");
    reveal_strlit("E6");
    reveal_strlit("E7");
    reveal_strlit("E8");
}

/// The value of a string of decimal digits, read by character code.
pub open spec fn decimal_value(s: Seq<char>) -> int
    decreases s.len(),
{
    if s.len() == 0 {
        0
    } else {
        10 * decimal_value(s.drop_last()) + (s.last() as u32 - 48)
    }
}

/// Decimal text reads back as the number it was made from.
pub proof fn lemma_decimal_text_value(n: nat)
    ensures
        decimal_value(decimal_text(n)) == n,
        forall|i: int| 0 <= i < decimal_text(n).len() ==> 48 <= #[trigger] decimal_text(n)[i] as u32 <= 57,
        decimal_text(n).len() == 1 || decimal_text(n)[0] != '0',
    decreases n,
{
    if n < 10 {
        lemma_decimal_digit_code(n as int);
        assert(decimal_text(n).drop_last() =~= Seq::<char>::empty());
        assert(decimal_value(Seq::<char>::empty()) == 0);
        assert(decimal_text(n).last() == decimal_digit(n as int));
        assert(decimal_text(n)[0] == decimal_digit(n as int));
    } else {
        lemma_decimal_text_value(n / 10);
        lemma_decimal_digit_code((n % 10) as int);
        let t = decimal_text(n / 10);
        assert(decimal_text(n) == t.push(decimal_digit((n % 10) as int)));
        assert(decimal_text(n).drop_last() =~= t);
        assert forall|i: int| 0 <= i < decimal_text(n).len() implies 48 <= #[trigger] decimal_text(n)[i] as u32 <= 57 by {
            if i < t.len() {
                assert(decimal_text(n)[i] == t[i]);
            }
        }
        assert(decimal_text(n).last() == decimal_digit((n % 10) as int));
        assert(decimal_value(decimal_text(n)) == 10 * decimal_value(t) + (n % 10));
        assert(decimal_text(n)[0] == t[0]);
        if n / 10 < 10 {
            lemma_decimal_digit_code((n / 10) as int);
            assert(t == seq![decimal_digit((n / 10) as int)]);
            assert(t[0] == decimal_digit((n / 10) as int));
        } else {
            lemma_decimal_text_shape(n / 100);
            assert(t.len() == decimal_text(n / 100).len() + 1);
        }
    }
}

/// Distinct decimal digits are written with distinct characters.
pub proof fn lemma_decimal_digit_injective(a: int, b: int)
    requires
        0 <= a < 10,
        0 <= b < 10,
        decimal_digit(a) == decimal_digit(b),
    ensures
        a == b,
{
    lemma_decimal_digit_code(a);
    lemma_decimal_digit_code(b);
}

/// The code of a decimal digit character is `48 + d`.
proof fn lemma_decimal_digit_code(d: int)
    requires
        0 <= d < 10,
    ensures
        decimal_digit(d) as u32 == 48 + d,
{
    if d == 0 {
    } else if d == 1 {
    } else if d == 2 {
    } else if d == 3 {
    } else if d == 4 {
    } else if d == 5 {
    } else if d == 6 {
    } else if d == 7 {
    } else if d == 8 {
    } else {
    }
}

/// Distinct numbers have distinct decimal texts.
pub proof fn lemma_decimal_text_injective(a: nat, b: nat)
    requires
        decimal_text(a) == decimal_text(b),
    ensures
        a == b,
    decreases a,
{
    if a >= 10 && b >= 10 {
        lemma_decimal_text_shape(a / 10);
        assert(decimal_text(a).drop_last() =~= decimal_text(a / 10));
        assert(decimal_text(b).drop_last() =~= decimal_text(b / 10));
        lemma_decimal_text_injective(a / 10, b / 10);
        assert(decimal_text(a) == decimal_text(a / 10).push(decimal_digit((a % 10) as int)));
        assert(decimal_text(b) == decimal_text(b / 10).push(decimal_digit((b % 10) as int)));
        let la = decimal_digit((a % 10) as int);
        let lb = decimal_digit((b % 10) as int);
        assert(decimal_text(a / 10).push(la).last() == la);
        assert(decimal_text(b / 10).push(lb).last() == lb);
        assert(la == lb);
        lemma_decimal_digit_injective((a % 10) as int, (b % 10) as int);
    } else if a < 10 && b < 10 {
        assert(decimal_text(a) == seq![decimal_digit(a as int)]);
        assert(decimal_text(b) == seq![decimal_digit(b as int)]);
        let da = decimal_digit(a as int);
        let db = decimal_digit(b as int);
        assert(seq![da][0] == da);
        assert(seq![db][0] == db);
        assert(decimal_text(a)[0] == decimal_text(b)[0]);
        assert(da == db);
        lemma_decimal_digit_injective(a as int, b as int);
    } else if a >= 10 {
        lemma_decimal_text_shape(a / 10);
        assert(decimal_text(a).len() == decimal_text(a / 10).len() + 1);
        assert(decimal_text(b).len() == 1);
    } else {
        lemma_decimal_text_shape(b / 10);
        assert(decimal_text(b).len() == decimal_text(b / 10).len() + 1);
        assert(decimal_text(a).len() == 1);
    }
}

/// A decimal text followed by `-` determines both the number and what
/// follows the `-`.
proof fn lemma_decimal_then_dash(a: nat, b: nat, s: Seq<char>, t: Seq<char>)
    requires
        decimal_text(a) + seq!['-'] + s == decimal_text(b) + seq!['-'] + t,
    ensures
        a == b,
        s == t,
{
    let x = decimal_text(a);
    let y = decimal_text(b);
    let whole = x + seq!['-'] + s;
    lemma_decimal_text_shape(a);
    lemma_decimal_text_shape(b);
    if x.len() < y.len() {
        assert(whole[x.len() as int] == '-');
        assert((y + seq!['-'] + t)[x.len() as int] == y[x.len() as int]);
    } else if y.len() < x.len() {
        assert((y + seq!['-'] + t)[y.len() as int] == '-');
        assert(whole[y.len() as int] == x[y.len() as int]);
    }
    assert(x =~= whole.take(x.len() as int));
    assert(y =~= (y + seq!['-'] + t).take(y.len() as int));
    lemma_decimal_text_injective(a, b);
    assert(s =~= whole.skip(x.len() + 1int));
    assert(t =~= (y + seq!['-'] + t).skip(y.len() + 1int));
}

/// Colour keys are unambiguous: two pixels have the same key only when they
/// have the same colour, so the colour table assigns zones to colours.
pub proof fn lemma_color_key_injective(p: (u8, u8, u8), q: (u8, u8, u8))
    requires
        color_key_text(p) == color_key_text(q),
    ensures
        p == q,
{
    let rest_p = decimal_text(p.1 as nat) + seq!['-'] + decimal_text(p.2 as nat);
    let rest_q = decimal_text(q.1 as nat) + seq!['-'] + decimal_text(q.2 as nat);
    assert(color_key_text(p) =~= decimal_text(p.0 as nat) + seq!['-'] + rest_p);
    assert(color_key_text(q) =~= decimal_text(q.0 as nat) + seq!['-'] + rest_q);
    lemma_decimal_then_dash(p.0 as nat, q.0 as nat, rest_p, rest_q);
    lemma_decimal_then_dash(p.1 as nat, q.1 as nat, decimal_text(p.2 as nat), decimal_text(q.2 as nat));
    lemma_decimal_text_injective(p.2 as nat, q.2 as nat);
}

/// One-character string of the decimal digit `d`.
fn digit_str(d: u8) -> (s: &'static str)
    requires
        d < 10,
    ensures
        s@ == seq![decimal_digit(d as int)],
{
    proof {
        reveal_strlit("0");
        reveal_strlit("1");
        reveal_strlit("2");
        reveal_strlit("3");
        reveal_strlit("4");
        reveal_strlit("5");
        reveal_strlit("6");
        reveal_strlit("7");
        reveal_strlit("8");
        reveal_strlit("9");
    }
    match d {
        0 => "0",
        1 => "1",
        2 => "2",
        3 => "3",
        4 => "4",
        5 => "5",
        6 => "6",
        7 => "7",
        8 => "8",
        _ => "9",
    }
}

/// Appends the decimal text of `n` to `s`.
fn push_decimal(s: &mut String, n: u8)
    ensures
        final(s)@ == old(s)@ + decimal_text(n as nat),
{
    let ghost start = s@;
    if n >= 100 {
        s.append(digit_str(n / 100));
        s.append(digit_str((n / 10) % 10));
        assert(decimal_text((n / 10) as nat) == decimal_text((n / 100) as nat).push(
            decimal_digit(((n / 10) % 10) as int),
        ));
    } else if n >= 10 {
        s.append(digit_str(n / 10));
    }
    s.append(digit_str(n % 10));
    proof {
        if n >= 100 {
            assert(decimal_text((n / 100) as nat) == seq![decimal_digit((n / 100) as int)]);
        } else if n >= 10 {
            assert(decimal_text((n / 10) as nat) == seq![decimal_digit((n / 10) as int)]);
        }
    }
    assert(s@ =~= start + decimal_text(n as nat));
}

/// The colour key of a pixel, the text `r-g-b` under which the zone colours
/// are configured.
pub fn pixel_to_key(pixel: (u8, u8, u8)) -> (key: String)
    ensures
        key@ == color_key_text(pixel),
{
    proof {
        reveal_strlit("-");
    }
    let mut key = String::new();
    push_decimal(&mut key, pixel.0);
    key.append("-");
    push_decimal(&mut key, pixel.1);
    key.append("-");
    push_decimal(&mut key, pixel.2);
    assert(key@ =~= color_key_text(pixel));
    key
}

/// One-character string of a zone letter.
fn letter_str(z: usize) -> (s: &'static str)
    requires
        z < ZONE_COUNT,
    ensures
        s@ == seq![zone_letter(z as int)],
{
    proof {
        reveal_strlit("A");
        reveal_strlit("B");
        reveal_strlit("C");
        reveal_strlit("D");
        reveal_strlit("E");
    }
    if z < 8 {
        "A"
    } else if z < 16 {
        "B"
    } else if z < 18 {
        "C"
    } else if z < 26 {
        "D"
    } else {
        "E"
    }
}

/// Name of the zone with index `z` in layout order.
pub fn zone_name_string(z: usize) -> (name: String)
    requires
        z < ZONE_COUNT,
    ensures
        name@ == zone_name(z as int),
{
    let number: u8 = if z < 8 {
        (z + 1) as u8
    } else if z < 16 {
        (z - 7) as u8
    } else if z < 18 {
        (z - 15) as u8
    } else if z < 26 {
        (z - 17) as u8
    } else {
        (z - 25) as u8
    };
    let mut name = String::from_str(letter_str(z));
    name.append(digit_str(number));
    assert(name@ =~= zone_name(z as int));
    name
}

} // verus!
