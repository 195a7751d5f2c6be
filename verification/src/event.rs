//! Parsing of the lines printed by `getevent -l`, such as
//! `/dev/input/event5: EV_ABS       ABS_MT_POSITION_X    000003a8`.
//!
//! A line is split into whitespace-separated words; the third word is the
//! event type and the fourth its value in hexadecimal.

use vstd::prelude::*;
use vstd::arithmetic::power::pow;

verus! {

broadcast use vstd::string::group_string_axioms;

/// Unicode white space, as `char::is_whitespace` classifies it.
pub open spec fn is_whitespace(c: char) -> bool {
    let u = c as u32;
    ||| 0x9 <= u <= 0xD
    ||| u == 0x20
    ||| u == 0x85
    ||| u == 0xA0
    ||| u == 0x1680
    ||| 0x2000 <= u <= 0x200A
    ||| u == 0x2028
    ||| u == 0x2029
    ||| u == 0x202F
    ||| u == 0x205F
    ||| u == 0x3000
}

/// Length of the word at the start of `s` (0 when `s` starts with white
/// space or is empty).
pub open spec fn word_len(s: Seq<char>) -> nat
    decreases s.len(),
{
    if s.len() == 0 || is_whitespace(s[0]) {
        0
    } else {
        1 + word_len(s.drop_first())
    }
}

/// A word is never longer than the text it starts.
pub proof fn lemma_word_len_bound(s: Seq<char>)
    ensures
        word_len(s) <= s.len(),
    decreases s.len(),
{
    if s.len() > 0 && !is_whitespace(s[0]) {
        lemma_word_len_bound(s.drop_first());
    }
}

/// The words of `s`: its maximal runs of non-white-space characters, in
/// order (as `str::split_whitespace` yields them).
pub open spec fn words(s: Seq<char>) -> Seq<Seq<char>>
    decreases s.len(),
{
    if s.len() == 0 {
        seq![]
    } else if is_whitespace(s[0]) {
        words(s.drop_first())
    } else {
        let n = word_len(s);
        proof {
            lemma_word_len_bound(s);
        }
        seq![s.take(n as int)] + words(s.skip(n as int))
    }
}

/// Value of a hexadecimal digit (either case).
pub open spec fn hex_digit(c: char) -> Option<nat> {
    let u = c as u32;
    if 48 <= u <= 57 {
        Some((u - 48) as nat)
    } else if 97 <= u <= 102 {
        Some((u - 87) as nat)
    } else if 65 <= u <= 70 {
        Some((u - 55) as nat)
    } else {
        None
    }
}

/// Value of a string of hexadecimal digits (0 for the empty string), or
/// `None` when a character is not a hexadecimal digit.
pub open spec fn hex_value(s: Seq<char>) -> Option<nat>
    decreases s.len(),
{
    if s.len() == 0 {
        Some(0)
    } else {
        match (hex_value(s.drop_last()), hex_digit(s.last())) {
            (Some(v), Some(d)) => Some(16 * v + d),
            _ => None,
        }
    }
}

/// `i64::from_str_radix(s, 16)`: an optional `+` or `-` sign followed by at
/// least one hexadecimal digit, whose value fits in `i64`.
pub open spec fn parse_hex_i64(s: Seq<char>) -> Option<i64> {
    if s.len() == 0 {
        None
    } else {
        let signed = s[0] == '+' || s[0] == '-';
        let digits = if signed {
            s.drop_first()
        } else {
            s
        };
        if digits.len() == 0 {
            None
        } else {
            match hex_value(digits) {
                None => None,
                Some(v) => {
                    let r: int = if s[0] == '-' {
                        -v
                    } else {
                        v as int
                    };
                    if i64::MIN <= r <= i64::MAX {
                        Some(r as i64)
                    } else {
                        None
                    }
                },
            }
        }
    }
}

/// Whether `text` occurs in `s`.
pub open spec fn contains_text(s: Seq<char>, text: Seq<char>) -> bool {
    exists|i: int| 0 <= i && i + text.len() <= s.len() && #[trigger] s.subrange(i, i + text.len()) == text
}

/// The event types the touch tracker reacts to.
#[derive(PartialEq, Eq, Structural, Clone, Copy, Debug)]
pub enum EventKind {
    PositionX,
    PositionY,
    SynReport,
    Slot,
    TrackingId,
    Other,
}

/// The kind named by an event type word.
pub open spec fn event_kind(word: Seq<char>) -> EventKind {
    if word == "ABS_MT_POSITION_X"@ {
        EventKind::PositionX
    } else if word == "ABS_MT_POSITION_Y"@ {
        EventKind::PositionY
    } else if word == "SYN_REPORT"@ {
        EventKind::SynReport
    } else if word == "ABS_MT_SLOT"@ {
        EventKind::Slot
    } else if word == "ABS_MT_TRACKING_ID"@ {
        EventKind::TrackingId
    } else {
        EventKind::Other
    }
}

/// One line of `getevent -l` output, classified.
#[derive(PartialEq, Eq, Structural, Clone, Copy, Debug)]
pub enum LineEvent {
    /// Fewer than four words; `mentions_name` tells whether the line contains
    /// `name` (device descriptions do, and are shown).
    Short { mentions_name: bool },
    /// The fourth word is not a hexadecimal `i64`.
    BadValue,
    /// An event: its kind, its value, and whether the value was written
    /// `ffffffff` (the tracking id of a released contact).
    Event { kind: EventKind, value: i64, released: bool },
}

/// The classification of a line.
pub open spec fn line_event(line: Seq<char>) -> LineEvent {
    let w = words(line);
    if w.len() < 4 {
        LineEvent::Short { mentions_name: contains_text(line, "name"@) }
    } else {
        match parse_hex_i64(w[3]) {
            None => LineEvent::BadValue,
            Some(v) => LineEvent::Event {
                kind: event_kind(w[2]),
                value: v,
                released: w[3] == "ffffffff"@,
            },
        }
    }
}

/// The hexadecimal digits and their values: `0`..`9` and `a`..`f` at their
/// positions in `0123456789abcdef`, `A`..`F` as 10 to 15, and nothing else.
pub proof fn lemma_hex_digits()
    ensures
        forall|d: int| 0 <= d < 16 ==> hex_digit(#[trigger] "0123456789abcdef"@[d]) == Some(d as nat),
        forall|d: int| 0 <= d < 6 ==> hex_digit(#[trigger] "ABCDEF"@[d]) == Some((d + 10) as nat),
        forall|c: char| #[trigger] hex_digit(c) is Some ==> "0123456789abcdefABCDEF"@.contains(c),
{
    reveal_strlit("0123456789abcdef");
    reveal_strlit("ABCDEF");
    reveal_strlit("0123456789abcdefABCDEF");
    let all = "0123456789abcdefABCDEF"@;
    assert forall|c: char| #[trigger] hex_digit(c) is Some implies all.contains(c) by {
        let u = c as u32;
        let i: int = if u <= 57 {
            u - 48
        } else if u >= 97 {
            u - 87
        } else {
            u - 49
        };
        assert(all[i] as u32 == u);
        vstd::utf8::char_u32_cast(c, u);
        vstd::utf8::char_u32_cast(all[i], u);
        assert(all[i] == c);
    }
}

/// Hexadecimal is positional: the digits of `s` followed by those of `t` are
/// worth `s` shifted by one place per digit of `t`, plus `t`.
pub proof fn lemma_hex_value_concat(s: Seq<char>, t: Seq<char>)
    requires
        hex_value(s) is Some,
        hex_value(t) is Some,
    ensures
        hex_value(s + t) is Some,
        hex_value(s + t)->0 == hex_value(s)->0 * pow(16, t.len()) + hex_value(t)->0,
    decreases t.len(),
{
    reveal(pow);
    if t.len() == 0 {
        assert(s + t =~= s);
        assert(pow(16, 0) == 1);
        assert(hex_value(s)->0 * pow(16, 0) == hex_value(s)->0 * 1);
    } else {
        assert((s + t).drop_last() =~= s + t.drop_last());
        lemma_hex_value_concat(s, t.drop_last());
        assert((s + t).last() == t.last());
        let d = hex_digit(t.last())->0 as int;
        let a = hex_value(s)->0 as int;
        let b = hex_value(t.drop_last())->0 as int;
        let p = pow(16, (t.len() - 1) as nat);
        assert(t.drop_last().len() == (t.len() - 1) as nat);
        vstd::arithmetic::power::lemma_pow_positive(16, (t.len() - 1) as nat);
        vstd::arithmetic::power::lemma_pow_positive(16, t.len());
        assert(hex_value(s + t.drop_last())->0 == a * p + b);
        assert(hex_value(t) == Some((16 * b + d) as nat));
        assert(hex_value(s + t) == Some((16 * (a * p + b) + d) as nat));
        assert(pow(16, t.len()) == 16 * p);
        assert(16 * (a * p + b) == a * (16 * p) + 16 * b) by (nonlinear_arith);
        assert(a * pow(16, t.len()) == a * (16 * p));
        assert(hex_value(s + t)->0 == a * pow(16, t.len()) + hex_value(t)->0);
    }
}

/// A digit string is worth less than 16 to the power of its length.
pub proof fn lemma_hex_value_bound(s: Seq<char>)
    requires
        hex_value(s) is Some,
    ensures
        hex_value(s)->0 < pow(16, s.len()),
    decreases s.len(),
{
    reveal(pow);
    if s.len() > 0 {
        lemma_hex_value_bound(s.drop_last());
        let v = hex_value(s.drop_last())->0 as int;
        let p = pow(16, (s.len() - 1) as nat);
        assert(16 * v + 15 < 16 * p) by (nonlinear_arith)
            requires
                v < p,
        ;
    }
}

/// The characters of `s` that are not white space, in order.
pub open spec fn non_whitespace(s: Seq<char>) -> Seq<char>
    decreases s.len(),
{
    if s.len() == 0 {
        seq![]
    } else if is_whitespace(s[0]) {
        non_whitespace(s.drop_first())
    } else {
        seq![s[0]] + non_whitespace(s.drop_first())
    }
}

/// The words of a list written one after another.
pub open spec fn concat_words(w: Seq<Seq<char>>) -> Seq<char>
    decreases w.len(),
{
    if w.len() == 0 {
        seq![]
    } else {
        w[0] + concat_words(w.drop_first())
    }
}

/// The first `word_len(s)` characters of `s` are not white space, and the
/// word ends at the end of `s` or at white space.
proof fn lemma_word_chars(s: Seq<char>)
    ensures
        forall|i: int| 0 <= i < word_len(s) ==> !is_whitespace(#[trigger] s[i]),
        word_len(s) == s.len() || is_whitespace(s[word_len(s) as int]),
    decreases s.len(),
{
    lemma_word_len_bound(s);
    if s.len() > 0 && !is_whitespace(s[0]) {
        lemma_word_chars(s.drop_first());
        lemma_word_len_bound(s.drop_first());
        assert forall|i: int| 0 <= i < word_len(s) implies !is_whitespace(#[trigger] s[i]) by {
            if i > 0 {
                assert(s[i] == s.drop_first()[i - 1]);
            }
        }
        if word_len(s) < s.len() {
            assert(s[word_len(s) as int] == s.drop_first()[word_len(s.drop_first()) as int]);
        }
    }
}

/// Dropping a run of non-white-space characters from the front of `s`
/// drops the same characters from its non-white-space projection.
proof fn lemma_non_whitespace_prefix(s: Seq<char>, k: int)
    requires
        0 <= k <= word_len(s),
    ensures
        non_whitespace(s) == s.take(k) + non_whitespace(s.skip(k)),
    decreases k,
{
    lemma_word_len_bound(s);
    if k == 0 {
        assert(s.take(0) + non_whitespace(s.skip(0)) =~= non_whitespace(s)) by {
            assert(s.skip(0) =~= s);
        }
    } else {
        lemma_word_chars(s);
        assert(!is_whitespace(s[0]));
        lemma_non_whitespace_prefix(s.drop_first(), k - 1);
        assert(s.drop_first().skip(k - 1) =~= s.skip(k));
        assert(seq![s[0]] + s.drop_first().take(k - 1) =~= s.take(k));
    }
}

/// The words of a line are non-empty runs of non-white-space characters,
/// each ending at white space or at the end of the line, and together they
/// hold exactly the line's non-white-space characters, in order.
pub proof fn lemma_words_cover_line(s: Seq<char>)
    ensures
        forall|i: int| 0 <= i < words(s).len() ==> #[trigger] words(s)[i].len() > 0,
        forall|i: int, k: int|
            0 <= i < words(s).len() && 0 <= k < words(s)[i].len() ==> !is_whitespace(#[trigger] words(s)[i][k]),
        concat_words(words(s)) == non_whitespace(s),
    decreases s.len(),
{
    if s.len() == 0 {
    } else if is_whitespace(s[0]) {
        lemma_words_cover_line(s.drop_first());
    } else {
        let n = word_len(s);
        lemma_word_len_bound(s);
        lemma_word_chars(s);
        lemma_words_cover_line(s.skip(n as int));
        let w = words(s);
        assert(w == seq![s.take(n as int)] + words(s.skip(n as int)));
        assert(w.drop_first() =~= words(s.skip(n as int)));
        assert(n > 0) by {
            assert(word_len(s) == 1 + word_len(s.drop_first()));
        }
        assert forall|i: int| 0 <= i < w.len() implies #[trigger] w[i].len() > 0 by {
            if i > 0 {
                assert(w[i] == words(s.skip(n as int))[i - 1]);
            }
        }
        assert forall|i: int, k: int| 0 <= i < w.len() && 0 <= k < w[i].len() implies !is_whitespace(#[trigger] w[i][k]) by {
            if i > 0 {
                assert(w[i] == words(s.skip(n as int))[i - 1]);
            } else {
                assert(w[0][k] == s[k]);
            }
        }
        lemma_non_whitespace_prefix(s, n as int);
    }
}

/// `i64::from_str_radix(s, 16)` on hexadecimal digits whose value fits in
/// `i64`: the value, with either sign.
pub proof fn lemma_parse_hex_digits(s: Seq<char>)
    requires
        s.len() > 0,
        hex_digit(s[0]) is Some,
        hex_value(s) is Some,
        hex_value(s)->0 <= i64::MAX,
    ensures
        parse_hex_i64(s) == Some(hex_value(s)->0 as i64),
        parse_hex_i64(seq!['+'] + s) == Some(hex_value(s)->0 as i64),
        parse_hex_i64(seq!['-'] + s) == Some((-(hex_value(s)->0 as int)) as i64),
{
    assert(('+' as u32) == 43 && ('-' as u32) == 45);
    assert((seq!['+'] + s).drop_first() =~= s);
    assert((seq!['-'] + s).drop_first() =~= s);
}

/// A string holding a character that is not a hexadecimal digit has no
/// hexadecimal value.
proof fn lemma_hex_value_invalid(s: Seq<char>, i: int)
    requires
        0 <= i < s.len(),
        hex_digit(s[i]) is None,
    ensures
        hex_value(s) is None,
    decreases s.len(),
{
    if i < s.len() - 1 {
        lemma_hex_value_invalid(s.drop_last(), i);
    }
}

/// `i64::from_str_radix(s, 16)` fails on the empty string, on a lone sign,
/// and on any string with a character that is not a digit after the sign.
pub proof fn lemma_parse_hex_rejects(s: Seq<char>, i: int)
    ensures
        parse_hex_i64(Seq::<char>::empty()) is None,
        parse_hex_i64(seq!['+']) is None,
        parse_hex_i64(seq!['-']) is None,
        0 < i < s.len() && hex_digit(s[i]) is None ==> parse_hex_i64(s) is None,
        s.len() > 0 && hex_digit(s[0]) is None && s[0] != '+' && s[0] != '-' ==> parse_hex_i64(s) is None,
{
    if 0 < i < s.len() && hex_digit(s[i]) is None {
        if s[0] == '+' || s[0] == '-' {
            assert(s.drop_first()[i - 1] == s[i]);
            lemma_hex_value_invalid(s.drop_first(), i - 1);
        } else {
            lemma_hex_value_invalid(s, i);
        }
    }
    if s.len() > 0 && hex_digit(s[0]) is None && s[0] != '+' && s[0] != '-' {
        lemma_hex_value_invalid(s, 0);
    }
    assert(seq!['+'].drop_first() =~= Seq::<char>::empty());
    assert(seq!['-'].drop_first() =~= Seq::<char>::empty());
}

/// The characters of `s`.
pub fn str_chars(s: &str) -> (chars: Vec<char>)
    ensures
        chars@ == s@,
{
    let mut chars: Vec<char> = Vec::new();
    for c in it: s.chars()
        invariant
            chars@ == it.seq().take(it.index()),
            it.seq() == s@,
    {
        chars.push(c);
    }
    chars
}

/// Whether `c` is white space.
fn char_is_whitespace(c: char) -> (b: bool)
    ensures
        b == is_whitespace(c),
{
    let u = c as u32;
    (0x9 <= u && u <= 0xD) || u == 0x20 || u == 0x85 || u == 0xA0 || u == 0x1680 || (0x2000 <= u
        && u <= 0x200A) || u == 0x2028 || u == 0x2029 || u == 0x202F || u == 0x205F || u == 0x3000
}

/// Whether two character strings are equal.
fn chars_equal(a: &[char], b: &[char]) -> (eq: bool)
    ensures
        eq == (a@ == b@),
{
    if a.len() != b.len() {
        return false;
    }
    let mut i: usize = 0;
    while i < a.len()
        invariant
            a@.len() == b@.len(),
            i <= a@.len(),
            forall|k: int| 0 <= k < i ==> a@[k] == b@[k],
        decreases a@.len() - i,
    {
        if a[i] != b[i] {
            return false;
        }
        i = i + 1;
    }
    assert(a@ =~= b@);
    true
}

/// The words of `s`.
pub fn split_words(s: &[char]) -> (result: Vec<Vec<char>>)
    ensures
        result.deep_view() == words(s@),
{
    let n = s.len();
    let mut result: Vec<Vec<char>> = Vec::new();
    let mut i: usize = 0;
    assert(s@.skip(0) =~= s@);
    while i < n
        invariant
            n == s@.len(),
            i <= n,
            words(s@) == result.deep_view() + words(s@.skip(i as int)),
        decreases n - i,
    {
        let ghost rest = s@.skip(i as int);
        assert(rest.drop_first() =~= s@.skip(i + 1));
        if char_is_whitespace(s[i]) {
            i = i + 1;
        } else {
            let mut word: Vec<char> = Vec::new();
            let mut j: usize = i;
            while j < n && !char_is_whitespace(s[j])
                invariant
                    n == s@.len(),
                    i <= j <= n,
                    word@ == s@.subrange(i as int, j as int),
                    word_len(rest) == (j - i) + word_len(s@.skip(j as int)),
                    rest == s@.skip(i as int),
                decreases n - j,
            {
                assert(s@.skip(j as int).drop_first() =~= s@.skip(j + 1));
                word.push(s[j]);
                j = j + 1;
                assert(word@ =~= s@.subrange(i as int, j as int));
            }
            assert(word_len(s@.skip(j as int)) == 0);
            assert(rest.take(word_len(rest) as int) =~= word@);
            assert(rest.skip(word_len(rest) as int) =~= s@.skip(j as int));
            let ghost before = result.deep_view();
            let ghost wv = word@;
            assert(word.deep_view() =~= wv);
            result.push(word);
            assert(result.deep_view()[before.len() as int] == wv);
            assert(result.deep_view() =~= before.push(wv));
            assert(words(rest) == seq![wv] + words(s@.skip(j as int)));
            assert(before + words(rest) =~= before.push(wv) + words(s@.skip(j as int)));
            i = j;
        }
    }
    assert(words(s@.skip(n as int)) =~= Seq::<Seq<char>>::empty()) by {
        assert(s@.skip(n as int).len() == 0);
    }
    assert(result.deep_view() =~= result.deep_view() + Seq::<Seq<char>>::empty());
    result
}


/// Every prefix of a valid digit string is valid and its value is no larger.
pub proof fn lemma_hex_value_prefix(s: Seq<char>, k: int)
    requires
        0 <= k <= s.len(),
        hex_value(s) is Some,
    ensures
        hex_value(s.take(k)) is Some,
        hex_value(s.take(k))->0 <= hex_value(s)->0,
    decreases s.len(),
{
    if k == s.len() {
        assert(s.take(k) =~= s);
    } else {
        lemma_hex_value_prefix(s.drop_last(), k);
        assert(s.drop_last().take(k) =~= s.take(k));
    }
}

/// The value of a hexadecimal digit.
fn hex_digit_value(c: char) -> (d: Option<u64>)
    ensures
        match d {
            Some(v) => hex_digit(c) == Some(v as nat),
            None => hex_digit(c) is None,
        },
{
    let u = c as u32;
    if 48 <= u && u <= 57 {
        Some((u - 48) as u64)
    } else if 97 <= u && u <= 102 {
        Some((u - 87) as u64)
    } else if 65 <= u && u <= 70 {
        Some((u - 55) as u64)
    } else {
        None
    }
}

/// `i64::from_str_radix(s, 16)`, as an `Option`.
pub fn parse_hex(s: &[char]) -> (r: Option<i64>)
    ensures
        r == parse_hex_i64(s@),
{
    let n = s.len();
    if n == 0 {
        return None;
    }
    let negative = s[0] == '-';
    let start: usize = if s[0] == '+' || s[0] == '-' { 1 } else { 0 };
    let ghost digits = s@.skip(start as int);
    assert(start == 1 ==> digits =~= s@.drop_first());
    assert(start == 0 ==> digits =~= s@);
    if start == n {
        return None;
    }
    let limit: u64 = 0x8000_0000_0000_0000;
    let mut acc: u64 = 0;
    let mut i: usize = start;
    assert(digits.take(0) =~= Seq::<char>::empty());
    while i < n
        invariant
            n == s@.len(),
            start <= i <= n,
            start < n,
            start == (if s@[0] == '+' || s@[0] == '-' { 1usize } else { 0usize }),
            negative == (s@[0] == '-'),
            digits == s@.skip(start as int),
            digits.len() > 0,
            start == 1 ==> digits =~= s@.drop_first(),
            start == 0 ==> digits =~= s@,
            hex_value(digits.take(i - start)) == Some(acc as nat),
            acc <= limit,
            limit == 0x8000_0000_0000_0000u64,
        decreases n - i,
    {
        let ghost k: int = i - start;
        assert(digits.take(k + 1).drop_last() =~= digits.take(k));
        assert(digits.take(k + 1).last() == s@[i as int]);
        let d = match hex_digit_value(s[i]) {
            Some(d) => d,
            None => {
                proof {
                    assert(hex_value(digits.take(k + 1)) is None);
                    if hex_value(digits) is Some {
                        lemma_hex_value_prefix(digits, k + 1);
                    }
                }
                return None;
            },
        };
        if acc > (limit - d) / 16 {
            proof {
                assert(16 * acc + d > limit);
                if hex_value(digits) is Some {
                    lemma_hex_value_prefix(digits, k + 1);
                }
            }
            return None;
        }
        acc = acc * 16 + d;
        i = i + 1;
    }
    assert(digits.take(n - start) =~= digits);
    if negative {
        if acc == limit {
            Some(i64::MIN)
        } else {
            Some(-(acc as i64))
        }
    } else {
        if acc > i64::MAX as u64 {
            None
        } else {
            Some(acc as i64)
        }
    }
}

/// Whether `text` occurs in `s`.
fn chars_contain(s: &[char], text: &[char]) -> (found: bool)
    ensures
        found == contains_text(s@, text@),
{
    let n = s.len();
    let m = text.len();
    if m > n {
        return false;
    }
    let mut i: usize = 0;
    while i <= n - m
        invariant
            n == s@.len(),
            m == text@.len(),
            m <= n,
            i <= n - m + 1,
            forall|k: int| 0 <= k < i ==> #[trigger] s@.subrange(k, k + m) != text@,
        decreases n - i,
    {
        let mut j: usize = 0;
        let mut same = true;
        while j < m
            invariant
                n == s@.len(),
                m == text@.len(),
                i + m <= n,
                j <= m,
                same == forall|q: int| 0 <= q < j ==> s@[i + q] == text@[q],
            decreases m - j,
        {
            if s[i + j] != text[j] {
                same = false;
            }
            j = j + 1;
        }
        if same {
            assert(s@.subrange(i as int, i + m) =~= text@);
            return true;
        }
        assert(s@.subrange(i as int, i + m) != text@) by {
            let q = choose|q: int| 0 <= q < m && s@[i + q] != text@[q];
            assert(s@.subrange(i as int, i + m)[q] == s@[i + q]);
        }
        i = i + 1;
    }
    assert forall|k: int| 0 <= k && k + text@.len() <= s@.len() implies #[trigger] s@.subrange(k, k + text@.len()) != text@ by {
        assert(k < i);
    }
    false
}

/// The kind named by an event type word.
fn classify_kind(word: &[char]) -> (kind: EventKind)
    ensures
        kind == event_kind(word@),
{
    if chars_equal(word, str_chars("ABS_MT_POSITION_X").as_slice()) {
        EventKind::PositionX
    } else if chars_equal(word, str_chars("ABS_MT_POSITION_Y").as_slice()) {
        EventKind::PositionY
    } else if chars_equal(word, str_chars("SYN_REPORT").as_slice()) {
        EventKind::SynReport
    } else if chars_equal(word, str_chars("ABS_MT_SLOT").as_slice()) {
        EventKind::Slot
    } else if chars_equal(word, str_chars("ABS_MT_TRACKING_ID").as_slice()) {
        EventKind::TrackingId
    } else {
        EventKind::Other
    }
}

/// Classifies one line of `getevent -l` output.
pub fn parse_line(line: &str) -> (event: LineEvent)
    ensures
        event == line_event(line@),
{
    let chars = str_chars(line);
    let parts = split_words(chars.as_slice());
    if parts.len() < 4 {
        let mentions_name = chars_contain(chars.as_slice(), str_chars("name").as_slice());
        return LineEvent::Short { mentions_name };
    }
    assert(parts.deep_view()[2] == parts@[2]@);
    assert(parts.deep_view()[3] == parts@[3]@);
    match parse_hex(parts[3].as_slice()) {
        None => LineEvent::BadValue,
        Some(value) => {
            let kind = classify_kind(parts[2].as_slice());
            let released = chars_equal(parts[3].as_slice(), str_chars("ffffffff").as_slice());
            LineEvent::Event { kind, value, released }
        },
    }
}

} // verus!
