//! What the `promatrix` command line tool reads from its arguments and prints.

use vstd::prelude::*;
use crate::device::{bit_set, with_bit};
use vstd::arithmetic::power2::pow2;
use crate::text::{chars_of, decimal, push_char, push_decimal, word_is};
use crate::wire::{event_of_line, lemma_evt_line, level_digit, Event};

verus! {

/// `c` with an ASCII capital letter made small; any other character as it is.
pub open spec fn ascii_lower(c: char) -> char {
    if 'A' <= c && c <= 'Z' {
        ((c as u32) + 32) as char
    } else {
        c
    }
}

/// `str::to_ascii_lowercase` on the characters `s`.
pub open spec fn ascii_lowercase(s: Seq<char>) -> Seq<char> {
    s.map_values(|c: char| ascii_lower(c))
}

/// What a value argument means: `1`, `on` or `true` is on, `0`, `off` or
/// `false` is off, in any mix of ASCII case.
pub open spec fn bool_word(s: Seq<char>) -> Option<bool> {
    let l = ascii_lowercase(s);
    if l == "1"@ || l == "on"@ || l == "true"@ {
        Some(true)
    } else if l == "0"@ || l == "off"@ || l == "false"@ {
        Some(false)
    } else {
        None
    }
}

/// What `{:?}` writes for the text `s`: `s` quoted, with escapes.
pub uninterp spec fn debug_text(s: Seq<char>) -> Seq<char>;

/// `format!("{:?}", s)`: the Debug form of a string slice.
#[verifier::external_body]
fn debug_str(s: &str) -> (r: String)
    ensures
        r@ == debug_text(s@),
{
    format!("{:?}", s)
}

/// The message for a value argument that means neither on nor off, given the
/// argument in its quoted Debug form.
pub fn rejection_message(quoted: &str) -> (r: String)
    ensures
        r@ == "expected 0/1/on/off, got "@ + quoted@,
{
    let mut m = String::new();
    m.append("expected 0/1/on/off, got ");
    m.append(quoted);
    m
}

/// Reads a value argument: `0`/`1`, `on`/`off` or `true`/`false`.
pub fn parse_bool(s: &str) -> (r: Result<bool, String>)
    ensures
        match bool_word(s@) {
            Some(b) => r == Ok::<bool, String>(b),
            None => r matches Err(m) && m@ == "expected 0/1/on/off, got "@ + debug_text(s@),
        },
{
    let cs = chars_of(s);
    let mut lower: Vec<char> = Vec::new();
    let mut i: usize = 0;
    while i < cs.len()
        invariant
            i <= cs.len(),
            lower@ == ascii_lowercase(cs@.take(i as int)),
        decreases cs.len() - i,
    {
        let c = cs[i];
        let l = if 'A' <= c && c <= 'Z' { ((c as u32) + 32) as u8 as char } else { c };
        assert(l == ascii_lower(c));
        assert(ascii_lowercase(cs@.take(i + 1)) =~= ascii_lowercase(cs@.take(i as int)).push(l));
        lower.push(l);
        i = i + 1;
    }
    assert(cs@.take(cs.len() as int) =~= cs@);
    if word_is(&lower, "1") || word_is(&lower, "on") || word_is(&lower, "true") {
        Ok(true)
    } else if word_is(&lower, "0") || word_is(&lower, "off") || word_is(&lower, "false") {
        Ok(false)
    } else {
        let quoted = debug_str(s);
        Err(rejection_message(quoted.as_str()))
    }
}

/// `on` or `off`.
pub open spec fn on_off(b: bool) -> Seq<char> {
    if b { "on"@ } else { "off"@ }
}

/// `s` padded with spaces on the right to at least `width` characters.
pub open spec fn pad_right(s: Seq<char>, width: nat) -> Seq<char> {
    if s.len() >= width {
        s
    } else {
        s + Seq::new((width - s.len()) as nat, |i: int| ' ')
    }
}

/// The status line of channel `ch`: indented, its label padded to five
/// characters, then its state.
pub open spec fn channel_line(prefix: Seq<char>, ch: nat, on: bool) -> Seq<char> {
    "  "@ + pad_right(prefix + decimal(ch), 5) + on_off(on)
}

/// One status line per channel `1..=count`, channel `n` showing bit `n - 1`
/// of `value`.
pub open spec fn channel_lines_text(prefix: Seq<char>, value: u8, count: nat) -> Seq<Seq<char>> {
    Seq::new(count, |i: int| channel_line(prefix, (i + 1) as nat, bit_set(value, i as u8)))
}

fn push_on_off(out: &mut String, b: bool)
    ensures
        final(out)@ == old(out)@ + on_off(b),
{
    if b {
        out.append("on");
    } else {
        out.append("off");
    }
}

/// The status line of one channel.
fn channel_line_of(prefix: &str, ch: u32, on: bool) -> (s: String)
    ensures
        s@ == channel_line(prefix@, ch as nat, on),
{
    let mut label = String::new();
    label.append(prefix);
    push_decimal(&mut label, ch);
    let width: usize = chars_of(label.as_str()).len();
    let mut line = String::new();
    line.append("  ");
    line.append(label.as_str());
    let ghost padded_from = line@;
    let mut k: usize = width;
    while k < 5
        invariant
            width <= k,
            width == label@.len(),
            k <= 5 || k == width,
            line@ == padded_from + Seq::new((k - width) as nat, |i: int| ' '),
        decreases 5 - k,
    {
        push_char(&mut line, ' ');
        assert(line@ =~= padded_from + Seq::new((k + 1 - width) as nat, |i: int| ' '));
        k = k + 1;
    }
    if width >= 5 {
        assert(line@ =~= padded_from);
    }
    push_on_off(&mut line, on);
    assert(line@ =~= channel_line(prefix@, ch as nat, on));
    line
}

/// One status line per channel `1..=count` of the bitmask `value`.
pub fn channel_lines(prefix: &str, value: u8, count: usize) -> (r: Vec<String>)
    requires
        count <= 8,
    ensures
        r@.map_values(|s: String| s@) == channel_lines_text(prefix@, value, count as nat),
{
    let mut lines: Vec<String> = Vec::new();
    let mut ch: usize = 1;
    while ch <= count
        invariant
            1 <= ch <= count + 1,
            count <= 8,
            lines@.map_values(|s: String| s@) == channel_lines_text(prefix@, value, (ch - 1) as nat),
        decreases count + 1 - ch,
    {
        let on = (value >> ((ch - 1) as u8)) & 1 == 1;
        assert(on == bit_set(value, (ch - 1) as u8));
        let line = channel_line_of(prefix, ch as u32, on);
        let ghost before = lines@.map_values(|s: String| s@);
        lines.push(line);
        let ghost want = channel_lines_text(prefix@, value, ch as nat);
        assert(lines@.map_values(|s: String| s@) =~= before.push(channel_line(prefix@, ch as nat, on)));
        assert(want[ch - 1] == channel_line(prefix@, ch as nat, on));
        assert forall|j: int| 0 <= j < ch - 1 implies want[j] == before[j] by {
            assert(before[j] == channel_lines_text(prefix@, value, (ch - 1) as nat)[j]);
        }
        assert(lines@.map_values(|s: String| s@) =~= channel_lines_text(prefix@, value, ch as nat));
        ch = ch + 1;
    }
    lines
}

/// The lines that show a status snapshot.
pub open spec fn status_report_text(outputs: u8, inputs: u8) -> Seq<Seq<char>> {
    seq!["Outputs:"@] + channel_lines_text("Out"@, outputs, 8) + seq!["Inputs:"@]
        + channel_lines_text("In"@, inputs, 7)
}

/// The lines that show a status snapshot: every output, then every input.
pub fn status_report(outputs: u8, inputs: u8) -> (r: Vec<String>)
    ensures
        r@.map_values(|s: String| s@) == status_report_text(outputs, inputs),
{
    let mut lines: Vec<String> = Vec::new();
    let mut head = String::new();
    head.append("Outputs:");
    lines.push(head);
    let mut outs = channel_lines("Out", outputs, 8);
    lines.append(&mut outs);
    let mut mid = String::new();
    mid.append("Inputs:");
    lines.push(mid);
    let mut ins = channel_lines("In", inputs, 7);
    lines.append(&mut ins);
    assert(lines@.map_values(|s: String| s@) =~= status_report_text(outputs, inputs));
    lines
}

/// The line that shows an input change.
pub open spec fn input_change_text(channel: u8, value: bool) -> Seq<char> {
    "In"@ + decimal((channel + 1) as nat) + "  "@ + on_off(value)
}

/// The line that shows input `channel` (0-indexed) changing to `value`.
pub fn input_change_line(channel: u8, value: bool) -> (s: String)
    requires
        channel < 255,
    ensures
        s@ == input_change_text(channel, value),
{
    let mut s = String::new();
    s.append("In");
    push_decimal(&mut s, (channel + 1) as u32);
    s.append("  ");
    push_on_off(&mut s, value);
    s
}


/// `a` and `b` are the same character up to ASCII case: equal, or the same
/// letter with one a capital `A..=Z` and the other its small `a..=z`.
pub open spec fn same_letter_ignoring_case(a: char, b: char) -> bool {
    ||| a == b
    ||| ('A' <= a <= 'Z' && b as u32 == a as u32 + 32)
    ||| ('A' <= b <= 'Z' && a as u32 == b as u32 + 32)
}

/// Every ASCII capital letter is lowered to its small letter, thirty-two code
/// points on; every other character stays as it is.
pub proof fn lemma_ascii_lower_letters(c: char)
    ensures
        'A' <= c <= 'Z' ==> ascii_lower(c) as u32 == c as u32 + 32 && 'a' <= ascii_lower(c) <= 'z',
        !('A' <= c <= 'Z') ==> ascii_lower(c) == c,
{
}

/// A value argument means the same in any mix of ASCII case: two arguments
/// that differ only in the case of their letters are read alike.
pub proof fn lemma_bool_word_ignores_case(s: Seq<char>, t: Seq<char>)
    requires
        s.len() == t.len(),
        forall|i: int| 0 <= i < s.len() ==> #[trigger] same_letter_ignoring_case(s[i], t[i]),
    ensures
        bool_word(s) == bool_word(t),
{
    assert forall|i: int| 0 <= i < s.len() implies ascii_lowercase(s)[i] == ascii_lowercase(t)[i] by {
        assert(same_letter_ignoring_case(s[i], t[i]));
    }
    assert(ascii_lowercase(s) =~= ascii_lowercase(t));
}

/// Bit `k` of a mask, read as arithmetic: the mask divided by two to the
/// `k`, odd.
pub proof fn lemma_bit_set_is_binary_digit(mask: u8, k: u8)
    requires
        k < 8,
    ensures
        bit_set(mask, k) == ((mask as nat / pow2(k as nat)) % 2 == 1),
{
    vstd::arithmetic::power2::lemma2_to64();
    if k == 0 {
        assert(((mask >> 0u8) & 1 == 1) == ((mask / 1) % 2 == 1)) by (bit_vector);
    } else if k == 1 {
        assert(((mask >> 1u8) & 1 == 1) == ((mask / 2) % 2 == 1)) by (bit_vector);
    } else if k == 2 {
        assert(((mask >> 2u8) & 1 == 1) == ((mask / 4) % 2 == 1)) by (bit_vector);
    } else if k == 3 {
        assert(((mask >> 3u8) & 1 == 1) == ((mask / 8) % 2 == 1)) by (bit_vector);
    } else if k == 4 {
        assert(((mask >> 4u8) & 1 == 1) == ((mask / 16) % 2 == 1)) by (bit_vector);
    } else if k == 5 {
        assert(((mask >> 5u8) & 1 == 1) == ((mask / 32) % 2 == 1)) by (bit_vector);
    } else if k == 6 {
        assert(((mask >> 6u8) & 1 == 1) == ((mask / 64) % 2 == 1)) by (bit_vector);
    } else {
        assert(((mask >> 7u8) & 1 == 1) == ((mask / 128) % 2 == 1)) by (bit_vector);
    }
}

/// The status line of channel `i + 1` is its label and shows `on` exactly when
/// binary digit `i` of the mask is one, whatever the other digits are.
pub proof fn lemma_channel_line_shows_its_bit(prefix: Seq<char>, value: u8, count: nat, i: int)
    requires
        count <= 8,
        0 <= i < count,
    ensures
        channel_lines_text(prefix, value, count)[i] == "  "@ + pad_right(prefix + decimal((i + 1) as nat), 5)
            + on_off((value as nat / pow2(i as nat)) % 2 == 1),
{
    lemma_bit_set_is_binary_digit(value, i as u8);
}

/// After output or input `c` is recorded at level `b`, the status line of
/// channel `c + 1` shows `b`, and every other channel's line is as before.
pub proof fn lemma_status_line_follows_record(
    prefix: Seq<char>,
    before: u8,
    after: u8,
    c: u8,
    b: bool,
    count: nat,
)
    requires
        with_bit(before, after, c, b),
        count <= 8,
        c < count,
    ensures
        channel_lines_text(prefix, after, count)[c as int] == "  "@ + pad_right(
            prefix + decimal((c + 1) as nat),
            5,
        ) + on_off(b),
        forall|j: int|
            0 <= j < count && j != c ==> #[trigger] channel_lines_text(prefix, after, count)[j]
                == channel_lines_text(prefix, before, count)[j],
{
    assert(bit_set(after, c) == b);
    assert forall|j: int| 0 <= j < count && j != c implies #[trigger] channel_lines_text(
        prefix,
        after,
        count,
    )[j] == channel_lines_text(prefix, before, count)[j] by {
        assert(bit_set(after, j as u8) == bit_set(before, j as u8));
    }
}

/// The input change shown for the line `EVT IN k v` names input `k`, the
/// number on the wire, and its level.
pub proof fn lemma_input_change_shows_wire_number(k: u8, v: bool, c: u8, value: bool)
    requires
        1 <= k <= 7,
        event_of_line("EVT IN "@ + decimal(k as nat) + seq![' '] + level_digit(v))
            == Some(Event::InputChanged { channel: c, value }),
    ensures
        input_change_text(c, value) == "In"@ + decimal(k as nat) + "  "@ + on_off(v),
{
    lemma_evt_line(k, v);
}

} // verus!
