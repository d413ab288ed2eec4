//! The line-based wire protocol spoken over the USB serial port.
//!
//! Host to device: `SET <channel> <0|1>` and `GET`. Device to host:
//! `EVT IN <channel> <0|1>` and `STATUS OUT <8 bits> IN <7 bits>`, the most
//! significant (highest) channel first. Channels are 1-indexed on the wire and
//! 0-indexed in [`Command`] and [`Event`].

use vstd::prelude::*;
use vstd::arithmetic::power2::pow2;
use crate::text::{
    chars_of, decimal, is_white_space, is_word, join_words, lemma_decimal_value, lemma_parse_decimal,
    lemma_join_push, lemma_trim_ignores_line_feed, lemma_trim_line, lemma_words_of_join, parse_u8, parse_u8_text, push_char, push_decimal,
    split_words, trim, trim_str, word_is, words, decimal_value,
};

verus! {

/// Number of digital outputs (`Out1..=Out8`).
pub const NUM_OUTPUTS: usize = 8;

/// Number of digital inputs wired on the board (`In1..=In7`).
pub const NUM_INPUTS: usize = 7;

/// A command sent from the host to the device.
#[derive(Debug, Clone, Copy, PartialEq, Eq)]
pub enum Command {
    /// Set output `channel` (0-indexed, 0 is `Out1`) to `value`.
    SetOutput { channel: u8, value: bool },
    /// Request a full [`Event::Status`] snapshot.
    GetStatus,
}

/// A message sent from the device to the host.
#[derive(Debug, Clone, Copy, PartialEq, Eq)]
pub enum Event {
    /// Input `channel` (0-indexed, 0 is `In1`) changed to `value`.
    InputChanged { channel: u8, value: bool },
    /// Full snapshot of all outputs and inputs, bit `n` is channel `n + 1`.
    Status { outputs: u8, inputs: u8 },
}

impl Command {
    /// The command names an output that exists.
    pub open spec fn is_valid(self) -> bool {
        match self {
            Command::SetOutput { channel, .. } => channel < NUM_OUTPUTS,
            Command::GetStatus => true,
        }
    }
}

impl Event {
    /// The event names an input that exists and reports no unwired input.
    pub open spec fn is_valid(self) -> bool {
        match self {
            Event::InputChanged { channel, .. } => channel < NUM_INPUTS,
            Event::Status { inputs, .. } => inputs < pow2(NUM_INPUTS as nat),
        }
    }
}

/// `0` or `1` as a word.
pub open spec fn bit_word(t: Seq<char>) -> Option<bool> {
    if t == seq!['1'] {
        Some(true)
    } else if t == seq!['0'] {
        Some(false)
    } else {
        None
    }
}

pub open spec fn bit_char(b: bool) -> char {
    if b { '1' } else { '0' }
}

/// The words of a host line, read as a command.
pub open spec fn command_of_words(t: Seq<Seq<char>>) -> Result<Command, &'static str> {
    if t.len() == 0 {
        Err("empty line")
    } else if t[0] == "SET"@ {
        if t.len() < 2 {
            Err("missing channel")
        } else {
            match parse_u8_text(t[1]) {
                None => Err("bad channel"),
                Some(channel) => if t.len() < 3 {
                    Err("missing value")
                } else {
                    match bit_word(t[2]) {
                        None => Err("bad value"),
                        Some(value) => if channel == 0 || channel > NUM_OUTPUTS {
                            Err("channel out of range")
                        } else {
                            Ok(Command::SetOutput { channel: (channel - 1) as u8, value })
                        },
                    }
                },
            }
        }
    } else if t[0] == "GET"@ {
        Ok(Command::GetStatus)
    } else {
        Err("unknown command")
    }
}

/// A host line read as a command: its words, after trimming, as
/// [`command_of_words`] reads them.
pub open spec fn command_of_line(line: Seq<char>) -> Result<Command, &'static str> {
    command_of_words(words(trim(line)))
}

/// The characters of `t` are all `0` or `1`.
pub open spec fn all_bits(t: Seq<char>) -> bool {
    forall|i: int| 0 <= i < t.len() ==> #[trigger] t[i] == '0' || t[i] == '1'
}

/// The number that the binary digits `t` spell, most significant first.
pub open spec fn binary_value(t: Seq<char>) -> nat
    decreases t.len(),
{
    if t.len() == 0 {
        0
    } else {
        binary_value(t.drop_last()) * 2 + (if t.last() == '1' { 1nat } else { 0nat })
    }
}

/// A bit field of exactly `count` binary digits, kept modulo 256.
pub open spec fn bits_of_word(t: Seq<char>, count: nat) -> Option<u8> {
    if t.len() == count && all_bits(t) {
        Some((binary_value(t) % 256) as u8)
    } else {
        None
    }
}

/// The words of a device line, read as an event.
pub open spec fn event_of_words(t: Seq<Seq<char>>) -> Option<Event> {
    if t.len() == 0 {
        None
    } else if t[0] == "EVT"@ {
        if t.len() >= 4 && t[1] == "IN"@ {
            match (parse_u8_text(t[2]), bit_word(t[3])) {
                (Some(channel), Some(value)) => if channel == 0 || channel > NUM_INPUTS {
                    None
                } else {
                    Some(Event::InputChanged { channel: (channel - 1) as u8, value })
                },
                _ => None,
            }
        } else {
            None
        }
    } else if t[0] == "STATUS"@ {
        if t.len() >= 5 && t[1] == "OUT"@ && t[3] == "IN"@ {
            match (bits_of_word(t[2], NUM_OUTPUTS as nat), bits_of_word(t[4], NUM_INPUTS as nat)) {
                (Some(outputs), Some(inputs)) => Some(Event::Status { outputs, inputs }),
                _ => None,
            }
        } else {
            None
        }
    } else {
        None
    }
}

/// A device line read as an event.
pub open spec fn event_of_line(line: Seq<char>) -> Option<Event> {
    event_of_words(words(trim(line)))
}

/// The low `n` bits of `v` as binary digits, the most significant first.
pub open spec fn bits_text(v: nat, n: nat) -> Seq<char>
    decreases n,
{
    if n == 0 {
        Seq::empty()
    } else {
        bits_text(v / 2, (n - 1) as nat).push(bit_char(v % 2 == 1))
    }
}

/// The line that carries `c`, line feed included.
pub open spec fn command_text(c: Command) -> Seq<char> {
    match c {
        Command::SetOutput { channel, value } => "SET "@ + decimal((channel + 1) as nat) + seq![
            ' ',
            bit_char(value),
            '\n',
        ],
        Command::GetStatus => "GET\n"@,
    }
}

/// The line that carries `e`, line feed included.
pub open spec fn event_text(e: Event) -> Seq<char> {
    match e {
        Event::InputChanged { channel, value } => "EVT IN "@ + decimal((channel + 1) as nat) + seq![
            ' ',
            bit_char(value),
            '\n',
        ],
        Event::Status { outputs, inputs } => "STATUS OUT "@ + bits_text(
            outputs as nat,
            NUM_OUTPUTS as nat,
        ) + " IN "@ + bits_text(inputs as nat, NUM_INPUTS as nat) + "\n"@,
    }
}

/// `0` or `1` as a word.
fn bit_of_word(w: &Vec<char>) -> (r: Option<bool>)
    ensures
        r == bit_word(w@),
{
    if w.len() == 1 && w[0] == '1' {
        assert(w@ =~= seq!['1']);
        Some(true)
    } else if w.len() == 1 && w[0] == '0' {
        assert(w@ =~= seq!['0']);
        Some(false)
    } else {
        None
    }
}

/// Parses a single line (with or without a trailing newline) received from
/// the host into a [`Command`].
///
/// Returns `Err` with a short, human-readable reason if the line could not
/// be parsed.
pub fn parse_command(line: &str) -> (r: Result<Command, &'static str>)
    ensures
        r == command_of_line(line@),
        r matches Ok(c) ==> c.is_valid(),
{
    let line = trim_str(line);
    let cs = chars_of(line);
    let parts = split_words(&cs);
    command_from_words(&parts)
}

pub(crate) fn command_from_words(parts: &Vec<Vec<char>>) -> (r: Result<Command, &'static str>)
    ensures
        r == command_of_words(parts@.map_values(|w: Vec<char>| w@)),
        r matches Ok(c) ==> c.is_valid(),
{
    if parts.len() == 0 {
        return Err("empty line");
    }
    if word_is(&parts[0], "SET") {
        if parts.len() < 2 {
            return Err("missing channel");
        }
        let channel = match parse_u8(&parts[1]) {
            None => {
                return Err("bad channel");
            },
            Some(c) => c,
        };
        if parts.len() < 3 {
            return Err("missing value");
        }
        let value = match bit_of_word(&parts[2]) {
            None => {
                return Err("bad value");
            },
            Some(v) => v,
        };
        if channel == 0 || channel as usize > NUM_OUTPUTS {
            return Err("channel out of range");
        }
        Ok(Command::SetOutput { channel: channel - 1, value })
    } else if word_is(&parts[0], "GET") {
        Ok(Command::GetStatus)
    } else {
        Err("unknown command")
    }
}


/// A bit field of exactly `count` binary digits, most significant first.
fn parse_bits(w: &Vec<char>, count: usize) -> (r: Option<u8>)
    ensures
        r == bits_of_word(w@, count as nat),
{
    if w.len() != count {
        return None;
    }
    let mut value: u8 = 0;
    let mut i: usize = 0;
    while i < w.len()
        invariant
            i <= w.len(),
            all_bits(w@.take(i as int)),
            value as nat == binary_value(w@.take(i as int)) % 256,
        decreases w.len() - i,
    {
        let c = w[i];
        let bit: u8 = if c == '0' {
            0
        } else if c == '1' {
            1
        } else {
            assert(!(w@[i as int] == '0' || w@[i as int] == '1'));
            return None;
        };
        let ghost prev = w@.take(i as int);
        let ghost next = w@.take(i + 1);
        assert(next.drop_last() =~= prev);
        assert(next.last() == c);
        assert(((value << 1u8) | bit) as nat == (value as nat * 2 + bit as nat) % 256) by (bit_vector)
            requires
                bit <= 1,
        ;
        let ghost b = binary_value(prev);
        assert(((b % 256) * 2 + bit as nat) % 256 == (b * 2 + bit as nat) % 256) by {
            vstd::arithmetic::div_mod::lemma_mul_mod_noop_left(b as int, 2, 256);
            vstd::arithmetic::div_mod::lemma_add_mod_noop(b as int * 2, bit as int, 256);
            vstd::arithmetic::div_mod::lemma_add_mod_noop((b % 256) as int * 2, bit as int, 256);
            vstd::arithmetic::div_mod::lemma_mod_twice(bit as int, 256);
        }
        value = (value << 1u8) | bit;
        assert forall|k: int| 0 <= k < next.len() implies #[trigger] next[k] == '0' || next[k] == '1' by {
            if k < i {
                assert(next[k] == prev[k]);
            }
        }
        i = i + 1;
    }
    assert(w@.take(w.len() as int) =~= w@);
    Some(value)
}

/// Parses a single line (with or without a trailing newline) received from
/// the device into an [`Event`].
///
/// Returns `Err` with the trimmed, unrecognized line if it does not match a
/// known device to host message.
pub fn parse_event<'a>(line: &'a str) -> (r: Result<Event, &'a str>)
    ensures
        match r {
            Ok(e) => event_of_line(line@) == Some(e),
            Err(rest) => event_of_line(line@).is_none() && rest@ == trim(line@),
        },
        r matches Ok(e) ==> e.is_valid(),
{
    let trimmed = trim_str(line);
    match parse_event_inner(trimmed) {
        Some(e) => Ok(e),
        None => Err(trimmed),
    }
}

/// An already trimmed device line read as an event.
fn parse_event_inner(line: &str) -> (r: Option<Event>)
    ensures
        r == event_of_words(words(line@)),
        r matches Some(e) ==> e.is_valid(),
{
    let cs = chars_of(line);
    let parts = split_words(&cs);
    if parts.len() == 0 {
        return None;
    }
    if word_is(&parts[0], "EVT") {
        if parts.len() < 2 || !word_is(&parts[1], "IN") || parts.len() < 3 {
            return None;
        }
        let channel = match parse_u8(&parts[2]) {
            Some(c) => c,
            None => {
                return None;
            },
        };
        if parts.len() < 4 {
            return None;
        }
        let value = match bit_of_word(&parts[3]) {
            Some(v) => v,
            None => {
                return None;
            },
        };
        if channel == 0 || channel as usize > NUM_INPUTS {
            return None;
        }
        Some(Event::InputChanged { channel: channel - 1, value })
    } else if word_is(&parts[0], "STATUS") {
        if parts.len() < 2 || !word_is(&parts[1], "OUT") || parts.len() < 3 {
            return None;
        }
        let outputs = match parse_bits(&parts[2], NUM_OUTPUTS) {
            Some(v) => v,
            None => {
                return None;
            },
        };
        if parts.len() < 4 || !word_is(&parts[3], "IN") || parts.len() < 5 {
            return None;
        }
        let inputs = match parse_bits(&parts[4], NUM_INPUTS) {
            Some(v) => v,
            None => {
                return None;
            },
        };
        proof {
            lemma_binary_value_bound(parts@[4]@);
            vstd::arithmetic::power2::lemma2_to64();
        }
        Some(Event::Status { outputs, inputs })
    } else {
        None
    }
}

/// A word of binary digits spells a number below two to its length.
proof fn lemma_binary_value_bound(t: Seq<char>)
    ensures
        binary_value(t) < pow2(t.len()),
    decreases t.len(),
{
    if t.len() > 0 {
        lemma_binary_value_bound(t.drop_last());
        vstd::arithmetic::power2::lemma_pow2_unfold(t.len());
    } else {
        vstd::arithmetic::power2::lemma2_to64();
    }
}

/// Appends the low `n` bits of `v`, the most significant first.
fn push_bits(out: &mut String, v: u8, n: usize)
    ensures
        final(out)@ == old(out)@ + bits_text(v as nat, n as nat),
    decreases n,
{
    if n > 0 {
        push_bits(out, v / 2, n - 1);
        push_char(out, if v % 2 == 1 { '1' } else { '0' });
        assert(old(out)@ + bits_text(v as nat, n as nat) =~= old(out)@ + bits_text(
            (v / 2) as nat,
            (n - 1) as nat,
        ) + seq![bit_char(v % 2 == 1)]);
    } else {
        assert(old(out)@ + bits_text(v as nat, 0) =~= old(out)@);
    }
}

/// Appends `lit` to `out`.
fn push_str(out: &mut String, lit: &str)
    ensures
        final(out)@ == old(out)@ + lit@,
{
    out.append(lit);
}

impl Command {
    /// Formats the command as a `\n`-terminated line ready to send to the
    /// device.
    pub fn to_line(&self) -> (s: String)
        requires
            self matches Command::SetOutput { channel, .. } ==> channel < 255,
        ensures
            s@ == command_text(*self),
    {
        let mut out = String::new();
        match *self {
            Command::SetOutput { channel, value } => {
                push_str(&mut out, "SET ");
                push_decimal(&mut out, (channel + 1) as u32);
                push_char(&mut out, ' ');
                push_char(&mut out, if value { '1' } else { '0' });
                push_char(&mut out, '\n');
                assert(out@ =~= command_text(*self));
            },
            Command::GetStatus => {
                push_str(&mut out, "GET\n");
                assert(out@ =~= command_text(*self));
            },
        }
        out
    }
}

impl Event {
    /// Formats the event as a `\n`-terminated line ready to send to the host.
    pub fn to_line(&self) -> (s: String)
        requires
            self matches Event::InputChanged { channel, .. } ==> channel < 255,
        ensures
            s@ == event_text(*self),
    {
        let mut out = String::new();
        match *self {
            Event::InputChanged { channel, value } => {
                push_str(&mut out, "EVT IN ");
                push_decimal(&mut out, (channel + 1) as u32);
                push_char(&mut out, ' ');
                push_char(&mut out, if value { '1' } else { '0' });
                push_char(&mut out, '\n');
                assert(out@ =~= event_text(*self));
            },
            Event::Status { outputs, inputs } => {
                push_str(&mut out, "STATUS OUT ");
                push_bits(&mut out, outputs, NUM_OUTPUTS);
                push_str(&mut out, " IN ");
                push_bits(&mut out, inputs, NUM_INPUTS);
                push_str(&mut out, "\n");
                assert(out@ =~= event_text(*self));
            },
        }
        out
    }
}


/// The bit field text of `v` has `n` binary digits that spell `v` modulo two
/// to the `n`.
pub proof fn lemma_bits_text(v: nat, n: nat)
    ensures
        bits_text(v, n).len() == n,
        all_bits(bits_text(v, n)),
        binary_value(bits_text(v, n)) == v % pow2(n),
    decreases n,
{
    vstd::arithmetic::power2::lemma2_to64();
    if n > 0 {
        lemma_bits_text(v / 2, (n - 1) as nat);
        let t = bits_text(v, n);
        assert(t.drop_last() =~= bits_text(v / 2, (n - 1) as nat));
        assert forall|i: int| 0 <= i < t.len() implies #[trigger] t[i] == '0' || t[i] == '1' by {
            if i < t.len() - 1 {
                assert(t[i] == bits_text(v / 2, (n - 1) as nat)[i]);
            }
        }
        vstd::arithmetic::power2::lemma_pow2_unfold(n);
        vstd::arithmetic::power2::lemma_pow2_pos((n - 1) as nat);
        vstd::arithmetic::div_mod::lemma_mod_breakdown(v as int, 2, pow2((n - 1) as nat) as int);
    }
}

/// A bit field text is one word that neither starts nor ends with white space.
proof fn lemma_bits_word(v: nat, n: nat)
    requires
        n > 0,
    ensures
        is_word(bits_text(v, n)),
        !is_white_space(bits_text(v, n)[0]),
        !is_white_space(bits_text(v, n).last()),
{
    lemma_bits_text(v, n);
    let t = bits_text(v, n);
    assert(t[0] == '0' || t[0] == '1');
    assert(t[t.len() - 1] == '0' || t[t.len() - 1] == '1');
    assert forall|i: int| 0 <= i < t.len() implies !#[trigger] crate::text::is_ascii_space(t[i]) by {
        assert(t[i] == '0' || t[i] == '1');
    }
}

/// Round trip of commands: every valid command, written as a line and read
/// back, is the same command.
pub proof fn lemma_command_round_trip(c: Command)
    requires
        c.is_valid(),
    ensures
        command_of_line(command_text(c)) == Ok::<Command, &'static str>(c),
{
    reveal_strlit("SET");
    reveal_strlit("SET ");
    reveal_strlit("GET");
    reveal_strlit("GET\n");
    match c {
        Command::SetOutput { channel, value } => {
            let n = (channel + 1) as nat;
            lemma_decimal_value(n);
            lemma_parse_decimal((channel + 1) as u8);
            let ws = seq!["SET"@, decimal(n), seq![bit_char(value)]];
            lemma_join_push(seq!["SET"@], decimal(n));
            lemma_join_push(seq!["SET"@, decimal(n)], seq![bit_char(value)]);
            assert(seq!["SET"@].push(decimal(n)) =~= seq!["SET"@, decimal(n)]);
            assert(seq!["SET"@, decimal(n)].push(seq![bit_char(value)]) =~= ws);
            assert(join_words(ws).push('\n') =~= command_text(c));
            assert forall|i: int| 0 <= i < ws.len() implies #[trigger] is_word(ws[i]) by {}
            lemma_trim_line(ws);
            lemma_words_of_join(ws);
            assert(ws[0] == "SET"@);
        },
        Command::GetStatus => {
            let ws = seq!["GET"@];
            lemma_join_push(seq!["GET"@], "GET"@);
            assert(join_words(ws).push('\n') =~= command_text(c));
            assert forall|i: int| 0 <= i < ws.len() implies #[trigger] is_word(ws[i]) by {}
            lemma_trim_line(ws);
            lemma_words_of_join(ws);
            assert(ws[0] != "SET"@);
        },
    }
}

/// Round trip of events: every valid event, written as a line and read back,
/// is the same event.
pub proof fn lemma_event_round_trip(e: Event)
    requires
        e.is_valid(),
    ensures
        event_of_line(event_text(e)) == Some(e),
{
    reveal_strlit("EVT");
    reveal_strlit("IN");
    reveal_strlit("EVT IN ");
    reveal_strlit("STATUS");
    reveal_strlit("OUT");
    reveal_strlit("STATUS OUT ");
    reveal_strlit(" IN ");
    reveal_strlit("\n");
    match e {
        Event::InputChanged { channel, value } => {
            let n = (channel + 1) as nat;
            lemma_decimal_value(n);
            lemma_parse_decimal((channel + 1) as u8);
            let ws = seq!["EVT"@, "IN"@, decimal(n), seq![bit_char(value)]];
            lemma_join_push(seq!["EVT"@], "IN"@);
            lemma_join_push(seq!["EVT"@, "IN"@], decimal(n));
            lemma_join_push(seq!["EVT"@, "IN"@, decimal(n)], seq![bit_char(value)]);
            assert(seq!["EVT"@].push("IN"@) =~= seq!["EVT"@, "IN"@]);
            assert(seq!["EVT"@, "IN"@].push(decimal(n)) =~= seq!["EVT"@, "IN"@, decimal(n)]);
            assert(seq!["EVT"@, "IN"@, decimal(n)].push(seq![bit_char(value)]) =~= ws);
            assert(join_words(ws).push('\n') =~= event_text(e));
            assert forall|i: int| 0 <= i < ws.len() implies #[trigger] is_word(ws[i]) by {}
            lemma_trim_line(ws);
            lemma_words_of_join(ws);
        },
        Event::Status { outputs, inputs } => {
            let o = bits_text(outputs as nat, 8);
            let i = bits_text(inputs as nat, 7);
            lemma_bits_text(outputs as nat, 8);
            lemma_bits_text(inputs as nat, 7);
            lemma_bits_word(outputs as nat, 8);
            lemma_bits_word(inputs as nat, 7);
            vstd::arithmetic::power2::lemma2_to64();
            let ws = seq!["STATUS"@, "OUT"@, o, "IN"@, i];
            lemma_join_push(seq!["STATUS"@], "OUT"@);
            lemma_join_push(seq!["STATUS"@, "OUT"@], o);
            lemma_join_push(seq!["STATUS"@, "OUT"@, o], "IN"@);
            lemma_join_push(seq!["STATUS"@, "OUT"@, o, "IN"@], i);
            assert(seq!["STATUS"@].push("OUT"@) =~= seq!["STATUS"@, "OUT"@]);
            assert(seq!["STATUS"@, "OUT"@].push(o) =~= seq!["STATUS"@, "OUT"@, o]);
            assert(seq!["STATUS"@, "OUT"@, o].push("IN"@) =~= seq!["STATUS"@, "OUT"@, o, "IN"@]);
            assert(seq!["STATUS"@, "OUT"@, o, "IN"@].push(i) =~= ws);
            assert(join_words(ws).push('\n') =~= event_text(e));
            assert forall|k: int| 0 <= k < ws.len() implies #[trigger] is_word(ws[k]) by {}
            lemma_trim_line(ws);
            lemma_words_of_join(ws);
            assert(ws[0] != "EVT"@);
        },
    }
}


/// A line is read the same with or without a trailing line feed, as a
/// command and as an event.
pub proof fn lemma_line_feed_optional(line: Seq<char>)
    ensures
        command_of_line(line.push('\n')) == command_of_line(line),
        event_of_line(line.push('\n')) == event_of_line(line),
{
    lemma_trim_ignores_line_feed(line);
}


/// Every reason a host line is refused for is ASCII text of at most twenty
/// characters.
pub proof fn lemma_reasons_short(t: Seq<Seq<char>>)
    ensures
        command_of_words(t) matches Err(reason) ==> reason@.len() <= 20
            && vstd::utf8::is_ascii_chars(reason@),
{
    reveal_strlit("empty line");
    reveal_strlit("missing channel");
    reveal_strlit("bad channel");
    reveal_strlit("missing value");
    reveal_strlit("bad value");
    reveal_strlit("channel out of range");
    reveal_strlit("unknown command");
}


/// The wire digit for a level: `1` for on, `0` for off.
pub open spec fn level_digit(v: bool) -> Seq<char> {
    if v { seq!['1'] } else { seq!['0'] }
}

/// A `SET` line is read by the number of its second word: words `SET`, a
/// number `k` in `1..=8` and a level digit set output `k - 1` (0-indexed) to
/// that level, whatever words follow.
pub proof fn lemma_set_reads_channel_number(t: Seq<Seq<char>>, k: u8, v: bool)
    requires
        t.len() >= 3,
        t[0] == "SET"@,
        parse_u8_text(t[1]) == Some(k),
        1 <= k <= 8,
        t[2] == level_digit(v),
    ensures
        command_of_words(t) == Ok::<Command, &'static str>(Command::SetOutput { channel: (k - 1) as u8, value: v }),
{
    lemma_level_digit(v);
}

/// A level digit is read back as its level.
proof fn lemma_level_digit(v: bool)
    ensures
        bit_word(level_digit(v)) == Some(v),
{
    assert(seq!['0'][0] != seq!['1'][0]);
}

/// An `EVT IN` line is read by the number of its third word: words `EVT`,
/// `IN`, a number `k` in `1..=7` and a level digit report input `k - 1`
/// (0-indexed) at that level, whatever words follow.
pub proof fn lemma_evt_reads_channel_number(t: Seq<Seq<char>>, k: u8, v: bool)
    requires
        t.len() >= 4,
        t[0] == "EVT"@,
        t[1] == "IN"@,
        parse_u8_text(t[2]) == Some(k),
        1 <= k <= 7,
        t[3] == level_digit(v),
    ensures
        event_of_words(t) == Some(Event::InputChanged { channel: (k - 1) as u8, value: v }),
{
    lemma_level_digit(v);
}

/// The line `SET k v`, for every `k` in `1..=8`, sets output `k - 1`
/// (0-indexed) to `v`.
pub proof fn lemma_set_line(k: u8, v: bool)
    requires
        1 <= k <= 8,
    ensures
        command_of_line("SET "@ + decimal(k as nat) + seq![' '] + level_digit(v))
            == Ok::<Command, &'static str>(Command::SetOutput { channel: (k - 1) as u8, value: v }),
{
    reveal_strlit("SET");
    reveal_strlit("SET ");
    lemma_decimal_value(k as nat);
    lemma_parse_decimal(k);
    let line = "SET "@ + decimal(k as nat) + seq![' '] + level_digit(v);
    let ws = seq!["SET"@, decimal(k as nat), level_digit(v)];
    lemma_join_push(seq!["SET"@], decimal(k as nat));
    lemma_join_push(seq!["SET"@, decimal(k as nat)], level_digit(v));
    assert(seq!["SET"@].push(decimal(k as nat)) =~= seq!["SET"@, decimal(k as nat)]);
    assert(seq!["SET"@, decimal(k as nat)].push(level_digit(v)) =~= ws);
    assert(join_words(ws) =~= line);
    assert forall|i: int| 0 <= i < ws.len() implies #[trigger] is_word(ws[i]) by {}
    lemma_trim_line(ws);
    lemma_words_of_join(ws);
    lemma_line_feed_optional(line);
    lemma_set_reads_channel_number(ws, k, v);
}

/// The line `EVT IN k v`, for every `k` in `1..=7`, reports input `k - 1`
/// (0-indexed) at level `v`.
pub proof fn lemma_evt_line(k: u8, v: bool)
    requires
        1 <= k <= 7,
    ensures
        event_of_line("EVT IN "@ + decimal(k as nat) + seq![' '] + level_digit(v))
            == Some(Event::InputChanged { channel: (k - 1) as u8, value: v }),
{
    reveal_strlit("EVT");
    reveal_strlit("IN");
    reveal_strlit("EVT IN ");
    lemma_decimal_value(k as nat);
    lemma_parse_decimal(k);
    let line = "EVT IN "@ + decimal(k as nat) + seq![' '] + level_digit(v);
    let ws = seq!["EVT"@, "IN"@, decimal(k as nat), level_digit(v)];
    lemma_join_push(seq!["EVT"@], "IN"@);
    lemma_join_push(seq!["EVT"@, "IN"@], decimal(k as nat));
    lemma_join_push(seq!["EVT"@, "IN"@, decimal(k as nat)], level_digit(v));
    assert(seq!["EVT"@].push("IN"@) =~= seq!["EVT"@, "IN"@]);
    assert(seq!["EVT"@, "IN"@].push(decimal(k as nat)) =~= seq!["EVT"@, "IN"@, decimal(k as nat)]);
    assert(seq!["EVT"@, "IN"@, decimal(k as nat)].push(level_digit(v)) =~= ws);
    assert(join_words(ws) =~= line);
    assert forall|i: int| 0 <= i < ws.len() implies #[trigger] is_word(ws[i]) by {}
    lemma_trim_line(ws);
    lemma_words_of_join(ws);
    lemma_line_feed_optional(line);
    lemma_evt_reads_channel_number(ws, k, v);
}

/// The line written for `SET` to output `c` (0-indexed) is `SET`, the number
/// `c + 1`, and the level digit, ended by a line feed.
pub proof fn lemma_set_text_names_channel(c: u8, v: bool)
    requires
        c < 255,
    ensures
        command_text(Command::SetOutput { channel: c, value: v })
            == ("SET "@ + decimal((c + 1) as nat) + seq![' '] + level_digit(v)).push('\n'),
        decimal_value(decimal((c + 1) as nat)) == c + 1,
{
    lemma_decimal_value((c + 1) as nat);
    assert(command_text(Command::SetOutput { channel: c, value: v })
        =~= ("SET "@ + decimal((c + 1) as nat) + seq![' '] + level_digit(v)).push('\n'));
}

/// The line written for a change of input `c` (0-indexed) is `EVT IN`, the
/// number `c + 1`, and the level digit, ended by a line feed.
pub proof fn lemma_evt_text_names_channel(c: u8, v: bool)
    requires
        c < 255,
    ensures
        event_text(Event::InputChanged { channel: c, value: v })
            == ("EVT IN "@ + decimal((c + 1) as nat) + seq![' '] + level_digit(v)).push('\n'),
        decimal_value(decimal((c + 1) as nat)) == c + 1,
{
    lemma_decimal_value((c + 1) as nat);
    assert(event_text(Event::InputChanged { channel: c, value: v })
        =~= ("EVT IN "@ + decimal((c + 1) as nat) + seq![' '] + level_digit(v)).push('\n'));
}

} // verus!
