//! The device side: reading host lines, keeping the output and input state,
//! answering commands and reporting input changes.

use vstd::prelude::*;
use vstd::utf8::{decode_utf8, encode_utf8, is_ascii_chars, valid_utf8};
use crate::bounded::{
    event_line_bytes, event_line_new, event_line_push_str, line_buffer_as_slice, line_buffer_bytes,
    line_buffer_clear, line_buffer_new, line_buffer_push, log_line_bytes, log_line_new,
    log_line_push_str, serial_bytes, serial_new, serial_push_str,
};
use crate::text::{
    char_of_digit, chars_of, decimal, lemma_decimal_short, lemma_encode_utf8_concat, push_char,
    split_words, str_from_utf8, trim, trim_str, words,
};
use crate::wire::{bit_char, bits_text, command_from_words, command_of_line, event_text, lemma_bits_text};
pub use crate::wire::{Command, Event, NUM_INPUTS, NUM_OUTPUTS};

verus! {

/// Parses a single line (without the trailing newline) received from the
/// host into a [`Command`].
///
/// Returns `Err` with a short, human-readable reason if the line could not
/// be parsed.
pub fn parse(line: &str) -> (r: Result<Command, &'static str>)
    ensures
        r == command_of_line(line@),
        r matches Ok(c) ==> c.is_valid(),
{
    let line = trim_str(line);
    let cs = chars_of(line);
    let parts = split_words(&cs);
    command_from_words(&parts)
}

/// Bit `k` of `mask` is set.
pub open spec fn bit_set(mask: u8, k: u8) -> bool {
    (mask >> k) & 1 == 1
}

/// `mask` with bit `bit` set to `value` and every other bit unchanged.
pub open spec fn with_bit(before: u8, after: u8, bit: u8, value: bool) -> bool {
    forall|k: u8| k < 8 ==> #[trigger] bit_set(after, k) == if k == bit { value } else { bit_set(before, k) }
}

/// The current output and input levels, bit `n` is channel `n + 1`.
pub struct IoState {
    pub outputs: u8,
    pub inputs: u8,
}

impl IoState {
    /// All outputs off and all inputs inactive.
    pub fn new() -> (s: IoState)
        ensures
            s.outputs == 0,
            s.inputs == 0,
    {
        IoState { outputs: 0, inputs: 0 }
    }
}

fn set_bit(state: &mut u8, bit: u8, value: bool)
    requires
        bit < 8,
    ensures
        with_bit(*old(state), *final(state), bit, value),
{
    let before: u8 = *state;
    if value {
        *state = before | (1u8 << bit);
    } else {
        *state = before & !(1u8 << bit);
    }
    let after: u8 = *state;
    assert forall|k: u8| k < 8 implies #[trigger] bit_set(after, k) == if k == bit { value } else { bit_set(before, k) } by {
        if value {
            assert(after == before | (1u8 << bit));
            assert(((before | (1u8 << bit)) >> k) & 1 == 1 <==> (if k == bit { true } else { (before >> k) & 1 == 1 })) by (bit_vector)
                requires
                    bit < 8,
                    k < 8,
            ;
        } else {
            assert(after == before & !(1u8 << bit));
            assert(((before & !(1u8 << bit)) >> k) & 1 == 1 <==> (if k == bit { false } else { (before >> k) & 1 == 1 })) by (bit_vector)
                requires
                    bit < 8,
                    k < 8,
            ;
        }
    }
}

/// Records output `channel` (0-indexed) as being set to `value`.
pub fn set_output(state: &mut IoState, channel: u8, value: bool)
    requires
        channel < NUM_OUTPUTS,
    ensures
        with_bit(old(state).outputs, final(state).outputs, channel, value),
        final(state).inputs == old(state).inputs,
{
    set_bit(&mut state.outputs, channel, value);
}

/// Records input `channel` (0-indexed) as being at logical level `value`.
pub fn set_input(state: &mut IoState, channel: u8, value: bool)
    requires
        channel < NUM_INPUTS,
    ensures
        with_bit(old(state).inputs, final(state).inputs, channel, value),
        final(state).outputs == old(state).outputs,
{
    set_bit(&mut state.inputs, channel, value);
}

/// Current output bitmask, bit `n` is `Out{n+1}`.
pub fn outputs(state: &IoState) -> (r: u8)
    ensures
        r == state.outputs,
{
    state.outputs
}

/// Current input bitmask, bit `n` is `In{n+1}`.
pub fn inputs(state: &IoState) -> (r: u8)
    ensures
        r == state.inputs,
{
    state.inputs
}

/// What applying a command asks of the outputs or of the host.
#[derive(Debug, Clone, Copy, PartialEq, Eq)]
pub enum Reaction {
    /// Drive output `channel` (0-indexed) to `value`.
    Drive { channel: u8, value: bool },
    /// Send this event to the host.
    Send(Event),
}

/// Applies a command to the recorded state: a `SetOutput` records the level
/// and asks for the output to be driven, a `GetStatus` answers with a
/// snapshot of the state.
pub fn handle_command(state: &mut IoState, command: Command) -> (r: Reaction)
    requires
        command.is_valid(),
    ensures
        match command {
            Command::SetOutput { channel, value } => {
                &&& r == Reaction::Drive { channel, value }
                &&& with_bit(old(state).outputs, final(state).outputs, channel, value)
                &&& final(state).inputs == old(state).inputs
            },
            Command::GetStatus => {
                &&& r == Reaction::Send(Event::Status { outputs: old(state).outputs, inputs: old(state).inputs })
                &&& *final(state) == *old(state)
            },
        },
{
    match command {
        Command::SetOutput { channel, value } => {
            set_output(state, channel, value);
            Reaction::Drive { channel, value }
        },
        Command::GetStatus => Reaction::Send(Event::Status { outputs: outputs(state), inputs: inputs(state) }),
    }
}

/// The level reported when an input that was at `active` settles at `now`:
/// the new level when it differs, nothing otherwise.
pub open spec fn reported_change(active: bool, now: bool) -> Option<bool> {
    if now != active {
        Some(now)
    } else {
        None
    }
}

/// The level of an input that started at `active` after settling at each of
/// `levels` in turn.
pub open spec fn level_after(active: bool, levels: Seq<bool>) -> bool {
    if levels.len() == 0 {
        active
    } else {
        levels.last()
    }
}

/// The levels reported while an input that started at `active` settles at
/// each of `levels` in turn.
pub open spec fn reported_levels(active: bool, levels: Seq<bool>) -> Seq<bool>
    decreases levels.len(),
{
    if levels.len() == 0 {
        Seq::empty()
    } else {
        let before = reported_levels(active, levels.drop_last());
        match reported_change(level_after(active, levels.drop_last()), levels.last()) {
            Some(v) => before.push(v),
            None => before,
        }
    }
}

/// Over any run of settled levels, the reported levels alternate: the first
/// differs from the starting level, no two in a row are equal, and the last
/// one is the input's level at the end of the run.
pub proof fn lemma_reports_alternate(active: bool, levels: Seq<bool>)
    ensures
        ({
            let r = reported_levels(active, levels);
            &&& r.len() > 0 ==> r[0] != active
            &&& forall|i: int| 0 <= i < r.len() - 1 ==> #[trigger] r[i] != r[i + 1]
            &&& r.len() > 0 ==> r.last() == level_after(active, levels)
            &&& r.len() == 0 ==> level_after(active, levels) == active
        }),
    decreases levels.len(),
{
    if levels.len() > 0 {
        let front = levels.drop_last();
        lemma_reports_alternate(active, front);
        let before = reported_levels(active, front);
        let r = reported_levels(active, levels);
        let a = level_after(active, front);
        if levels.last() != a {
            assert(r == before.push(levels.last()));
            assert forall|i: int| 0 <= i < r.len() - 1 implies #[trigger] r[i] != r[i + 1] by {
                if i < before.len() - 1 {
                    assert(r[i] == before[i] && r[i + 1] == before[i + 1]);
                } else {
                    assert(r[i] == before.last() || before.len() == 0);
                }
            }
        } else {
            assert(r == before);
        }
    }
}

/// Watches one input for changes of its settled level.
pub struct InputWatch {
    pub channel: u8,
    pub active: bool,
}

impl InputWatch {
    /// Starts watching input `channel` (0-indexed) whose level is now
    /// `active`, and records that level.
    pub fn start(state: &mut IoState, channel: u8, active: bool) -> (w: InputWatch)
        requires
            channel < NUM_INPUTS,
        ensures
            w.channel == channel,
            w.active == active,
            with_bit(old(state).inputs, final(state).inputs, channel, active),
            bit_set(final(state).inputs, channel) == active,
            final(state).outputs == old(state).outputs,
    {
        set_input(state, channel, active);
        InputWatch { channel, active }
    }

    /// The level has settled at `now_active` after an edge: a change is
    /// recorded and reported, an unchanged level is neither.
    pub fn settled(&mut self, state: &mut IoState, now_active: bool) -> (r: Option<Event>)
        requires
            old(self).channel < NUM_INPUTS,
        ensures
            final(self).channel == old(self).channel,
            final(self).active == now_active,
            now_active != old(self).active ==> {
                &&& r == Some(Event::InputChanged { channel: old(self).channel, value: now_active })
                &&& with_bit(old(state).inputs, final(state).inputs, old(self).channel, now_active)
                &&& final(state).outputs == old(state).outputs
            },
            now_active == old(self).active ==> r.is_none() && *final(state) == *old(state),
            r == match reported_change(old(self).active, now_active) {
                Some(v) => Some(Event::InputChanged { channel: old(self).channel, value: v }),
                None => None,
            },
            bit_set(old(state).inputs, old(self).channel) == old(self).active ==> bit_set(
                final(state).inputs,
                final(self).channel,
            ) == final(self).active,
    {
        if now_active != self.active {
            self.active = now_active;
            set_input(state, self.channel, now_active);
            Some(Event::InputChanged { channel: self.channel, value: now_active })
        } else {
            None
        }
    }
}


/// A byte that ends a host line: line feed or carriage return.
pub open spec fn is_line_end(b: u8) -> bool {
    b == 10 || b == 13
}

/// Capacity of the line buffer in bytes.
pub const LINE_CAPACITY: usize = 128;

/// The buffered bytes after byte `b` arrives: a line end empties the buffer,
/// any other byte is kept while there is room, and a byte that finds the
/// buffer full discards the line.
pub open spec fn next_buffer(buf: Seq<u8>, b: u8) -> Seq<u8> {
    if is_line_end(b) {
        Seq::empty()
    } else if buf.len() < LINE_CAPACITY {
        buf.push(b)
    } else {
        Seq::empty()
    }
}

/// The buffered bytes after `bytes` arrive one by one.
pub open spec fn buffer_after(buf: Seq<u8>, bytes: Seq<u8>) -> Seq<u8>
    decreases bytes.len(),
{
    if bytes.len() == 0 {
        buf
    } else {
        next_buffer(buffer_after(buf, bytes.drop_last()), bytes.last())
    }
}

/// What a byte from the host brought about.
#[derive(Debug, PartialEq, Eq)]
pub enum LineOutcome {
    /// No complete line yet.
    Pending,
    /// A complete line that is a command.
    Command(Command),
    /// A complete line of text that is no command, with the reason, the text,
    /// and the answer for the host (`ERR <reason>`).
    Rejected { reason: &'static str, text: String, answer: heapless::String<64> },
    /// A complete line that is not UTF-8 text.
    NotText,
    /// The line outgrew the buffer and was discarded.
    TooLong,
}

/// Size of a full USB bulk packet on the data interface.
pub const MAX_PACKET_SIZE: usize = 64;

/// A line of `len` bytes written to the host as one transfer must be ended by
/// a zero-length packet when it fills its last packet exactly.
pub fn line_needs_zero_length_packet(len: usize) -> (r: bool)
    ensures
        r == (len % MAX_PACKET_SIZE == 0),
{
    len % MAX_PACKET_SIZE == 0
}

/// A formatted event line never needs a zero-length packet.
pub proof fn lemma_event_line_needs_no_terminator(e: Event)
    requires
        e matches Event::InputChanged { channel, .. } ==> channel < 255,
    ensures
        encode_utf8(event_text(e)).len() % (MAX_PACKET_SIZE as nat) != 0,
{
    lemma_event_text_short(e);
    vstd::utf8::is_ascii_chars_encode_utf8(event_text(e));
    reveal_strlit("EVT IN ");
    reveal_strlit("STATUS OUT ");
    assert(event_text(e).len() > 0);
}

/// The line that answers a refused host line: `ERR <reason>`.
pub open spec fn error_text(reason: Seq<char>) -> Seq<char> {
    "ERR "@ + reason + "\n"@
}

/// The line `ERR <reason>\n` that answers a host line refused for `reason`.
pub fn error_line(reason: &str) -> (r: heapless::String<64>)
    requires
        encode_utf8(reason@).len() <= 59,
    ensures
        event_line_bytes(r) == encode_utf8(error_text(reason@)),
{
    proof {
        reveal_strlit("ERR ");
        reveal_strlit("\n");
        vstd::utf8::is_ascii_chars_encode_utf8("ERR "@);
        vstd::utf8::is_ascii_chars_encode_utf8("\n"@);
        lemma_encode_utf8_concat("ERR "@, reason@);
        lemma_encode_utf8_concat("ERR "@ + reason@, "\n"@);
    }
    let mut out = event_line_new();
    let _ = event_line_push_str(&mut out, "ERR ");
    let _ = event_line_push_str(&mut out, reason);
    let _ = event_line_push_str(&mut out, "\n");
    assert(event_line_bytes(out) =~= encode_utf8(error_text(reason@)));
    out
}

/// What a complete, non-empty line `bytes` is reported as.
pub open spec fn line_outcome(bytes: Seq<u8>, r: LineOutcome) -> bool {
    match r {
        LineOutcome::Command(c) => valid_utf8(bytes) && command_of_line(decode_utf8(bytes)) == Ok::<Command, &'static str>(c),
        LineOutcome::Rejected { reason, text, answer } => valid_utf8(bytes) && command_of_line(
            decode_utf8(bytes),
        ) == Err::<Command, &'static str>(reason) && text@ == decode_utf8(bytes)
            && event_line_bytes(answer) == encode_utf8(error_text(reason@)),
        LineOutcome::NotText => !valid_utf8(bytes),
        _ => false,
    }
}

/// Assembles host lines from the bytes of the serial port.
pub struct LineReader {
    line: heapless::Vec<u8, 128>,
}

impl LineReader {
    /// The bytes of the line read so far.
    pub closed spec fn buffered(self) -> Seq<u8> {
        line_buffer_bytes(self.line)
    }

    /// A reader with nothing buffered.
    pub fn new() -> (r: LineReader)
        ensures
            r.buffered() == Seq::<u8>::empty(),
    {
        LineReader { line: line_buffer_new() }
    }

    /// Forgets the line read so far (the host connected anew).
    pub fn reset(&mut self)
        ensures
            final(self).buffered() == Seq::<u8>::empty(),
    {
        line_buffer_clear(&mut self.line);
    }

    /// Takes one byte from the host.
    pub fn feed(&mut self, b: u8) -> (r: LineOutcome)
        ensures
            final(self).buffered() == next_buffer(old(self).buffered(), b),
            is_line_end(b) && old(self).buffered().len() == 0 ==> r is Pending,
            is_line_end(b) && old(self).buffered().len() > 0 ==> line_outcome(old(self).buffered(), r),
            !is_line_end(b) && old(self).buffered().len() < LINE_CAPACITY ==> r is Pending,
            !is_line_end(b) && old(self).buffered().len() >= LINE_CAPACITY ==> r is TooLong,
    {
        if b == 10 || b == 13 {
            let bytes = line_buffer_as_slice(&self.line);
            if bytes.len() == 0 {
                return LineOutcome::Pending;
            }
            let outcome = match str_from_utf8(bytes) {
                Some(text) => match parse(text) {
                    Ok(c) => LineOutcome::Command(c),
                    Err(reason) => {
                        proof {
                            crate::wire::lemma_reasons_short(words(trim(text@)));
                            vstd::utf8::is_ascii_chars_encode_utf8(reason@);
                        }
                        LineOutcome::Rejected { reason, text: text.to_owned(), answer: error_line(reason) }
                    },
                },
                None => LineOutcome::NotText,
            };
            line_buffer_clear(&mut self.line);
            outcome
        } else {
            match line_buffer_push(&mut self.line, b) {
                Ok(()) => LineOutcome::Pending,
                Err(_) => {
                    line_buffer_clear(&mut self.line);
                    LineOutcome::TooLong
                },
            }
        }
    }
}

/// The buffer never holds more than [`LINE_CAPACITY`] bytes.
pub proof fn lemma_buffer_bounded(buf: Seq<u8>, b: u8)
    requires
        buf.len() <= LINE_CAPACITY,
    ensures
        next_buffer(buf, b).len() <= LINE_CAPACITY,
{
}

/// A line of at most [`LINE_CAPACITY`] bytes without line ends, fed into an
/// empty reader one byte at a time, is held whole.
pub proof fn lemma_line_is_buffered(bytes: Seq<u8>)
    requires
        bytes.len() <= LINE_CAPACITY,
        forall|i: int| 0 <= i < bytes.len() ==> !#[trigger] is_line_end(bytes[i]),
    ensures
        buffer_after(Seq::empty(), bytes) == bytes,
    decreases bytes.len(),
{
    if bytes.len() > 0 {
        let front = bytes.drop_last();
        assert forall|i: int| 0 <= i < front.len() implies !#[trigger] is_line_end(front[i]) by {
            assert(front[i] == bytes[i]);
        }
        lemma_line_is_buffered(front);
        assert(!is_line_end(bytes[bytes.len() - 1]));
        assert(front.push(bytes.last()) =~= bytes);
    }
}


/// Every event line is ASCII text of at most 31 characters.
pub proof fn lemma_event_text_short(e: Event)
    requires
        e matches Event::InputChanged { channel, .. } ==> channel < 255,
    ensures
        is_ascii_chars(event_text(e)),
        event_text(e).len() <= 31,
{
    reveal_strlit("EVT IN ");
    reveal_strlit("STATUS OUT ");
    reveal_strlit(" IN ");
    reveal_strlit("\n");
    let t = event_text(e);
    match e {
        Event::InputChanged { channel, value } => {
            let d = decimal((channel + 1) as nat);
            lemma_decimal_short((channel + 1) as nat);
            let head = "EVT IN "@;
            let tail = seq![' ', bit_char(value), '\n'];
            assert(t == head + d + tail);
            assert forall|i: int| 0 <= i < t.len() implies '\0' <= #[trigger] t[i] <= '\u{7f}' by {
                if i < head.len() {
                    assert(t[i] == head[i]);
                } else if i < head.len() + d.len() {
                    assert(t[i] == d[i - head.len()]);
                } else {
                    assert(t[i] == tail[i - head.len() - d.len()]);
                }
            }
        },
        Event::Status { outputs, inputs } => {
            let o = bits_text(outputs as nat, NUM_OUTPUTS as nat);
            let n = bits_text(inputs as nat, NUM_INPUTS as nat);
            lemma_bits_text(outputs as nat, NUM_OUTPUTS as nat);
            lemma_bits_text(inputs as nat, NUM_INPUTS as nat);
            let a = "STATUS OUT "@;
            let b = " IN "@;
            let c = "\n"@;
            assert(t == a + o + b + n + c);
            assert forall|i: int| 0 <= i < t.len() implies '\0' <= #[trigger] t[i] <= '\u{7f}' by {
                if i < a.len() {
                    assert(t[i] == a[i]);
                } else if i < a.len() + o.len() {
                    assert(t[i] == o[i - a.len()]);
                } else if i < a.len() + o.len() + b.len() {
                    assert(t[i] == b[i - a.len() - o.len()]);
                } else if i < a.len() + o.len() + b.len() + n.len() {
                    assert(t[i] == n[i - a.len() - o.len() - b.len()]);
                } else {
                    assert(t[i] == c[i - a.len() - o.len() - b.len() - n.len()]);
                }
            }
        },
    }
}

/// Formats an [`Event`] as a `\n`-terminated line ready to be sent to the
/// host.
pub fn format(event: &Event) -> (r: heapless::String<64>)
    requires
        event matches Event::InputChanged { channel, .. } ==> channel < 255,
    ensures
        event_line_bytes(r) == encode_utf8(event_text(*event)),
{
    let line = event.to_line();
    let mut out = event_line_new();
    proof {
        lemma_event_text_short(*event);
        vstd::utf8::is_ascii_chars_encode_utf8(event_text(*event));
    }
    let _ = event_line_push_str(&mut out, line.as_str());
    assert(event_line_bytes(out) =~= encode_utf8(event_text(*event)));
    out
}


/// The bytes of the log line `{level} {message}\n`.
pub open spec fn log_text(level: Seq<char>, message: Seq<char>) -> Seq<u8> {
    encode_utf8(level) + seq![32u8] + encode_utf8(message) + seq![10u8]
}

/// The log line `{level} {message}\n`, when it fits in the 120 bytes of a log
/// line; a line that does not fit is dropped.
pub fn log_line(level: &str, message: &str) -> (r: Option<heapless::String<120>>)
    ensures
        r is Some <==> log_text(level@, message@).len() <= 120,
        r matches Some(line) ==> log_line_bytes(line) == log_text(level@, message@),
{
    proof {
        reveal_strlit(" ");
        reveal_strlit("\n");
        vstd::utf8::is_ascii_chars_encode_utf8(" "@);
        vstd::utf8::is_ascii_chars_encode_utf8("\n"@);
        assert(encode_utf8(" "@) =~= seq![32u8]);
        assert(encode_utf8("\n"@) =~= seq![10u8]);
    }
    let mut line = log_line_new();
    if log_line_push_str(&mut line, level).is_err() {
        return None;
    }
    if log_line_push_str(&mut line, " ").is_err() {
        return None;
    }
    if log_line_push_str(&mut line, message).is_err() {
        return None;
    }
    if log_line_push_str(&mut line, "\n").is_err() {
        return None;
    }
    assert(log_line_bytes(line) =~= log_text(level@, message@));
    Some(line)
}

/// The packet lengths a transfer of `len` bytes is cut into: packets of
/// `size` bytes, the last one holding what is left.
pub open spec fn packet_lengths(len: nat, size: nat) -> Seq<nat>
    decreases len,
{
    if len == 0 || size == 0 {
        Seq::empty()
    } else if len <= size {
        seq![len]
    } else {
        seq![size] + packet_lengths((len - size) as nat, size)
    }
}

/// How a log line of `len` bytes goes out in packets of `size` bytes: the
/// packet lengths, and whether the transfer must be ended by a zero-length
/// packet (its last packet was a full one).
pub fn plan_packets(len: usize, size: usize) -> (r: (Vec<usize>, bool))
    requires
        size > 0,
    ensures
        r.0@.map_values(|n: usize| n as nat) == packet_lengths(len as nat, size as nat),
        r.1 == (len > 0 && len % size == 0),
{
    let mut lengths: Vec<usize> = Vec::new();
    let mut left: usize = len;
    let mut last_full: bool = false;
    while left > 0
        invariant
            size > 0,
            left <= len,
            lengths@.map_values(|n: usize| n as nat) + packet_lengths(left as nat, size as nat)
                == packet_lengths(len as nat, size as nat),
            left > 0 ==> (len % size == 0 <==> left % size == 0),
            left == 0 ==> (last_full == (len > 0 && len % size == 0)),
        decreases left,
    {
        let ghost before = lengths@.map_values(|n: usize| n as nat);
        if left <= size {
            lengths.push(left);
            last_full = left == size;
            proof {
                assert(lengths@.map_values(|n: usize| n as nat) =~= before.push(left as nat));
                assert(packet_lengths(left as nat, size as nat) == seq![left as nat]);
                assert(before.push(left as nat) + packet_lengths(0, size as nat) =~= before + seq![left as nat]);
                if left < size {
                    vstd::arithmetic::div_mod::lemma_small_mod(left as nat, size as nat);
                } else {
                    vstd::arithmetic::div_mod::lemma_mod_self_0(size as int);
                }
            }
            left = 0;
        } else {
            lengths.push(size);
            proof {
                assert(lengths@.map_values(|n: usize| n as nat) =~= before.push(size as nat));
                assert(before.push(size as nat) + packet_lengths((left - size) as nat, size as nat)
                    =~= before + (seq![size as nat] + packet_lengths((left - size) as nat, size as nat)));
                vstd::arithmetic::div_mod::lemma_mod_sub_multiples_vanish(left as int, size as int);
            }
            left = left - size;
        }
    }
    if len == 0 {
        assert(lengths@.map_values(|n: usize| n as nat) =~= packet_lengths(len as nat, size as nat));
    }
    (lengths, last_full)
}

/// The upper-case hexadecimal digit for `d`.
pub open spec fn hex_digit(d: nat) -> char {
    if d < 10 {
        ('0' as u32 + d) as char
    } else {
        ('A' as u32 + d - 10) as char
    }
}

/// `bytes` as upper-case hexadecimal, two digits per byte.
pub open spec fn hex_upper(bytes: Seq<u8>) -> Seq<char>
    decreases bytes.len(),
{
    if bytes.len() == 0 {
        Seq::empty()
    } else {
        hex_upper(bytes.drop_last()) + seq![
            hex_digit((bytes.last() / 16) as nat),
            hex_digit((bytes.last() % 16) as nat),
        ]
    }
}

fn hex_char(d: u8) -> (c: char)
    requires
        d < 16,
    ensures
        c == hex_digit(d as nat),
{
    if d < 10 {
        char_of_digit(d as u32)
    } else if d == 10 {
        'A'
    } else if d == 11 {
        'B'
    } else if d == 12 {
        'C'
    } else if d == 13 {
        'D'
    } else if d == 14 {
        'E'
    } else {
        'F'
    }
}

/// The USB serial number: the flash chip's unique id in upper-case
/// hexadecimal.
pub fn serial_number(id: &[u8; 8]) -> (r: heapless::String<16>)
    ensures
        serial_bytes(r) == encode_utf8(hex_upper(id@)),
{
    let mut text = String::new();
    let mut i: usize = 0;
    while i < 8
        invariant
            i <= 8,
            id@.len() == 8,
            text@ == hex_upper(id@.take(i as int)),
            text@.len() == 2 * i,
            forall|k: int| 0 <= k < text@.len() ==> '\0' <= #[trigger] text@[k] <= '\u{7f}',
        decreases 8 - i,
    {
        let b: u8 = id[i];
        assert(id@.take(i + 1).drop_last() =~= id@.take(i as int));
        let ghost before = text@;
        push_char(&mut text, hex_char(b / 16));
        push_char(&mut text, hex_char(b % 16));
        assert(text@ =~= before + seq![hex_digit((b / 16) as nat), hex_digit((b % 16) as nat)]);
        i = i + 1;
    }
    assert(id@.take(8) =~= id@);
    let mut out = serial_new();
    proof {
        vstd::utf8::is_ascii_chars_encode_utf8(text@);
    }
    let _ = serial_push_str(&mut out, text.as_str());
    assert(serial_bytes(out) =~= encode_utf8(hex_upper(id@)));
    out
}

/// The interface class, subclass and protocol that `picotool` looks for.
pub const RESET_CLASS: u8 = 0xff;
pub const RESET_SUBCLASS: u8 = 0x00;
pub const RESET_PROTOCOL: u8 = 0x01;

/// Vendor request: reboot into the BOOTSEL bootloader.
pub const REQUEST_BOOTSEL: u8 = 0x01;
/// Vendor request: reboot into the flashed application.
pub const REQUEST_FLASH: u8 = 0x02;

/// The parts of a USB control OUT request that the reset interface reads.
pub struct ControlRequest {
    /// The request type is `Class`.
    pub class_request: bool,
    /// The recipient is an interface.
    pub to_interface: bool,
    /// `wIndex`.
    pub index: u16,
    /// `bRequest`.
    pub request: u8,
    /// `wValue`.
    pub value: u16,
}

/// What the reset interface does with a control request.
#[derive(Debug, Clone, Copy, PartialEq, Eq)]
pub enum ResetAction {
    /// Not addressed to this interface: leave it to others.
    Ignore,
    /// Reboot into BOOTSEL, with this interface-disable mask.
    RebootToBootloader { disable_interface_mask: u32 },
    /// Reboot into the application.
    RebootToApplication,
    /// Addressed to this interface but not understood.
    Reject,
}

/// The vendor reset interface, compatible with `picotool --force`.
pub struct ResetHandler {
    interface: u8,
}

impl ResetHandler {
    pub closed spec fn interface_number(self) -> u8 {
        self.interface
    }

    /// A handler for the interface numbered `interface`.
    pub fn new(interface: u8) -> (h: ResetHandler)
        ensures
            h.interface_number() == interface,
    {
        ResetHandler { interface }
    }

    /// Decides what a control OUT request asks of the reset interface.
    pub fn control_out(&self, req: &ControlRequest) -> (r: ResetAction)
        ensures
            !(req.class_request && req.to_interface && req.index == self.interface_number() as u16)
                ==> r == ResetAction::Ignore,
            req.class_request && req.to_interface && req.index == self.interface_number() as u16
                ==> r == if req.request == REQUEST_BOOTSEL {
                ResetAction::RebootToBootloader { disable_interface_mask: req.value as u32 }
            } else if req.request == REQUEST_FLASH {
                ResetAction::RebootToApplication
            } else {
                ResetAction::Reject
            },
    {
        if !req.class_request || !req.to_interface || req.index != self.interface as u16 {
            return ResetAction::Ignore;
        }
        if req.request == REQUEST_BOOTSEL {
            ResetAction::RebootToBootloader { disable_interface_mask: req.value as u32 }
        } else if req.request == REQUEST_FLASH {
            ResetAction::RebootToApplication
        } else {
            ResetAction::Reject
        }
    }
}

} // verus!
