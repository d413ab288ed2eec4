//! The fixed-capacity containers of the `heapless` crate that the device side
//! keeps its line buffer and outgoing text in.

use vstd::prelude::*;
use vstd::utf8::encode_utf8;

verus! {

#[verifier::external_type_specification]
#[verifier::external_body]
pub struct ExHeaplessString<const N: usize>(heapless::String<N>);

#[verifier::external_type_specification]
#[verifier::external_body]
#[verifier::reject_recursive_types(T)]
pub struct ExHeaplessVec<T, const N: usize>(heapless::Vec<T, N>);

/// The bytes held by a line buffer of 128 bytes.
pub uninterp spec fn line_buffer_bytes(v: heapless::Vec<u8, 128>) -> Seq<u8>;

/// `heapless::Vec::<u8, 128>::new`: an empty buffer.
#[verifier::external_body]
pub(crate) fn line_buffer_new() -> (v: heapless::Vec<u8, 128>)
    ensures
        line_buffer_bytes(v) == Seq::<u8>::empty(),
{
    heapless::Vec::new()
}

/// `heapless::Vec::<u8, 128>::push`: appends `b` while fewer than 128 bytes are
/// held, and otherwise hands `b` back and leaves the buffer as it was.
#[verifier::external_body]
pub(crate) fn line_buffer_push(v: &mut heapless::Vec<u8, 128>, b: u8) -> (r: Result<(), u8>)
    ensures
        line_buffer_bytes(*old(v)).len() < 128 ==> r is Ok && line_buffer_bytes(*final(v))
            == line_buffer_bytes(*old(v)).push(b),
        line_buffer_bytes(*old(v)).len() >= 128 ==> (r matches Err(back) && back == b)
            && line_buffer_bytes(*final(v)) == line_buffer_bytes(*old(v)),
{
    v.push(b)
}


/// `heapless::Vec::<u8, 128>::clear`: the buffer is left empty.
#[verifier::external_body]
pub(crate) fn line_buffer_clear(v: &mut heapless::Vec<u8, 128>)
    ensures
        line_buffer_bytes(*final(v)) == Seq::<u8>::empty(),
{
    v.clear()
}

/// `heapless::Vec::<u8, 128>::as_slice`: the bytes held, in order.
#[verifier::external_body]
pub(crate) fn line_buffer_as_slice(v: &heapless::Vec<u8, 128>) -> (r: &[u8])
    ensures
        r@ == line_buffer_bytes(*v),
{
    v.as_slice()
}

/// The UTF-8 bytes of a 64-byte event line.
pub uninterp spec fn event_line_bytes(s: heapless::String<64>) -> Seq<u8>;

/// `heapless::String::<64>::new`: an empty string.
#[verifier::external_body]
pub(crate) fn event_line_new() -> (s: heapless::String<64>)
    ensures
        event_line_bytes(s) == Seq::<u8>::empty(),
{
    heapless::String::new()
}

/// `heapless::String::<64>::push_str`: appends the bytes of `t` when they fit
/// in the 64 bytes, and otherwise fails and changes nothing.
#[verifier::external_body]
pub(crate) fn event_line_push_str(s: &mut heapless::String<64>, t: &str) -> (r: Result<(), ()>)
    ensures
        event_line_bytes(*old(s)).len() + encode_utf8(t@).len() <= 64 ==> r is Ok
            && event_line_bytes(*final(s)) == event_line_bytes(*old(s)) + encode_utf8(t@),
        event_line_bytes(*old(s)).len() + encode_utf8(t@).len() > 64 ==> r is Err
            && event_line_bytes(*final(s)) == event_line_bytes(*old(s)),
{
    s.push_str(t)
}

/// The UTF-8 bytes of a 16-byte serial number.
pub uninterp spec fn serial_bytes(s: heapless::String<16>) -> Seq<u8>;

/// `heapless::String::<16>::new`: an empty string.
#[verifier::external_body]
pub(crate) fn serial_new() -> (s: heapless::String<16>)
    ensures
        serial_bytes(s) == Seq::<u8>::empty(),
{
    heapless::String::new()
}

/// `heapless::String::<16>::push_str`: appends the bytes of `t` when they fit
/// in the 16 bytes, and otherwise fails and changes nothing.
#[verifier::external_body]
pub(crate) fn serial_push_str(s: &mut heapless::String<16>, t: &str) -> (r: Result<(), ()>)
    ensures
        serial_bytes(*old(s)).len() + encode_utf8(t@).len() <= 16 ==> r is Ok && serial_bytes(
            *final(s),
        ) == serial_bytes(*old(s)) + encode_utf8(t@),
        serial_bytes(*old(s)).len() + encode_utf8(t@).len() > 16 ==> r is Err && serial_bytes(
            *final(s),
        ) == serial_bytes(*old(s)),
{
    s.push_str(t)
}

/// The UTF-8 bytes of a 120-byte log line.
pub uninterp spec fn log_line_bytes(s: heapless::String<120>) -> Seq<u8>;

/// `heapless::String::<120>::new`: an empty string.
#[verifier::external_body]
pub(crate) fn log_line_new() -> (s: heapless::String<120>)
    ensures
        log_line_bytes(s) == Seq::<u8>::empty(),
{
    heapless::String::new()
}

/// `heapless::String::<120>::push_str`: appends the bytes of `t` when they fit
/// in the 120 bytes, and otherwise fails and changes nothing.
#[verifier::external_body]
pub(crate) fn log_line_push_str(s: &mut heapless::String<120>, t: &str) -> (r: Result<(), ()>)
    ensures
        log_line_bytes(*old(s)).len() + encode_utf8(t@).len() <= 120 ==> r is Ok && log_line_bytes(
            *final(s),
        ) == log_line_bytes(*old(s)) + encode_utf8(t@),
        log_line_bytes(*old(s)).len() + encode_utf8(t@).len() > 120 ==> r is Err && log_line_bytes(
            *final(s),
        ) == log_line_bytes(*old(s)),
{
    s.push_str(t)
}

} // verus!
