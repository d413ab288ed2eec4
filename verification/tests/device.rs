use promatrix::device::{
    error_line, line_needs_zero_length_packet,
    handle_command, inputs, log_line, outputs, parse, plan_packets, serial_number,
    set_input, set_output, ControlRequest, InputWatch, IoState, LineOutcome, LineReader, Reaction,
    ResetAction, ResetHandler, LINE_CAPACITY,
};
use promatrix::{Command, Event};

fn feed_all(reader: &mut LineReader, bytes: &[u8]) -> Vec<LineOutcome> {
    bytes.iter().map(|&b| reader.feed(b)).collect()
}

#[test]
fn device_parse_matches_the_protocol() {
    assert_eq!(parse("SET 1 1"), Ok(Command::SetOutput { channel: 0, value: true }));
    assert_eq!(parse("GET"), Ok(Command::GetStatus));
    assert_eq!(parse("SET 9 0"), Err("channel out of range"));
    assert_eq!(parse(""), Err("empty line"));
}

#[test]
fn format_writes_the_event_line() {
    let e = Event::Status { outputs: 0b1010_0000, inputs: 0b000_0011 };
    assert_eq!(promatrix::device::format(&e).as_str(), "STATUS OUT 10100000 IN 0000011\n");
    let e = Event::InputChanged { channel: 0, value: true };
    assert_eq!(promatrix::device::format(&e).as_str(), "EVT IN 1 1\n");
    assert_eq!(promatrix::device::format(&e).as_str(), e.to_line());
}

#[test]
fn reader_yields_a_command_per_line() {
    let mut r = LineReader::new();
    let out = feed_all(&mut r, b"SET 3 1\r\nGET\n");
    assert_eq!(out[7], LineOutcome::Command(Command::SetOutput { channel: 2, value: true }));
    assert_eq!(out[8], LineOutcome::Pending);
    assert_eq!(out[12], LineOutcome::Command(Command::GetStatus));
    assert_eq!(out.iter().filter(|o| **o != LineOutcome::Pending).count(), 2);
}

#[test]
fn reader_reports_rejected_and_binary_lines() {
    let mut r = LineReader::new();
    let out = feed_all(&mut r, b"bogus\n");
    match &out[5] {
        LineOutcome::Rejected { reason, text, answer } => {
            assert_eq!(*reason, "unknown command");
            assert_eq!(text, "bogus");
            assert_eq!(answer.as_str(), "ERR unknown command\n");
        }
        other => panic!("{other:?}"),
    }
    let out = feed_all(&mut r, &[0xff, 0xfe, b'\r']);
    assert_eq!(out[2], LineOutcome::NotText);
    let out = feed_all(&mut r, b"GET\n");
    assert_eq!(out[3], LineOutcome::Command(Command::GetStatus));
}

#[test]
fn reader_discards_overlong_lines() {
    let mut r = LineReader::new();
    let long = vec![b'A'; LINE_CAPACITY];
    let out = feed_all(&mut r, &long);
    assert!(out.iter().all(|o| *o == LineOutcome::Pending));
    assert_eq!(r.feed(b'A'), LineOutcome::TooLong);
    let out = feed_all(&mut r, b"GET\n");
    assert_eq!(out[3], LineOutcome::Command(Command::GetStatus));
}

#[test]
fn reader_reset_forgets_the_partial_line() {
    let mut r = LineReader::new();
    feed_all(&mut r, b"SET 1");
    r.reset();
    let out = feed_all(&mut r, b" 1\n");
    match &out[2] {
        LineOutcome::Rejected { reason, text, .. } => {
            assert_eq!(*reason, "unknown command");
            assert_eq!(text, " 1");
        }
        other => panic!("{other:?}"),
    }
}

#[test]
fn state_records_single_bits() {
    let mut s = IoState::new();
    set_output(&mut s, 0, true);
    set_output(&mut s, 7, true);
    set_output(&mut s, 0, false);
    set_input(&mut s, 6, true);
    assert_eq!(outputs(&s), 0b1000_0000);
    assert_eq!(inputs(&s), 0b0100_0000);
}

#[test]
fn commands_drive_outputs_and_status_reports_state() {
    let mut s = IoState::new();
    assert_eq!(
        handle_command(&mut s, Command::SetOutput { channel: 2, value: true }),
        Reaction::Drive { channel: 2, value: true }
    );
    let mut w = InputWatch::start(&mut s, 1, true);
    assert_eq!(
        handle_command(&mut s, Command::GetStatus),
        Reaction::Send(Event::Status { outputs: 0b100, inputs: 0b10 })
    );
    assert_eq!(w.settled(&mut s, true), None);
    assert_eq!(w.settled(&mut s, false), Some(Event::InputChanged { channel: 1, value: false }));
    assert_eq!(inputs(&s), 0);
    assert!(!w.active);
}

#[test]
fn log_lines_fit_or_are_dropped() {
    assert_eq!(log_line("INFO", "started").unwrap().as_str(), "INFO started\n");
    let fits = "x".repeat(120 - 6);
    assert_eq!(log_line("WARN", &fits).unwrap().len(), 120);
    let too_long = "x".repeat(120 - 5);
    assert!(log_line("WARN", &too_long).is_none());
}

#[test]
fn packets_are_full_but_the_last() {
    assert_eq!(plan_packets(130, 64), (vec![64, 64, 2], false));
    assert_eq!(plan_packets(128, 64), (vec![64, 64], true));
    assert_eq!(plan_packets(5, 64), (vec![5], false));
    assert_eq!(plan_packets(0, 64), (vec![], false));
}

#[test]
fn serial_number_is_upper_hex() {
    let s = serial_number(&[0xE6, 0x60, 0x58, 0x38, 0x83, 0x1F, 0x2A, 0x0B]);
    assert_eq!(s.as_str(), "E6605838831F2A0B");
}

#[test]
fn reset_interface_handles_only_its_own_requests() {
    let h = ResetHandler::new(3);
    let req = |class_request, to_interface, index, request, value| ControlRequest {
        class_request,
        to_interface,
        index,
        request,
        value,
    };
    assert_eq!(h.control_out(&req(true, true, 3, 1, 0)), ResetAction::RebootToBootloader { disable_interface_mask: 0 });
    assert_eq!(h.control_out(&req(true, true, 3, 1, 5)), ResetAction::RebootToBootloader { disable_interface_mask: 5 });
    assert_eq!(h.control_out(&req(true, true, 3, 2, 0)), ResetAction::RebootToApplication);
    assert_eq!(h.control_out(&req(true, true, 3, 9, 0)), ResetAction::Reject);
    assert_eq!(h.control_out(&req(true, true, 2, 1, 0)), ResetAction::Ignore);
    assert_eq!(h.control_out(&req(false, true, 3, 1, 0)), ResetAction::Ignore);
    assert_eq!(h.control_out(&req(true, false, 3, 1, 0)), ResetAction::Ignore);
}

#[test]
fn a_full_buffer_still_ends_a_line() {
    let mut r = LineReader::new();
    let mut line = b"SET 2 1".to_vec();
    line.resize(LINE_CAPACITY, b' ');
    let out = feed_all(&mut r, &line);
    assert!(out.iter().all(|o| *o == LineOutcome::Pending));
    assert_eq!(r.feed(b'\n'), LineOutcome::Command(Command::SetOutput { channel: 1, value: true }));
}

#[test]
fn refused_lines_are_answered_with_err() {
    let mut r = LineReader::new();
    let out = feed_all(&mut r, b"SET 9 1\n");
    assert_eq!(out.iter().filter(|o| matches!(o, LineOutcome::Command(_))).count(), 0);
    match &out[7] {
        LineOutcome::Rejected { reason, text, answer } => {
            assert_eq!(*reason, "channel out of range");
            assert_eq!(text, "SET 9 1");
            assert_eq!(answer.as_str(), "ERR channel out of range\n");
        }
        other => panic!("{other:?}"),
    }
    assert_eq!(error_line("bad value").as_str(), "ERR bad value\n");
    assert_eq!(error_line("").as_str(), "ERR \n");
}

#[test]
fn input_reports_alternate_and_match_the_recorded_bit() {
    let mut s = IoState::new();
    let mut w = InputWatch::start(&mut s, 4, false);
    let mut reports = Vec::new();
    for level in [false, true, true, false, false, false, true, false] {
        if let Some(Event::InputChanged { channel, value }) = w.settled(&mut s, level) {
            assert_eq!(channel, 4);
            reports.push(value);
        }
        assert_eq!((inputs(&s) >> 4) & 1 == 1, w.active);
    }
    assert_eq!(reports, vec![true, false, true, false]);
}

#[test]
fn only_exactly_full_lines_need_a_zero_length_packet() {
    assert!(line_needs_zero_length_packet(64));
    assert!(line_needs_zero_length_packet(128));
    assert!(!line_needs_zero_length_packet(31));
    assert!(!line_needs_zero_length_packet(65));
    let e = Event::Status { outputs: 0xff, inputs: 0x7f };
    assert!(!line_needs_zero_length_packet(promatrix::device::format(&e).len()));
}
