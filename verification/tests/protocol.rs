use promatrix::{parse_command, parse_event, Command, Event, NUM_INPUTS, NUM_OUTPUTS};

#[test]
fn round_trips_commands() {
    assert_eq!(parse_command("SET 3 1"), Ok(Command::SetOutput { channel: 2, value: true }));
    assert_eq!(parse_command("SET 8 0"), Ok(Command::SetOutput { channel: 7, value: false }));
    assert_eq!(parse_command("GET"), Ok(Command::GetStatus));
    assert_eq!(parse_command("SET 9 1"), Err("channel out of range"));
    assert_eq!(parse_command("SET 0 1"), Err("channel out of range"));
    assert_eq!(parse_command("nonsense"), Err("unknown command"));

    assert_eq!(Command::SetOutput { channel: 2, value: true }.to_line(), "SET 3 1\n");
    assert_eq!(Command::GetStatus.to_line(), "GET\n");
}

#[test]
fn round_trips_events() {
    assert_eq!(parse_event("EVT IN 4 1"), Ok(Event::InputChanged { channel: 3, value: true }));
    assert_eq!(
        parse_event("STATUS OUT 10000000 IN 0000001\n"),
        Ok(Event::Status { outputs: 0b1000_0000, inputs: 0b0000_0001 })
    );
    assert_eq!(parse_event(""), Err(""));
    assert_eq!(parse_event("EVT IN x 1"), Err("EVT IN x 1"));

    assert_eq!(Event::InputChanged { channel: 3, value: true }.to_line(), "EVT IN 4 1\n");
    assert_eq!(
        Event::Status { outputs: 0b1000_0000, inputs: 0b0000_0001 }.to_line(),
        "STATUS OUT 10000000 IN 0000001\n"
    );
}

#[test]
fn command_errors_name_their_reason() {
    assert_eq!(parse_command(""), Err("empty line"));
    assert_eq!(parse_command("   \t\r\n"), Err("empty line"));
    assert_eq!(parse_command("SET"), Err("missing channel"));
    assert_eq!(parse_command("SET x 1"), Err("bad channel"));
    assert_eq!(parse_command("SET 256 1"), Err("bad channel"));
    assert_eq!(parse_command("SET -1 1"), Err("bad channel"));
    assert_eq!(parse_command("SET + 1"), Err("bad channel"));
    assert_eq!(parse_command("SET 3"), Err("missing value"));
    assert_eq!(parse_command("SET 3 2"), Err("bad value"));
    assert_eq!(parse_command("SET 9 2"), Err("bad value"));
    assert_eq!(parse_command("SET x"), Err("bad channel"));
    assert_eq!(parse_command("set 3 1"), Err("unknown command"));
}

#[test]
fn commands_tolerate_spacing_signs_and_extra_words() {
    assert_eq!(parse_command("  SET\t+3   1  extra\r\n"), Ok(Command::SetOutput { channel: 2, value: true }));
    assert_eq!(parse_command("SET 008 0"), Ok(Command::SetOutput { channel: 7, value: false }));
    assert_eq!(parse_command("GET please"), Ok(Command::GetStatus));
    // Unicode white space is trimmed at the ends, but does not split words.
    assert_eq!(parse_command("\u{a0}GET\u{3000}"), Ok(Command::GetStatus));
    assert_eq!(parse_command("SET\u{a0}3 1"), Err("unknown command"));
}

#[test]
fn every_command_reads_back_as_itself() {
    for channel in 0..NUM_OUTPUTS as u8 {
        for value in [false, true] {
            let c = Command::SetOutput { channel, value };
            assert_eq!(parse_command(&c.to_line()), Ok(c));
        }
    }
    assert_eq!(parse_command(&Command::GetStatus.to_line()), Ok(Command::GetStatus));
}

#[test]
fn every_event_reads_back_as_itself() {
    for channel in 0..NUM_INPUTS as u8 {
        for value in [false, true] {
            let e = Event::InputChanged { channel, value };
            assert_eq!(parse_event(&e.to_line()), Ok(e));
        }
    }
    for outputs in 0..=255u8 {
        for inputs in 0..128u8 {
            let e = Event::Status { outputs, inputs };
            assert_eq!(parse_event(&e.to_line()), Ok(e));
        }
    }
}

#[test]
fn unwired_input_bit_is_not_written() {
    let e = Event::Status { outputs: 0, inputs: 0b1000_0001 };
    assert_eq!(e.to_line(), "STATUS OUT 00000000 IN 0000001\n");
    assert_eq!(parse_event(&e.to_line()), Ok(Event::Status { outputs: 0, inputs: 1 }));
}

#[test]
fn events_out_of_shape_come_back_trimmed() {
    assert_eq!(parse_event("  EVT IN 8 1 \n"), Err("EVT IN 8 1"));
    assert_eq!(parse_event("EVT IN 0 1"), Err("EVT IN 0 1"));
    assert_eq!(parse_event("EVT OUT 1 1"), Err("EVT OUT 1 1"));
    assert_eq!(parse_event("EVT IN 1"), Err("EVT IN 1"));
    assert_eq!(parse_event("STATUS OUT 1000000 IN 0000001"), Err("STATUS OUT 1000000 IN 0000001"));
    assert_eq!(parse_event("STATUS OUT 10000000 IN 00000010"), Err("STATUS OUT 10000000 IN 00000010"));
    assert_eq!(parse_event("STATUS OUT 1000000x IN 0000001"), Err("STATUS OUT 1000000x IN 0000001"));
    assert_eq!(parse_event("ERR bad"), Err("ERR bad"));
    assert_eq!(
        parse_event("\tSTATUS OUT 01010101 IN 1111111 trailing"),
        Ok(Event::Status { outputs: 0b0101_0101, inputs: 0b111_1111 })
    );
}

#[test]
fn event_lines_put_the_highest_channel_first() {
    assert_eq!(Event::Status { outputs: 1, inputs: 64 }.to_line(), "STATUS OUT 00000001 IN 1000000\n");
    assert_eq!(Event::InputChanged { channel: 6, value: false }.to_line(), "EVT IN 7 0\n");
    assert_eq!(Command::SetOutput { channel: 99, value: false }.to_line(), "SET 100 0\n");
}

#[test]
fn a_trailing_line_feed_changes_nothing() {
    for line in ["SET 3 1", "GET", "SET 9 1", "  ", "SET", "EVT IN 4 1", "STATUS OUT 10000000 IN 0000001", ""] {
        let with_feed = format!("{line}\n");
        assert_eq!(parse_command(line), parse_command(&with_feed), "{line:?}");
        assert_eq!(parse_event(line), parse_event(&with_feed), "{line:?}");
    }
}
