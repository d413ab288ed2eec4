use promatrix::cli::{channel_lines, input_change_line, parse_bool, rejection_message, status_report};
use promatrix::client::{output_command, status_reply};
use promatrix::{parse_command, Command, Event};

#[test]
fn output_requests_become_zero_indexed_commands() {
    assert_eq!(output_command(3, true), Some(Command::SetOutput { channel: 2, value: true }));
    assert_eq!(output_command(8, false), Some(Command::SetOutput { channel: 7, value: false }));
    assert_eq!(output_command(0, true), None);
    assert_eq!(output_command(9, true), None);
    for channel in 1..=8u8 {
        let c = output_command(channel, true).unwrap();
        assert_eq!(parse_command(&c.to_line()), Ok(c));
    }
}

#[test]
fn only_status_events_answer_a_status_request() {
    assert_eq!(status_reply(&Event::Status { outputs: 5, inputs: 9 }), Some((5, 9)));
    assert_eq!(status_reply(&Event::InputChanged { channel: 1, value: true }), None);
}

#[test]
fn bool_arguments() {
    for s in ["1", "on", "true", "ON", "True", "oN"] {
        assert_eq!(parse_bool(s), Ok(true), "{s}");
    }
    for s in ["0", "off", "false", "OFF", "False"] {
        assert_eq!(parse_bool(s), Ok(false), "{s}");
    }
    assert_eq!(parse_bool("maybe"), Err(String::from("expected 0/1/on/off, got \"maybe\"")));
    assert_eq!(parse_bool(" on"), Err(String::from("expected 0/1/on/off, got \" on\"")));
    assert_eq!(parse_bool("a\"b"), Err(String::from("expected 0/1/on/off, got \"a\\\"b\"")));
    assert_eq!(rejection_message("'x'"), "expected 0/1/on/off, got 'x'");
}

#[test]
fn status_lines_show_each_channel() {
    assert_eq!(channel_lines("Out", 0b101, 3), vec!["  Out1 on", "  Out2 off", "  Out3 on"]);
    assert_eq!(channel_lines("In", 0, 1), vec!["  In1  off"]);
    assert_eq!(channel_lines("Input", 1, 1), vec!["  Input1on"]);
    let report = status_report(0b1000_0000, 0b000_0001);
    assert_eq!(report.len(), 17);
    assert_eq!(report[0], "Outputs:");
    assert_eq!(report[1], "  Out1 off");
    assert_eq!(report[8], "  Out8 on");
    assert_eq!(report[9], "Inputs:");
    assert_eq!(report[10], "  In1  on");
    assert_eq!(report[16], "  In7  off");
}

#[test]
fn input_changes_are_shown_one_indexed() {
    assert_eq!(input_change_line(0, true), "In1  on");
    assert_eq!(input_change_line(6, false), "In7  off");
}
