use ircd_core::message_parser::{parse_message, FrameError, RawIrcMessage};

#[test]
fn test_parse_message() {
    let (_, message) = parse_message("CAP LS 302\r\n").unwrap();
    assert_eq!("CAP", message.command);
    assert_eq!(message.parameters, ["LS", "302"]);
}

#[test]
fn test_parse_message2() {
    let (_, message) = parse_message(":xxx CAP LS 302\r\n").unwrap();
    assert_eq!(Some("xxx"), message.prefix);
    assert_eq!("CAP", message.command);
    assert_eq!(message.parameters, ["LS", "302"]);
}

#[test]
fn test_parse_message1() {
    let (_, message) = parse_message("USER Magno 0 * :...\r\n").unwrap();

    assert_eq!("USER", message.command);
    assert_eq!(message.parameters, ["Magno", "0", "*", "..."]);
}

#[test]
fn test_parse_message3() {
    let (_, message) = parse_message("PING :TIMEOUTCHECK\r\n").unwrap();

    assert_eq!("PING", message.command);
    assert_eq!(message.parameters, ["TIMEOUTCHECK"]);
}

#[test]
fn whole_line_leaves_nothing() {
    let (rest, message) = parse_message("NICK alice\r\n").unwrap();
    assert_eq!(rest, "");
    assert_eq!(
        message,
        RawIrcMessage { prefix: None, command: "NICK", parameters: vec!["alice"] }
    );
}

#[test]
fn rest_is_what_follows_the_line() {
    let (rest, message) = parse_message("NICK alice\r\nUSER a 0 * :A\r\nPI").unwrap();
    assert_eq!(rest, "USER a 0 * :A\r\nPI");
    assert_eq!(message.command, "NICK");
    let (rest, message) = parse_message(rest).unwrap();
    assert_eq!(rest, "PI");
    assert_eq!(message.command, "USER");
    assert_eq!(message.parameters, ["a", "0", "*", "A"]);
    assert_eq!(parse_message(rest), Err(FrameError::Incomplete));
}

#[test]
fn line_feed_alone_ends_a_line() {
    let (rest, message) = parse_message("NICK alice\nrest").unwrap();
    assert_eq!(rest, "rest");
    assert_eq!(message.parameters, ["alice"]);
}

#[test]
fn trailing_parameter_keeps_its_spaces_and_colons() {
    let (_, message) = parse_message("PRIVMSG bob :hello  there: you\r\n").unwrap();
    assert_eq!(message.parameters, ["bob", "hello  there: you"]);
}

#[test]
fn trailing_parameter_may_be_empty() {
    let (_, message) = parse_message("TOPIC chan :\r\n").unwrap();
    assert_eq!(message.parameters, ["chan", ""]);
}

#[test]
fn colon_inside_a_middle_parameter_is_kept() {
    let (_, message) = parse_message("MODE a:b c\r\n").unwrap();
    assert_eq!(message.parameters, ["a:b", "c"]);
}

#[test]
fn spaces_before_the_line_end_are_skipped() {
    let (rest, message) = parse_message("NICK alice   \r\n").unwrap();
    assert_eq!(rest, "");
    assert_eq!(message.parameters, ["alice"]);
}

#[test]
fn several_spaces_may_follow_the_command() {
    let (_, message) = parse_message("NICK    alice\r\n").unwrap();
    assert_eq!(message.parameters, ["alice"]);
}

#[test]
fn several_spaces_end_the_middle_parameters() {
    assert_eq!(parse_message("USER a  b\r\n"), Err(FrameError::Malformed));
    let (_, message) = parse_message("USER a  :b c\r\n").unwrap();
    assert_eq!(message.parameters, ["a", "b c"]);
}

#[test]
fn command_without_parameters_may_end_after_its_spaces() {
    let (rest, message) = parse_message("QUIT \r\n").unwrap();
    assert_eq!(rest, "");
    assert_eq!(message.command, "QUIT");
    assert!(message.parameters.is_empty());
}

#[test]
fn prefix_may_be_empty_and_may_hold_any_byte_but_space() {
    let (_, message) = parse_message(": CAP LS\r\n").unwrap();
    assert_eq!(message.prefix, Some(""));
    let (_, message) = parse_message(":a\r\nb!c@d CAP LS\r\n").unwrap();
    assert_eq!(message.prefix, Some("a\r\nb!c@d"));
    assert_eq!(message.command, "CAP");
}

#[test]
fn text_beyond_ascii_is_cut_between_characters() {
    let (rest, message) = parse_message(":sérvèr NICK żółw :zażółć gęślą\r\n€").unwrap();
    assert_eq!(message.prefix, Some("sérvèr"));
    assert_eq!(message.command, "NICK");
    assert_eq!(message.parameters, ["żółw", "zażółć gęślą"]);
    assert_eq!(rest, "€");
}

#[test]
fn tab_is_no_separator() {
    assert_eq!(parse_message("NICK\talice\r\n"), Err(FrameError::Malformed));
    let (_, message) = parse_message("NICK \talice\tb\r\n").unwrap();
    assert_eq!(message.parameters, ["\talice\tb"]);
}

#[test]
fn incomplete_while_the_line_may_still_grow() {
    let waiting = [
        "",
        ":",
        ":pre",
        ":pre\r\n",
        ":pre ",
        "C",
        "CAP",
        "CAP ",
        "CAP   ",
        "CAP L",
        "CAP LS",
        "CAP LS ",
        "CAP LS   ",
        "CAP LS 302",
        "CAP LS 302\r",
        "CAP LS :",
        "CAP LS :30 2",
        "CAP LS :30 2\r",
        "CAP :",
        "CAP \r",
    ];
    for input in waiting {
        assert_eq!(parse_message(input), Err(FrameError::Incomplete), "{:?}", input);
    }
}

#[test]
fn malformed_when_no_line_can_start_so() {
    let broken = [
        " CAP LS\r\n",
        "\r\n",
        "\n",
        "!CAP LS\r\n",
        "CAP\r\n",
        "CAP\n",
        "CAP!LS\r\n",
        "CA-P LS\r\n",
        "ÉCOLE x\r\n",
        "CAFÉ x\r\n",
        "CAP LS\rX",
        "CAP \rX",
        "CAP LS  302\r\n",
        "CAP :x\rX",
        ":pre  CAP LS\r\n",
        ":pre \r\n",
        "!",
    ];
    for input in broken {
        assert_eq!(parse_message(input), Err(FrameError::Malformed), "{:?}", input);
    }
}

#[test]
fn every_strict_prefix_of_a_line_is_incomplete() {
    let lines = [
        "CAP LS 302\r\n",
        ":xxx CAP LS 302\r\n",
        "USER Magno 0 * :Real Name\r\n",
        "PING :TIMEOUTCHECK\n",
        "NICK żółw\r\n",
        "QUIT   \r\n",
    ];
    for line in lines {
        let (rest, _) = parse_message(line).unwrap();
        assert_eq!(rest, "");
        for cut in 0..line.len() {
            if line.is_char_boundary(cut) {
                assert_eq!(
                    parse_message(&line[..cut]),
                    Err(FrameError::Incomplete),
                    "{:?}",
                    &line[..cut]
                );
            }
        }
    }
}

#[test]
fn a_decision_does_not_change_when_more_arrives() {
    let decided = ["NICK a\r\n", "NICK a\n", "\r\n", "CAP\r", "CAP LS\rX", "QUIT :bye now\r\n"];
    let more = ["", "x", " ", "\r\n", "NICK b\r\n", ":"];
    for head in decided {
        for tail in more {
            let longer = format!("{}{}", head, tail);
            match (parse_message(head), parse_message(&longer)) {
                (Ok((rest, message)), Ok((longer_rest, longer_message))) => {
                    assert_eq!(message, longer_message);
                    assert_eq!(format!("{}{}", rest, tail), longer_rest);
                }
                (Err(FrameError::Malformed), Err(FrameError::Malformed)) => {}
                other => panic!("{:?} then {:?}: {:?}", head, tail, other),
            }
        }
    }
}
