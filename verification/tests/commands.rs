use ircd_core::irc_message::IrcMessage;
use ircd_core::message_parser::{parse_message, RawIrcMessage};
use ircd_core::reply::{IrcResponse, IrcResponseCode, IrcResponseKind};

fn read(line: &str) -> Result<IrcMessage, IrcResponse> {
    let (rest, raw) = parse_message(line).unwrap();
    assert_eq!(rest, "");
    IrcMessage::from_raw(raw)
}

fn error(code: IrcResponseCode, arguments: &[&str]) -> Result<IrcMessage, IrcResponse> {
    Err(IrcResponse {
        kind: IrcResponseKind::Code(code),
        arguments: arguments.iter().map(|a| a.to_string()).collect(),
    })
}

#[test]
fn cap_ls_without_version() {
    assert_eq!(read("CAP LS\r\n"), Ok(IrcMessage::CapLs { version: None }));
}

#[test]
fn cap_ls_with_version() {
    assert_eq!(read("CAP LS 302\r\n"), Ok(IrcMessage::CapLs { version: Some(302) }));
}

#[test]
fn cap_ls_ignores_what_follows_the_version() {
    assert_eq!(read("CAP LS 302 more :and more\r\n"), Ok(IrcMessage::CapLs { version: Some(302) }));
}

#[test]
fn cap_ls_version_bounds() {
    assert_eq!(read("CAP LS 0\r\n"), Ok(IrcMessage::CapLs { version: Some(0) }));
    assert_eq!(read("CAP LS 65535\r\n"), Ok(IrcMessage::CapLs { version: Some(65535) }));
    assert_eq!(read("CAP LS +7\r\n"), Ok(IrcMessage::CapLs { version: Some(7) }));
    assert_eq!(read("CAP LS 000302\r\n"), Ok(IrcMessage::CapLs { version: Some(302) }));
    let refused =
        error(IrcResponseCode::ERR_GENERIC, &["CAP LS version argument should be a numeric string"]);
    assert_eq!(read("CAP LS 65536\r\n"), refused);
    assert_eq!(read("CAP LS -1\r\n"), refused);
    assert_eq!(read("CAP LS +\r\n"), refused);
    assert_eq!(read("CAP LS 3x\r\n"), refused);
    assert_eq!(read("CAP LS :\r\n"), refused);
    assert_eq!(read("CAP LS :3 0 2\r\n"), refused);
    assert_eq!(read("CAP LS ٣٠٢\r\n"), refused);
}

#[test]
fn cap_ls_version_not_a_number() {
    assert_eq!(
        read("CAP LS notanumber\r\n"),
        error(IrcResponseCode::ERR_GENERIC, &["CAP LS version argument should be a numeric string"])
    );
}

#[test]
fn cap_with_another_subcommand() {
    assert_eq!(
        read("CAP FOO\r\n"),
        error(IrcResponseCode::ERR_INVALIDCAPCMD, &["*", "FOO", "Invalid CAP command"])
    );
    assert_eq!(
        read("CAP ls 302\r\n"),
        error(IrcResponseCode::ERR_INVALIDCAPCMD, &["*", "ls", "Invalid CAP command"])
    );
    assert_eq!(
        read("CAP :\r\n"),
        error(IrcResponseCode::ERR_INVALIDCAPCMD, &["*", "", "Invalid CAP command"])
    );
}

#[test]
fn cap_without_subcommand() {
    assert_eq!(
        read("CAP \r\n"),
        error(IrcResponseCode::ERR_UNKNOWNCOMMAND, &["Must specify subcommand to CAP"])
    );
}

#[test]
fn nick_takes_the_first_parameter() {
    assert_eq!(read("NICK alice\r\n"), Ok(IrcMessage::Nick { nickname: "alice".to_string() }));
    assert_eq!(read("NICK alice bob :c d\r\n"), Ok(IrcMessage::Nick { nickname: "alice".to_string() }));
    assert_eq!(read("NICK :al ice\r\n"), Ok(IrcMessage::Nick { nickname: "al ice".to_string() }));
}

#[test]
fn nick_without_nickname() {
    assert_eq!(
        read("NICK \r\n"),
        error(IrcResponseCode::ERR_NONICKNAMEGIVEN, &["No nickname given"])
    );
}

#[test]
fn user_with_trailing_real_name() {
    assert_eq!(
        read("USER alice 8 * :Real Name\r\n"),
        Ok(IrcMessage::User {
            user_name: "alice".to_string(),
            invisible: true,
            wallops: false,
            real_name: "Real Name".to_string(),
        })
    );
}

#[test]
fn user_real_name_without_colon_ends_at_the_space() {
    assert_eq!(
        read("USER alice 8 * Real Name\r\n"),
        Ok(IrcMessage::User {
            user_name: "alice".to_string(),
            invisible: true,
            wallops: false,
            real_name: "Real".to_string(),
        })
    );
}

#[test]
fn user_mode_bits() {
    let flags = |line: &str| match read(line) {
        Ok(IrcMessage::User { invisible, wallops, .. }) => (invisible, wallops),
        other => panic!("{:?}", other),
    };
    assert_eq!(flags("USER a 0 * b\r\n"), (false, false));
    assert_eq!(flags("USER a 4 * b\r\n"), (false, true));
    assert_eq!(flags("USER a 8 * b\r\n"), (true, false));
    assert_eq!(flags("USER a 12 * b\r\n"), (true, true));
    assert_eq!(flags("USER a 3 * b\r\n"), (false, false));
    assert_eq!(flags("USER a 255 * b\r\n"), (true, true));
    assert_eq!(flags("USER a 243 * b\r\n"), (false, false));
    assert_eq!(flags("USER a +8 * b\r\n"), (true, false));
}

#[test]
fn user_mode_not_a_number() {
    let refused =
        error(IrcResponseCode::ERR_GENERIC, &["USER mode argument should be a numeric string"]);
    assert_eq!(read("USER alice notanumber * Real\r\n"), refused);
    assert_eq!(read("USER alice 256 * Real\r\n"), refused);
    assert_eq!(read("USER alice -1 * Real\r\n"), refused);
}

#[test]
fn user_with_too_few_parameters() {
    let refused = error(IrcResponseCode::ERR_NEEDMOREPARAMS, &["USER", "Not enough parameters"]);
    assert_eq!(read("USER alice\r\n"), refused);
    assert_eq!(read("USER \r\n"), refused);
    assert_eq!(read("USER alice 8 *\r\n"), refused);
    assert_eq!(read("USER alice notanumber *\r\n"), refused);
}

#[test]
fn unknown_command() {
    assert_eq!(
        read("FOO bar\r\n"),
        error(IrcResponseCode::ERR_UNKNOWNCOMMAND, &["FOO", "Unknown command"])
    );
}

#[test]
fn command_verbs_are_matched_exactly() {
    assert_eq!(
        read("nick alice\r\n"),
        error(IrcResponseCode::ERR_UNKNOWNCOMMAND, &["nick", "Unknown command"])
    );
    assert_eq!(
        read("NICKS alice\r\n"),
        error(IrcResponseCode::ERR_UNKNOWNCOMMAND, &["NICKS", "Unknown command"])
    );
    assert_eq!(
        read("CA LS\r\n"),
        error(IrcResponseCode::ERR_UNKNOWNCOMMAND, &["CA", "Unknown command"])
    );
}

#[test]
fn prefix_plays_no_part() {
    assert_eq!(read(":someone NICK alice\r\n"), Ok(IrcMessage::Nick { nickname: "alice".to_string() }));
}

#[test]
fn raw_message_built_by_hand() {
    let raw = RawIrcMessage { prefix: None, command: "USER", parameters: vec!["u", "4", "", "r", "x"] };
    assert_eq!(
        IrcMessage::from_raw(raw),
        Ok(IrcMessage::User {
            user_name: "u".to_string(),
            invisible: false,
            wallops: true,
            real_name: "r".to_string(),
        })
    );
}
