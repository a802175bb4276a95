use ircd_core::reply::{IrcResponse, IrcResponseCode, IrcResponseKind};

fn strings(list: &[&str]) -> Vec<String> {
    list.iter().map(|s| s.to_string()).collect()
}

#[test]
fn numeric_codes_are_three_digits() {
    let table = [
        (IrcResponseCode::RPL_WELCOME, "001"),
        (IrcResponseCode::ERR_INVALIDCAPCMD, "410"),
        (IrcResponseCode::ERR_UNKNOWNCOMMAND, "421"),
        (IrcResponseCode::ERR_NONICKNAMEGIVEN, "431"),
        (IrcResponseCode::ERR_NEEDMOREPARAMS, "461"),
        (IrcResponseCode::ERR_ALREADYREGISTRED, "462"),
        (IrcResponseCode::ERR_GENERIC, "999"),
    ];
    for (code, digits) in table {
        assert_eq!(IrcResponseKind::Code(code).to_irc_string(), digits);
    }
}

#[test]
fn verb_is_sent_as_it_is() {
    assert_eq!(IrcResponseKind::Command("CAP".to_string()).to_irc_string(), "CAP");
    assert_eq!(IrcResponseKind::Command(String::new()).to_irc_string(), "");
}

#[test]
fn builders_keep_kind_and_arguments() {
    let response = IrcResponse::for_code(IrcResponseCode::ERR_GENERIC, strings(&["a", "b"]));
    assert_eq!(response.kind, IrcResponseKind::Code(IrcResponseCode::ERR_GENERIC));
    assert_eq!(response.arguments, ["a", "b"]);
    let response = IrcResponse::for_command("CAP".to_string(), strings(&["*", "LS", ""]));
    assert_eq!(response.kind, IrcResponseKind::Command("CAP".to_string()));
    assert_eq!(response.arguments, ["*", "LS", ""]);
}

#[test]
fn last_of_two_arguments_gets_the_colon() {
    let response = IrcResponse::for_code(IrcResponseCode::RPL_WELCOME, strings(&["a", "b c"]));
    assert_eq!(response.to_wire(), ":blablaserver 001 a :b c\r\n");
}

#[test]
fn single_argument_gets_the_colon() {
    let response = IrcResponse::for_code(IrcResponseCode::ERR_GENERIC, strings(&["x y"]));
    assert_eq!(response.to_wire(), ":blablaserver 999 :x y\r\n");
}

#[test]
fn colon_goes_by_position_not_by_content() {
    let response =
        IrcResponse::for_code(IrcResponseCode::ERR_NEEDMOREPARAMS, strings(&["a b", "c", "d"]));
    assert_eq!(response.to_wire(), ":blablaserver 461 a b c :d\r\n");
}

#[test]
fn no_arguments_no_colon() {
    let response = IrcResponse::for_code(IrcResponseCode::ERR_NONICKNAMEGIVEN, Vec::new());
    assert_eq!(response.to_wire(), ":blablaserver 431\r\n");
}

#[test]
fn verb_reply_on_the_wire() {
    let response = IrcResponse::for_command("CAP".to_string(), strings(&["*", "LS", ""]));
    assert_eq!(response.to_wire(), ":blablaserver CAP * LS :\r\n");
}

#[test]
fn text_beyond_ascii_on_the_wire() {
    let response =
        IrcResponse::for_code(IrcResponseCode::RPL_WELCOME, strings(&["żółw", "zażółć gęślą"]));
    assert_eq!(response.to_wire(), ":blablaserver 001 żółw :zażółć gęślą\r\n");
}
