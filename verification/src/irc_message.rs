//! The commands a client can send, and how a raw line becomes one.

use vstd::prelude::*;
use vstd::string::*;
use crate::message_parser::{RawIrcMessage, RawMessageView};
use crate::number::{parse_u16, parse_u8, unsigned};
use crate::reply::{numeric, IrcResponse, IrcResponseCode, ResponseView};
use crate::text::{str_eq, strings};

verus! {

/// A command of the protocol with its parameters checked and typed.
#[derive(Debug, Clone, PartialEq, Eq)]
pub enum IrcMessage {
    CapLs { version: Option<u16> },
    Nick { nickname: String },
    User { user_name: String, invisible: bool, wallops: bool, real_name: String },
}

/// Mathematical model of an [`IrcMessage`].
pub enum MessageView {
    CapLs { version: Option<u16> },
    Nick { nickname: Seq<char> },
    User { user_name: Seq<char>, invisible: bool, wallops: bool, real_name: Seq<char> },
}

impl View for IrcMessage {
    type V = MessageView;

    open spec fn view(&self) -> MessageView {
        match self {
            IrcMessage::CapLs { version } => MessageView::CapLs { version: *version },
            IrcMessage::Nick { nickname } => MessageView::Nick { nickname: nickname@ },
            IrcMessage::User { user_name, invisible, wallops, real_name } => MessageView::User {
                user_name: user_name@,
                invisible: *invisible,
                wallops: *wallops,
                real_name: real_name@,
            },
        }
    }
}

/// The model of what reading a command gives: the command, or the reply
/// that tells the client what is wrong with the line.
pub open spec fn outcome(result: Result<IrcMessage, IrcResponse>) -> Result<
    MessageView,
    ResponseView,
> {
    match result {
        Ok(message) => Ok(message@),
        Err(response) => Err(response@),
    }
}

/// `CAP`: only the subcommand `LS` is known, alone or with a version that
/// is an unsigned 16-bit number.
pub open spec fn cap_command(parameters: Seq<Seq<char>>) -> Result<MessageView, ResponseView> {
    if parameters.len() == 0 {
        Err(numeric(IrcResponseCode::ERR_UNKNOWNCOMMAND, seq!["Must specify subcommand to CAP"@]))
    } else if parameters[0] != "LS"@ {
        Err(
            numeric(
                IrcResponseCode::ERR_INVALIDCAPCMD,
                seq!["*"@, parameters[0], "Invalid CAP command"@],
            ),
        )
    } else if parameters.len() == 1 {
        Ok(MessageView::CapLs { version: None })
    } else {
        match parse_u16(parameters[1]) {
            Some(version) => Ok(MessageView::CapLs { version: Some(version) }),
            None => Err(
                numeric(
                    IrcResponseCode::ERR_GENERIC,
                    seq!["CAP LS version argument should be a numeric string"@],
                ),
            ),
        }
    }
}

/// `NICK`: the first parameter is the nickname; any others are ignored.
pub open spec fn nick_command(parameters: Seq<Seq<char>>) -> Result<MessageView, ResponseView> {
    if parameters.len() == 0 {
        Err(numeric(IrcResponseCode::ERR_NONICKNAMEGIVEN, seq!["No nickname given"@]))
    } else {
        Ok(MessageView::Nick { nickname: parameters[0] })
    }
}

/// `USER`: user name, mode, an unused parameter and the real name. The mode
/// is an unsigned 8-bit number whose bit 8 asks for invisibility and whose
/// bit 4 asks for wallops.
pub open spec fn user_command(parameters: Seq<Seq<char>>) -> Result<MessageView, ResponseView> {
    if parameters.len() < 4 {
        Err(
            numeric(
                IrcResponseCode::ERR_NEEDMOREPARAMS,
                seq!["USER"@, "Not enough parameters"@],
            ),
        )
    } else {
        match parse_u8(parameters[1]) {
            Some(mode) => Ok(
                MessageView::User {
                    user_name: parameters[0],
                    invisible: mode & 0b1000 != 0,
                    wallops: mode & 0b100 != 0,
                    real_name: parameters[3],
                },
            ),
            None => Err(
                numeric(
                    IrcResponseCode::ERR_GENERIC,
                    seq!["USER mode argument should be a numeric string"@],
                ),
            ),
        }
    }
}

/// The command that a raw line stands for, by its verb, or the reply that
/// reports why it stands for none.
pub open spec fn command_of(raw: RawMessageView) -> Result<MessageView, ResponseView> {
    if raw.command == "CAP"@ {
        cap_command(raw.parameters)
    } else if raw.command == "NICK"@ {
        nick_command(raw.parameters)
    } else if raw.command == "USER"@ {
        user_command(raw.parameters)
    } else {
        Err(numeric(IrcResponseCode::ERR_UNKNOWNCOMMAND, seq![raw.command, "Unknown command"@]))
    }
}

/// The error reply with one argument.
fn error1(code: IrcResponseCode, text: &str) -> (response: IrcResponse)
    ensures
        response@ == numeric(code, seq![text@]),
{
    let mut arguments: Vec<String> = Vec::new();
    arguments.push(text.to_owned());
    assert(strings(arguments@) =~= seq![text@]);
    IrcResponse::for_code(code, arguments)
}

/// The error reply with two arguments.
fn error2(code: IrcResponseCode, first: &str, text: &str) -> (response: IrcResponse)
    ensures
        response@ == numeric(code, seq![first@, text@]),
{
    let mut arguments: Vec<String> = Vec::new();
    arguments.push(first.to_owned());
    arguments.push(text.to_owned());
    assert(strings(arguments@) =~= seq![first@, text@]);
    IrcResponse::for_code(code, arguments)
}

impl IrcMessage {
    fn cap(raw: RawIrcMessage) -> (result: Result<IrcMessage, IrcResponse>)
        ensures
            outcome(result) == cap_command(raw@.parameters),
    {
        if raw.parameters.len() == 0 {
            return Err(
                error1(IrcResponseCode::ERR_UNKNOWNCOMMAND, "Must specify subcommand to CAP"),
            );
        }
        let subcommand = raw.parameters[0];
        if !str_eq(subcommand, "LS") {
            let mut arguments: Vec<String> = Vec::new();
            arguments.push("*".to_owned());
            arguments.push(subcommand.to_owned());
            arguments.push("Invalid CAP command".to_owned());
            assert(strings(arguments@) =~= seq!["*"@, subcommand@, "Invalid CAP command"@]);
            return Err(IrcResponse::for_code(IrcResponseCode::ERR_INVALIDCAPCMD, arguments));
        }
        if raw.parameters.len() == 1 {
            return Ok(IrcMessage::CapLs { version: None });
        }
        match unsigned(raw.parameters[1], 0xffff) {
            Some(version) => Ok(IrcMessage::CapLs { version: Some(version as u16) }),
            None => Err(
                error1(
                    IrcResponseCode::ERR_GENERIC,
                    "CAP LS version argument should be a numeric string",
                ),
            ),
        }
    }

    fn nick(raw: RawIrcMessage) -> (result: Result<IrcMessage, IrcResponse>)
        ensures
            outcome(result) == nick_command(raw@.parameters),
    {
        if raw.parameters.len() == 0 {
            return Err(error1(IrcResponseCode::ERR_NONICKNAMEGIVEN, "No nickname given"));
        }
        Ok(IrcMessage::Nick { nickname: raw.parameters[0].to_owned() })
    }

    fn user(raw: RawIrcMessage) -> (result: Result<IrcMessage, IrcResponse>)
        ensures
            outcome(result) == user_command(raw@.parameters),
    {
        if raw.parameters.len() < 4 {
            return Err(
                error2(IrcResponseCode::ERR_NEEDMOREPARAMS, "USER", "Not enough parameters"),
            );
        }
        match unsigned(raw.parameters[1], 0xff) {
            Some(mode) => {
                let mode: u8 = mode as u8;
                Ok(
                    IrcMessage::User {
                        user_name: raw.parameters[0].to_owned(),
                        invisible: mode & 0b1000 != 0,
                        wallops: mode & 0b100 != 0,
                        real_name: raw.parameters[3].to_owned(),
                    },
                )
            },
            None => Err(
                error1(
                    IrcResponseCode::ERR_GENERIC,
                    "USER mode argument should be a numeric string",
                ),
            ),
        }
    }

    /// Reads the command of a raw line, or gives the reply to send instead.
    pub fn from_raw(raw: RawIrcMessage) -> (result: Result<IrcMessage, IrcResponse>)
        ensures
            outcome(result) == command_of(raw@),
    {
        if str_eq(raw.command, "CAP") {
            IrcMessage::cap(raw)
        } else if str_eq(raw.command, "NICK") {
            IrcMessage::nick(raw)
        } else if str_eq(raw.command, "USER") {
            IrcMessage::user(raw)
        } else {
            Err(error2(IrcResponseCode::ERR_UNKNOWNCOMMAND, raw.command, "Unknown command"))
        }
    }
}

} // verus!
