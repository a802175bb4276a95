//! Outgoing replies and their wire encoding.

use vstd::prelude::*;
use vstd::string::*;
use crate::text::strings;

verus! {

/// Numeric replies this server can send.
#[allow(non_camel_case_types)]
#[derive(Debug, Clone, Copy, PartialEq, Eq)]
pub enum IrcResponseCode {
    RPL_WELCOME,
    ERR_INVALIDCAPCMD,
    ERR_UNKNOWNCOMMAND,
    ERR_NONICKNAMEGIVEN,
    ERR_NEEDMOREPARAMS,
    ERR_ALREADYREGISTRED,
    /// Misuse of the protocol for which the RFC offers no numeric.
    ERR_GENERIC,
}

/// A reply is identified either by a numeric code or by a command verb.
#[derive(Debug, Clone, PartialEq, Eq)]
pub enum IrcResponseKind {
    Code(IrcResponseCode),
    Command(String),
}

/// A reply to a client: what it is and its arguments in order. On the wire
/// the last argument is the trailing one.
#[derive(Debug, Clone, PartialEq, Eq)]
pub struct IrcResponse {
    pub kind: IrcResponseKind,
    pub arguments: Vec<String>,
}

/// Mathematical model of an [`IrcResponseKind`].
pub enum KindView {
    Code(IrcResponseCode),
    Command(Seq<char>),
}

/// Mathematical model of an [`IrcResponse`].
pub struct ResponseView {
    pub kind: KindView,
    pub arguments: Seq<Seq<char>>,
}

impl View for IrcResponseKind {
    type V = KindView;

    open spec fn view(&self) -> KindView {
        match self {
            IrcResponseKind::Code(code) => KindView::Code(*code),
            IrcResponseKind::Command(verb) => KindView::Command(verb@),
        }
    }
}

impl View for IrcResponse {
    type V = ResponseView;

    open spec fn view(&self) -> ResponseView {
        ResponseView { kind: self.kind@, arguments: strings(self.arguments@) }
    }
}

/// The reply with a numeric code and the given arguments.
pub open spec fn numeric(code: IrcResponseCode, arguments: Seq<Seq<char>>) -> ResponseView {
    ResponseView { kind: KindView::Code(code), arguments }
}

/// The number that stands for a code on the wire.
pub open spec fn code_number(code: IrcResponseCode) -> nat {
    match code {
        IrcResponseCode::RPL_WELCOME => 1,
        IrcResponseCode::ERR_INVALIDCAPCMD => 410,
        IrcResponseCode::ERR_UNKNOWNCOMMAND => 421,
        IrcResponseCode::ERR_NONICKNAMEGIVEN => 431,
        IrcResponseCode::ERR_NEEDMOREPARAMS => 461,
        IrcResponseCode::ERR_ALREADYREGISTRED => 462,
        IrcResponseCode::ERR_GENERIC => 999,
    }
}

/// The character for a decimal digit.
pub open spec fn digit_char(digit: nat) -> char {
    ('0' as u8 + digit) as char
}

/// A number below 1000 written with three digits, zeros in front.
pub open spec fn three_digits(number: nat) -> Seq<char> {
    seq![digit_char(number / 100), digit_char(number / 10 % 10), digit_char(number % 10)]
}

/// The token that identifies a reply on the wire: the numeric code in three
/// digits, or the verb as it is.
pub open spec fn kind_token(kind: KindView) -> Seq<char> {
    match kind {
        KindView::Code(code) => three_digits(code_number(code)),
        KindView::Command(verb) => verb,
    }
}

/// How the argument at `index` goes on the wire: after a space, and after a
/// colon too when it is the last one.
pub open spec fn wire_argument(arguments: Seq<Seq<char>>, index: int) -> Seq<char> {
    if index == arguments.len() - 1 {
        " "@ + ":"@ + arguments[index]
    } else {
        " "@ + arguments[index]
    }
}

/// The first `count` arguments on the wire.
pub open spec fn wire_arguments(arguments: Seq<Seq<char>>, count: nat) -> Seq<char>
    decreases count,
{
    if count == 0 {
        Seq::empty()
    } else {
        wire_arguments(arguments, (count - 1) as nat) + wire_argument(arguments, count - 1)
    }
}

/// The one line that carries a reply: the server's source tag, the token
/// of its kind, the arguments, and the line end.
pub open spec fn wire_line(response: ResponseView) -> Seq<char> {
    ":blablaserver "@ + kind_token(response.kind) + wire_arguments(
        response.arguments,
        response.arguments.len(),
    ) + "\r\n"@
}

impl IrcResponseKind {
    pub fn to_irc_string(&self) -> (token: &str)
        ensures
            token@ == kind_token(self@),
    {
        let token = match self {
            IrcResponseKind::Code(code) => match code {
                IrcResponseCode::RPL_WELCOME => {
                    proof {
                        reveal_strlit("001");
                    }
                    "001"
                },
                IrcResponseCode::ERR_INVALIDCAPCMD => {
                    proof {
                        reveal_strlit("410");
                    }
                    "410"
                },
                IrcResponseCode::ERR_UNKNOWNCOMMAND => {
                    proof {
                        reveal_strlit("421");
                    }
                    "421"
                },
                IrcResponseCode::ERR_NONICKNAMEGIVEN => {
                    proof {
                        reveal_strlit("431");
                    }
                    "431"
                },
                IrcResponseCode::ERR_NEEDMOREPARAMS => {
                    proof {
                        reveal_strlit("461");
                    }
                    "461"
                },
                IrcResponseCode::ERR_ALREADYREGISTRED => {
                    proof {
                        reveal_strlit("462");
                    }
                    "462"
                },
                IrcResponseCode::ERR_GENERIC => {
                    proof {
                        reveal_strlit("999");
                    }
                    "999"
                },
            },
            IrcResponseKind::Command(cmd) => cmd.as_str(),
        };
        assert(token@ =~= kind_token(self@));
        token
    }
}

impl IrcResponse {
    pub fn for_code(code: IrcResponseCode, arguments: Vec<String>) -> (response: IrcResponse)
        ensures
            response@ == numeric(code, strings(arguments@)),
    {
        IrcResponse { kind: IrcResponseKind::Code(code), arguments }
    }

    pub fn for_command(command: String, arguments: Vec<String>) -> (response: IrcResponse)
        ensures
            response@ == (ResponseView {
                kind: KindView::Command(command@),
                arguments: strings(arguments@),
            }),
    {
        IrcResponse { kind: IrcResponseKind::Command(command), arguments }
    }

    /// The line to send for this reply.
    pub fn to_wire(&self) -> (line: String)
        ensures
            line@ == wire_line(self@),
    {
        let mut line = String::from_str(":blablaserver ");
        line.append(self.kind.to_irc_string());
        let count = self.arguments.len();
        let ghost arguments = strings(self.arguments@);
        let ghost head = ":blablaserver "@ + kind_token(self.kind@);
        assert(line@ =~= head + wire_arguments(arguments, 0));
        let mut n: usize = 0;
        while n < count
            invariant
                n <= count,
                count == self.arguments@.len(),
                arguments == strings(self.arguments@),
                line@ == head + wire_arguments(arguments, n as nat),
            decreases count - n,
        {
            let ghost sent = line@;
            line.append(" ");
            if n == count - 1 {
                line.append(":");
            }
            line.append(self.arguments[n].as_str());
            assert(line@ =~= sent + wire_argument(arguments, n as int));
            assert(line@ =~= head + wire_arguments(arguments, (n + 1) as nat));
            n += 1;
        }
        line.append("\r\n");
        line
    }
}

} // verus!
