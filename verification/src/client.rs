//! The registration state of one connection and what each command does to
//! it.

use vstd::prelude::*;
use vstd::string::*;
use crate::irc_message::{IrcMessage, MessageView};
use crate::reply::{numeric, IrcResponse, IrcResponseCode, ResponseView};
use crate::text::{optional_string, optional_text, strings};

verus! {

/// The session of one connected client.
pub struct Client {
    nick: Option<String>,
    username: Option<String>,
    client_addr: String,
    is_registered: bool,
}

/// Mathematical model of a [`Client`].
pub struct SessionView {
    pub nickname: Option<Seq<char>>,
    pub username: Option<Seq<char>>,
    pub peer_address: Seq<char>,
    pub is_registered: bool,
}

impl SessionView {
    /// A registered session has both its nickname and its user name.
    pub open spec fn well_formed(self) -> bool {
        self.is_registered ==> self.nickname is Some && self.username is Some
    }
}

impl View for Client {
    type V = SessionView;

    closed spec fn view(&self) -> SessionView {
        SessionView {
            nickname: optional_string(self.nick),
            username: optional_string(self.username),
            peer_address: self.client_addr@,
            is_registered: self.is_registered,
        }
    }
}

/// The models of a list of replies.
pub open spec fn reply_views(list: Seq<IrcResponse>) -> Seq<ResponseView> {
    Seq::new(list.len(), |i: int| list[i]@)
}

/// The model of what handling a command gives: nothing to send, or the
/// replies to send in order.
pub open spec fn replies(responses: Option<Vec<IrcResponse>>) -> Option<Seq<ResponseView>> {
    match responses {
        Some(list) => Some(reply_views(list@)),
        None => None,
    }
}

/// The session of a client that has just connected from `peer_address`.
pub open spec fn fresh_session(peer_address: Seq<char>) -> SessionView {
    SessionView { nickname: None, username: None, peer_address, is_registered: false }
}

/// The reply to a command that only an unregistered client may send.
pub open spec fn already_registered() -> ResponseView {
    numeric(
        IrcResponseCode::ERR_ALREADYREGISTRED,
        seq!["Unauthorized command (already registered)"@],
    )
}

/// The reply that greets a client whose registration is complete.
pub open spec fn welcome(
    nickname: Seq<char>,
    username: Seq<char>,
    peer_address: Seq<char>,
) -> ResponseView {
    numeric(
        IrcResponseCode::RPL_WELCOME,
        seq![
            nickname,
            "Welcome to the internet relay network "@ + nickname + "!"@ + username + "@"@
                + peer_address,
        ],
    )
}

/// What happens once a command has set its field: a registered session
/// refuses it; one that still lacks its nickname or its user name waits;
/// any other becomes registered and is greeted.
pub open spec fn registration_check(session: SessionView) -> (SessionView, Option<
    Seq<ResponseView>,
>) {
    if session.is_registered {
        (session, Some(seq![already_registered()]))
    } else if session.nickname is None || session.username is None {
        (session, None)
    } else {
        (
            SessionView { is_registered: true, ..session },
            Some(
                seq![
                    welcome(
                        session.nickname.unwrap(),
                        session.username.unwrap(),
                        session.peer_address,
                    ),
                ],
            ),
        )
    }
}

/// The session after a command, and the replies to it.
pub open spec fn handle_message(session: SessionView, message: MessageView) -> (
    SessionView,
    Option<Seq<ResponseView>>,
) {
    match message {
        MessageView::CapLs { version } => (session, None),
        MessageView::Nick { nickname } => registration_check(
            SessionView { nickname: Some(nickname), ..session },
        ),
        MessageView::User { user_name, invisible, wallops, real_name } => registration_check(
            SessionView { username: Some(user_name), ..session },
        ),
    }
}

/// A client that sends only its nickname, or only its user name, gets no
/// reply and is not registered.
pub proof fn lemma_one_field_is_not_enough(peer_address: Seq<char>, message: MessageView)
    requires
        !(message is CapLs),
    ensures
        handle_message(fresh_session(peer_address), message).1 is None,
        !handle_message(fresh_session(peer_address), message).0.is_registered,
{
}

/// A client that sends its nickname and then its user name is registered
/// and gets the welcome, and nothing else.
pub proof fn lemma_nick_then_user_is_welcomed(
    peer_address: Seq<char>,
    nick: MessageView,
    user: MessageView,
)
    requires
        nick is Nick,
        user is User,
    ensures
        ({
            let waiting = handle_message(fresh_session(peer_address), nick);
            let done = handle_message(waiting.0, user);
            &&& waiting.1 is None
            &&& done.0.is_registered
            &&& done.1 == Some(
                seq![welcome(nick->nickname, user->user_name, peer_address)],
            )
        }),
{
}

/// A registered client that sends a nickname or a user name again is told
/// so, and stays registered.
pub proof fn lemma_registered_is_refused(session: SessionView, message: MessageView)
    requires
        session.is_registered,
        !(message is CapLs),
    ensures
        handle_message(session, message).1 == Some(seq![already_registered()]),
        handle_message(session, message).0.is_registered,
{
}

/// No command takes a registration back, changes the peer address, or is
/// answered with more than one reply; and a session that was well formed
/// stays so.
pub proof fn lemma_handle_message_keeps(session: SessionView, message: MessageView)
    ensures
        session.is_registered ==> handle_message(session, message).0.is_registered,
        session.well_formed() ==> handle_message(session, message).0.well_formed(),
        handle_message(session, message).0.peer_address == session.peer_address,
        handle_message(session, message).1 matches Some(list) ==> list.len() == 1,
{
}

impl Client {
    #[verifier::type_invariant]
    spec fn registered_with_both_names(self) -> bool {
        self.is_registered ==> self.nick is Some && self.username is Some
    }

    pub fn new(client_addr: String) -> (client: Client)
        ensures
            client@ == fresh_session(client_addr@),
            client@.well_formed(),
    {
        Client { nick: None, username: None, client_addr, is_registered: false }
    }

    /// The nickname last given, if any.
    pub fn nickname(&self) -> (nickname: Option<&str>)
        ensures
            optional_text(nickname) == self@.nickname,
    {
        match &self.nick {
            Some(nick) => Some(nick.as_str()),
            None => None,
        }
    }

    /// The user name last given, if any.
    pub fn username(&self) -> (username: Option<&str>)
        ensures
            optional_text(username) == self@.username,
    {
        match &self.username {
            Some(username) => Some(username.as_str()),
            None => None,
        }
    }

    /// The address the client connected from.
    pub fn peer_address(&self) -> (address: &str)
        ensures
            address@ == self@.peer_address,
    {
        self.client_addr.as_str()
    }

    /// Whether the client has completed its registration.
    pub fn is_registered(&self) -> (registered: bool)
        ensures
            registered == self@.is_registered,
            self@.well_formed(),
    {
        proof {
            use_type_invariant(self);
        }
        self.is_registered
    }

    fn check_finished_registration(&mut self) -> (responses: Option<Vec<IrcResponse>>)
        ensures
            (final(self)@, replies(responses)) == registration_check(old(self)@),
    {
        if self.is_registered {
            let mut arguments: Vec<String> = Vec::new();
            arguments.push("Unauthorized command (already registered)".to_owned());
            assert(strings(arguments@) =~= seq!["Unauthorized command (already registered)"@]);
            let mut list: Vec<IrcResponse> = Vec::new();
            list.push(IrcResponse::for_code(IrcResponseCode::ERR_ALREADYREGISTRED, arguments));
            assert(reply_views(list@) =~= seq![already_registered()]);
            return Some(list);
        }
        let nick = match &self.nick {
            Some(nick) => nick.as_str(),
            None => {
                return None;
            },
        };
        let username = match &self.username {
            Some(username) => username.as_str(),
            None => {
                return None;
            },
        };
        let mut greeting = String::from_str("Welcome to the internet relay network ");
        greeting.append(nick);
        greeting.append("!");
        greeting.append(username);
        greeting.append("@");
        greeting.append(self.client_addr.as_str());
        let mut arguments: Vec<String> = Vec::new();
        arguments.push(nick.to_owned());
        arguments.push(greeting);
        assert(strings(arguments@) =~= welcome(
            nick@,
            username@,
            self.client_addr@,
        ).arguments);
        let mut list: Vec<IrcResponse> = Vec::new();
        list.push(IrcResponse::for_code(IrcResponseCode::RPL_WELCOME, arguments));
        assert(reply_views(list@) =~= seq![welcome(nick@, username@, self.client_addr@)]);
        self.is_registered = true;
        Some(list)
    }

    #[allow(non_snake_case)]
    fn handleCapLs(&mut self, version: &Option<u16>) -> (responses: Option<Vec<IrcResponse>>)
        ensures
            *final(self) == *old(self),
            responses is None,
    {
        None
    }

    #[allow(non_snake_case)]
    fn handleNick(&mut self, nickname: &String) -> (responses: Option<Vec<IrcResponse>>)
        ensures
            (final(self)@, replies(responses)) == registration_check(
                SessionView { nickname: Some(nickname@), ..old(self)@ },
            ),
    {
        proof {
            use_type_invariant(&*self);
        }
        self.nick = Some(nickname.clone());
        self.check_finished_registration()
    }

    #[allow(non_snake_case)]
    fn handleUser(
        &mut self,
        user_name: &String,
        invisible: &bool,
        wallops: &bool,
        real_name: &String,
    ) -> (responses: Option<Vec<IrcResponse>>)
        ensures
            (final(self)@, replies(responses)) == registration_check(
                SessionView { username: Some(user_name@), ..old(self)@ },
            ),
    {
        proof {
            use_type_invariant(&*self);
        }
        self.username = Some(user_name.clone());
        self.check_finished_registration()
    }

    /// Applies a command to the session and gives the replies to send, in
    /// order, if there are any.
    pub fn handle(&mut self, message: &IrcMessage) -> (responses: Option<Vec<IrcResponse>>)
        ensures
            (final(self)@, replies(responses)) == handle_message(old(self)@, message@),
            old(self)@.is_registered ==> final(self)@.is_registered,
            final(self)@.peer_address == old(self)@.peer_address,
            final(self)@.well_formed(),
            responses matches Some(list) ==> list@.len() == 1,
    {
        proof {
            use_type_invariant(&*self);
        }
        let responses = match message {
            IrcMessage::CapLs { version } => self.handleCapLs(version),
            IrcMessage::Nick { nickname } => self.handleNick(nickname),
            IrcMessage::User { user_name, invisible, wallops, real_name } => self.handleUser(
                user_name,
                invisible,
                wallops,
                real_name,
            ),
        };
        proof {
            if responses is Some {
                assert(reply_views(responses.unwrap()@).len() == responses.unwrap()@.len());
            }
        }
        responses
    }
}

} // verus!
