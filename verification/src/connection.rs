//! One connection's side of the protocol: the bytes that wait for the rest
//! of their line, the session, and what a read from the client leads to.

use vstd::prelude::*;
use vstd::string::*;
use vstd::utf8::*;
use core::str::Utf8Error;
use crate::client::{fresh_session, handle_message, reply_views, Client, SessionView};
use crate::irc_message::{command_of, IrcMessage};
use crate::message_parser::{
    frame, lemma_frame_extends, lemma_strict_prefix_is_incomplete, parse_message, FrameError,
    Framing, RawMessageView,
};
use crate::reply::{IrcResponse, ResponseView};
use crate::text::lemma_encode_concat;

verus! {

/// `core::str::Utf8Error`, the reason `core::str::from_utf8` gives when it
/// refuses bytes. Nothing is claimed of what it holds.
#[verifier::external_type_specification]
#[verifier::external_body]
pub struct ExUtf8Error(Utf8Error);

/// `core::str::from_utf8` succeeds exactly on well-formed UTF-8, and the
/// string it then gives is made of the very bytes it was handed.
pub assume_specification[ core::str::from_utf8 ](v: &[u8]) -> (result: Result<&str, Utf8Error>)
    ensures
        result is Ok <==> valid_utf8(v@),
        result matches Ok(text) ==> text.spec_bytes() == v@,
;

/// Why a read could not be taken in.
#[derive(Debug, Clone, Copy, PartialEq, Eq)]
pub enum ReceiveError {
    /// The bytes are not text. Nothing can be answered: the connection is
    /// to be closed.
    InvalidText,
}

/// Text that waits for the rest of its line.
struct Pending {
    text: String,
}

/// The protocol state of one connection.
pub struct Connection {
    buffer: Pending,
    client: Client,
}

/// Mathematical model of a [`Connection`].
pub struct ConnectionView {
    /// The bytes received that no line has been cut from yet.
    pub pending: Seq<u8>,
    pub session: SessionView,
}

impl View for Connection {
    type V = ConnectionView;

    closed spec fn view(&self) -> ConnectionView {
        ConnectionView { pending: self.buffer.bytes(), session: self.client@ }
    }
}

impl Pending {
    #[verifier::type_invariant]
    spec fn begins_a_line(self) -> bool {
        frame(encode_utf8(self.text@)) is Incomplete
    }

    spec fn bytes(self) -> Seq<u8> {
        encode_utf8(self.text@)
    }

    fn new() -> (pending: Pending)
        ensures
            pending.bytes() == Seq::<u8>::empty(),
    {
        let text = String::new();
        assert(encode_utf8(text@) =~= Seq::<u8>::empty());
        Pending { text }
    }

    fn as_str(&self) -> (text: &str)
        ensures
            text.spec_bytes() == self.bytes(),
            frame(self.bytes()) is Incomplete,
    {
        proof {
            use_type_invariant(self);
        }
        self.text.as_str()
    }

    /// Takes the text out and leaves none.
    fn take(&mut self) -> (text: String)
        ensures
            encode_utf8(text@) == old(self).bytes(),
            final(self).bytes() == Seq::<u8>::empty(),
    {
        let mut text = String::new();
        assert(encode_utf8(text@) =~= Seq::<u8>::empty());
        core::mem::swap(&mut text, &mut self.text);
        text
    }

    fn set(&mut self, text: String)
        requires
            frame(encode_utf8(text@)) is Incomplete,
        ensures
            final(self).bytes() == encode_utf8(text@),
    {
        self.text = text;
    }
}

/// What one line leads to: the command it stands for is applied to the
/// session, or the reply that reports its fault is sent and the session
/// stays as it is.
pub open spec fn dispatch(session: SessionView, raw: RawMessageView) -> (
    SessionView,
    Seq<ResponseView>,
) {
    match command_of(raw) {
        Ok(message) => {
            let (next, responses) = handle_message(session, message);
            match responses {
                Some(list) => (next, list),
                None => (next, Seq::empty()),
            }
        },
        Err(response) => (session, seq![response]),
    }
}

/// Takes the pending bytes line by line. Each whole line is dispatched in
/// turn; bytes that only begin a line stay pending; bytes that can begin
/// no line are dropped, all of them, with whatever came after them.
pub open spec fn drain(state: ConnectionView) -> (ConnectionView, Seq<ResponseView>)
    decreases state.pending.len(),
{
    match frame(state.pending) {
        Framing::Complete { message, consumed } => {
            proof {
                lemma_frame_extends(state.pending, Seq::empty());
            }
            let (session, first) = dispatch(state.session, message);
            let (end, rest) = drain(
                ConnectionView { pending: state.pending.skip(consumed), session },
            );
            (end, first + rest)
        },
        Framing::Incomplete => (state, Seq::empty()),
        Framing::Malformed => (ConnectionView { pending: Seq::empty(), ..state }, Seq::empty()),
    }
}

/// What a read of `data` leads to: the bytes join the pending ones, which
/// are then drained.
pub open spec fn absorb(state: ConnectionView, data: Seq<u8>) -> (
    ConnectionView,
    Seq<ResponseView>,
) {
    drain(ConnectionView { pending: state.pending + data, ..state })
}

/// What a series of reads leads to, one after the other: the state after
/// the last, and all the replies in order.
pub open spec fn absorb_all(state: ConnectionView, reads: Seq<Seq<u8>>) -> (
    ConnectionView,
    Seq<ResponseView>,
)
    decreases reads.len(),
{
    if reads.len() == 0 {
        (state, Seq::empty())
    } else {
        let (next, first) = absorb(state, reads[0]);
        let (end, rest) = absorb_all(next, reads.drop_first());
        (end, first + rest)
    }
}

/// The bytes of a series of reads, put end to end.
pub open spec fn joined(reads: Seq<Seq<u8>>) -> Seq<u8>
    decreases reads.len(),
{
    if reads.len() == 0 {
        Seq::empty()
    } else {
        reads[0] + joined(reads.drop_first())
    }
}

/// Bytes that only begin a line stay pending as they are, and nothing is
/// sent.
pub proof fn lemma_incomplete_stays_pending(state: ConnectionView)
    requires
        frame(state.pending) is Incomplete,
    ensures
        drain(state) == (state, Seq::<ResponseView>::empty()),
{
}

/// What stays pending after draining only begins a line: its rest is still
/// to come.
pub proof fn lemma_drained_begins_a_line(state: ConnectionView)
    ensures
        frame(drain(state).0.pending) is Incomplete,
    decreases state.pending.len(),
{
    match frame(state.pending) {
        Framing::Complete { message, consumed } => {
            lemma_frame_extends(state.pending, Seq::empty());
            lemma_drained_begins_a_line(
                ConnectionView {
                    pending: state.pending.skip(consumed),
                    session: dispatch(state.session, message).0,
                },
            );
        },
        Framing::Incomplete => {},
        Framing::Malformed => {},
    }
}

/// Bytes that can begin no line are dropped together with all that follows
/// them in the buffer, even a well-formed line: nothing is sent and the
/// session stays as it is.
pub proof fn lemma_malformed_drops_all(state: ConnectionView, junk: Seq<u8>, more: Seq<u8>)
    requires
        frame(junk) is Malformed,
        state.pending == junk + more,
    ensures
        drain(state) == (
            ConnectionView { pending: Seq::empty(), session: state.session },
            Seq::<ResponseView>::empty(),
        ),
{
    lemma_frame_extends(junk, more);
}

/// Reads that bring nothing to an empty buffer change nothing.
proof fn lemma_absorb_nothing(session: SessionView, reads: Seq<Seq<u8>>)
    requires
        joined(reads).len() == 0,
    ensures
        absorb_all(ConnectionView { pending: Seq::empty(), session }, reads) == (
            ConnectionView { pending: Seq::empty(), session },
            Seq::<ResponseView>::empty(),
        ),
    decreases reads.len(),
{
    let state = ConnectionView { pending: Seq::<u8>::empty(), session };
    if reads.len() > 0 {
        assert(reads[0].len() == 0);
        assert(state.pending + reads[0] =~= state.pending);
        assert(joined(reads.drop_first()) =~= joined(reads));
        lemma_absorb_nothing(session, reads.drop_first());
        assert(absorb(state, reads[0]) == (state, Seq::<ResponseView>::empty()));
        assert(Seq::<ResponseView>::empty() + Seq::<ResponseView>::empty() =~= Seq::<
            ResponseView,
        >::empty());
    }
}

/// The rest of a line arrives in pieces: the part that is pending and the
/// reads to come make up the line.
proof fn lemma_rest_of_line(
    session: SessionView,
    line: Seq<u8>,
    pending: Seq<u8>,
    reads: Seq<Seq<u8>>,
)
    requires
        frame(line) is Complete,
        frame(line)->consumed == line.len(),
        pending + joined(reads) == line,
        pending.len() < line.len(),
    ensures
        absorb_all(ConnectionView { pending, session }, reads) == (
            ConnectionView {
                pending: Seq::empty(),
                session: dispatch(session, frame(line)->message).0,
            },
            dispatch(session, frame(line)->message).1,
        ),
    decreases reads.len(),
{
    let state = ConnectionView { pending, session };
    let message = frame(line)->message;
    let replies = dispatch(session, message).1;
    assert(reads.len() > 0);
    let longer = pending + reads[0];
    let later = reads.drop_first();
    assert(longer + joined(later) =~= line);
    if longer.len() < line.len() {
        assert(line.take(longer.len() as int) =~= longer);
        lemma_strict_prefix_is_incomplete(line, longer.len() as int);
        lemma_rest_of_line(session, line, longer, later);
        assert(absorb(state, reads[0]) == (
            ConnectionView { pending: longer, session },
            Seq::<ResponseView>::empty(),
        ));
        assert(Seq::<ResponseView>::empty() + replies =~= replies);
    } else {
        assert(longer =~= line);
        assert(joined(later).len() == 0);
        let after = dispatch(session, message).0;
        assert(line.skip(line.len() as int) =~= Seq::<u8>::empty());
        let done = ConnectionView { pending: Seq::<u8>::empty(), session: after };
        assert(drain(done) == (done, Seq::<ResponseView>::empty()));
        assert(replies + Seq::<ResponseView>::empty() =~= replies);
        assert(absorb(state, reads[0]) == (done, replies));
        lemma_absorb_nothing(after, later);
    }
}

/// However a line is split over reads, on whatever bytes, the connection
/// ends up as if it had come in one piece: the line is dispatched once,
/// when its last byte is there, and nothing stays pending.
pub proof fn lemma_fragmented_line(session: SessionView, line: Seq<u8>, reads: Seq<Seq<u8>>)
    requires
        frame(line) is Complete,
        frame(line)->consumed == line.len(),
        joined(reads) == line,
    ensures
        absorb_all(ConnectionView { pending: Seq::empty(), session }, reads) == absorb(
            ConnectionView { pending: Seq::empty(), session },
            line,
        ),
        absorb(ConnectionView { pending: Seq::empty(), session }, line) == (
            ConnectionView {
                pending: Seq::empty(),
                session: dispatch(session, frame(line)->message).0,
            },
            dispatch(session, frame(line)->message).1,
        ),
{
    let empty = Seq::<u8>::empty();
    let message = frame(line)->message;
    lemma_frame_extends(line, empty);
    assert(empty + joined(reads) =~= line);
    assert(empty + line =~= line);
    lemma_rest_of_line(session, line, empty, reads);
    let after = dispatch(session, message).0;
    let done = ConnectionView { pending: empty, session: after };
    assert(line.skip(line.len() as int) =~= empty);
    assert(drain(done) == (done, Seq::<ResponseView>::empty()));
    assert(dispatch(session, message).1 + Seq::<ResponseView>::empty() =~= dispatch(
        session,
        message,
    ).1);
}

/// Takes the lines off the front of `input` and applies them to the
/// session. Gives the replies in order, and what of the input stays
/// pending.
fn drain_lines<'a>(input: &'a str, client: &mut Client) -> (result: (Vec<IrcResponse>, &'a str))
    ensures
        ({
            let start = ConnectionView { pending: input.spec_bytes(), session: old(client)@ };
            let end = ConnectionView {
                pending: result.1.spec_bytes(),
                session: final(client)@,
            };
            drain(start) == (end, reply_views(result.0@))
        }),
{
    let mut responses: Vec<IrcResponse> = Vec::new();
    let mut cursor: &'a str = input;
    let ghost start = ConnectionView { pending: input.spec_bytes(), session: client@ };
    assert(reply_views(responses@) + drain(start).1 =~= drain(start).1);
    loop
        invariant
            start == (ConnectionView { pending: input.spec_bytes(), session: old(client)@ }),
            drain(start).0 == drain(
                ConnectionView { pending: cursor.spec_bytes(), session: client@ },
            ).0,
            drain(start).1 == reply_views(responses@) + drain(
                ConnectionView { pending: cursor.spec_bytes(), session: client@ },
            ).1,
        decreases cursor.spec_bytes().len(),
    {
        let ghost here = ConnectionView { pending: cursor.spec_bytes(), session: client@ };
        let ghost sent = reply_views(responses@);
        match parse_message(cursor) {
            Ok((rest, raw)) => {
                let ghost line = raw@;
                match IrcMessage::from_raw(raw) {
                    Ok(message) => {
                        match client.handle(&message) {
                            Some(list) => {
                                let mut list = list;
                                let ghost added = reply_views(list@);
                                responses.append(&mut list);
                                assert(reply_views(responses@) =~= sent + added);
                            },
                            None => {},
                        }
                    },
                    Err(response) => {
                        responses.push(response);
                        assert(reply_views(responses@) =~= sent + seq![response@]);
                    },
                }
                cursor = rest;
                proof {
                    let next = ConnectionView { pending: cursor.spec_bytes(), session: client@ };
                    let first = dispatch(here.session, line).1;
                    assert(reply_views(responses@) == sent + first);
                    assert(drain(here).1 == first + drain(next).1);
                    assert(sent + (first + drain(next).1) =~= (sent + first) + drain(next).1);
                }
            },
            Err(FrameError::Incomplete) => {
                assert(sent + Seq::<ResponseView>::empty() =~= sent);
                return (responses, cursor);
            },
            Err(FrameError::Malformed) => {
                assert(sent + Seq::<ResponseView>::empty() =~= sent);
                proof {
                    reveal_strlit("");
                    assert("".spec_bytes() =~= Seq::<u8>::empty());
                }
                return (responses, "");
            },
        }
    }
}

impl Connection {
    /// The state of a connection just accepted from `client_addr`.
    pub fn new(client_addr: String) -> (connection: Connection)
        ensures
            connection@ == (ConnectionView {
                pending: Seq::empty(),
                session: fresh_session(client_addr@),
            }),
    {
        Connection { buffer: Pending::new(), client: Client::new(client_addr) }
    }

    /// The session of the client at the other end.
    pub fn client(&self) -> (client: &Client)
        ensures
            client@ == self@.session,
    {
        &self.client
    }

    /// The text received that no line has been cut from yet. It only
    /// begins a line.
    pub fn pending(&self) -> (pending: &str)
        ensures
            pending.spec_bytes() == self@.pending,
            frame(self@.pending) is Incomplete,
    {
        self.buffer.as_str()
    }

    /// Takes in the bytes of one read and gives the replies to send, in
    /// order. Bytes that are not text are refused and change nothing.
    pub fn receive(&mut self, data: &[u8]) -> (result: Result<Vec<IrcResponse>, ReceiveError>)
        ensures
            match result {
                Ok(responses) => {
                    &&& valid_utf8(data@)
                    &&& (final(self)@, reply_views(responses@)) == absorb(old(self)@, data@)
                },
                Err(e) => !valid_utf8(data@) && final(self)@ == old(self)@,
            },
            frame(final(self)@.pending) is Incomplete,
    {
        proof {
            use_type_invariant(&self.buffer);
        }
        let chunk = match core::str::from_utf8(data) {
            Ok(chunk) => chunk,
            Err(_) => {
                return Err(ReceiveError::InvalidText);
            },
        };
        let mut text = self.buffer.take();
        proof {
            lemma_encode_concat(text@, chunk@);
            lemma_drained_begins_a_line(
                ConnectionView { pending: encode_utf8(text@ + chunk@), session: self.client@ },
            );
        }
        text.append(chunk);
        let (responses, rest) = drain_lines(text.as_str(), &mut self.client);
        self.buffer.set(rest.to_owned());
        Ok(responses)
    }
}

} // verus!
