//! Framing: cutting one protocol line off the front of the bytes received so
//! far, and splitting it into prefix, command and parameters.

use vstd::prelude::*;
use vstd::string::*;
use crate::text::{cut_point, optional_text, slice, text, texts};

verus! {

pub const SPACE: u8 = 0x20;

pub const COLON: u8 = 0x3a;

pub const CR: u8 = 0x0d;

pub const LF: u8 = 0x0a;

/// One protocol line, split but not yet interpreted. The parts borrow from
/// the buffer the line was read from.
#[derive(Debug, Clone, PartialEq, Eq)]
pub struct RawIrcMessage<'a> {
    pub prefix: Option<&'a str>,
    pub command: &'a str,
    pub parameters: Vec<&'a str>,
}

/// Mathematical model of a [`RawIrcMessage`].
pub struct RawMessageView {
    pub prefix: Option<Seq<char>>,
    pub command: Seq<char>,
    pub parameters: Seq<Seq<char>>,
}

impl<'a> View for RawIrcMessage<'a> {
    type V = RawMessageView;

    open spec fn view(&self) -> RawMessageView {
        RawMessageView {
            prefix: optional_text(self.prefix),
            command: self.command@,
            parameters: texts(self.parameters@),
        }
    }
}

/// Why no line could be cut off the front of the buffer.
#[derive(Debug, Clone, Copy, PartialEq, Eq)]
pub enum FrameError {
    /// The bytes so far may still grow into a line: wait for more and keep
    /// them.
    Incomplete,
    /// The bytes cannot begin a line, whatever follows.
    Malformed,
}

/// What the grammar makes of a buffer.
pub enum Framing {
    /// The buffer starts with one whole line of `consumed` bytes.
    Complete { message: RawMessageView, consumed: int },
    Incomplete,
    Malformed,
}

/// The framing that an error stands for.
pub open spec fn framing_error(e: FrameError) -> Framing {
    match e {
        FrameError::Incomplete => Framing::Incomplete,
        FrameError::Malformed => Framing::Malformed,
    }
}

/// The kinds of byte runs the grammar is made of.
#[derive(Clone, Copy)]
pub enum Run {
    /// The source after the leading colon: anything but a space.
    Prefix,
    /// The command: ASCII letters and digits.
    Command,
    /// Separating spaces.
    Spaces,
    /// A middle parameter after its first byte.
    Middle,
    /// The trailing parameter after its colon.
    Trailing,
}

pub open spec fn is_alphanumeric(b: u8) -> bool {
    ||| 0x30 <= b <= 0x39
    ||| 0x41 <= b <= 0x5a
    ||| 0x61 <= b <= 0x7a
}

impl Run {
    /// Whether a byte may stand in a run of this kind.
    pub open spec fn accepts(self, b: u8) -> bool {
        match self {
            Run::Prefix => b != SPACE,
            Run::Command => is_alphanumeric(b),
            Run::Spaces => b == SPACE,
            Run::Middle => b != SPACE && b != CR && b != LF,
            Run::Trailing => b != CR && b != LF,
        }
    }

    fn admits(self, b: u8) -> (yes: bool)
        ensures
            yes == self.accepts(b),
    {
        match self {
            Run::Prefix => b != SPACE,
            Run::Command => (0x30 <= b && b <= 0x39) || (0x41 <= b && b <= 0x5a) || (0x61 <= b
                && b <= 0x7a),
            Run::Spaces => b == SPACE,
            Run::Middle => b != SPACE && b != CR && b != LF,
            Run::Trailing => b != CR && b != LF,
        }
    }
}

/// Where the run of `kind` that starts at `from` stops: the offset of the
/// first byte it does not accept, or the end of the bytes.
pub open spec fn run_end(bytes: Seq<u8>, from: int, kind: Run) -> int
    decreases bytes.len() - from,
{
    if 0 <= from < bytes.len() && kind.accepts(bytes[from]) {
        run_end(bytes, from + 1, kind)
    } else {
        from
    }
}

/// A middle parameter starts with any byte but a space, a colon or a line
/// end.
pub open spec fn starts_middle(b: u8) -> bool {
    b != SPACE && b != COLON && b != CR && b != LF
}

/// The middle parameters that start at `pos`, each separated from the next
/// by one space, and the offset at which no further one starts. `None`
/// while the bytes end before that is decided.
pub open spec fn middle_list(bytes: Seq<u8>, pos: int) -> Option<(Seq<Seq<char>>, int)>
    decreases bytes.len() - pos,
{
    if pos < 0 || pos >= bytes.len() {
        None
    } else if !starts_middle(bytes[pos]) {
        Some((Seq::empty(), pos))
    } else {
        let end = run_end(bytes, pos + 1, Run::Middle);
        let first = text(bytes.subrange(pos, end));
        if end >= bytes.len() {
            None
        } else if bytes[end] == SPACE {
            proof {
                lemma_run_end(bytes, pos + 1, Run::Middle);
            }
            match middle_list(bytes, end + 1) {
                Some((rest, after)) => Some((seq![first] + rest, after)),
                None => None,
            }
        } else {
            Some((seq![first], end))
        }
    }
}

/// The line end expected at `at`: a line feed, alone or after a carriage
/// return. Gives the offset right after it.
pub open spec fn line_end(bytes: Seq<u8>, at: int) -> Result<int, FrameError> {
    if at < 0 || at >= bytes.len() {
        Err(FrameError::Incomplete)
    } else if bytes[at] == LF {
        Ok(at + 1)
    } else if bytes[at] != CR {
        Err(FrameError::Malformed)
    } else if at + 1 >= bytes.len() {
        Err(FrameError::Incomplete)
    } else if bytes[at + 1] == LF {
        Ok(at + 2)
    } else {
        Err(FrameError::Malformed)
    }
}

/// The line whose parts are `message`, once its line end is known.
pub open spec fn frame_line_end(bytes: Seq<u8>, message: RawMessageView, at: int) -> Framing {
    match line_end(bytes, at) {
        Ok(consumed) => Framing::Complete { message, consumed },
        Err(e) => framing_error(e),
    }
}

/// What follows the middle parameters: spaces, then the trailing parameter
/// if a colon announces one, then the line end.
pub open spec fn frame_tail(
    bytes: Seq<u8>,
    prefix: Option<Seq<char>>,
    command: Seq<char>,
    middles: Seq<Seq<char>>,
    after: int,
) -> Framing {
    let colon = run_end(bytes, after, Run::Spaces);
    let end = run_end(bytes, colon + 1, Run::Trailing);
    if colon >= bytes.len() {
        Framing::Incomplete
    } else if bytes[colon] != COLON {
        frame_line_end(bytes, RawMessageView { prefix, command, parameters: middles }, colon)
    } else if end >= bytes.len() {
        Framing::Incomplete
    } else {
        frame_line_end(
            bytes,
            RawMessageView {
                prefix,
                command,
                parameters: middles.push(text(bytes.subrange(colon + 1, end))),
            },
            end,
        )
    }
}

/// The line from its command on, the command starting at `start`.
pub open spec fn frame_command(bytes: Seq<u8>, prefix: Option<Seq<char>>, start: int) -> Framing {
    let end = run_end(bytes, start, Run::Command);
    let next = run_end(bytes, end, Run::Spaces);
    if end >= bytes.len() {
        Framing::Incomplete
    } else if end == start {
        Framing::Malformed
    } else if next >= bytes.len() {
        Framing::Incomplete
    } else if next == end {
        Framing::Malformed
    } else {
        match middle_list(bytes, next) {
            Some((middles, after)) => frame_tail(
                bytes,
                prefix,
                text(bytes.subrange(start, end)),
                middles,
                after,
            ),
            None => Framing::Incomplete,
        }
    }
}

/// The grammar of one line at the front of `bytes`:
/// an optional prefix (a colon, bytes other than space, one space); the
/// command (one or more ASCII letters or digits); one or more spaces; middle
/// parameters separated by single spaces; optionally, after spaces and a
/// colon, a trailing parameter that runs to the line end; then the line end.
pub open spec fn frame(bytes: Seq<u8>) -> Framing {
    let space = run_end(bytes, 1, Run::Prefix);
    if bytes.len() == 0 {
        Framing::Incomplete
    } else if bytes[0] != COLON {
        frame_command(bytes, None, 0)
    } else if space >= bytes.len() {
        Framing::Incomplete
    } else {
        frame_command(bytes, Some(text(bytes.subrange(1, space))), space + 1)
    }
}

/// A run ends within the bytes, on a byte it does not accept or at their
/// end, and accepts every byte before that.
pub proof fn lemma_run_end(bytes: Seq<u8>, from: int, kind: Run)
    requires
        0 <= from <= bytes.len(),
    ensures
        from <= run_end(bytes, from, kind) <= bytes.len(),
        run_end(bytes, from, kind) < bytes.len() ==> !kind.accepts(
            bytes[run_end(bytes, from, kind)],
        ),
        forall|i: int| from <= i < run_end(bytes, from, kind) ==> kind.accepts(#[trigger] bytes[i]),
    decreases bytes.len() - from,
{
    if from < bytes.len() && kind.accepts(bytes[from]) {
        lemma_run_end(bytes, from + 1, kind);
    }
}

/// A run that stops before the end of the bytes stops at the same offset
/// when more bytes follow.
proof fn lemma_run_end_extends(bytes: Seq<u8>, more: Seq<u8>, from: int, kind: Run)
    requires
        0 <= from <= bytes.len(),
        run_end(bytes, from, kind) < bytes.len(),
    ensures
        run_end(bytes + more, from, kind) == run_end(bytes, from, kind),
    decreases bytes.len() - from,
{
    assert((bytes + more)[from] == bytes[from]);
    if kind.accepts(bytes[from]) {
        lemma_run_end_extends(bytes, more, from + 1, kind);
    }
}

/// A list of middle parameters that is decided stays as it is when more
/// bytes follow.
proof fn lemma_middle_list_extends(bytes: Seq<u8>, more: Seq<u8>, pos: int)
    requires
        middle_list(bytes, pos) is Some,
    ensures
        middle_list(bytes + more, pos) == middle_list(bytes, pos),
        0 <= pos <= middle_list(bytes, pos).unwrap().1 < bytes.len(),
    decreases bytes.len() - pos,
{
    let longer = bytes + more;
    assert(longer[pos] == bytes[pos]);
    if starts_middle(bytes[pos]) {
        let end = run_end(bytes, pos + 1, Run::Middle);
        lemma_run_end(bytes, pos + 1, Run::Middle);
        lemma_run_end_extends(bytes, more, pos + 1, Run::Middle);
        assert(longer[end] == bytes[end]);
        assert(longer.subrange(pos, end) =~= bytes.subrange(pos, end));
        if bytes[end] == SPACE {
            lemma_middle_list_extends(bytes, more, end + 1);
        }
    }
}

/// A line end that is decided stays as it is when more bytes follow.
proof fn lemma_line_end_extends(bytes: Seq<u8>, more: Seq<u8>, at: int)
    requires
        0 <= at,
        line_end(bytes, at) != Err::<int, FrameError>(FrameError::Incomplete),
    ensures
        line_end(bytes + more, at) == line_end(bytes, at),
        line_end(bytes, at) is Ok ==> at < line_end(bytes, at)->Ok_0 <= bytes.len(),
{
    let longer = bytes + more;
    assert(longer[at] == bytes[at]);
    if bytes[at] == CR {
        assert(longer[at + 1] == bytes[at + 1]);
    }
}

/// Once the framer has decided on a buffer, bytes that arrive later do not
/// change the decision: a line that was cut off is cut off in the same way,
/// and what was malformed stays malformed.
pub proof fn lemma_frame_extends(bytes: Seq<u8>, more: Seq<u8>)
    requires
        !(frame(bytes) is Incomplete),
    ensures
        frame(bytes + more) == frame(bytes),
        frame(bytes) is Complete ==> 0 < frame(bytes)->consumed <= bytes.len(),
{
    let longer = bytes + more;
    assert(longer[0] == bytes[0]);
    let start = if bytes[0] == COLON {
        run_end(bytes, 1, Run::Prefix) + 1
    } else {
        0
    };
    if bytes[0] == COLON {
        let space = run_end(bytes, 1, Run::Prefix);
        lemma_run_end(bytes, 1, Run::Prefix);
        lemma_run_end_extends(bytes, more, 1, Run::Prefix);
        assert(longer.subrange(1, space) =~= bytes.subrange(1, space));
    }
    let end = run_end(bytes, start, Run::Command);
    lemma_run_end(bytes, start, Run::Command);
    lemma_run_end_extends(bytes, more, start, Run::Command);
    if end != start {
        let next = run_end(bytes, end, Run::Spaces);
        lemma_run_end(bytes, end, Run::Spaces);
        lemma_run_end_extends(bytes, more, end, Run::Spaces);
        assert(longer.subrange(start, end) =~= bytes.subrange(start, end));
        if next != end {
            lemma_middle_list_extends(bytes, more, next);
            let after = middle_list(bytes, next).unwrap().1;
            let colon = run_end(bytes, after, Run::Spaces);
            lemma_run_end(bytes, after, Run::Spaces);
            lemma_run_end_extends(bytes, more, after, Run::Spaces);
            assert(longer[colon] == bytes[colon]);
            if bytes[colon] == COLON {
                let stop = run_end(bytes, colon + 1, Run::Trailing);
                lemma_run_end(bytes, colon + 1, Run::Trailing);
                lemma_run_end_extends(bytes, more, colon + 1, Run::Trailing);
                assert(longer.subrange(colon + 1, stop) =~= bytes.subrange(colon + 1, stop));
                lemma_line_end_extends(bytes, more, stop);
            } else {
                lemma_line_end_extends(bytes, more, colon);
            }
        }
    }
}

/// While a buffer holds only the beginning of a line, and not all of it,
/// the framer asks for more.
pub proof fn lemma_strict_prefix_is_incomplete(line: Seq<u8>, cut: int)
    requires
        frame(line) is Complete,
        frame(line)->consumed == line.len(),
        0 <= cut < line.len(),
    ensures
        frame(line.take(cut)) is Incomplete,
{
    let head = line.take(cut);
    assert(head + line.skip(cut) =~= line);
    if !(frame(head) is Incomplete) {
        lemma_frame_extends(head, line.skip(cut));
    }
}

/// Scans the run of `kind` that starts at `from`.
fn scan(bytes: &[u8], from: usize, kind: Run) -> (end: usize)
    requires
        from <= bytes@.len(),
    ensures
        end == run_end(bytes@, from as int, kind),
        from <= end <= bytes@.len(),
        end < bytes@.len() ==> !kind.accepts(bytes@[end as int]),
{
    let mut end: usize = from;
    while end < bytes.len() && kind.admits(bytes[end])
        invariant
            from <= end <= bytes@.len(),
            run_end(bytes@, from as int, kind) == run_end(bytes@, end as int, kind),
        decreases bytes@.len() - end,
    {
        end += 1;
    }
    end
}

/// A list of middle parameters with `done` put in front of it.
pub open spec fn after_middles(done: Seq<Seq<char>>, list: Option<(Seq<Seq<char>>, int)>) -> Option<
    (Seq<Seq<char>>, int),
> {
    match list {
        Some((rest, after)) => Some((done + rest, after)),
        None => None,
    }
}

/// Reads the prefix, if the line has one. Gives it with the offset at which
/// the command starts.
fn prefix<'a>(input: &'a str) -> (result: Option<(Option<&'a str>, usize)>)
    ensures
        match result {
            Some((source, start)) => {
                &&& frame(input.spec_bytes()) == frame_command(
                    input.spec_bytes(),
                    optional_text(source),
                    start as int,
                )
                &&& cut_point(input.spec_bytes(), start as int)
            },
            None => frame(input.spec_bytes()) is Incomplete,
        },
{
    let bytes = input.as_bytes();
    if bytes.len() == 0 {
        return None;
    }
    if bytes[0] != COLON {
        return Some((None, 0));
    }
    let space = scan(bytes, 1, Run::Prefix);
    if space >= bytes.len() {
        return None;
    }
    Some((Some(slice(input, 1, space)), space + 1))
}

/// Reads the command that starts at `start` and the spaces after it. Gives
/// the command with the offset of the first byte after the spaces.
fn command<'a>(input: &'a str, start: usize) -> (result: Result<(&'a str, usize), FrameError>)
    requires
        cut_point(input.spec_bytes(), start as int),
    ensures
        match result {
            Ok((verb, next)) => {
                let end = run_end(input.spec_bytes(), start as int, Run::Command);
                &&& start < end < next < input.spec_bytes().len()
                &&& next == run_end(input.spec_bytes(), end, Run::Spaces)
                &&& verb@ == text(input.spec_bytes().subrange(start as int, end))
                &&& input.spec_bytes()[next - 1] == SPACE
            },
            Err(e) => forall|source: Option<Seq<char>>| #[trigger]
                frame_command(input.spec_bytes(), source, start as int) == framing_error(e),
        },
{
    let bytes = input.as_bytes();
    let end = scan(bytes, start, Run::Command);
    if end >= bytes.len() {
        return Err(FrameError::Incomplete);
    }
    if end == start {
        return Err(FrameError::Malformed);
    }
    let next = scan(bytes, end, Run::Spaces);
    if next >= bytes.len() {
        return Err(FrameError::Incomplete);
    }
    if next == end {
        return Err(FrameError::Malformed);
    }
    proof {
        lemma_run_end(bytes@, end as int, Run::Spaces);
        assert(Run::Spaces.accepts(bytes@[end as int]));
        assert(Run::Spaces.accepts(bytes@[next - 1]));
    }
    Ok((slice(input, start, end), next))
}

/// Reads the middle parameters that start at `from`. Gives them with the
/// offset at which no further one starts, or nothing while the input ends
/// before that is decided.
fn middle_parameters<'a>(input: &'a str, from: usize) -> (result: Option<(Vec<&'a str>, usize)>)
    requires
        cut_point(input.spec_bytes(), from as int),
    ensures
        match middle_list(input.spec_bytes(), from as int) {
            Some((middles, after)) => {
                &&& result matches Some(found)
                &&& texts(found.0@) == middles
                &&& found.1 == after
                &&& after < input.spec_bytes().len()
            },
            None => result is None,
        },
{
    let bytes = input.as_bytes();
    let mut parameters: Vec<&'a str> = Vec::new();
    let mut pos: usize = from;
    assert(texts(parameters@) + Seq::<Seq<char>>::empty() =~= Seq::<Seq<char>>::empty());
    loop
        invariant
            bytes@ == input.spec_bytes(),
            from <= pos <= bytes@.len(),
            cut_point(bytes@, pos as int),
            middle_list(bytes@, from as int) == after_middles(
                texts(parameters@),
                middle_list(bytes@, pos as int),
            ),
        decreases bytes@.len() - pos,
    {
        if pos >= bytes.len() {
            return None;
        }
        let first = bytes[pos];
        if first == SPACE || first == COLON || first == CR || first == LF {
            assert(texts(parameters@) + Seq::<Seq<char>>::empty() =~= texts(parameters@));
            return Some((parameters, pos));
        }
        let end = scan(bytes, pos + 1, Run::Middle);
        if end >= bytes.len() {
            return None;
        }
        let ghost done = texts(parameters@);
        let ghost found = text(bytes@.subrange(pos as int, end as int));
        let part = slice(input, pos, end);
        parameters.push(part);
        assert(texts(parameters@) =~= done.push(found));
        proof {
            match middle_list(bytes@, end + 1) {
                Some((rest, after)) => {
                    assert(done + (seq![found] + rest) =~= done.push(found) + rest);
                },
                None => {},
            }
            assert(done + seq![found] =~= done.push(found) + Seq::<Seq<char>>::empty());
        }
        if bytes[end] == SPACE {
            pos = end + 1;
        } else {
            pos = end;
        }
    }
}

/// Reads the line end at `at`. Gives the offset right after it.
fn lf_or_crlf(bytes: &[u8], at: usize) -> (result: Result<usize, FrameError>)
    requires
        at < bytes@.len(),
    ensures
        match line_end(bytes@, at as int) {
            Ok(consumed) => {
                &&& result == Ok::<usize, FrameError>(consumed as usize)
                &&& at < consumed <= bytes@.len()
                &&& bytes@[consumed - 1] == LF
            },
            Err(e) => result == Err::<usize, FrameError>(e),
        },
{
    if bytes[at] == LF {
        Ok(at + 1)
    } else if bytes[at] != CR {
        Err(FrameError::Malformed)
    } else if at + 1 >= bytes.len() {
        Err(FrameError::Incomplete)
    } else if bytes[at + 1] == LF {
        Ok(at + 2)
    } else {
        Err(FrameError::Malformed)
    }
}

/// Reads the trailing parameter, if a colon at `colon` announces one, and
/// adds it to the parameters. Gives them with the offset at which the line
/// end is expected, or nothing while the input ends before that.
fn trailing_parameter<'a>(input: &'a str, parameters: Vec<&'a str>, colon: usize) -> (result:
    Option<(Vec<&'a str>, usize)>)
    requires
        colon < input.spec_bytes().len(),
    ensures
        ({
            let bytes = input.spec_bytes();
            let end = run_end(bytes, colon + 1, Run::Trailing);
            if bytes[colon as int] != COLON {
                result == Some((parameters, colon))
            } else if end >= bytes.len() {
                result is None
            } else {
                &&& result matches Some(found)
                &&& found.1 == end
                &&& texts(found.0@) == texts(parameters@).push(
                    text(bytes.subrange(colon + 1, end)),
                )
            }
        }),
{
    let bytes = input.as_bytes();
    if bytes[colon] != COLON {
        return Some((parameters, colon));
    }
    let end = scan(bytes, colon + 1, Run::Trailing);
    if end >= bytes.len() {
        return None;
    }
    let ghost middles = texts(parameters@);
    let trailing = slice(input, colon + 1, end);
    let mut parameters = parameters;
    parameters.push(trailing);
    assert(texts(parameters@) =~= middles.push(trailing@));
    Some((parameters, end))
}

/// Cuts one line off the front of `input`.
///
/// On success the result holds what follows the line and the line's parts.
/// `Incomplete` means that more bytes are needed to decide, `Malformed` that
/// no line can start like this.
pub fn parse_message<'a>(input: &'a str) -> (result: Result<
    (&'a str, RawIrcMessage<'a>),
    FrameError,
>)
    ensures
        match frame(input.spec_bytes()) {
            Framing::Complete { message, consumed } => {
                &&& result matches Ok(found)
                &&& found.1@ == message
                &&& 0 < consumed <= input.spec_bytes().len()
                &&& found.0.spec_bytes() == input.spec_bytes().skip(consumed)
            },
            Framing::Incomplete => result == Err::<(&str, RawIrcMessage), FrameError>(
                FrameError::Incomplete,
            ),
            Framing::Malformed => result == Err::<(&str, RawIrcMessage), FrameError>(
                FrameError::Malformed,
            ),
        },
{
    let bytes = input.as_bytes();
    let (prefix, start) = match prefix(input) {
        Some(found) => found,
        None => {
            return Err(FrameError::Incomplete);
        },
    };
    let (command, next) = match command(input, start) {
        Ok(found) => found,
        Err(e) => {
            return Err(e);
        },
    };
    let (middles, after) = match middle_parameters(input, next) {
        Some(found) => found,
        None => {
            return Err(FrameError::Incomplete);
        },
    };
    let colon = scan(bytes, after, Run::Spaces);
    if colon >= bytes.len() {
        return Err(FrameError::Incomplete);
    }
    let (parameters, at) = match trailing_parameter(input, middles, colon) {
        Some(found) => found,
        None => {
            return Err(FrameError::Incomplete);
        },
    };
    let consumed = match lf_or_crlf(bytes, at) {
        Ok(consumed) => consumed,
        Err(e) => {
            return Err(e);
        },
    };
    let rest = slice(input, consumed, bytes.len());
    Ok((rest, RawIrcMessage { prefix, command, parameters }))
}

} // verus!
