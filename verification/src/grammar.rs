//! The shape of a line, stated part by part, and the proof that the framer
//! cuts off exactly the lines of that shape.

use vstd::prelude::*;
use crate::message_parser::{
    frame, frame_command, frame_tail, line_end, lemma_run_end, middle_list, run_end,
    starts_middle, FrameError, Framing, RawMessageView, Run, COLON, CR, LF, SPACE,
};
use crate::text::text;

verus! {

/// The parts of one line as they stand on the wire.
pub struct Line {
    /// The source, without its colon and the space after it.
    pub prefix: Option<Seq<u8>>,
    pub command: Seq<u8>,
    /// How many spaces follow the command.
    pub gap: nat,
    /// The middle parameters, which single spaces separate.
    pub middles: Seq<Seq<u8>>,
    /// How many spaces follow the last middle parameter.
    pub pad: nat,
    /// The trailing parameter, without its colon.
    pub trailing: Option<Seq<u8>>,
    /// Whether a carriage return stands before the line feed.
    pub carriage_return: bool,
}

/// Whether every byte of `part` may stand in a run of `kind`.
pub open spec fn all_in(part: Seq<u8>, kind: Run) -> bool {
    forall|i: int| 0 <= i < part.len() ==> kind.accepts(#[trigger] part[i])
}

/// A middle parameter is not empty, does not start with a colon, and holds
/// neither a space nor a line end.
pub open spec fn is_middle(part: Seq<u8>) -> bool {
    part.len() > 0 && starts_middle(part[0]) && all_in(part, Run::Middle)
}

pub open spec fn spaces(count: nat) -> Seq<u8> {
    Seq::new(count, |i: int| SPACE)
}

/// Middle parameters with one space between each two.
pub open spec fn middles_bytes(middles: Seq<Seq<u8>>) -> Seq<u8>
    decreases middles.len(),
{
    if middles.len() == 0 {
        Seq::empty()
    } else if middles.len() == 1 {
        middles[0]
    } else {
        middles[0] + (seq![SPACE] + middles_bytes(middles.drop_first()))
    }
}

pub open spec fn prefix_bytes(prefix: Option<Seq<u8>>) -> Seq<u8> {
    match prefix {
        Some(source) => seq![COLON] + source + seq![SPACE],
        None => Seq::empty(),
    }
}

pub open spec fn trailing_bytes(trailing: Option<Seq<u8>>) -> Seq<u8> {
    match trailing {
        Some(last) => seq![COLON] + last,
        None => Seq::empty(),
    }
}

pub open spec fn line_end_bytes(carriage_return: bool) -> Seq<u8> {
    if carriage_return {
        seq![CR, LF]
    } else {
        seq![LF]
    }
}

/// The text of each part in a list.
pub open spec fn part_texts(parts: Seq<Seq<u8>>) -> Seq<Seq<char>> {
    Seq::new(parts.len(), |i: int| text(parts[i]))
}

/// The parameters once the trailing one, if there is one, has joined the
/// middle ones.
pub open spec fn with_trailing(middles: Seq<Seq<char>>, trailing: Option<Seq<u8>>) -> Seq<
    Seq<char>,
> {
    match trailing {
        Some(last) => middles.push(text(last)),
        None => middles,
    }
}

impl Line {
    /// The grammar of a line.
    pub open spec fn well_formed(self) -> bool {
        &&& self.prefix matches Some(source) ==> all_in(source, Run::Prefix)
        &&& self.command.len() > 0
        &&& all_in(self.command, Run::Command)
        &&& self.gap >= 1
        &&& forall|i: int| 0 <= i < self.middles.len() ==> is_middle(#[trigger] self.middles[i])
        &&& self.middles.len() == 0 ==> self.pad == 0
        &&& self.middles.len() > 0 && self.trailing is Some ==> self.pad >= 1
        &&& self.trailing matches Some(last) ==> all_in(last, Run::Trailing)
    }

    /// What follows the middle parameters.
    pub open spec fn tail_bytes(self) -> Seq<u8> {
        spaces(self.pad) + (trailing_bytes(self.trailing) + line_end_bytes(self.carriage_return))
    }

    /// The line from its command on.
    pub open spec fn command_bytes(self) -> Seq<u8> {
        self.command + (spaces(self.gap) + (middles_bytes(self.middles) + self.tail_bytes()))
    }

    /// The line on the wire.
    pub open spec fn bytes(self) -> Seq<u8> {
        prefix_bytes(self.prefix) + self.command_bytes()
    }

    /// The parameters: the middle ones, then the trailing one.
    pub open spec fn parameters(self) -> Seq<Seq<char>> {
        with_trailing(part_texts(self.middles), self.trailing)
    }

    /// The line as the framer hands it on.
    pub open spec fn message(self) -> RawMessageView {
        RawMessageView {
            prefix: match self.prefix {
                Some(source) => Some(text(source)),
                None => None,
            },
            command: text(self.command),
            parameters: self.parameters(),
        }
    }
}

/// A run takes in a part made of its bytes when a byte that it does not
/// accept follows.
proof fn lemma_run_over(head: Seq<u8>, part: Seq<u8>, rest: Seq<u8>, kind: Run)
    requires
        all_in(part, kind),
        rest.len() > 0,
        !kind.accepts(rest[0]),
    ensures
        run_end(head + (part + rest), head.len() as int, kind) == head.len() + part.len(),
    decreases part.len(),
{
    let bytes = head + (part + rest);
    if part.len() == 0 {
        assert(bytes[head.len() as int] == rest[0]);
    } else {
        assert(bytes[head.len() as int] == part[0]);
        assert(kind.accepts(part[0]));
        let longer = head.push(part[0]);
        let shorter = part.drop_first();
        assert(longer + (shorter + rest) =~= bytes);
        assert(all_in(shorter, kind)) by {
            assert forall|i: int| 0 <= i < shorter.len() implies kind.accepts(#[trigger] shorter[i]) by {
                assert(shorter[i] == part[i + 1]);
            }
        }
        lemma_run_over(longer, shorter, rest, kind);
    }
}

/// The line end is read as it stands.
proof fn lemma_line_end_is_read(head: Seq<u8>, carriage_return: bool, more: Seq<u8>)
    ensures
        line_end(head + (line_end_bytes(carriage_return) + more), head.len() as int) == Ok::<
            int,
            FrameError,
        >(head.len() as int + line_end_bytes(carriage_return).len()),
{
    let bytes = head + (line_end_bytes(carriage_return) + more);
    let at = head.len() as int;
    assert(bytes[at] == line_end_bytes(carriage_return)[0]);
    if carriage_return {
        assert(bytes[at + 1] == line_end_bytes(carriage_return)[1]);
    }
}

/// What follows the middle parameters is read as it stands, from any of the
/// spaces that follow them on.
#[verifier::rlimit(20)]
proof fn lemma_tail_is_read(
    head: Seq<u8>,
    line: Line,
    skipped: nat,
    more: Seq<u8>,
    prefix: Option<Seq<char>>,
    command: Seq<char>,
    middles: Seq<Seq<char>>,
)
    requires
        line.well_formed(),
        skipped <= line.pad,
    ensures
        frame_tail(
            head + (line.tail_bytes() + more),
            prefix,
            command,
            middles,
            head.len() as int + skipped,
        ) == (Framing::Complete {
            message: RawMessageView {
                prefix,
                command,
                parameters: with_trailing(middles, line.trailing),
            },
            consumed: head.len() as int + line.tail_bytes().len(),
        }),
{
    let bytes = head + (line.tail_bytes() + more);
    let ending = line_end_bytes(line.carriage_return);
    let start = head.len() as int;
    let colon = start + line.pad;
    let after_spaces = trailing_bytes(line.trailing) + (ending + more);
    assert(after_spaces[0] != SPACE);
    assert(run_end(bytes, start + skipped, Run::Spaces) == colon) by {
        let before = head + spaces(skipped);
        let run = spaces((line.pad - skipped) as nat);
        assert(before + (run + after_spaces) =~= bytes);
        lemma_run_over(before, run, after_spaces, Run::Spaces);
    }
    assert(bytes[colon] == after_spaces[0]);
    match line.trailing {
        Some(last) => {
            let before = head + spaces(line.pad) + seq![COLON];
            let end = colon + 1 + last.len();
            assert(before + (last + (ending + more)) =~= bytes);
            assert(run_end(bytes, colon + 1, Run::Trailing) == end) by {
                lemma_run_over(before, last, ending + more, Run::Trailing);
            }
            assert(bytes.subrange(colon + 1, end) =~= last);
            assert(line_end(bytes, end) == Ok::<int, FrameError>(end + ending.len())) by {
                assert((before + last) + (ending + more) =~= bytes);
                lemma_line_end_is_read(before + last, line.carriage_return, more);
            }
        },
        None => {
            let before = head + spaces(line.pad);
            assert(line_end(bytes, colon) == Ok::<int, FrameError>(colon + ending.len())) by {
                assert(before + (ending + more) =~= bytes);
                lemma_line_end_is_read(before, line.carriage_return, more);
            }
        },
    }
}

/// Middle parameters put end to end start with the first byte of the first.
proof fn lemma_middles_bytes_start(middles: Seq<Seq<u8>>)
    requires
        middles.len() > 0,
        is_middle(middles[0]),
    ensures
        middles_bytes(middles).len() > 0,
        middles_bytes(middles)[0] == middles[0][0],
{
}

/// The framer takes one space after the last middle parameter for a
/// separator before it sees that no further one follows.
pub open spec fn takes_a_space(middles: Seq<Seq<u8>>, rest: Seq<u8>) -> int {
    if middles.len() > 0 && rest[0] == SPACE {
        1
    } else {
        0
    }
}

/// One middle parameter is read as it stands when what follows it is no
/// part of it.
proof fn lemma_middle_is_read(head: Seq<u8>, first: Seq<u8>, rest: Seq<u8>)
    requires
        is_middle(first),
        rest.len() > 0,
        !Run::Middle.accepts(rest[0]),
    ensures
        ({
            let bytes = head + (first + rest);
            let start = head.len() as int;
            let end = start + first.len();
            &&& starts_middle(bytes[start])
            &&& run_end(bytes, start + 1, Run::Middle) == end
            &&& end < bytes.len()
            &&& bytes[end] == rest[0]
            &&& bytes.subrange(start, end) == first
        }),
{
    let bytes = head + (first + rest);
    let start = head.len() as int;
    let end = start + first.len();
    let shorter = first.drop_first();
    assert(bytes[start] == first[0]);
    assert(all_in(shorter, Run::Middle)) by {
        assert forall|i: int| 0 <= i < shorter.len() implies Run::Middle.accepts(
            #[trigger] shorter[i],
        ) by {
            assert(shorter[i] == first[i + 1]);
        }
    }
    assert(head.push(first[0]) + (shorter + rest) =~= bytes);
    lemma_run_over(head.push(first[0]), shorter, rest, Run::Middle);
    assert(bytes[end] == rest[0]);
    assert(bytes.subrange(start, end) =~= first);
}

/// The middle parameters are read as they stand, up to what ends their
/// list.
proof fn lemma_middles_are_read(head: Seq<u8>, middles: Seq<Seq<u8>>, rest: Seq<u8>)
    requires
        forall|i: int| 0 <= i < middles.len() ==> is_middle(#[trigger] middles[i]),
        rest.len() > 0,
        middles.len() == 0 ==> !starts_middle(rest[0]),
        middles.len() > 0 ==> !Run::Middle.accepts(rest[0]),
        middles.len() > 0 && rest[0] == SPACE ==> rest.len() > 1 && !starts_middle(rest[1]),
    ensures
        middle_list(head + (middles_bytes(middles) + rest), head.len() as int) == Some(
            (
                part_texts(middles),
                head.len() as int + middles_bytes(middles).len() + takes_a_space(middles, rest),
            ),
        ),
    decreases middles.len(),
{
    let bytes = head + (middles_bytes(middles) + rest);
    let start = head.len() as int;
    if middles.len() == 0 {
        assert(bytes[start] == rest[0]);
        assert(part_texts(middles) =~= Seq::<Seq<char>>::empty());
        assert(middle_list(bytes, start) == Some((Seq::<Seq<char>>::empty(), start)));
    } else if middles.len() == 1 {
        let first = middles[0];
        assert(is_middle(first));
        assert(middles_bytes(middles) == first);
        lemma_middle_is_read(head, first, rest);
        let end = start + first.len();
        assert(part_texts(middles) =~= seq![text(first)]);
        if rest[0] == SPACE {
            assert(bytes[end + 1] == rest[1]);
            assert(middle_list(bytes, end + 1) == Some((Seq::<Seq<char>>::empty(), end + 1)));
            assert(seq![text(first)] + Seq::<Seq<char>>::empty() =~= seq![text(first)]);
            assert(middle_list(bytes, start) == Some((seq![text(first)], end + 1)));
        } else {
            assert(middle_list(bytes, start) == Some((seq![text(first)], end)));
        }
    } else {
        let first = middles[0];
        let others = middles.drop_first();
        assert(is_middle(first));
        let after_first = seq![SPACE] + (middles_bytes(others) + rest);
        assert(middles_bytes(middles) == first + (seq![SPACE] + middles_bytes(others)));
        assert(head + (first + after_first) =~= bytes);
        lemma_middle_is_read(head, first, after_first);
        let end = start + first.len();
        assert forall|i: int| 0 <= i < others.len() implies is_middle(#[trigger] others[i]) by {
            assert(others[i] == middles[i + 1]);
        }
        let longer = head + first + seq![SPACE];
        assert(longer + (middles_bytes(others) + rest) =~= bytes);
        assert(longer.len() == end + 1);
        lemma_middles_are_read(longer, others, rest);
        let after = end + 1 + middles_bytes(others).len() + takes_a_space(others, rest);
        assert(middle_list(bytes, end + 1) == Some((part_texts(others), after)));
        assert(seq![text(first)] + part_texts(others) =~= part_texts(middles));
        assert(middle_list(bytes, start) == Some((part_texts(middles), after)));
    }
}

/// What follows the middle parameters of a line ends their list.
proof fn lemma_tail_ends_the_list(line: Line, more: Seq<u8>)
    requires
        line.well_formed(),
    ensures
        ({
            let tail = line.tail_bytes() + more;
            &&& tail.len() > 0
            &&& tail[0] != SPACE || line.pad >= 1
            &&& line.middles.len() == 0 ==> !starts_middle(tail[0])
            &&& line.middles.len() > 0 ==> !Run::Middle.accepts(tail[0])
            &&& tail[0] == SPACE ==> tail.len() > 1 && !starts_middle(tail[1])
        }),
{
    let ending = line_end_bytes(line.carriage_return);
    let after_spaces = trailing_bytes(line.trailing) + ending;
    let tail = line.tail_bytes() + more;
    assert(after_spaces.len() > 0);
    assert(!starts_middle(after_spaces[0]));
    if line.pad == 0 {
        assert(tail[0] == after_spaces[0]);
    } else if line.pad == 1 {
        assert(tail[0] == SPACE);
        assert(tail[1] == after_spaces[0]);
    } else {
        assert(tail[0] == SPACE);
        assert(tail[1] == SPACE);
    }
}

/// What follows the command is read as it stands: the spaces, the middle
/// parameters and the rest of the line.
#[verifier::rlimit(20)]
proof fn lemma_parameters_are_read(
    head: Seq<u8>,
    line: Line,
    more: Seq<u8>,
    prefix: Option<Seq<char>>,
    command: Seq<char>,
)
    requires
        line.well_formed(),
    ensures
        ({
            let list = middles_bytes(line.middles);
            let bytes = head + (spaces(line.gap) + (list + (line.tail_bytes() + more)));
            let next = head.len() as int + line.gap;
            &&& run_end(bytes, head.len() as int, Run::Spaces) == next
            &&& next < bytes.len()
            &&& middle_list(bytes, next) matches Some(found)
            &&& found.0 == part_texts(line.middles)
            &&& frame_tail(bytes, prefix, command, found.0, found.1) == (Framing::Complete {
                message: RawMessageView { prefix, command, parameters: line.parameters() },
                consumed: bytes.len() - more.len(),
            })
        }),
{
    let list = middles_bytes(line.middles);
    let tail = line.tail_bytes() + more;
    let after_gap = list + tail;
    let bytes = head + (spaces(line.gap) + after_gap);
    let next = head.len() as int + line.gap;
    lemma_tail_ends_the_list(line, more);
    assert(after_gap[0] != SPACE) by {
        if line.middles.len() > 0 {
            assert(is_middle(line.middles[0]));
            lemma_middles_bytes_start(line.middles);
            assert(after_gap[0] == line.middles[0][0]);
        } else {
            assert(list.len() == 0);
            assert(after_gap[0] == tail[0]);
        }
    }
    assert(run_end(bytes, head.len() as int, Run::Spaces) == next) by {
        lemma_run_over(head, spaces(line.gap), after_gap, Run::Spaces);
    }
    let before_list = head + spaces(line.gap);
    let skipped = takes_a_space(line.middles, tail);
    let after = next + list.len() + skipped;
    assert(middle_list(bytes, next) == Some((part_texts(line.middles), after))) by {
        assert(before_list + (list + tail) =~= bytes);
        lemma_middles_are_read(before_list, line.middles, tail);
    }
    let before_tail = before_list + list;
    assert(frame_tail(bytes, prefix, command, part_texts(line.middles), after) == (
        Framing::Complete {
            message: RawMessageView { prefix, command, parameters: line.parameters() },
            consumed: bytes.len() - more.len(),
        }
    )) by {
        assert(before_tail + (line.tail_bytes() + more) =~= bytes);
        assert(before_tail.len() == next + list.len());
        lemma_tail_is_read(
            before_tail,
            line,
            skipped as nat,
            more,
            prefix,
            command,
            part_texts(line.middles),
        );
    }
}

/// The line from its command on is read as it stands.
#[verifier::rlimit(20)]
proof fn lemma_command_is_read(
    head: Seq<u8>,
    line: Line,
    more: Seq<u8>,
    prefix: Option<Seq<char>>,
)
    requires
        line.well_formed(),
    ensures
        frame_command(head + (line.command_bytes() + more), prefix, head.len() as int) == (
            Framing::Complete {
                message: RawMessageView {
                    prefix,
                    command: text(line.command),
                    parameters: line.parameters(),
                },
                consumed: head.len() as int + line.command_bytes().len(),
            }
        ),
{
    let bytes = head + (line.command_bytes() + more);
    let start = head.len() as int;
    let end = start + line.command.len();
    let after_gap = middles_bytes(line.middles) + (line.tail_bytes() + more);
    let after_command = spaces(line.gap) + after_gap;
    assert(head + (line.command + after_command) =~= bytes);
    assert(run_end(bytes, start, Run::Command) == end) by {
        assert(after_command[0] == SPACE);
        lemma_run_over(head, line.command, after_command, Run::Command);
    }
    assert(bytes.subrange(start, end) =~= line.command);
    assert((head + line.command) + after_command =~= bytes);
    lemma_parameters_are_read(head + line.command, line, more, prefix, text(line.command));
}

/// Every line of the grammar, whatever follows it, is cut off whole and
/// split into its own parts.
pub proof fn lemma_line_is_framed(line: Line, more: Seq<u8>)
    requires
        line.well_formed(),
    ensures
        frame(line.bytes() + more) == (Framing::Complete {
            message: line.message(),
            consumed: line.bytes().len() as int,
        }),
{
    let bytes = line.bytes() + more;
    match line.prefix {
        Some(source) => {
            let after_source = seq![SPACE] + (line.command_bytes() + more);
            assert(seq![COLON] + (source + after_source) =~= bytes);
            lemma_run_over(seq![COLON], source, after_source, Run::Prefix);
            let space = 1 + source.len() as int;
            assert(run_end(bytes, 1, Run::Prefix) == space);
            assert(bytes.subrange(1, space) =~= source);
            assert(prefix_bytes(line.prefix) + (line.command_bytes() + more) =~= bytes);
            lemma_command_is_read(prefix_bytes(line.prefix), line, more, Some(text(source)));
        },
        None => {
            assert(Seq::<u8>::empty() + (line.command_bytes() + more) =~= bytes);
            assert(bytes[0] == line.command[0]);
            assert(Run::Command.accepts(line.command[0]));
            lemma_command_is_read(Seq::empty(), line, more, None);
        },
    }
}

/// The bytes of a run make up a part of its kind.
proof fn lemma_run_is_part(bytes: Seq<u8>, from: int, kind: Run)
    requires
        0 <= from <= bytes.len(),
    ensures
        all_in(bytes.subrange(from, run_end(bytes, from, kind)), kind),
{
    lemma_run_end(bytes, from, kind);
    let part = bytes.subrange(from, run_end(bytes, from, kind));
    assert forall|i: int| 0 <= i < part.len() implies kind.accepts(#[trigger] part[i]) by {
        assert(part[i] == bytes[from + i]);
    }
}

/// A run of spaces is so many spaces.
proof fn lemma_run_of_spaces(bytes: Seq<u8>, from: int, to: int)
    requires
        0 <= from <= to <= bytes.len(),
        forall|i: int| from <= i < to ==> bytes[i] == SPACE,
    ensures
        bytes.subrange(from, to) == spaces((to - from) as nat),
{
    assert(bytes.subrange(from, to) =~= spaces((to - from) as nat));
}

/// The middle parameters that the framer reads at `pos` stand there one
/// after the other, single spaces between them.
proof fn lemma_middle_parts(bytes: Seq<u8>, pos: int) -> (parts: Seq<Seq<u8>>)
    requires
        middle_list(bytes, pos) is Some,
    ensures
        forall|i: int| 0 <= i < parts.len() ==> is_middle(#[trigger] parts[i]),
        middle_list(bytes, pos).unwrap().0 == part_texts(parts),
        ({
            let stop = pos + middles_bytes(parts).len();
            let after = middle_list(bytes, pos).unwrap().1;
            &&& 0 <= pos <= stop <= after <= stop + 1
            &&& after < bytes.len()
            &&& bytes.subrange(pos, stop) == middles_bytes(parts)
            &&& !starts_middle(bytes[after])
            &&& parts.len() == 0 ==> after == stop
            &&& parts.len() > 0 ==> !Run::Middle.accepts(bytes[stop])
            &&& after == stop + 1 ==> bytes[stop] == SPACE
        }),
    decreases bytes.len() - pos,
{
    if !starts_middle(bytes[pos]) {
        let parts = Seq::<Seq<u8>>::empty();
        assert(part_texts(parts) =~= Seq::<Seq<char>>::empty());
        assert(bytes.subrange(pos, pos) =~= middles_bytes(parts));
        parts
    } else {
        let end = run_end(bytes, pos + 1, Run::Middle);
        lemma_run_end(bytes, pos + 1, Run::Middle);
        let first = bytes.subrange(pos, end);
        assert(is_middle(first)) by {
            assert(first[0] == bytes[pos]);
            assert forall|i: int| 0 <= i < first.len() implies Run::Middle.accepts(
                #[trigger] first[i],
            ) by {
                assert(first[i] == bytes[pos + i]);
            }
        }
        let others = if bytes[end] == SPACE {
            lemma_middle_parts(bytes, end + 1)
        } else {
            Seq::<Seq<u8>>::empty()
        };
        let parts = seq![first] + others;
        assert(parts[0] == first);
        assert(parts.drop_first() =~= others);
        assert forall|i: int| 0 <= i < parts.len() implies is_middle(#[trigger] parts[i]) by {
            if i > 0 {
                assert(parts[i] == others[i - 1]);
            }
        }
        assert(part_texts(parts) =~= seq![text(first)] + part_texts(others));
        if others.len() == 0 {
            assert(part_texts(others) =~= Seq::<Seq<char>>::empty());
            assert(middles_bytes(parts) == first);
        } else {
            let stop = end + 1 + middles_bytes(others).len();
            assert(bytes.subrange(end + 1, stop) == middles_bytes(others));
            assert(bytes.subrange(pos, stop) =~= first + (seq![SPACE] + middles_bytes(others)));
        }
        parts
    }
}

/// What the framer reads after the middle parameters stands there as the
/// grammar has it: so many spaces, the trailing parameter if a colon
/// announces one, and the line end.
proof fn lemma_tail_parts(
    bytes: Seq<u8>,
    stop: int,
    after: int,
    prefix: Option<Seq<char>>,
    command: Seq<char>,
    middles: Seq<Seq<char>>,
) -> (tail: (nat, Option<Seq<u8>>, bool))
    requires
        0 <= stop <= after <= stop + 1,
        after < bytes.len(),
        after == stop + 1 ==> bytes[stop] == SPACE,
        frame_tail(bytes, prefix, command, middles, after) is Complete,
    ensures
        ({
            let (pad, trailing, carriage_return) = tail;
            let framed = frame_tail(bytes, prefix, command, middles, after);
            &&& stop + pad < framed->consumed <= bytes.len()
            &&& bytes.subrange(stop, framed->consumed) == spaces(pad) + (trailing_bytes(trailing)
                + line_end_bytes(carriage_return))
            &&& trailing matches Some(last) ==> all_in(last, Run::Trailing)
            &&& framed->message == (RawMessageView {
                prefix,
                command,
                parameters: with_trailing(middles, trailing),
            })
            &&& (pad == 0) == (bytes[stop] != SPACE)
            &&& trailing is Some ==> bytes[stop + pad] == COLON
        }),
{
    let consumed = frame_tail(bytes, prefix, command, middles, after)->consumed;
    let colon = run_end(bytes, after, Run::Spaces);
    lemma_run_end(bytes, after, Run::Spaces);
    lemma_run_of_spaces(bytes, stop, colon);
    let pad = (colon - stop) as nat;
    let at = if bytes[colon] == COLON {
        run_end(bytes, colon + 1, Run::Trailing)
    } else {
        colon
    };
    let trailing = if bytes[colon] == COLON {
        Some(bytes.subrange(colon + 1, at))
    } else {
        None
    };
    if bytes[colon] == COLON {
        lemma_run_end(bytes, colon + 1, Run::Trailing);
        lemma_run_is_part(bytes, colon + 1, Run::Trailing);
    }
    assert(bytes.subrange(colon, at) =~= trailing_bytes(trailing));
    let carriage_return = bytes[at] == CR;
    assert(bytes.subrange(at, consumed) =~= line_end_bytes(carriage_return));
    assert(bytes.subrange(stop, consumed) =~= bytes.subrange(stop, colon) + (bytes.subrange(
        colon,
        at,
    ) + bytes.subrange(at, consumed)));
    (pad, trailing, carriage_return)
}

/// What the framer reads from the command on stands there as the grammar
/// has it.
proof fn lemma_command_parts(bytes: Seq<u8>, prefix: Option<Seq<char>>, start: int) -> (line: Line)
    requires
        0 <= start <= bytes.len(),
        frame_command(bytes, prefix, start) is Complete,
    ensures
        line.prefix is None,
        line.well_formed(),
        start < frame_command(bytes, prefix, start)->consumed <= bytes.len(),
        line.command_bytes() == bytes.subrange(
            start,
            frame_command(bytes, prefix, start)->consumed,
        ),
        frame_command(bytes, prefix, start)->message == (RawMessageView {
            prefix,
            command: text(line.command),
            parameters: line.parameters(),
        }),
{
    let consumed = frame_command(bytes, prefix, start)->consumed;
    let end = run_end(bytes, start, Run::Command);
    lemma_run_end(bytes, start, Run::Command);
    lemma_run_is_part(bytes, start, Run::Command);
    let command = bytes.subrange(start, end);

    let next = run_end(bytes, end, Run::Spaces);
    lemma_run_end(bytes, end, Run::Spaces);
    lemma_run_of_spaces(bytes, end, next);

    let middles = lemma_middle_parts(bytes, next);
    let stop = next + middles_bytes(middles).len();
    let after = middle_list(bytes, next).unwrap().1;
    let (pad, trailing, carriage_return) = lemma_tail_parts(
        bytes,
        stop,
        after,
        prefix,
        text(command),
        part_texts(middles),
    );
    let line = Line {
        prefix: None,
        command,
        gap: (next - end) as nat,
        middles,
        pad,
        trailing,
        carriage_return,
    };
    assert(line.tail_bytes() == bytes.subrange(stop, consumed));
    assert(bytes.subrange(start, consumed) =~= bytes.subrange(start, end) + (bytes.subrange(
        end,
        next,
    ) + (bytes.subrange(next, stop) + bytes.subrange(stop, consumed))));
    line
}

/// Whatever the framer cuts off is a line of the grammar: its bytes are
/// the parts of a well-formed line put together, and what the framer hands
/// on are those parts.
pub proof fn lemma_framed_is_line(bytes: Seq<u8>) -> (line: Line)
    requires
        frame(bytes) is Complete,
    ensures
        line.well_formed(),
        line.bytes() == bytes.take(frame(bytes)->consumed),
        line.message() == frame(bytes)->message,
{
    let consumed = frame(bytes)->consumed;
    if bytes[0] == COLON {
        let space = run_end(bytes, 1, Run::Prefix);
        lemma_run_end(bytes, 1, Run::Prefix);
        lemma_run_is_part(bytes, 1, Run::Prefix);
        let source = bytes.subrange(1, space);
        let rest = lemma_command_parts(bytes, Some(text(source)), space + 1);
        let line = Line { prefix: Some(source), ..rest };
        assert(bytes.subrange(0, space + 1) =~= prefix_bytes(line.prefix));
        assert(line.command_bytes() == rest.command_bytes());
        assert(bytes.take(consumed) =~= bytes.subrange(0, space + 1) + bytes.subrange(
            space + 1,
            consumed,
        ));
        line
    } else {
        let line = lemma_command_parts(bytes, None, 0);
        assert(bytes.take(consumed) =~= prefix_bytes(line.prefix) + bytes.subrange(0, consumed));
        line
    }
}

} // verus!
