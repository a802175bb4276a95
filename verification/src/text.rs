//! Text as bytes: cutting string slices at byte offsets, comparing them, and
//! the facts about UTF-8 that make those cuts sound.

use vstd::prelude::*;
use vstd::string::*;
use vstd::utf8::*;

verus! {

/// The characters that a run of bytes stands for.
pub open spec fn text(bytes: Seq<u8>) -> Seq<char> {
    decode_utf8(bytes)
}

/// The text of each slice in a list.
pub open spec fn texts(parts: Seq<&str>) -> Seq<Seq<char>> {
    Seq::new(parts.len(), |i: int| parts[i]@)
}

/// The text of each string in a list.
pub open spec fn strings(list: Seq<String>) -> Seq<Seq<char>> {
    Seq::new(list.len(), |i: int| list[i]@)
}

/// The text of a slice that may be absent.
pub open spec fn optional_text(part: Option<&str>) -> Option<Seq<char>> {
    match part {
        Some(p) => Some(p@),
        None => None,
    }
}

/// The text of a string that may be absent.
pub open spec fn optional_string(value: Option<String>) -> Option<Seq<char>> {
    match value {
        Some(s) => Some(s@),
        None => None,
    }
}

/// A position right at, or right after, an ASCII byte never falls inside
/// the encoding of a character.
proof fn lemma_ascii_is_boundary(bytes: Seq<u8>, i: int)
    requires
        valid_utf8(bytes),
        0 <= i < bytes.len(),
        bytes[i] < 0x80,
    ensures
        is_char_boundary(bytes, i),
        is_char_boundary(bytes, i + 1),
    decreases bytes.len(),
{
    let width = length_of_first_scalar(bytes);
    if i < width {
        assert(i == 0 && width == 1);
        reveal_with_fuel(is_char_boundary, 2);
        is_char_boundary_start_end_of_seq(pop_first_scalar(bytes));
    } else {
        lemma_ascii_is_boundary(pop_first_scalar(bytes), i - width);
    }
}

/// Encoding distributes over concatenation.
pub proof fn lemma_encode_concat(a: Seq<char>, b: Seq<char>)
    ensures
        encode_utf8(a + b) == encode_utf8(a) + encode_utf8(b),
    decreases a.len(),
{
    if a.len() == 0 {
        assert(a + b =~= b);
        assert(encode_utf8(a) + encode_utf8(b) =~= encode_utf8(b));
    } else {
        assert((a + b).drop_first() =~= a.drop_first() + b);
        assert((a + b)[0] == a[0]);
        lemma_encode_concat(a.drop_first(), b);
        assert(encode_utf8(a + b) =~= encode_utf8(a) + encode_utf8(b));
    }
}

/// Two strings with the same bytes hold the same characters.
proof fn lemma_same_bytes_same_text(a: Seq<char>, b: Seq<char>)
    requires
        encode_utf8(a) == encode_utf8(b),
    ensures
        a == b,
{
    encode_utf8_decode_utf8(a);
    encode_utf8_decode_utf8(b);
}

/// Whether `at` is an offset at which text can be cut without looking at
/// more than the neighbouring bytes: an end of the bytes, or a place right
/// before or right after an ASCII byte.
pub open spec fn cut_point(bytes: Seq<u8>, at: int) -> bool {
    &&& 0 <= at <= bytes.len()
    &&& (at == 0 || at == bytes.len() || bytes[at] < 0x80 || bytes[at - 1] < 0x80)
}

/// A cut point of well-formed text lies between two characters.
proof fn lemma_cut_point_is_boundary(bytes: Seq<u8>, at: int)
    requires
        valid_utf8(bytes),
        cut_point(bytes, at),
    ensures
        is_char_boundary(bytes, at),
{
    if at == 0 || at == bytes.len() {
        is_char_boundary_start_end_of_seq(bytes);
    } else if bytes[at] < 0x80 {
        lemma_ascii_is_boundary(bytes, at);
    } else {
        lemma_ascii_is_boundary(bytes, at - 1);
    }
}

/// The part of `s` between two byte offsets that are cut points.
pub(crate) fn slice<'a>(s: &'a str, from: usize, to: usize) -> (part: &'a str)
    requires
        from <= to,
        cut_point(s.spec_bytes(), from as int),
        cut_point(s.spec_bytes(), to as int),
    ensures
        part.spec_bytes() == s.spec_bytes().subrange(from as int, to as int),
        part@ == text(s.spec_bytes().subrange(from as int, to as int)),
{
    let ghost bytes = s.spec_bytes();
    proof {
        encode_utf8_valid_utf8(s@);
        lemma_cut_point_is_boundary(bytes, from as int);
        lemma_cut_point_is_boundary(bytes, to as int);
    }
    let (head, _) = s.split_at(to);
    proof {
        let h = head.spec_bytes();
        assert(h =~= bytes.subrange(0, to as int));
        encode_utf8_valid_utf8(head@);
        if from < to {
            is_char_boundary_iff_not_is_continuation_byte(bytes, from as int);
            is_char_boundary_iff_not_is_continuation_byte(h, from as int);
        } else {
            is_char_boundary_start_end_of_seq(h);
        }
    }
    let (_, part) = head.split_at(from);
    proof {
        assert(part.spec_bytes() =~= bytes.subrange(from as int, to as int));
        encode_utf8_decode_utf8(part@);
    }
    part
}

/// Whether two string slices hold the same text.
pub fn str_eq(a: &str, b: &str) -> (same: bool)
    ensures
        same == (a@ == b@),
{
    let x = a.as_bytes();
    let y = b.as_bytes();
    if x.len() != y.len() {
        return false;
    }
    let mut i: usize = 0;
    while i < x.len()
        invariant
            i <= x.len(),
            x.len() == y.len(),
            x@ == a.spec_bytes(),
            y@ == b.spec_bytes(),
            forall|k: int| 0 <= k < i ==> x@[k] == y@[k],
        decreases x.len() - i,
    {
        if x[i] != y[i] {
            return false;
        }
        i += 1;
    }
    proof {
        assert(x@ =~= y@);
        lemma_same_bytes_same_text(a@, b@);
    }
    true
}

} // verus!
