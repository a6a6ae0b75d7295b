//! The wire frame: a tagged protocol value and its byte-level codec.
//!
//! A frame is either a leaf (`Simple`, `Error`, `Int`, `Bulk`, `Null`) or an
//! `Array` of frames.  On the wire each frame opens with one type byte;
//! line-delimited payloads end with CRLF, bulk payloads are length-prefixed.
//!
//! `encode` renders a frame as bytes; `check` decides whether a whole frame
//! sits at a cursor without building it; `parse` builds the frame.  The
//! contracts of `parse` and `check` quantify over every representable frame:
//! whenever a buffer carries the encoding of a frame, parsing returns exactly
//! that frame (the round-trip law), and a buffer cut anywhere inside an
//! encoding is reported as incomplete, never as an error.

use crate::digits::{all_digits, dec_digits, dec_value, lemma_dec_digits, parse_digits,
    push_decimal};
use vstd::prelude::*;
use vstd::utf8::{decode_utf8, encode_utf8, valid_utf8};

verus! {

broadcast use vstd::std_specs::vec::axiom_vec_index_decreases,
    vstd::seq::axiom_seq_index_decreases, vstd::seq::axiom_seq_subrange_decreases,
    vstd::slice::axiom_spec_len;

/// Mathematical model of a frame: the view of `Frame`.
pub enum FrameV {
    Simple(Seq<char>),
    Error(Seq<char>),
    Int(u64),
    Bulk(Seq<u8>),
    Null,
    Array(Seq<FrameV>),
}

/// One complete unit of the wire protocol.
///
/// Only `Array` may contain nested frames; every other variant is a leaf.
#[derive(Debug)]
pub enum Frame {
    Simple(String),
    Error(String),
    Int(u64),
    Bulk(Vec<u8>),
    Null,
    Array(Vec<Frame>),
}

/// Errors of the codec.
#[derive(Debug)]
pub enum Error {
    /// Not enough data is available to parse a message: wait for more bytes.
    InComplete,
    /// Invalid message encoding: fatal for the connection.
    Other(String),
}

pub open spec fn frame_view(f: Frame) -> FrameV
    decreases f,
{
    match f {
        Frame::Simple(s) => FrameV::Simple(s@),
        Frame::Error(s) => FrameV::Error(s@),
        Frame::Int(u) => FrameV::Int(u),
        Frame::Bulk(b) => FrameV::Bulk(b@),
        Frame::Null => FrameV::Null,
        Frame::Array(v) => FrameV::Array(
            Seq::new(
                v@.len(),
                |i: int| if 0 <= i < v@.len() { frame_view(v[i]) } else { FrameV::Null },
            ),
        ),
    }
}

impl View for Frame {
    type V = FrameV;

    open spec fn view(&self) -> FrameV {
        frame_view(*self)
    }
}

/// The element sequence of an array frame (empty for any other variant).
pub open spec fn array_els(f: FrameV) -> Seq<FrameV> {
    match f {
        FrameV::Array(els) => els,
        _ => Seq::empty(),
    }
}

/// A line-delimited payload can carry neither CR nor LF: the wire format
/// has no way to hold them.
pub open spec fn line_ok(s: Seq<char>) -> bool {
    forall|i: int| 0 <= i < s.len() ==> s[i] != '\r' && s[i] != '\n'
}

/// Frames that the wire format can represent.
pub open spec fn wf_frame(f: FrameV) -> bool
    decreases f,
{
    match f {
        FrameV::Simple(s) => line_ok(s),
        FrameV::Error(s) => line_ok(s),
        FrameV::Int(_) => true,
        FrameV::Bulk(_) => true,
        FrameV::Null => true,
        FrameV::Array(els) => forall|i: int| 0 <= i < els.len() ==> wf_frame(#[trigger] els[i]),
    }
}

pub open spec fn crlf() -> Seq<u8> {
    seq![13u8, 10u8]
}

/// The wire encoding of a frame.
pub open spec fn encode_spec(f: FrameV) -> Seq<u8>
    decreases f,
{
    match f {
        FrameV::Simple(s) => seq![43u8] + encode_utf8(s) + crlf(),
        FrameV::Error(s) => seq![45u8] + encode_utf8(s) + crlf(),
        FrameV::Int(u) => seq![58u8] + dec_digits(u as nat) + crlf(),
        FrameV::Bulk(p) => seq![36u8] + dec_digits(p.len()) + crlf() + p + crlf(),
        FrameV::Null => seq![36u8, 45u8, 49u8, 13u8, 10u8],
        FrameV::Array(els) => seq![42u8] + dec_digits(els.len()) + crlf() + encode_all(els),
    }
}

/// The concatenated encodings of a sequence of frames.
pub open spec fn encode_all(els: Seq<FrameV>) -> Seq<u8>
    decreases els,
{
    if els.len() == 0 {
        Seq::empty()
    } else {
        encode_all(els.drop_last()) + encode_spec(els.last())
    }
}

/// The encoding of frame `f` lies in `b` starting at `pos`.
pub open spec fn encodes_at(b: Seq<u8>, pos: int, f: FrameV) -> bool {
    &&& 0 <= pos
    &&& pos + encode_spec(f).len() <= b.len()
    &&& b.subrange(pos, pos + encode_spec(f).len()) == encode_spec(f)
}

/// The buffer ends strictly inside the encoding of frame `f` begun at
/// `pos`.  Only frames whose whole encoding could ever fit in one in-memory
/// buffer are considered.
pub open spec fn cut_inside(b: Seq<u8>, pos: int, f: FrameV) -> bool {
    &&& 0 <= pos <= b.len()
    &&& b.len() - pos < encode_spec(f).len()
    &&& b.subrange(pos, b.len() as int) == encode_spec(f).take(b.len() - pos)
    &&& encode_spec(f).len() <= usize::MAX
}

/// The five frame type bytes: `+ - : $ *`.
pub open spec fn is_type_byte(b: u8) -> bool {
    b == 43 || b == 45 || b == 58 || b == 36 || b == 42
}

/// No byte of `s` is CR or LF.
pub open spec fn no_cr_lf(s: Seq<u8>) -> bool {
    forall|i: int| 0 <= i < s.len() ==> s[i] != 13 && s[i] != 10
}

/// A CRLF pair sits at position `j`.
pub open spec fn crlf_at(b: Seq<u8>, j: int) -> bool {
    b[j] == 13 && b[j + 1] == 10
}

/// The position of the first CRLF pair at or after `from`.
pub open spec fn find_crlf(b: Seq<u8>, from: int) -> Option<int>
    decreases b.len() - from,
{
    if from + 2 > b.len() {
        None
    } else if b[from] == 13 && b[from + 1] == 10 {
        Some(from)
    } else {
        find_crlf(b, from + 1)
    }
}

pub proof fn lemma_find_crlf_props(b: Seq<u8>, from: int, i: int)
    requires
        find_crlf(b, from) == Some(i),
    ensures
        from <= i,
        i + 2 <= b.len(),
        b[i] == 13,
        b[i + 1] == 10,
        forall|j: int| from <= j < i ==> !#[trigger] crlf_at(b, j),
    decreases b.len() - from,
{
    if from + 2 > b.len() {
    } else if b[from] == 13 && b[from + 1] == 10 {
    } else {
        lemma_find_crlf_props(b, from + 1, i);
    }
}

pub proof fn lemma_find_crlf_at(b: Seq<u8>, from: int, i: int)
    requires
        from <= i,
        i + 2 <= b.len(),
        b[i] == 13,
        b[i + 1] == 10,
        forall|j: int| from <= j < i ==> !#[trigger] crlf_at(b, j),
    ensures
        find_crlf(b, from) == Some(i),
    decreases i - from,
{
    if from < i {
        assert(!crlf_at(b, from));
        lemma_find_crlf_at(b, from + 1, i);
        assert(find_crlf(b, from) == find_crlf(b, from + 1));
    } else {
        assert(find_crlf(b, from) == Some(from));
    }
}

pub proof fn lemma_find_crlf_none(b: Seq<u8>, from: int)
    requires
        forall|j: int| from <= j && j + 2 <= b.len() ==> !#[trigger] crlf_at(b, j),
    ensures
        find_crlf(b, from) is None,
    decreases b.len() - from,
{
    if from + 2 <= b.len() {
        assert(!crlf_at(b, from));
        lemma_find_crlf_none(b, from + 1);
    }
}

/// A line without CR or LF encodes to UTF-8 bytes without CR or LF.
pub proof fn lemma_utf8_line(s: Seq<char>)
    requires
        line_ok(s),
    ensures
        no_cr_lf(encode_utf8(s)),
    decreases s.len(),
{
    broadcast use vstd::utf8::char_is_scalar;

    if s.len() == 0 {
    } else {
        let c = s[0] as u32;
        let head = vstd::utf8::encode_scalar(c);
        assert(line_ok(s.drop_first()));
        lemma_utf8_line(s.drop_first());
        assert(no_cr_lf(head)) by {
            if vstd::utf8::has_width_1_encoding(c) {
                assert(c < 0x80 ==> (c & 0x7F) == c) by (bit_vector);
                if (c & 0x7F) as u8 == 13 {
                    vstd::utf8::char_u32_cast(s[0], c);
                    assert(('\r' as u32) == 13);
                    vstd::utf8::char_u32_cast('\r', 13);
                    assert(false);
                }
                if (c & 0x7F) as u8 == 10 {
                    vstd::utf8::char_u32_cast(s[0], c);
                    assert(('\n' as u32) == 10);
                    vstd::utf8::char_u32_cast('\n', 10);
                    assert(false);
                }
            } else {
                lemma_high_bits(((c >> 6) & 0x1F) as u8);
                lemma_high_bits(((c >> 12) & 0x0F) as u8);
                lemma_high_bits(((c >> 18) & 0x7) as u8);
                lemma_high_bits((c & 0x3F) as u8);
                lemma_high_bits(((c >> 6) & 0x3F) as u8);
                lemma_high_bits(((c >> 12) & 0x3F) as u8);
            }
        }
        assert(encode_utf8(s) == head + encode_utf8(s.drop_first()));
        assert forall|i: int| 0 <= i < encode_utf8(s).len() implies encode_utf8(s)[i] != 13
            && encode_utf8(s)[i] != 10 by {
            if i < head.len() {
                assert(encode_utf8(s)[i] == head[i]);
            } else {
                assert(encode_utf8(s)[i] == encode_utf8(s.drop_first())[i - head.len()]);
            }
        }
    }
}

proof fn lemma_high_bits(y: u8)
    ensures
        (0x80u8 | y) != 13,
        (0x80u8 | y) != 10,
        (0xC0u8 | y) != 13,
        (0xC0u8 | y) != 10,
        (0xE0u8 | y) != 13,
        (0xE0u8 | y) != 10,
        (0xF0u8 | y) != 13,
        (0xF0u8 | y) != 10,
{
    assert((0x80u8 | y) >= 0x80 && (0xC0u8 | y) >= 0x80 && (0xE0u8 | y) >= 0x80 && (0xF0u8 | y)
        >= 0x80) by (bit_vector);
}

/// Digit strings carry neither CR nor LF.
pub proof fn lemma_digits_no_cr_lf(s: Seq<u8>)
    requires
        all_digits(s),
    ensures
        no_cr_lf(s),
{
}

/// Splitting a sequence of frames splits its encoding.
pub proof fn lemma_encode_all_split(els: Seq<FrameV>, i: int)
    requires
        0 <= i <= els.len(),
    ensures
        encode_all(els) == encode_all(els.take(i)) + encode_all(els.skip(i)),
    decreases els.len(),
{
    if i == els.len() {
        assert(els.take(i) =~= els);
        assert(els.skip(i) =~= Seq::empty());
        assert(encode_all(els) =~= encode_all(els.take(i)) + encode_all(els.skip(i)));
    } else {
        let front = els.drop_last();
        lemma_encode_all_split(front, i);
        assert(els.take(i) =~= front.take(i));
        assert(els.skip(i).drop_last() =~= front.skip(i));
        assert(els.skip(i).last() == els.last());
        assert(els.skip(i).len() > 0);
        assert(encode_all(els.skip(i)) == encode_all(front.skip(i)) + encode_spec(els.last()));
        assert(encode_all(els) =~= encode_all(els.take(i)) + encode_all(els.skip(i)));
    }
}

/// The encoding of the frames from `i` on opens with the encoding of frame `i`.
pub proof fn lemma_encode_all_head(els: Seq<FrameV>, i: int)
    requires
        0 <= i < els.len(),
    ensures
        encode_all(els.skip(i)) == encode_spec(els[i]) + encode_all(els.skip(i + 1)),
{
    let tail = els.skip(i);
    lemma_encode_all_split(tail, 1);
    assert(tail.take(1) =~= seq![els[i]]);
    assert(tail.skip(1) =~= els.skip(i + 1));
    assert(seq![els[i]].drop_last() =~= Seq::<FrameV>::empty());
    assert(seq![els[i]].last() == els[i]);
    assert(encode_all(Seq::<FrameV>::empty()) == Seq::<u8>::empty());
    assert(encode_all(seq![els[i]]) == encode_all(seq![els[i]].drop_last()) + encode_spec(
        seq![els[i]].last(),
    ));
    assert(encode_all(seq![els[i]]) =~= encode_spec(els[i]));
}

/// Relies on `String::from_utf8`: it succeeds exactly on valid UTF-8 input
/// and returns its decoding.
#[verifier::external_body]
pub(crate) fn string_from_utf8(bytes: Vec<u8>) -> (r: Option<String>)
    ensures
        r is Some <==> valid_utf8(bytes@),
        r matches Some(s) ==> s@ == decode_utf8(bytes@),
{
    String::from_utf8(bytes).ok()
}

fn protocol_error() -> (e: Error)
    ensures
        e is Other,
{
    Error::Other(String::from_str("protocol error; invalid frame format"))
}

pub fn peek_u8(src: &[u8], pos: usize) -> (r: Result<u8, Error>)
    ensures
        r matches Ok(b) ==> pos < src@.len() && b == src@[pos as int],
        r matches Err(e) ==> pos >= src@.len() && e is InComplete,
{
    if pos < src.len() {
        Ok(src[pos])
    } else {
        Err(Error::InComplete)
    }
}

pub fn get_u8(src: &[u8], pos: &mut usize) -> (r: Result<u8, Error>)
    ensures
        r matches Ok(b) ==> *old(pos) < src@.len() && b == src@[*old(pos) as int] && *final(pos)
            == *old(pos) + 1,
        r matches Err(e) ==> *old(pos) >= src@.len() && e is InComplete && *final(pos) == *old(
            pos,
        ),
{
    if *pos < src.len() {
        let b = src[*pos];
        *pos = *pos + 1;
        Ok(b)
    } else {
        Err(Error::InComplete)
    }
}

pub fn skip(src: &[u8], pos: &mut usize, n: usize) -> (r: Result<(), Error>)
    requires
        *old(pos) <= src@.len(),
    ensures
        r matches Ok(u) ==> *old(pos) + n <= src@.len() && *final(pos) == *old(pos) + n,
        r matches Err(e) ==> *old(pos) + n > src@.len() && e is InComplete && *final(pos) == *old(
            pos,
        ),
{
    if src.len() - *pos >= n {
        *pos = *pos + n;
        Ok(())
    } else {
        Err(Error::InComplete)
    }
}

/// Finds the line begun at the cursor: returns its bounds `(start, end)`
/// where `src[end]` starts the terminating CRLF, and advances the cursor
/// past the CRLF.
pub fn get_line(src: &[u8], pos: &mut usize) -> (r: Result<(usize, usize), Error>)
    requires
        *old(pos) <= src@.len(),
    ensures
        r matches Ok(se) ==> ({
            &&& se.0 == *old(pos)
            &&& se.0 <= se.1
            &&& se.1 + 2 <= src@.len()
            &&& find_crlf(src@, *old(pos) as int) == Some(se.1 as int)
            &&& *final(pos) == se.1 + 2
        }),
        r matches Err(e) ==> e is InComplete && find_crlf(src@, *old(pos) as int) is None
            && *final(pos) == *old(pos),
{
    let start = *pos;
    let mut i = start;
    loop
        invariant
            start == *old(pos),
            *pos == start,
            start <= i,
            i <= src@.len(),
            find_crlf(src@, start as int) == find_crlf(src@, i as int),
        decreases src@.len() - i,
    {
        if src.len() - i < 2 {
            proof {
                assert(find_crlf(src@, i as int) is None);
            }
            return Err(Error::InComplete);
        }
        if src[i] == 13 && src[i + 1] == 10 {
            proof {
                assert(find_crlf(src@, i as int) == Some(i as int));
            }
            *pos = i + 2;
            return Ok((start, i));
        }
        proof {
            assert(find_crlf(src@, i as int) == find_crlf(src@, i + 1 as int));
        }
        i = i + 1;
    }
}

/// Copies `src[start..end]` into a fresh vector.
pub fn copy_range(src: &[u8], start: usize, end: usize) -> (r: Vec<u8>)
    requires
        start <= end <= src@.len(),
    ensures
        r@ == src@.subrange(start as int, end as int),
{
    let mut out: Vec<u8> = Vec::new();
    let mut i = start;
    while i < end
        invariant
            start <= i <= end <= src@.len(),
            out@ =~= src@.subrange(start as int, i as int),
        decreases end - i,
    {
        out.push(src[i]);
        i = i + 1;
    }
    proof {
        assert(out@ =~= src@.subrange(start as int, end as int));
    }
    out
}

/// Appends all of `b` to `out`.
pub fn append_bytes(out: &mut Vec<u8>, b: &[u8])
    ensures
        final(out)@ == old(out)@ + b@,
{
    let mut i: usize = 0;
    while i < b.len()
        invariant
            i <= b@.len(),
            out@ =~= old(out)@ + b@.take(i as int),
        decreases b@.len() - i,
    {
        out.push(b[i]);
        i = i + 1;
    }
    proof {
        assert(out@ =~= old(out)@ + b@);
    }
}

/// Reads a CRLF-terminated decimal at the cursor.
pub fn get_decimal(src: &[u8], pos: &mut usize) -> (r: Result<u64, Error>)
    requires
        *old(pos) <= src@.len(),
    ensures
        r matches Ok(n) ==> ({
            &&& find_crlf(src@, *old(pos) as int) matches Some(e) && ({
                let line = src@.subrange(*old(pos) as int, e);
                &&& all_digits(line)
                &&& line.len() >= 1
                &&& dec_value(line) == n as int
                &&& *final(pos) == e + 2
                &&& *old(pos) + 3 <= *final(pos)
                &&& *final(pos) <= src@.len()
            })
        }),
        r matches Err(err) ==> ({
            ||| (err is InComplete && find_crlf(src@, *old(pos) as int) is None && *final(pos)
                == *old(pos))
            ||| (err is Other && (find_crlf(src@, *old(pos) as int) matches Some(e) && !({
                let line = src@.subrange(*old(pos) as int, e);
                all_digits(line) && line.len() >= 1 && dec_value(line) <= u64::MAX as int
            })))
        }),
{
    let (start, end) = match get_line(src, pos) {
        Ok(se) => se,
        Err(e) => {
            return Err(e);
        }
    };
    match parse_digits(src, start, end) {
        Some(v) => {
            proof {
                assert(src@.subrange(start as int, end as int).len() >= 1);
            }
            Ok(v)
        }
        None => Err(protocol_error()),
    }
}

impl Frame {
    /// Returns an empty array frame.
    pub fn array() -> (f: Frame)
        ensures
            f@ == FrameV::Array(Seq::<FrameV>::empty()),
    {
        let f = Frame::Array(Vec::new());
        proof {
            assert(array_els(f@) =~= Seq::<FrameV>::empty());
        }
        f
    }

    /// Appends a bulk frame to an array frame.
    pub fn push_bulk(&mut self, bytes: Vec<u8>)
        requires
            old(self)@ is Array,
        ensures
            final(self)@ == FrameV::Array(array_els(old(self)@).push(FrameV::Bulk(bytes@))),
    {
        let ghost target = array_els(old(self)@).push(FrameV::Bulk(bytes@));
        match self {
            Frame::Array(v) => {
                v.push(Frame::Bulk(bytes));
            }
            _ => {
                proof {
                    assert(false);
                }
            }
        }
        proof {
            reveal_with_fuel(frame_view, 2);
            assert(array_els(self@) =~= target);
        }
    }

    /// Appends an integer frame to an array frame.
    pub fn push_int(&mut self, value: u64)
        requires
            old(self)@ is Array,
        ensures
            final(self)@ == FrameV::Array(array_els(old(self)@).push(FrameV::Int(value))),
    {
        let ghost target = array_els(old(self)@).push(FrameV::Int(value));
        match self {
            Frame::Array(v) => {
                v.push(Frame::Int(value));
            }
            _ => {
                proof {
                    assert(false);
                }
            }
        }
        proof {
            reveal_with_fuel(frame_view, 2);
            assert(array_els(self@) =~= target);
        }
    }

    /// Renders the frame in its wire encoding.
    pub fn encode(&self) -> (r: Vec<u8>)
        ensures
            r@ == encode_spec(self@),
    {
        let mut out: Vec<u8> = Vec::new();
        encode_into(self, &mut out);
        proof {
            assert(out@ =~= encode_spec(self@));
        }
        out
    }
}

/// Appends the wire encoding of `f` to `out`.
#[verifier::rlimit(50)]
pub fn encode_into(f: &Frame, out: &mut Vec<u8>)
    ensures
        final(out)@ == old(out)@ + encode_spec(f@),
    decreases frame_view(*f),
{
    match f {
        Frame::Simple(s) => {
            out.push(43);
            append_bytes(out, s.as_str().as_bytes());
            out.push(13);
            out.push(10);
            proof {
                assert(out@ =~= old(out)@ + encode_spec(f@));
            }
        }
        Frame::Error(s) => {
            out.push(45);
            append_bytes(out, s.as_str().as_bytes());
            out.push(13);
            out.push(10);
            proof {
                assert(out@ =~= old(out)@ + encode_spec(f@));
            }
        }
        Frame::Int(u) => {
            out.push(58);
            push_decimal(out, *u);
            out.push(13);
            out.push(10);
            proof {
                assert(out@ =~= old(out)@ + encode_spec(f@));
            }
        }
        Frame::Bulk(p) => {
            out.push(36);
            push_decimal(out, p.len() as u64);
            out.push(13);
            out.push(10);
            append_bytes(out, p.as_slice());
            out.push(13);
            out.push(10);
            proof {
                assert(out@ =~= old(out)@ + encode_spec(f@));
            }
        }
        Frame::Null => {
            out.push(36);
            out.push(45);
            out.push(49);
            out.push(13);
            out.push(10);
            proof {
                assert(out@ =~= old(out)@ + encode_spec(f@));
            }
        }
        Frame::Array(v) => {
            let ghost els = array_els(f@);
            out.push(42);
            push_decimal(out, v.len() as u64);
            out.push(13);
            out.push(10);
            let ghost header_done = out@;
            let mut i: usize = 0;
            while i < v.len()
                invariant
                    f@ == FrameV::Array(els),
                    i <= v@.len(),
                    els.len() == v@.len(),
                    forall|k: int| 0 <= k < v@.len() ==> els[k] == frame_view(v[k]),
                    out@ == header_done + encode_all(els.take(i as int)),
                decreases v@.len() - i,
            {
                proof {
                    assert(els.take(i + 1).drop_last() =~= els.take(i as int));
                    assert(els.take(i + 1).last() == els[i as int]);
                    assert(decreases_to!(f@ => f@->Array_0));
                    assert(f@->Array_0 == els);
                    assert(decreases_to!(els => els[i as int]));
                    assert(frame_view(v[i as int]) == els[i as int]);
                }
                encode_into(&v[i], out);
                i = i + 1;
            }
            proof {
                assert(els.take(v@.len() as int) =~= els);
                assert(out@ =~= old(out)@ + encode_spec(f@));
            }
        }
    }
}

/// Every frame of `els` is representable.
pub open spec fn all_wf(els: Seq<FrameV>) -> bool {
    forall|i: int| 0 <= i < els.len() ==> wf_frame(#[trigger] els[i])
}

/// The concatenated encodings of `els` lie in `b` starting at `pos`.
pub open spec fn encodes_all_at(b: Seq<u8>, pos: int, els: Seq<FrameV>) -> bool {
    &&& 0 <= pos
    &&& pos + encode_all(els).len() <= b.len()
    &&& b.subrange(pos, pos + encode_all(els).len()) == encode_all(els)
}

/// The buffer ends strictly inside the concatenated encodings of `els`.
pub open spec fn cut_all_at(b: Seq<u8>, pos: int, els: Seq<FrameV>) -> bool {
    &&& 0 <= pos <= b.len()
    &&& b.len() - pos < encode_all(els).len()
    &&& b.subrange(pos, b.len() as int) == encode_all(els).take(b.len() - pos)
    &&& encode_all(els).len() <= usize::MAX
}

/// A slice never holds more than `usize::MAX` bytes.
pub proof fn lemma_src_len(src: &[u8])
    ensures
        src@.len() <= usize::MAX as int,
        usize::MAX as int <= u64::MAX as int,
{
    vstd::slice::axiom_spec_len(src);
}

/// Pointwise reading of a complete encoding.
pub proof fn lemma_at_bytes(b: Seq<u8>, pos: int, e: Seq<u8>)
    requires
        0 <= pos,
        pos + e.len() <= b.len(),
        b.subrange(pos, pos + e.len()) == e,
    ensures
        forall|i: int| 0 <= i < e.len() ==> b[pos + i] == #[trigger] e[i],
{
    assert forall|i: int| 0 <= i < e.len() implies b[pos + i] == #[trigger] e[i] by {
        assert(b.subrange(pos, pos + e.len())[i] == b[pos + i]);
    }
}

/// Pointwise reading of a truncated encoding that fills the buffer's tail.
pub proof fn lemma_cut_bytes(b: Seq<u8>, pos: int, e: Seq<u8>)
    requires
        0 <= pos <= b.len(),
        b.len() - pos < e.len(),
        b.subrange(pos, b.len() as int) == e.take(b.len() - pos),
    ensures
        forall|i: int| 0 <= i < b.len() - pos ==> b[pos + i] == #[trigger] e[i],
{
    assert forall|i: int| 0 <= i < b.len() - pos implies b[pos + i] == #[trigger] e[i] by {
        assert(b.subrange(pos, b.len() as int)[i] == b[pos + i]);
        assert(e.take(b.len() - pos)[i] == e[i]);
    }
}

/// Two equal-length runs of pointwise-equal bytes are equal subranges.
pub proof fn lemma_seg_at(b: Seq<u8>, pos: int, e: Seq<u8>, off: int, m: int)
    requires
        0 <= off,
        0 <= m,
        off + m <= e.len(),
        0 <= pos,
        pos + off + m <= b.len(),
        forall|i: int| 0 <= i < e.len() ==> b[pos + i] == #[trigger] e[i],
    ensures
        b.subrange(pos + off, pos + off + m) == e.subrange(off, off + m),
{
    assert(b.subrange(pos + off, pos + off + m) =~= e.subrange(off, off + m));
}

/// A frame whose wire form is a line: the layout of `tag body CRLF tail`.
/// When at least `body + CRLF` is available the terminator is found right
/// after the body; when the buffer ends before that, no terminator exists.
pub proof fn lemma_line_region(b: Seq<u8>, pos: int, e: Seq<u8>, body: Seq<u8>, avail: int)
    requires
        3 + body.len() <= e.len(),
        forall|k: int| 0 <= k < body.len() ==> e[1 + k] == #[trigger] body[k],
        e[1 + body.len() as int] == 13,
        e[2 + body.len() as int] == 10,
        no_cr_lf(body),
        0 <= pos,
        0 <= avail <= e.len(),
        pos + avail <= b.len(),
        forall|i: int| 0 <= i < avail ==> b[pos + i] == #[trigger] e[i],
    ensures
        avail >= 3 + body.len() ==> find_crlf(b, pos + 1) == Some(pos + 1 + body.len() as int),
        avail < 3 + body.len() && b.len() == pos + avail && avail >= 1 ==> find_crlf(
            b,
            pos + 1,
        ) is None,
{
    let bl = body.len() as int;
    if avail >= 3 + bl {
        assert forall|j: int| pos + 1 <= j < pos + 1 + bl implies !crlf_at(b, j) by {
            assert(b[j] == e[j - pos]);
            assert(e[j - pos] == body[j - pos - 1]);
        }
        assert(b[pos + 1 + bl] == e[1 + bl]);
        assert(b[pos + 2 + bl] == e[2 + bl]);
        lemma_find_crlf_at(b, pos + 1, pos + 1 + bl);
    }
    if avail < 3 + bl && b.len() == pos + avail && avail >= 1 {
        assert forall|j: int| pos + 1 <= j && j + 2 <= b.len() implies !crlf_at(b, j) by {
            assert(b[j] == e[j - pos]);
            if j - pos <= bl {
                assert(e[j - pos] == body[j - pos - 1]);
            } else {
                assert(j - pos == 1 + bl);
                assert(b[j + 1] == e[j - pos + 1]);
            }
        }
        lemma_find_crlf_none(b, pos + 1);
    }
}

/// Layout of `tag body CRLF`.
pub proof fn lemma_layout3(tag: u8, body: Seq<u8>)
    ensures
        ({
            let e = seq![tag] + body + crlf();
            &&& e.len() == 3 + body.len()
            &&& e[0] == tag
            &&& forall|k: int| 0 <= k < body.len() ==> e[1 + k] == #[trigger] body[k]
            &&& e[1 + body.len() as int] == 13
            &&& e[2 + body.len() as int] == 10
        }),
{
    let e = seq![tag] + body + crlf();
    assert(e[0] == tag);
    assert forall|k: int| 0 <= k < body.len() implies e[1 + k] == #[trigger] body[k] by {
        assert((seq![tag] + body)[1 + k] == body[k]);
    }
    assert(e[1 + body.len() as int] == crlf()[0]);
    assert(e[2 + body.len() as int] == crlf()[1]);
}

/// Layout of `tag body CRLF tail`.
pub proof fn lemma_layout_tail(tag: u8, body: Seq<u8>, tail: Seq<u8>)
    ensures
        ({
            let e = seq![tag] + body + crlf() + tail;
            &&& e.len() == 3 + body.len() + tail.len()
            &&& e[0] == tag
            &&& forall|k: int| 0 <= k < body.len() ==> e[1 + k] == #[trigger] body[k]
            &&& e[1 + body.len() as int] == 13
            &&& e[2 + body.len() as int] == 10
            &&& forall|k: int|
                0 <= k < tail.len() ==> e[3 + body.len() + k] == #[trigger] tail[k]
        }),
{
    let h = seq![tag] + body + crlf();
    let e = h + tail;
    lemma_layout3(tag, body);
    assert(e.len() == 3 + body.len() + tail.len());
    assert(e[0] == h[0]);
    assert forall|k: int| 0 <= k < body.len() implies e[1 + k] == #[trigger] body[k] by {
        assert(e[1 + k] == h[1 + k]);
    }
    assert(e[1 + body.len() as int] == h[1 + body.len() as int]);
    assert(e[2 + body.len() as int] == h[2 + body.len() as int]);
    assert forall|k: int| 0 <= k < tail.len() implies e[3 + body.len() + k]
        == #[trigger] tail[k] by {
        assert(e[h.len() + k] == tail[k]);
    }
}

/// The first byte of an encoding names the variant, and no encoding is
/// shorter than three bytes.
pub proof fn lemma_first_byte(fv: FrameV)
    ensures
        encode_spec(fv).len() >= 3,
        fv is Simple ==> encode_spec(fv)[0] == 43,
        fv is Error ==> encode_spec(fv)[0] == 45,
        fv is Int ==> encode_spec(fv)[0] == 58,
        fv is Bulk ==> encode_spec(fv)[0] == 36,
        fv is Null ==> encode_spec(fv)[0] == 36,
        fv is Array ==> encode_spec(fv)[0] == 42,
{
    match fv {
        FrameV::Simple(sv) => {
            lemma_layout3(43, encode_utf8(sv));
        }
        FrameV::Error(sv) => {
            lemma_layout3(45, encode_utf8(sv));
        }
        FrameV::Int(u) => {
            lemma_layout3(58, dec_digits(u as nat));
            lemma_dec_digits(u as nat);
        }
        FrameV::Bulk(pl) => {
            lemma_layout_tail(36, dec_digits(pl.len()), pl + crlf());
            lemma_dec_digits(pl.len());
        }
        FrameV::Null => {
            assert(encode_spec(fv)[0] == 36);
        }
        FrameV::Array(els) => {
            lemma_layout_tail(42, dec_digits(els.len()), encode_all(els));
            lemma_dec_digits(els.len());
        }
    }
}

/// Each encoding takes at least three bytes per frame.
pub proof fn lemma_encode_all_lower(els: Seq<FrameV>)
    ensures
        encode_all(els).len() >= 3 * els.len(),
    decreases els,
{
    if els.len() > 0 {
        lemma_encode_all_lower(els.drop_last());
        lemma_first_byte(els.last());
    }
}

/// The encoding of element `i` starts where the previous encodings end.
pub proof fn lemma_take_succ(els: Seq<FrameV>, i: int)
    requires
        0 <= i < els.len(),
    ensures
        encode_all(els.take(i + 1)) == encode_all(els.take(i)) + encode_spec(els[i]),
{
    assert(els.take(i + 1).drop_last() =~= els.take(i));
    assert(els.take(i + 1).last() == els[i]);
    assert(els.take(i + 1).len() > 0);
}

/// Within a complete run of encodings, element `i` is completely encoded at
/// its offset.
pub proof fn lemma_at_all_child(b: Seq<u8>, pos0: int, els: Seq<FrameV>, i: int, p: int)
    requires
        encodes_all_at(b, pos0, els),
        0 <= i < els.len(),
        p == pos0 + encode_all(els.take(i)).len(),
    ensures
        encodes_at(b, p, els[i]),
{
    let ea = encode_all(els);
    let start = encode_all(els.take(i)).len() as int;
    let ei = encode_spec(els[i]);
    lemma_encode_all_split(els, i);
    lemma_encode_all_head(els, i);
    assert(ea == encode_all(els.take(i)) + (ei + encode_all(els.skip(i + 1))));
    assert(start + ei.len() <= ea.len());
    lemma_at_bytes(b, pos0, ea);
    assert forall|k: int| 0 <= k < ei.len() implies b[p + k] == #[trigger] ei[k] by {
        assert(ea[start + k] == (ei + encode_all(els.skip(i + 1)))[k]);
        assert(b[pos0 + (start + k)] == ea[start + k]);
    }
    assert(b.subrange(p, p + ei.len()) =~= ei);
}

/// Within a truncated run of encodings, element `i` is either completely
/// encoded at its offset or the buffer ends inside it.
pub proof fn lemma_cut_all_child(b: Seq<u8>, pos0: int, els: Seq<FrameV>, i: int, p: int)
    requires
        cut_all_at(b, pos0, els),
        0 <= i < els.len(),
        p == pos0 + encode_all(els.take(i)).len(),
        p <= b.len(),
    ensures
        encodes_at(b, p, els[i]) || cut_inside(b, p, els[i]),
{
    let ea = encode_all(els);
    let avail = b.len() - pos0;
    let start = encode_all(els.take(i)).len() as int;
    let ei = encode_spec(els[i]);
    lemma_encode_all_split(els, i);
    lemma_encode_all_head(els, i);
    assert(ea == encode_all(els.take(i)) + (ei + encode_all(els.skip(i + 1))));
    lemma_cut_bytes(b, pos0, ea);
    if avail >= start + ei.len() {
        assert forall|k: int| 0 <= k < ei.len() implies b[p + k] == #[trigger] ei[k] by {
            assert(ea[start + k] == (ei + encode_all(els.skip(i + 1)))[k]);
            assert(b[pos0 + (start + k)] == ea[start + k]);
        }
        assert(b.subrange(p, p + ei.len()) =~= ei);
        assert(encodes_at(b, p, els[i]));
    } else {
        assert forall|k: int| 0 <= k < b.len() - p implies b[p + k] == #[trigger] ei[k] by {
            assert(ea[start + k] == (ei + encode_all(els.skip(i + 1)))[k]);
            assert(b[pos0 + (start + k)] == ea[start + k]);
        }
        assert(b.subrange(p, b.len() as int) =~= ei.take(b.len() - p));
        assert(ei.len() <= ea.len());
        assert(cut_inside(b, p, els[i]));
    }
}

/// A complete array encoding: its count line and its body.
pub proof fn lemma_array_connect(b: Seq<u8>, pos0: int, els: Seq<FrameV>)
    requires
        encodes_at(b, pos0, FrameV::Array(els)),
    ensures
        ({
            let d = dec_digits(els.len()).len() as int;
            &&& find_crlf(b, pos0 + 1) == Some(pos0 + 1 + d)
            &&& b.subrange(pos0 + 1, pos0 + 1 + d) == dec_digits(els.len())
            &&& encodes_all_at(b, pos0 + 3 + d, els)
        }),
{
    let e = encode_spec(FrameV::Array(els));
    let digits = dec_digits(els.len());
    let ea = encode_all(els);
    let d = digits.len() as int;
    lemma_layout_tail(42, digits, ea);
    lemma_dec_digits(els.len());
    lemma_digits_no_cr_lf(digits);
    lemma_at_bytes(b, pos0, e);
    lemma_line_region(b, pos0, e, digits, e.len() as int);
    lemma_seg_at(b, pos0, e, 1, d);
    assert(e.subrange(1, 1 + d) =~= digits);
    assert forall|k: int| 0 <= k < ea.len() implies b[pos0 + 3 + d + k] == #[trigger] ea[k] by {
        assert(b[pos0 + (3 + d + k)] == e[3 + d + k]);
    }
    assert(b.subrange(pos0 + 3 + d, pos0 + 3 + d + ea.len()) =~= ea);
}

/// A truncated array encoding whose count line is complete: its body is
/// itself truncated.
pub proof fn lemma_array_connect_cut(b: Seq<u8>, pos0: int, els: Seq<FrameV>)
    requires
        cut_inside(b, pos0, FrameV::Array(els)),
        b.len() - pos0 >= 3 + dec_digits(els.len()).len(),
    ensures
        ({
            let d = dec_digits(els.len()).len() as int;
            &&& find_crlf(b, pos0 + 1) == Some(pos0 + 1 + d)
            &&& b.subrange(pos0 + 1, pos0 + 1 + d) == dec_digits(els.len())
            &&& cut_all_at(b, pos0 + 3 + d, els)
        }),
{
    let e = encode_spec(FrameV::Array(els));
    let digits = dec_digits(els.len());
    let ea = encode_all(els);
    let d = digits.len() as int;
    let avail = b.len() - pos0;
    lemma_layout_tail(42, digits, ea);
    lemma_dec_digits(els.len());
    lemma_digits_no_cr_lf(digits);
    lemma_cut_bytes(b, pos0, e);
    lemma_line_region(b, pos0, e, digits, avail);
    assert(b.subrange(pos0 + 1, pos0 + 1 + d) =~= digits);
    assert forall|k: int| 0 <= k < avail - (3 + d) implies b[pos0 + 3 + d + k]
        == #[trigger] ea[k] by {
        assert(b[pos0 + (3 + d + k)] == e[3 + d + k]);
    }
    assert(b.subrange(pos0 + 3 + d, b.len() as int) =~= ea.take(b.len() - (pos0 + 3 + d)));
}

/// A truncated array encoding cut inside the count line has no terminator.
pub proof fn lemma_array_cut_header(b: Seq<u8>, pos0: int, els: Seq<FrameV>)
    requires
        cut_inside(b, pos0, FrameV::Array(els)),
        1 <= b.len() - pos0 < 3 + dec_digits(els.len()).len(),
    ensures
        find_crlf(b, pos0 + 1) is None,
{
    let e = encode_spec(FrameV::Array(els));
    let digits = dec_digits(els.len());
    lemma_layout_tail(42, digits, encode_all(els));
    lemma_dec_digits(els.len());
    lemma_digits_no_cr_lf(digits);
    lemma_cut_bytes(b, pos0, e);
    lemma_line_region(b, pos0, e, digits, b.len() - pos0);
}

/// Scans one complete frame starting at `pos` and returns the cursor just
/// past it, without building the frame.
///
/// Wherever a representable frame is completely encoded at `pos`, the scan
/// succeeds and stops exactly at its end; wherever the buffer ends inside
/// such an encoding, the scan reports `InComplete` and never a hard error:
/// the caller may safely wait for more bytes (partial-read safety).
#[verifier::rlimit(100)]
pub fn check_rec(src: &[u8], pos: usize) -> (r: Result<usize, Error>)
    requires
        pos <= src@.len(),
    ensures
        r matches Ok(p2) ==> pos < p2 <= src@.len(),
        forall|fv: FrameV| wf_frame(fv) && encodes_at(src@, pos as int, fv) ==> (r matches Ok(p2)
            && p2 == pos + encode_spec(fv).len()),
        forall|fv: FrameV| wf_frame(fv) && cut_inside(src@, pos as int, fv) ==> (r matches Err(e)
            && e is InComplete),
        pos == src@.len() ==> (r matches Err(e) && e is InComplete),
        pos < src@.len() && !is_type_byte(src@[pos as int]) ==> (r matches Err(e) && e is Other),
    decreases src@.len() - pos, 1int,
{
    proof {
        lemma_src_len(src);
    }
    let ghost pos0 = pos as int;
    let mut p = pos;
    let b0 = match get_u8(src, &mut p) {
        Ok(b) => b,
        Err(e) => {
            proof {
                assert forall|fv: FrameV| !(wf_frame(fv) && encodes_at(src@, pos0, fv)) by {
                    if wf_frame(fv) && encodes_at(src@, pos0, fv) {
                        lemma_first_byte(fv);
                    }
                }
            }
            return Err(e);
        }
    };
    if b0 == 43 || b0 == 45 {
        // Simple string or error string: one line up to CRLF.
        match get_line(src, &mut p) {
            Ok(se) => {
                proof {
                    assert forall|fv: FrameV| wf_frame(fv) && encodes_at(src@, pos0, fv) implies p
                        == pos0 + encode_spec(fv).len() by {
                        lemma_first_byte(fv);
                        lemma_at_bytes(src@, pos0, encode_spec(fv));
                        assert(src@[pos0 + 0] == encode_spec(fv)[0]);
                        match fv {
                            FrameV::Simple(sv) => {
                                lemma_layout3(43, encode_utf8(sv));
                                lemma_utf8_line(sv);
                                lemma_line_region(src@, pos0, encode_spec(fv), encode_utf8(sv),
                                    encode_spec(fv).len() as int);
                            }
                            FrameV::Error(sv) => {
                                lemma_layout3(45, encode_utf8(sv));
                                lemma_utf8_line(sv);
                                lemma_line_region(src@, pos0, encode_spec(fv), encode_utf8(sv),
                                    encode_spec(fv).len() as int);
                            }
                            _ => {
                                assert(false);
                            }
                        }
                    }
                    assert forall|fv: FrameV| !(wf_frame(fv) && cut_inside(src@, pos0, fv)) by {
                        if wf_frame(fv) && cut_inside(src@, pos0, fv) {
                            lemma_first_byte(fv);
                            lemma_cut_bytes(src@, pos0, encode_spec(fv));
                            assert(src@[pos0 + 0] == encode_spec(fv)[0]);
                            match fv {
                                FrameV::Simple(sv) => {
                                    lemma_layout3(43, encode_utf8(sv));
                                    lemma_utf8_line(sv);
                                    lemma_line_region(src@, pos0, encode_spec(fv),
                                        encode_utf8(sv), src@.len() - pos0);
                                }
                                FrameV::Error(sv) => {
                                    lemma_layout3(45, encode_utf8(sv));
                                    lemma_utf8_line(sv);
                                    lemma_line_region(src@, pos0, encode_spec(fv),
                                        encode_utf8(sv), src@.len() - pos0);
                                }
                                _ => {}
                            }
                        }
                    }
                }
                Ok(se.1 + 2)
            }
            Err(e) => {
                proof {
                    assert forall|fv: FrameV| !(wf_frame(fv) && encodes_at(src@, pos0, fv)) by {
                        if wf_frame(fv) && encodes_at(src@, pos0, fv) {
                            lemma_first_byte(fv);
                            lemma_at_bytes(src@, pos0, encode_spec(fv));
                            assert(src@[pos0 + 0] == encode_spec(fv)[0]);
                            match fv {
                                FrameV::Simple(sv) => {
                                    lemma_layout3(43, encode_utf8(sv));
                                    lemma_utf8_line(sv);
                                    lemma_line_region(src@, pos0, encode_spec(fv),
                                        encode_utf8(sv), encode_spec(fv).len() as int);
                                }
                                FrameV::Error(sv) => {
                                    lemma_layout3(45, encode_utf8(sv));
                                    lemma_utf8_line(sv);
                                    lemma_line_region(src@, pos0, encode_spec(fv),
                                        encode_utf8(sv), encode_spec(fv).len() as int);
                                }
                                _ => {}
                            }
                        }
                    }
                }
                Err(e)
            }
        }
    } else if b0 == 58 {
        // Integer: one decimal line.
        match get_decimal(src, &mut p) {
            Ok(_) => {
                proof {
                    assert forall|fv: FrameV| wf_frame(fv) && encodes_at(src@, pos0, fv) implies p
                        == pos0 + encode_spec(fv).len() by {
                        lemma_first_byte(fv);
                        lemma_at_bytes(src@, pos0, encode_spec(fv));
                        assert(src@[pos0 + 0] == encode_spec(fv)[0]);
                        match fv {
                            FrameV::Int(u) => {
                                let digits = dec_digits(u as nat);
                                lemma_layout3(58, digits);
                                lemma_dec_digits(u as nat);
                                lemma_digits_no_cr_lf(digits);
                                lemma_line_region(src@, pos0, encode_spec(fv), digits,
                                    encode_spec(fv).len() as int);
                            }
                            _ => {
                                assert(false);
                            }
                        }
                    }
                    assert forall|fv: FrameV| !(wf_frame(fv) && cut_inside(src@, pos0, fv)) by {
                        if wf_frame(fv) && cut_inside(src@, pos0, fv) {
                            lemma_first_byte(fv);
                            lemma_cut_bytes(src@, pos0, encode_spec(fv));
                            assert(src@[pos0 + 0] == encode_spec(fv)[0]);
                            match fv {
                                FrameV::Int(u) => {
                                    let digits = dec_digits(u as nat);
                                    lemma_layout3(58, digits);
                                    lemma_dec_digits(u as nat);
                                    lemma_digits_no_cr_lf(digits);
                                    lemma_line_region(src@, pos0, encode_spec(fv), digits,
                                        src@.len() - pos0);
                                }
                                _ => {}
                            }
                        }
                    }
                }
                Ok(p)
            }
            Err(e) => {
                proof {
                    assert forall|fv: FrameV| !(wf_frame(fv) && encodes_at(src@, pos0, fv)) by {
                        if wf_frame(fv) && encodes_at(src@, pos0, fv) {
                            lemma_first_byte(fv);
                            lemma_at_bytes(src@, pos0, encode_spec(fv));
                            assert(src@[pos0 + 0] == encode_spec(fv)[0]);
                            match fv {
                                FrameV::Int(u) => {
                                    let digits = dec_digits(u as nat);
                                    lemma_layout3(58, digits);
                                    lemma_dec_digits(u as nat);
                                    lemma_digits_no_cr_lf(digits);
                                    lemma_line_region(src@, pos0, encode_spec(fv), digits,
                                        encode_spec(fv).len() as int);
                                    lemma_seg_at(src@, pos0, encode_spec(fv), 1,
                                        digits.len() as int);
                                    assert(encode_spec(fv).subrange(1, 1 + digits.len() as int)
                                        =~= digits);
                                }
                                _ => {}
                            }
                        }
                    }
                    assert forall|fv: FrameV| wf_frame(fv) && cut_inside(src@, pos0, fv) implies (
                    e is InComplete) by {
                        lemma_first_byte(fv);
                        lemma_cut_bytes(src@, pos0, encode_spec(fv));
                        assert(src@[pos0 + 0] == encode_spec(fv)[0]);
                        match fv {
                            FrameV::Int(u) => {
                                let digits = dec_digits(u as nat);
                                lemma_layout3(58, digits);
                                lemma_dec_digits(u as nat);
                                lemma_digits_no_cr_lf(digits);
                                lemma_line_region(src@, pos0, encode_spec(fv), digits,
                                    src@.len() - pos0);
                                if src@.len() - pos0 >= 3 + digits.len() {
                                    // the whole count line is present: reading it succeeds
                                    assert(src@.subrange(pos0 + 1, pos0 + 1 + digits.len())
                                        =~= digits);
                                    assert(false);
                                }
                            }
                            _ => {
                                assert(false);
                            }
                        }
                    }
                }
                Err(e)
            }
        }
    } else if b0 == 36 {
        // Bulk string or null.
        check_dollar(src, pos, p)
    } else if b0 == 42 {
        // Array: a count line, then that many frames.
        check_star(src, pos, p)
    } else {
        proof {
            assert forall|fv: FrameV| !(wf_frame(fv) && encodes_at(src@, pos0, fv)) by {
                if wf_frame(fv) && encodes_at(src@, pos0, fv) {
                    lemma_first_byte(fv);
                    lemma_at_bytes(src@, pos0, encode_spec(fv));
                    assert(src@[pos0 + 0] == encode_spec(fv)[0]);
                }
            }
            assert forall|fv: FrameV| !(wf_frame(fv) && cut_inside(src@, pos0, fv)) by {
                if wf_frame(fv) && cut_inside(src@, pos0, fv) {
                    lemma_first_byte(fv);
                    lemma_cut_bytes(src@, pos0, encode_spec(fv));
                    assert(src@[pos0 + 0] == encode_spec(fv)[0]);
                }
            }
        }
        Err(protocol_error())
    }
}

/// Scans a `$` frame (bulk string or null) whose tag byte is already read.
#[verifier::rlimit(100)]
fn check_dollar(src: &[u8], pos: usize, p: usize) -> (r: Result<usize, Error>)
    requires
        pos < src@.len(),
        p == pos + 1,
        src@[pos as int] == 36,
    ensures
        r matches Ok(p2) ==> pos < p2 <= src@.len(),
        forall|fv: FrameV| wf_frame(fv) && encodes_at(src@, pos as int, fv) ==> (r matches Ok(p2)
            && p2 == pos + encode_spec(fv).len()),
        forall|fv: FrameV| wf_frame(fv) && cut_inside(src@, pos as int, fv) ==> (r matches Err(e)
            && e is InComplete),
        pos == src@.len() ==> (r matches Err(e) && e is InComplete),
        pos < src@.len() && !is_type_byte(src@[pos as int]) ==> (r matches Err(e) && e is Other),
{
    proof {
        lemma_src_len(src);
    }
    let ghost pos0 = pos as int;
    let mut p = p;
    let b1 = match peek_u8(src, p) {
        Ok(b) => b,
        Err(e) => {
            proof {
                assert forall|fv: FrameV| !(wf_frame(fv) && encodes_at(src@, pos0, fv)) by {
                    if wf_frame(fv) && encodes_at(src@, pos0, fv) {
                        lemma_first_byte(fv);
                        lemma_at_bytes(src@, pos0, encode_spec(fv));
                        assert(src@[pos0 + 0] == encode_spec(fv)[0]);
                    }
                }
            }
            return Err(e);
        }
    };
    if b1 == 45 {
        // A null frame: the fixed five bytes `$-1 CRLF`.
        match skip(src, &mut p, 4) {
            Ok(_) => {
                proof {
                    assert forall|fv: FrameV| wf_frame(fv) && encodes_at(src@, pos0, fv) implies p
                        == pos0 + encode_spec(fv).len() by {
                        lemma_first_byte(fv);
                        lemma_at_bytes(src@, pos0, encode_spec(fv));
                        assert(src@[pos0 + 0] == encode_spec(fv)[0]);
                        assert(src@[pos0 + 1] == encode_spec(fv)[1]);
                        match fv {
                            FrameV::Bulk(pl) => {
                                lemma_layout_tail(36, dec_digits(pl.len()), pl + crlf());
                                lemma_dec_digits(pl.len());
                                assert(encode_spec(fv)[1] == dec_digits(pl.len())[0]);
                                assert(false);
                            }
                            FrameV::Null => {
                                assert(encode_spec(fv).len() == 5);
                            }
                            _ => {
                                assert(false);
                            }
                        }
                    }
                    assert forall|fv: FrameV| !(wf_frame(fv) && cut_inside(src@, pos0, fv)) by {
                        if wf_frame(fv) && cut_inside(src@, pos0, fv) {
                            lemma_first_byte(fv);
                            lemma_cut_bytes(src@, pos0, encode_spec(fv));
                            assert(src@[pos0 + 0] == encode_spec(fv)[0]);
                            assert(src@[pos0 + 1] == encode_spec(fv)[1]);
                            match fv {
                                FrameV::Bulk(pl) => {
                                    lemma_layout_tail(36, dec_digits(pl.len()), pl + crlf());
                                    lemma_dec_digits(pl.len());
                                    assert(encode_spec(fv)[1] == dec_digits(pl.len())[0]);
                                }
                                FrameV::Null => {
                                    assert(encode_spec(fv).len() == 5);
                                }
                                _ => {}
                            }
                        }
                    }
                }
                Ok(p)
            }
            Err(e) => {
                proof {
                    assert forall|fv: FrameV| !(wf_frame(fv) && encodes_at(src@, pos0, fv)) by {
                        if wf_frame(fv) && encodes_at(src@, pos0, fv) {
                            lemma_first_byte(fv);
                            lemma_at_bytes(src@, pos0, encode_spec(fv));
                            assert(src@[pos0 + 0] == encode_spec(fv)[0]);
                            assert(src@[pos0 + 1] == encode_spec(fv)[1]);
                            match fv {
                                FrameV::Bulk(pl) => {
                                    lemma_layout_tail(36, dec_digits(pl.len()), pl + crlf());
                                    lemma_dec_digits(pl.len());
                                    assert(encode_spec(fv)[1] == dec_digits(pl.len())[0]);
                                }
                                FrameV::Null => {
                                    assert(encode_spec(fv).len() == 5);
                                }
                                _ => {}
                            }
                        }
                    }
                }
                Err(e)
            }
        }
    } else {
        // A bulk string: a length line, then the payload and CRLF.
        match get_decimal(src, &mut p) {
            Err(e) => {
                proof {
                    assert forall|fv: FrameV| !(wf_frame(fv) && encodes_at(src@, pos0, fv)) by {
                        if wf_frame(fv) && encodes_at(src@, pos0, fv) {
                            lemma_first_byte(fv);
                            lemma_at_bytes(src@, pos0, encode_spec(fv));
                            assert(src@[pos0 + 0] == encode_spec(fv)[0]);
                            assert(src@[pos0 + 1] == encode_spec(fv)[1]);
                            match fv {
                                FrameV::Bulk(pl) => {
                                    let digits = dec_digits(pl.len());
                                    lemma_layout_tail(36, digits, pl + crlf());
                                    lemma_dec_digits(pl.len());
                                    lemma_digits_no_cr_lf(digits);
                                    lemma_line_region(src@, pos0, encode_spec(fv), digits,
                                        encode_spec(fv).len() as int);
                                    lemma_seg_at(src@, pos0, encode_spec(fv), 1,
                                        digits.len() as int);
                                    assert(encode_spec(fv).subrange(1, 1 + digits.len() as int)
                                        =~= digits);
                                }
                                FrameV::Null => {
                                    assert(encode_spec(fv).len() == 5);
                                    assert(encode_spec(fv)[1] == 45);
                                }
                                _ => {}
                            }
                        }
                    }
                    assert forall|fv: FrameV| wf_frame(fv) && cut_inside(src@, pos0, fv) implies (
                    e is InComplete) by {
                        lemma_first_byte(fv);
                        lemma_cut_bytes(src@, pos0, encode_spec(fv));
                        assert(src@[pos0 + 0] == encode_spec(fv)[0]);
                        assert(src@[pos0 + 1] == encode_spec(fv)[1]);
                        match fv {
                            FrameV::Bulk(pl) => {
                                let digits = dec_digits(pl.len());
                                lemma_layout_tail(36, digits, pl + crlf());
                                lemma_dec_digits(pl.len());
                                lemma_digits_no_cr_lf(digits);
                                lemma_line_region(src@, pos0, encode_spec(fv), digits,
                                    src@.len() - pos0);
                                if src@.len() - pos0 >= 3 + digits.len() {
                                    assert forall|k: int| 0 <= k < digits.len() implies src@[pos0
                                        + 1 + k] == #[trigger] digits[k] by {
                                        assert(src@[pos0 + (1 + k)] == encode_spec(fv)[1 + k]);
                                        assert(encode_spec(fv)[1 + k] == digits[k]);
                                    }
                                    assert(src@.subrange(pos0 + 1, pos0 + 1 + digits.len() as int)
                                        =~= digits);
                                    assert(false);
                                }
                            }
                            FrameV::Null => {
                                assert(encode_spec(fv).len() == 5);
                                assert(encode_spec(fv)[1] == 45);
                                assert(false);
                            }
                            _ => {
                                assert(false);
                            }
                        }
                    }
                }
                Err(e)
            }
            Ok(n) => {
                let ghost e1 = find_crlf(src@, pos0 + 1)->Some_0;
                proof {
                    lemma_find_crlf_props(src@, pos0 + 1, e1);
                }
                let rem = src.len() - p;
                match n.checked_add(2) {
                    None => {
                        proof {
                            assert forall|fv: FrameV| !(wf_frame(fv) && encodes_at(src@, pos0,
                            fv)) by {
                                if wf_frame(fv) && encodes_at(src@, pos0, fv) {
                                    lemma_first_byte(fv);
                                    lemma_at_bytes(src@, pos0, encode_spec(fv));
                                    assert(src@[pos0 + 0] == encode_spec(fv)[0]);
                                    if fv is Bulk || fv is Null {
                                        bulk_complete_facts(src@, pos0, fv, n);
                                    }
                                }
                            }
                            assert forall|fv: FrameV| !(wf_frame(fv) && cut_inside(src@, pos0,
                            fv)) by {
                                if wf_frame(fv) && cut_inside(src@, pos0, fv) {
                                    lemma_first_byte(fv);
                                    lemma_cut_bytes(src@, pos0, encode_spec(fv));
                                    assert(src@[pos0 + 0] == encode_spec(fv)[0]);
                                    if fv is Bulk || fv is Null {
                                        bulk_cut_facts(src@, pos0, fv, n, p as int);
                                    }
                                }
                            }
                        }
                        Err(protocol_error())
                    }
                    Some(n2) => {
                        if (rem as u64) < n2 {
                            proof {
                                assert forall|fv: FrameV| !(wf_frame(fv) && encodes_at(src@,
                                pos0, fv)) by {
                                    if wf_frame(fv) && encodes_at(src@, pos0, fv) {
                                        lemma_first_byte(fv);
                                        lemma_at_bytes(src@, pos0, encode_spec(fv));
                                        assert(src@[pos0 + 0] == encode_spec(fv)[0]);
                                        if fv is Bulk || fv is Null {
                                            bulk_complete_facts(src@, pos0, fv, n);
                                        }
                                    }
                                }
                            }
                            Err(Error::InComplete)
                        } else {
                            let n2u = n2 as usize;
                            p = p + n2u;
                            proof {
                                assert forall|fv: FrameV| wf_frame(fv) && encodes_at(src@, pos0,
                                fv) implies p == pos0 + encode_spec(fv).len() by {
                                    lemma_first_byte(fv);
                                    lemma_at_bytes(src@, pos0, encode_spec(fv));
                                    assert(src@[pos0 + 0] == encode_spec(fv)[0]);
                                    assert(fv is Bulk || fv is Null);
                                    bulk_complete_facts(src@, pos0, fv, n);
                                    match fv {
                                        FrameV::Bulk(pl) => {
                                            lemma_layout_tail(36, dec_digits(pl.len()),
                                                pl + crlf());
                                        }
                                        _ => {
                                            assert(false);
                                        }
                                    }
                                }
                                assert forall|fv: FrameV| !(wf_frame(fv) && cut_inside(src@,
                                pos0, fv)) by {
                                    if wf_frame(fv) && cut_inside(src@, pos0, fv) {
                                        lemma_first_byte(fv);
                                        lemma_cut_bytes(src@, pos0, encode_spec(fv));
                                        assert(src@[pos0 + 0] == encode_spec(fv)[0]);
                                        if fv is Bulk || fv is Null {
                                            bulk_cut_facts(src@, pos0, fv, n, p - n2u);
                                        }
                                        assert(false);
                                    }
                                }
                            }
                            Ok(p)
                        }
                    }
                }
            }
        }
    }
}

/// For a complete bulk encoding whose length line has been read as `n`:
/// `n` is the payload length, and the count line ends where the reader
/// found the terminator.
proof fn bulk_complete_facts(b: Seq<u8>, pos0: int, fv: FrameV, n: u64)
    requires
        wf_frame(fv),
        encodes_at(b, pos0, fv),
        b[pos0 + 1] != 45,
        fv is Bulk || fv is Null,
        find_crlf(b, pos0 + 1) is Some,
        ({
            let line = b.subrange(pos0 + 1, find_crlf(b, pos0 + 1)->Some_0);
            all_digits(line) && line.len() >= 1 && dec_value(line) == n as int
        }),
    ensures
        fv matches FrameV::Bulk(pl) && pl.len() == n as int && find_crlf(b, pos0 + 1) == Some(
            pos0 + 1 + dec_digits(pl.len()).len() as int,
        ),
{
    lemma_first_byte(fv);
    lemma_at_bytes(b, pos0, encode_spec(fv));
    assert(b[pos0 + 1] == encode_spec(fv)[1]);
    match fv {
        FrameV::Bulk(pl) => {
            let digits = dec_digits(pl.len());
            lemma_layout_tail(36, digits, pl + crlf());
            lemma_dec_digits(pl.len());
            lemma_digits_no_cr_lf(digits);
            lemma_line_region(b, pos0, encode_spec(fv), digits, encode_spec(fv).len() as int);
            lemma_seg_at(b, pos0, encode_spec(fv), 1, digits.len() as int);
            assert(encode_spec(fv).subrange(1, 1 + digits.len() as int) =~= digits);
        }
        FrameV::Null => {
            assert(encode_spec(fv).len() == 5);
            assert(encode_spec(fv)[1] == 45);
            assert(false);
        }
        _ => {
            assert(false);
        }
    }
}

/// For a truncated bulk encoding whose length line has been read as `n`:
/// `n` is the payload length and fewer than `n + 2` bytes follow the line.
proof fn bulk_cut_facts(b: Seq<u8>, pos0: int, fv: FrameV, n: u64, p: int)
    requires
        wf_frame(fv),
        cut_inside(b, pos0, fv),
        b.len() - pos0 >= 2,
        b[pos0 + 1] != 45,
        fv is Bulk || fv is Null,
        find_crlf(b, pos0 + 1) is Some,
        p == find_crlf(b, pos0 + 1)->Some_0 + 2,
        ({
            let line = b.subrange(pos0 + 1, find_crlf(b, pos0 + 1)->Some_0);
            all_digits(line) && line.len() >= 1 && dec_value(line) == n as int
        }),
    ensures
        fv matches FrameV::Bulk(pl) && pl.len() == n as int && b.len() - p < n + 2,
{
    lemma_first_byte(fv);
    lemma_cut_bytes(b, pos0, encode_spec(fv));
    assert(b[pos0 + 0] == encode_spec(fv)[0]);
    assert(b[pos0 + 1] == encode_spec(fv)[1]);
    match fv {
        FrameV::Bulk(pl) => {
            let digits = dec_digits(pl.len());
            lemma_layout_tail(36, digits, pl + crlf());
            lemma_dec_digits(pl.len());
            lemma_digits_no_cr_lf(digits);
            lemma_line_region(b, pos0, encode_spec(fv), digits, b.len() - pos0);
            if b.len() - pos0 < 3 + digits.len() {
                assert(false);
            }
            assert forall|k: int| 0 <= k < digits.len() implies b[pos0 + 1 + k]
                == #[trigger] digits[k] by {
                assert(b[pos0 + (1 + k)] == encode_spec(fv)[1 + k]);
                assert(encode_spec(fv)[1 + k] == digits[k]);
            }
            assert(b.subrange(pos0 + 1, pos0 + 1 + digits.len() as int) =~= digits);
        }
        FrameV::Null => {
            assert(encode_spec(fv).len() == 5);
            assert(encode_spec(fv)[1] == 45);
            assert(false);
        }
        _ => {
            assert(false);
        }
    }
}

/// For an array encoding at `pos0` (complete, or truncated past its count
/// line) whose count line has been read as `n`: the element count is `n`
/// and the element encodings start at `body0`.
proof fn array_header_facts(b: Seq<u8>, pos0: int, els: Seq<FrameV>, n: u64, body0: int)
    requires
        encodes_at(b, pos0, FrameV::Array(els)) || (cut_inside(b, pos0, FrameV::Array(els))
            && b.len() - pos0 >= 3 + dec_digits(els.len()).len()),
        find_crlf(b, pos0 + 1) is Some,
        body0 == find_crlf(b, pos0 + 1)->Some_0 + 2,
        dec_value(b.subrange(pos0 + 1, find_crlf(b, pos0 + 1)->Some_0)) == n as int,
    ensures
        els.len() == n as int,
        body0 == pos0 + 3 + dec_digits(els.len()).len(),
        encodes_at(b, pos0, FrameV::Array(els)) ==> encodes_all_at(b, body0, els),
        cut_inside(b, pos0, FrameV::Array(els)) && b.len() - pos0 >= 3 + dec_digits(
            els.len(),
        ).len() ==> cut_all_at(b, body0, els),
{
    lemma_dec_digits(els.len());
    if encodes_at(b, pos0, FrameV::Array(els)) {
        lemma_array_connect(b, pos0, els);
    } else {
        lemma_array_connect_cut(b, pos0, els);
    }
}

/// Scans a `*` frame (array) whose tag byte is already read.
#[verifier::rlimit(100)]
fn check_star(src: &[u8], pos: usize, p: usize) -> (r: Result<usize, Error>)
    requires
        pos < src@.len(),
        p == pos + 1,
        src@[pos as int] == 42,
    ensures
        r matches Ok(p2) ==> pos < p2 <= src@.len(),
        forall|fv: FrameV| wf_frame(fv) && encodes_at(src@, pos as int, fv) ==> (r matches Ok(p2)
            && p2 == pos + encode_spec(fv).len()),
        forall|fv: FrameV| wf_frame(fv) && cut_inside(src@, pos as int, fv) ==> (r matches Err(e)
            && e is InComplete),
        pos == src@.len() ==> (r matches Err(e) && e is InComplete),
        pos < src@.len() && !is_type_byte(src@[pos as int]) ==> (r matches Err(e) && e is Other),
    decreases src@.len() - pos, 0int,
{
    proof {
        lemma_src_len(src);
    }
    let ghost pos0 = pos as int;
    let mut p = p;
    match get_decimal(src, &mut p) {
        Err(e) => {
            proof {
                assert forall|fv: FrameV| !(wf_frame(fv) && encodes_at(src@, pos0, fv)) by {
                    if wf_frame(fv) && encodes_at(src@, pos0, fv) {
                        lemma_first_byte(fv);
                        lemma_at_bytes(src@, pos0, encode_spec(fv));
                        assert(src@[pos0 + 0] == encode_spec(fv)[0]);
                        match fv {
                            FrameV::Array(els) => {
                                lemma_array_connect(src@, pos0, els);
                                lemma_dec_digits(els.len());
                                lemma_encode_all_lower(els);
                                let d = dec_digits(els.len()).len() as int;
                                assert(find_crlf(src@, pos0 + 1) == Some(pos0 + 1 + d));
                                assert(dec_value(src@.subrange(pos0 + 1, pos0 + 1 + d))
                                    == els.len());
                                assert(3 * els.len() <= src@.len());
                                assert(els.len() <= u64::MAX as int);
                                assert(false);
                            }
                            _ => {}
                        }
                    }
                }
                assert forall|fv: FrameV| wf_frame(fv) && cut_inside(src@, pos0, fv) implies (
                e is InComplete) by {
                    lemma_first_byte(fv);
                    lemma_cut_bytes(src@, pos0, encode_spec(fv));
                    assert(src@[pos0 + 0] == encode_spec(fv)[0]);
                    match fv {
                        FrameV::Array(els) => {
                            lemma_dec_digits(els.len());
                            if src@.len() - pos0 < 3 + dec_digits(els.len()).len() {
                                lemma_array_cut_header(src@, pos0, els);
                            } else {
                                lemma_array_connect_cut(src@, pos0, els);
                                lemma_encode_all_lower(els);
                                assert(false);
                            }
                        }
                        _ => {
                            assert(false);
                        }
                    }
                }
            }
            Err(e)
        }
        Ok(n) => {
            let ghost body0 = p as int;
            let ghost e1 = find_crlf(src@, pos0 + 1)->Some_0;
            let ghost hline = src@.subrange(pos0 + 1, e1);
            proof {
                lemma_find_crlf_props(src@, pos0 + 1, e1);
                assert forall|els: Seq<FrameV>| true implies #[trigger] encode_all(
                    els.take(0),
                ).len() == 0 by {
                    assert(els.take(0) =~= Seq::<FrameV>::empty());
                }
            }
            let mut i: u64 = 0;
            while i < n
                invariant
                    pos0 == pos as int,
                    src@.len() <= usize::MAX as int,
                    usize::MAX as int <= u64::MAX as int,
                    pos0 + 1 <= src@.len(),
                    src@[pos0] == 42,
                    find_crlf(src@, pos0 + 1) == Some(e1),
                    e1 + 2 == body0,
                    pos0 + 2 <= e1,
                    hline == src@.subrange(pos0 + 1, e1),
                    all_digits(hline),
                    hline.len() >= 1,
                    dec_value(hline) == n as int,
                    body0 <= p as int,
                    p <= src@.len(),
                    i <= n,
                    forall|els: Seq<FrameV>| (all_wf(els) && els.len() == n as int
                        && encodes_all_at(src@, body0, els)) ==> p as int == body0
                        + encode_all(#[trigger] els.take(i as int)).len(),
                    forall|els: Seq<FrameV>| (all_wf(els) && els.len() == n as int && cut_all_at(
                        src@,
                        body0,
                        els,
                    )) ==> p as int == body0 + encode_all(#[trigger] els.take(i as int)).len(),
                decreases n - i,
            {
                let ghost oldp = p as int;
                match check_rec(src, p) {
                    Ok(p2) => {
                        proof {
                            assert forall|els: Seq<FrameV>| (all_wf(els) && els.len() == n as int
                                && encodes_all_at(src@, body0, els)) implies p2 as int == body0
                                + encode_all(#[trigger] els.take(i + 1 as int)).len() by {
                                assert(oldp == body0 + encode_all(els.take(i as int)).len());
                                lemma_at_all_child(src@, body0, els, i as int, oldp);
                                assert(wf_frame(els[i as int]));
                                lemma_take_succ(els, i as int);
                            }
                            assert forall|els: Seq<FrameV>| (all_wf(els) && els.len() == n as int
                                && cut_all_at(src@, body0, els)) implies p2 as int == body0
                                + encode_all(#[trigger] els.take(i + 1 as int)).len() by {
                                assert(oldp == body0 + encode_all(els.take(i as int)).len());
                                lemma_cut_all_child(src@, body0, els, i as int, oldp);
                                assert(wf_frame(els[i as int]));
                                lemma_take_succ(els, i as int);
                            }
                        }
                        p = p2;
                    }
                    Err(e) => {
                        proof {
                            assert forall|fv: FrameV| !(wf_frame(fv) && encodes_at(src@, pos0,
                            fv)) by {
                                if wf_frame(fv) && encodes_at(src@, pos0, fv) {
                                    lemma_first_byte(fv);
                                    lemma_at_bytes(src@, pos0, encode_spec(fv));
                                    assert(src@[pos0 + 0] == encode_spec(fv)[0]);
                                    match fv {
                                        FrameV::Array(els) => {
                                            lemma_array_connect(src@, pos0, els);
                                            array_header_facts(src@, pos0, els, n, body0);
                                            assert(all_wf(els));
                                            assert(oldp == body0 + encode_all(
                                                els.take(i as int),
                                            ).len());
                                            lemma_at_all_child(src@, body0, els, i as int, oldp);
                                            assert(wf_frame(els[i as int]));
                                        }
                                        _ => {}
                                    }
                                }
                            }
                            assert forall|fv: FrameV| wf_frame(fv) && cut_inside(src@, pos0, fv)
                                implies (e is InComplete) by {
                                lemma_first_byte(fv);
                                lemma_cut_bytes(src@, pos0, encode_spec(fv));
                                assert(src@[pos0 + 0] == encode_spec(fv)[0]);
                                match fv {
                                    FrameV::Array(els) => {
                                        lemma_dec_digits(els.len());
                                        if src@.len() - pos0 < 3 + dec_digits(els.len()).len() {
                                            lemma_array_cut_header(src@, pos0, els);
                                            assert(false);
                                        } else {
                                            array_header_facts(src@, pos0, els, n, body0);
                                            assert(all_wf(els));
                                            assert(oldp == body0 + encode_all(
                                                els.take(i as int),
                                            ).len());
                                            lemma_cut_all_child(src@, body0, els, i as int,
                                                oldp);
                                            assert(wf_frame(els[i as int]));
                                        }
                                    }
                                    _ => {
                                        assert(false);
                                    }
                                }
                            }
                        }
                        return Err(e);
                    }
                }
                i = i + 1;
            }
            proof {
                assert forall|fv: FrameV| wf_frame(fv) && encodes_at(src@, pos0, fv) implies p
                    == pos0 + encode_spec(fv).len() by {
                    lemma_first_byte(fv);
                    lemma_at_bytes(src@, pos0, encode_spec(fv));
                    assert(src@[pos0 + 0] == encode_spec(fv)[0]);
                    match fv {
                        FrameV::Array(els) => {
                            lemma_array_connect(src@, pos0, els);
                            array_header_facts(src@, pos0, els, n, body0);
                            assert(p as int == body0 + encode_all(els.take(n as int)).len());
                            assert(els.take(n as int) =~= els);
                            lemma_layout_tail(42, dec_digits(els.len()), encode_all(els));
                        }
                        _ => {
                            assert(false);
                        }
                    }
                }
                assert forall|fv: FrameV| !(wf_frame(fv) && cut_inside(src@, pos0, fv)) by {
                    if wf_frame(fv) && cut_inside(src@, pos0, fv) {
                        lemma_first_byte(fv);
                        lemma_cut_bytes(src@, pos0, encode_spec(fv));
                        assert(src@[pos0 + 0] == encode_spec(fv)[0]);
                        match fv {
                            FrameV::Array(els) => {
                                lemma_dec_digits(els.len());
                                if src@.len() - pos0 < 3 + dec_digits(els.len()).len() {
                                    lemma_array_cut_header(src@, pos0, els);
                                } else {
                                    array_header_facts(src@, pos0, els, n, body0);
                                    assert(p as int == body0 + encode_all(
                                        els.take(n as int),
                                    ).len());
                                    assert(els.take(n as int) =~= els);
                                    lemma_layout_tail(42, dec_digits(els.len()),
                                        encode_all(els));
                                }
                            }
                            _ => {}
                        }
                    }
                }
            }
            Ok(p)
        }
    }
}

/// Parses one complete frame starting at `pos`, returning the frame and the
/// cursor just past it.
///
/// The round-trip law is this contract: wherever a representable frame is
/// completely encoded at `pos`, parsing returns exactly that frame; wherever
/// the buffer ends inside such an encoding, parsing reports `InComplete`.
#[verifier::rlimit(100)]
pub fn parse_rec(src: &[u8], pos: usize) -> (r: Result<(Frame, usize), Error>)
    requires
        pos <= src@.len(),
    ensures
        r matches Ok(fp) ==> pos < fp.1 <= src@.len(),
        forall|fv: FrameV| wf_frame(fv) && encodes_at(src@, pos as int, fv) ==> (r matches Ok(fp)
            && fp.0@ == fv && fp.1 == pos + encode_spec(fv).len()),
        forall|fv: FrameV| wf_frame(fv) && cut_inside(src@, pos as int, fv) ==> (r matches Err(e)
            && e is InComplete),
        pos == src@.len() ==> (r matches Err(e) && e is InComplete),
        pos < src@.len() && !is_type_byte(src@[pos as int]) ==> (r matches Err(e) && e is Other),
    decreases src@.len() - pos, 1int,
{
    proof {
        lemma_src_len(src);
    }
    let ghost pos0 = pos as int;
    let mut p = pos;
    let b0 = match get_u8(src, &mut p) {
        Ok(b) => b,
        Err(e) => {
            proof {
                assert forall|fv: FrameV| !(wf_frame(fv) && encodes_at(src@, pos0, fv)) by {
                    if wf_frame(fv) && encodes_at(src@, pos0, fv) {
                        lemma_first_byte(fv);
                    }
                }
            }
            return Err(e);
        }
    };
    if b0 == 43 || b0 == 45 {
        let (s0, e0) = match get_line(src, &mut p) {
            Ok(se) => se,
            Err(e) => {
                proof {
                    assert forall|fv: FrameV| !(wf_frame(fv) && encodes_at(src@, pos0, fv)) by {
                        if wf_frame(fv) && encodes_at(src@, pos0, fv) {
                            line_complete_facts(src@, pos0, fv);
                        }
                    }
                }
                return Err(e);
            }
        };
        let line = copy_range(src, s0, e0);
        match string_from_utf8(line) {
            Some(st) => {
                let f = if b0 == 43 {
                    Frame::Simple(st)
                } else {
                    Frame::Error(st)
                };
                proof {
                    broadcast use vstd::utf8::encode_utf8_decode_utf8;

                    assert forall|fv: FrameV| wf_frame(fv) && encodes_at(src@, pos0, fv) implies
                        f@ == fv && p == pos0 + encode_spec(fv).len() by {
                        line_complete_facts(src@, pos0, fv);
                        match fv {
                            FrameV::Simple(sv) => {
                                assert(src@.subrange(pos0 + 1, pos0 + 1 + encode_utf8(
                                    sv,
                                ).len() as int) =~= encode_utf8(sv)) by {
                                    lemma_at_bytes(src@, pos0, encode_spec(fv));
                                    lemma_layout3(43, encode_utf8(sv));
                                }
                                assert(st@ == decode_utf8(encode_utf8(sv)));
                            }
                            FrameV::Error(sv) => {
                                assert(src@.subrange(pos0 + 1, pos0 + 1 + encode_utf8(
                                    sv,
                                ).len() as int) =~= encode_utf8(sv)) by {
                                    lemma_at_bytes(src@, pos0, encode_spec(fv));
                                    lemma_layout3(45, encode_utf8(sv));
                                }
                                assert(st@ == decode_utf8(encode_utf8(sv)));
                            }
                            _ => {
                                assert(false);
                            }
                        }
                    }
                    assert forall|fv: FrameV| !(wf_frame(fv) && cut_inside(src@, pos0, fv)) by {
                        if wf_frame(fv) && cut_inside(src@, pos0, fv) {
                            line_cut_facts(src@, pos0, fv);
                        }
                    }
                }
                Ok((f, p))
            }
            None => {
                proof {
                    broadcast use vstd::utf8::encode_utf8_valid_utf8;

                    assert forall|fv: FrameV| !(wf_frame(fv) && encodes_at(src@, pos0, fv)) by {
                        if wf_frame(fv) && encodes_at(src@, pos0, fv) {
                            line_complete_facts(src@, pos0, fv);
                            match fv {
                                FrameV::Simple(sv) => {
                                    assert(src@.subrange(pos0 + 1, pos0 + 1 + encode_utf8(
                                        sv,
                                    ).len() as int) =~= encode_utf8(sv)) by {
                                        lemma_at_bytes(src@, pos0, encode_spec(fv));
                                        lemma_layout3(43, encode_utf8(sv));
                                    }
                                }
                                FrameV::Error(sv) => {
                                    assert(src@.subrange(pos0 + 1, pos0 + 1 + encode_utf8(
                                        sv,
                                    ).len() as int) =~= encode_utf8(sv)) by {
                                        lemma_at_bytes(src@, pos0, encode_spec(fv));
                                        lemma_layout3(45, encode_utf8(sv));
                                    }
                                }
                                _ => {}
                            }
                        }
                    }
                    assert forall|fv: FrameV| !(wf_frame(fv) && cut_inside(src@, pos0, fv)) by {
                        if wf_frame(fv) && cut_inside(src@, pos0, fv) {
                            line_cut_facts(src@, pos0, fv);
                        }
                    }
                }
                Err(protocol_error())
            }
        }
    } else if b0 == 58 {
        match get_decimal(src, &mut p) {
            Ok(n) => {
                proof {
                    assert forall|fv: FrameV| wf_frame(fv) && encodes_at(src@, pos0, fv) implies
                        Frame::Int(n)@ == fv && p == pos0 + encode_spec(fv).len() by {
                        int_complete_facts(src@, pos0, fv, n);
                    }
                    assert forall|fv: FrameV| !(wf_frame(fv) && cut_inside(src@, pos0, fv)) by {
                        if wf_frame(fv) && cut_inside(src@, pos0, fv) {
                            line_cut_facts(src@, pos0, fv);
                        }
                    }
                }
                Ok((Frame::Int(n), p))
            }
            Err(e) => {
                proof {
                    assert forall|fv: FrameV| !(wf_frame(fv) && encodes_at(src@, pos0, fv)) by {
                        if wf_frame(fv) && encodes_at(src@, pos0, fv) {
                            int_err_facts(src@, pos0, fv);
                        }
                    }
                    assert forall|fv: FrameV| wf_frame(fv) && cut_inside(src@, pos0, fv) implies (
                    e is InComplete) by {
                        line_cut_err_facts(src@, pos0, fv);
                    }
                }
                Err(e)
            }
        }
    } else if b0 == 36 {
        parse_dollar(src, pos, p)
    } else if b0 == 42 {
        parse_star(src, pos, p)
    } else {
        proof {
            assert forall|fv: FrameV| !(wf_frame(fv) && encodes_at(src@, pos0, fv)) by {
                if wf_frame(fv) && encodes_at(src@, pos0, fv) {
                    lemma_first_byte(fv);
                    lemma_at_bytes(src@, pos0, encode_spec(fv));
                    assert(src@[pos0 + 0] == encode_spec(fv)[0]);
                }
            }
            assert forall|fv: FrameV| !(wf_frame(fv) && cut_inside(src@, pos0, fv)) by {
                if wf_frame(fv) && cut_inside(src@, pos0, fv) {
                    lemma_first_byte(fv);
                    lemma_cut_bytes(src@, pos0, encode_spec(fv));
                    assert(src@[pos0 + 0] == encode_spec(fv)[0]);
                }
            }
        }
        Err(protocol_error())
    }
}

/// A complete line frame at `pos0` has its terminator right after its body.
proof fn line_complete_facts(b: Seq<u8>, pos0: int, fv: FrameV)
    requires
        wf_frame(fv),
        encodes_at(b, pos0, fv),
        b[pos0] == 43 || b[pos0] == 45,
    ensures
        fv is Simple || fv is Error,
        fv matches FrameV::Simple(sv) ==> find_crlf(b, pos0 + 1) == Some(pos0 + 1 + encode_utf8(
            sv,
        ).len() as int) && encode_spec(fv).len() == 3 + encode_utf8(sv).len() && (b[pos0] == 43),
        fv matches FrameV::Error(sv) ==> find_crlf(b, pos0 + 1) == Some(pos0 + 1 + encode_utf8(
            sv,
        ).len() as int) && encode_spec(fv).len() == 3 + encode_utf8(sv).len() && (b[pos0] == 45),
{
    lemma_first_byte(fv);
    lemma_at_bytes(b, pos0, encode_spec(fv));
    assert(b[pos0 + 0] == encode_spec(fv)[0]);
    match fv {
        FrameV::Simple(sv) => {
            lemma_layout3(43, encode_utf8(sv));
            lemma_utf8_line(sv);
            lemma_line_region(b, pos0, encode_spec(fv), encode_utf8(sv),
                encode_spec(fv).len() as int);
        }
        FrameV::Error(sv) => {
            lemma_layout3(45, encode_utf8(sv));
            lemma_utf8_line(sv);
            lemma_line_region(b, pos0, encode_spec(fv), encode_utf8(sv),
                encode_spec(fv).len() as int);
        }
        _ => {
            assert(false);
        }
    }
}

/// A cut line frame has no terminator in the remaining bytes.
proof fn line_cut_facts(b: Seq<u8>, pos0: int, fv: FrameV)
    requires
        wf_frame(fv),
        cut_inside(b, pos0, fv),
        pos0 < b.len(),
        b[pos0] == 43 || b[pos0] == 45 || b[pos0] == 58,
    ensures
        find_crlf(b, pos0 + 1) is None,
{
    lemma_first_byte(fv);
    lemma_cut_bytes(b, pos0, encode_spec(fv));
    assert(b[pos0 + 0] == encode_spec(fv)[0]);
    match fv {
        FrameV::Simple(sv) => {
            lemma_layout3(43, encode_utf8(sv));
            lemma_utf8_line(sv);
            lemma_line_region(b, pos0, encode_spec(fv), encode_utf8(sv), b.len() - pos0);
        }
        FrameV::Error(sv) => {
            lemma_layout3(45, encode_utf8(sv));
            lemma_utf8_line(sv);
            lemma_line_region(b, pos0, encode_spec(fv), encode_utf8(sv), b.len() - pos0);
        }
        FrameV::Int(u) => {
            let digits = dec_digits(u as nat);
            lemma_layout3(58, digits);
            lemma_dec_digits(u as nat);
            lemma_digits_no_cr_lf(digits);
            lemma_line_region(b, pos0, encode_spec(fv), digits, b.len() - pos0);
        }
        _ => {
            assert(false);
        }
    }
}

/// A cut line frame makes the line reader, and so the decimal reader,
/// report an incomplete buffer.
proof fn line_cut_err_facts(b: Seq<u8>, pos0: int, fv: FrameV)
    requires
        wf_frame(fv) && cut_inside(b, pos0, fv) ==> pos0 < b.len() && (b[pos0] == 43 || b[pos0]
            == 45 || b[pos0] == 58),
    ensures
        wf_frame(fv) && cut_inside(b, pos0, fv) ==> find_crlf(b, pos0 + 1) is None,
{
    if wf_frame(fv) && cut_inside(b, pos0, fv) {
        line_cut_facts(b, pos0, fv);
    }
}

/// A complete integer frame at `pos0`, whose line has been read as `n`,
/// is the frame `Int(n)`.
proof fn int_complete_facts(b: Seq<u8>, pos0: int, fv: FrameV, n: u64)
    requires
        wf_frame(fv),
        encodes_at(b, pos0, fv),
        b[pos0] == 58,
        find_crlf(b, pos0 + 1) is Some,
        ({
            let line = b.subrange(pos0 + 1, find_crlf(b, pos0 + 1)->Some_0);
            all_digits(line) && line.len() >= 1 && dec_value(line) == n as int
        }),
    ensures
        fv == FrameV::Int(n),
        find_crlf(b, pos0 + 1)->Some_0 + 2 == pos0 + encode_spec(fv).len(),
{
    lemma_first_byte(fv);
    lemma_at_bytes(b, pos0, encode_spec(fv));
    assert(b[pos0 + 0] == encode_spec(fv)[0]);
    match fv {
        FrameV::Int(u) => {
            let digits = dec_digits(u as nat);
            lemma_layout3(58, digits);
            lemma_dec_digits(u as nat);
            lemma_digits_no_cr_lf(digits);
            lemma_line_region(b, pos0, encode_spec(fv), digits, encode_spec(fv).len() as int);
            assert forall|k: int| 0 <= k < digits.len() implies b[pos0 + 1 + k]
                == #[trigger] digits[k] by {
                assert(b[pos0 + (1 + k)] == encode_spec(fv)[1 + k]);
                assert(encode_spec(fv)[1 + k] == digits[k]);
            }
            assert(b.subrange(pos0 + 1, pos0 + 1 + digits.len() as int) =~= digits);
        }
        _ => {
            assert(false);
        }
    }
}

/// A complete integer frame makes the decimal reader succeed.
proof fn int_err_facts(b: Seq<u8>, pos0: int, fv: FrameV)
    requires
        wf_frame(fv),
        encodes_at(b, pos0, fv),
        b[pos0] == 58,
    ensures
        find_crlf(b, pos0 + 1) is Some,
        ({
            let line = b.subrange(pos0 + 1, find_crlf(b, pos0 + 1)->Some_0);
            all_digits(line) && line.len() >= 1 && dec_value(line) <= u64::MAX as int
        }),
{
    lemma_first_byte(fv);
    lemma_at_bytes(b, pos0, encode_spec(fv));
    assert(b[pos0 + 0] == encode_spec(fv)[0]);
    match fv {
        FrameV::Int(u) => {
            let digits = dec_digits(u as nat);
            lemma_layout3(58, digits);
            lemma_dec_digits(u as nat);
            lemma_digits_no_cr_lf(digits);
            lemma_line_region(b, pos0, encode_spec(fv), digits, encode_spec(fv).len() as int);
            assert forall|k: int| 0 <= k < digits.len() implies b[pos0 + 1 + k]
                == #[trigger] digits[k] by {
                assert(b[pos0 + (1 + k)] == encode_spec(fv)[1 + k]);
                assert(encode_spec(fv)[1 + k] == digits[k]);
            }
            assert(b.subrange(pos0 + 1, pos0 + 1 + digits.len() as int) =~= digits);
        }
        _ => {
            assert(false);
        }
    }
}

/// A complete `$`-frame opening with `-` is the null frame.
proof fn null_complete_facts(b: Seq<u8>, pos0: int, fv: FrameV)
    requires
        wf_frame(fv),
        encodes_at(b, pos0, fv),
        b[pos0] == 36,
        pos0 + 1 < b.len(),
        b[pos0 + 1] == 45,
    ensures
        fv is Null,
        encode_spec(fv).len() == 5,
        find_crlf(b, pos0 + 1) == Some(pos0 + 3),
        b[pos0 + 2] == 49,
{
    lemma_first_byte(fv);
    lemma_at_bytes(b, pos0, encode_spec(fv));
    assert(b[pos0 + 0] == encode_spec(fv)[0]);
    assert(b[pos0 + 1] == encode_spec(fv)[1]);
    match fv {
        FrameV::Bulk(pl) => {
            lemma_layout_tail(36, dec_digits(pl.len()), pl + crlf());
            lemma_dec_digits(pl.len());
            assert(encode_spec(fv)[1] == dec_digits(pl.len())[0]);
            assert(false);
        }
        FrameV::Null => {
            assert(encode_spec(fv)[2] == 49);
            assert(encode_spec(fv)[3] == 13);
            assert(encode_spec(fv)[4] == 10);
            assert(b[pos0 + 2] == encode_spec(fv)[2]);
            assert(b[pos0 + 3] == encode_spec(fv)[3]);
            assert(b[pos0 + 4] == encode_spec(fv)[4]);
            assert(!crlf_at(b, pos0 + 1));
            assert(!crlf_at(b, pos0 + 2));
            assert forall|j: int| pos0 + 1 <= j < pos0 + 3 implies !crlf_at(b, j) by {}
            lemma_find_crlf_at(b, pos0 + 1, pos0 + 3);
        }
        _ => {
            assert(false);
        }
    }
}

/// A truncated `$`-frame opening with `-` is a truncated null frame, and
/// holds no line terminator.
proof fn null_cut_facts(b: Seq<u8>, pos0: int, fv: FrameV)
    requires
        wf_frame(fv),
        cut_inside(b, pos0, fv),
        b.len() - pos0 >= 2,
        b[pos0] == 36,
        b[pos0 + 1] == 45,
    ensures
        fv is Null,
        find_crlf(b, pos0 + 1) is None,
{
    lemma_first_byte(fv);
    lemma_cut_bytes(b, pos0, encode_spec(fv));
    assert(b[pos0 + 0] == encode_spec(fv)[0]);
    assert(b[pos0 + 1] == encode_spec(fv)[1]);
    match fv {
        FrameV::Bulk(pl) => {
            lemma_layout_tail(36, dec_digits(pl.len()), pl + crlf());
            lemma_dec_digits(pl.len());
            assert(encode_spec(fv)[1] == dec_digits(pl.len())[0]);
            assert(false);
        }
        FrameV::Null => {
            let avail = b.len() - pos0;
            assert(encode_spec(fv).len() == 5);
            assert(encode_spec(fv)[2] == 49);
            assert forall|j: int| pos0 + 1 <= j && j + 2 <= b.len() implies !crlf_at(b, j) by {
                assert(b[j] == encode_spec(fv)[j - pos0]);
                if j - pos0 == 1 {
                    assert(b[j] == 45);
                } else {
                    assert(j - pos0 == 2);
                    assert(b[j] == 49);
                }
            }
            lemma_find_crlf_none(b, pos0 + 1);
        }
        _ => {
            assert(false);
        }
    }
}

/// Parses a `$` frame (bulk string or null) whose tag byte is already read.
#[verifier::rlimit(100)]
fn parse_dollar(src: &[u8], pos: usize, p: usize) -> (r: Result<(Frame, usize), Error>)
    requires
        pos < src@.len(),
        p == pos + 1,
        src@[pos as int] == 36,
    ensures
        r matches Ok(fp) ==> pos < fp.1 <= src@.len(),
        forall|fv: FrameV| wf_frame(fv) && encodes_at(src@, pos as int, fv) ==> (r matches Ok(fp)
            && fp.0@ == fv && fp.1 == pos + encode_spec(fv).len()),
        forall|fv: FrameV| wf_frame(fv) && cut_inside(src@, pos as int, fv) ==> (r matches Err(e)
            && e is InComplete),
        pos == src@.len() ==> (r matches Err(e) && e is InComplete),
        pos < src@.len() && !is_type_byte(src@[pos as int]) ==> (r matches Err(e) && e is Other),
{
    proof {
        lemma_src_len(src);
    }
    let ghost pos0 = pos as int;
    let mut p = p;
    let b1 = match peek_u8(src, p) {
        Ok(b) => b,
        Err(e) => {
            proof {
                assert forall|fv: FrameV| !(wf_frame(fv) && encodes_at(src@, pos0, fv)) by {
                    if wf_frame(fv) && encodes_at(src@, pos0, fv) {
                        lemma_first_byte(fv);
                        lemma_at_bytes(src@, pos0, encode_spec(fv));
                        assert(src@[pos0 + 0] == encode_spec(fv)[0]);
                    }
                }
            }
            return Err(e);
        }
    };
    if b1 == 45 {
        // The null frame: its line must read exactly `-1`.
        match get_line(src, &mut p) {
            Ok(se) => {
                let (s0, e0) = se;
                if e0 - s0 == 2 && src[s0] == 45 && src[s0 + 1] == 49 {
                    proof {
                        assert forall|fv: FrameV| wf_frame(fv) && encodes_at(src@, pos0, fv)
                            implies Frame::Null@ == fv && p == pos0 + encode_spec(fv).len() by {
                            null_complete_facts(src@, pos0, fv);
                        }
                        assert forall|fv: FrameV| !(wf_frame(fv) && cut_inside(src@, pos0,
                        fv)) by {
                            if wf_frame(fv) && cut_inside(src@, pos0, fv) {
                                null_cut_facts(src@, pos0, fv);
                            }
                        }
                    }
                    Ok((Frame::Null, p))
                } else {
                    proof {
                        assert forall|fv: FrameV| !(wf_frame(fv) && encodes_at(src@, pos0,
                        fv)) by {
                            if wf_frame(fv) && encodes_at(src@, pos0, fv) {
                                null_complete_facts(src@, pos0, fv);
                                assert(e0 == pos0 + 3 && s0 == pos0 + 1);
                                assert(src@[s0 as int] == 45);
                                assert(src@[s0 + 1] == 49);
                                assert(false);
                            }
                        }
                        assert forall|fv: FrameV| !(wf_frame(fv) && cut_inside(src@, pos0,
                        fv)) by {
                            if wf_frame(fv) && cut_inside(src@, pos0, fv) {
                                null_cut_facts(src@, pos0, fv);
                            }
                        }
                    }
                    Err(protocol_error())
                }
            }
            Err(e) => {
                proof {
                    assert forall|fv: FrameV| !(wf_frame(fv) && encodes_at(src@, pos0, fv)) by {
                        if wf_frame(fv) && encodes_at(src@, pos0, fv) {
                            null_complete_facts(src@, pos0, fv);
                        }
                    }
                }
                Err(e)
            }
        }
    } else {
        match get_decimal(src, &mut p) {
            Err(e) => {
                proof {
                    assert forall|fv: FrameV| !(wf_frame(fv) && encodes_at(src@, pos0, fv)) by {
                        if wf_frame(fv) && encodes_at(src@, pos0, fv) {
                            lemma_first_byte(fv);
                            lemma_at_bytes(src@, pos0, encode_spec(fv));
                            assert(src@[pos0 + 0] == encode_spec(fv)[0]);
                            assert(src@[pos0 + 1] == encode_spec(fv)[1]);
                            match fv {
                                FrameV::Bulk(pl) => {
                                    let digits = dec_digits(pl.len());
                                    lemma_layout_tail(36, digits, pl + crlf());
                                    lemma_dec_digits(pl.len());
                                    lemma_digits_no_cr_lf(digits);
                                    lemma_line_region(src@, pos0, encode_spec(fv), digits,
                                        encode_spec(fv).len() as int);
                                    lemma_seg_at(src@, pos0, encode_spec(fv), 1,
                                        digits.len() as int);
                                    assert(encode_spec(fv).subrange(1, 1 + digits.len() as int)
                                        =~= digits);
                                }
                                FrameV::Null => {
                                    assert(encode_spec(fv).len() == 5);
                                    assert(encode_spec(fv)[1] == 45);
                                }
                                _ => {}
                            }
                        }
                    }
                    assert forall|fv: FrameV| wf_frame(fv) && cut_inside(src@, pos0, fv) implies (
                    e is InComplete) by {
                        lemma_first_byte(fv);
                        lemma_cut_bytes(src@, pos0, encode_spec(fv));
                        assert(src@[pos0 + 0] == encode_spec(fv)[0]);
                        assert(src@[pos0 + 1] == encode_spec(fv)[1]);
                        match fv {
                            FrameV::Bulk(pl) => {
                                let digits = dec_digits(pl.len());
                                lemma_layout_tail(36, digits, pl + crlf());
                                lemma_dec_digits(pl.len());
                                lemma_digits_no_cr_lf(digits);
                                lemma_line_region(src@, pos0, encode_spec(fv), digits,
                                    src@.len() - pos0);
                                if src@.len() - pos0 >= 3 + digits.len() {
                                    assert forall|k: int| 0 <= k < digits.len() implies src@[pos0
                                        + 1 + k] == #[trigger] digits[k] by {
                                        assert(src@[pos0 + (1 + k)] == encode_spec(fv)[1 + k]);
                                        assert(encode_spec(fv)[1 + k] == digits[k]);
                                    }
                                    assert(src@.subrange(pos0 + 1, pos0 + 1 + digits.len() as int)
                                        =~= digits);
                                    assert(false);
                                }
                            }
                            FrameV::Null => {
                                assert(encode_spec(fv).len() == 5);
                                assert(encode_spec(fv)[1] == 45);
                                assert(false);
                            }
                            _ => {
                                assert(false);
                            }
                        }
                    }
                }
                Err(e)
            }
            Ok(n) => {
                match n.checked_add(2) {
                    None => {
                        proof {
                            assert forall|fv: FrameV| !(wf_frame(fv) && encodes_at(src@, pos0,
                            fv)) by {
                                if wf_frame(fv) && encodes_at(src@, pos0, fv) {
                                    lemma_first_byte(fv);
                                    lemma_at_bytes(src@, pos0, encode_spec(fv));
                                    assert(src@[pos0 + 0] == encode_spec(fv)[0]);
                                    if fv is Bulk || fv is Null {
                                        bulk_complete_facts(src@, pos0, fv, n);
                                    }
                                }
                            }
                            assert forall|fv: FrameV| !(wf_frame(fv) && cut_inside(src@, pos0,
                            fv)) by {
                                if wf_frame(fv) && cut_inside(src@, pos0, fv) {
                                    lemma_first_byte(fv);
                                    lemma_cut_bytes(src@, pos0, encode_spec(fv));
                                    assert(src@[pos0 + 0] == encode_spec(fv)[0]);
                                    if fv is Bulk || fv is Null {
                                        bulk_cut_facts(src@, pos0, fv, n, p as int);
                                    }
                                }
                            }
                        }
                        Err(protocol_error())
                    }
                    Some(n2) => {
                        let rem = src.len() - p;
                        if (rem as u64) < n2 {
                            proof {
                                assert forall|fv: FrameV| !(wf_frame(fv) && encodes_at(src@,
                                pos0, fv)) by {
                                    if wf_frame(fv) && encodes_at(src@, pos0, fv) {
                                        lemma_first_byte(fv);
                                        lemma_at_bytes(src@, pos0, encode_spec(fv));
                                        assert(src@[pos0 + 0] == encode_spec(fv)[0]);
                                        if fv is Bulk || fv is Null {
                                            bulk_complete_facts(src@, pos0, fv, n);
                                            match fv {
                                                FrameV::Bulk(pl) => {
                                                    lemma_layout_tail(36, dec_digits(pl.len()),
                                                        pl + crlf());
                                                }
                                                _ => {
                                                    assert(false);
                                                }
                                            }
                                        }
                                    }
                                }
                            }
                            Err(Error::InComplete)
                        } else {
                            let n_us = n as usize;
                            let data = copy_range(src, p, p + n_us);
                            let p2 = p + (n2 as usize);
                            proof {
                                assert forall|fv: FrameV| wf_frame(fv) && encodes_at(src@, pos0,
                                fv) implies Frame::Bulk(data)@ == fv && p2 == pos0 + encode_spec(
                                    fv,
                                ).len() by {
                                    lemma_first_byte(fv);
                                    lemma_at_bytes(src@, pos0, encode_spec(fv));
                                    assert(src@[pos0 + 0] == encode_spec(fv)[0]);
                                    assert(fv is Bulk || fv is Null);
                                    bulk_complete_facts(src@, pos0, fv, n);
                                    match fv {
                                        FrameV::Bulk(pl) => {
                                            let digits = dec_digits(pl.len());
                                            lemma_layout_tail(36, digits, pl + crlf());
                                            assert forall|k: int| 0 <= k < pl.len() implies src@[p
                                                + k] == #[trigger] pl[k] by {
                                                assert(src@[pos0 + (3 + digits.len() + k)]
                                                    == encode_spec(fv)[3 + digits.len() + k]);
                                                assert(encode_spec(fv)[3 + digits.len() + k]
                                                    == (pl + crlf())[k]);
                                            }
                                            assert(data@ =~= pl);
                                        }
                                        _ => {
                                            assert(false);
                                        }
                                    }
                                }
                                assert forall|fv: FrameV| !(wf_frame(fv) && cut_inside(src@,
                                pos0, fv)) by {
                                    if wf_frame(fv) && cut_inside(src@, pos0, fv) {
                                        lemma_first_byte(fv);
                                        lemma_cut_bytes(src@, pos0, encode_spec(fv));
                                        assert(src@[pos0 + 0] == encode_spec(fv)[0]);
                                        if fv is Bulk || fv is Null {
                                            bulk_cut_facts(src@, pos0, fv, n, p as int);
                                        }
                                        assert(false);
                                    }
                                }
                            }
                            Ok((Frame::Bulk(data), p2))
                        }
                    }
                }
            }
        }
    }
}

/// Parses a `*` frame (array) whose tag byte is already read.
#[verifier::rlimit(100)]
fn parse_star(src: &[u8], pos: usize, p: usize) -> (r: Result<(Frame, usize), Error>)
    requires
        pos < src@.len(),
        p == pos + 1,
        src@[pos as int] == 42,
    ensures
        r matches Ok(fp) ==> pos < fp.1 <= src@.len(),
        forall|fv: FrameV| wf_frame(fv) && encodes_at(src@, pos as int, fv) ==> (r matches Ok(fp)
            && fp.0@ == fv && fp.1 == pos + encode_spec(fv).len()),
        forall|fv: FrameV| wf_frame(fv) && cut_inside(src@, pos as int, fv) ==> (r matches Err(e)
            && e is InComplete),
        pos == src@.len() ==> (r matches Err(e) && e is InComplete),
        pos < src@.len() && !is_type_byte(src@[pos as int]) ==> (r matches Err(e) && e is Other),
    decreases src@.len() - pos, 0int,
{
    proof {
        lemma_src_len(src);
    }
    let ghost pos0 = pos as int;
    let mut p = p;
    match get_decimal(src, &mut p) {
        Err(e) => {
            proof {
                assert forall|fv: FrameV| !(wf_frame(fv) && encodes_at(src@, pos0, fv)) by {
                    if wf_frame(fv) && encodes_at(src@, pos0, fv) {
                        lemma_first_byte(fv);
                        lemma_at_bytes(src@, pos0, encode_spec(fv));
                        assert(src@[pos0 + 0] == encode_spec(fv)[0]);
                        match fv {
                            FrameV::Array(els) => {
                                lemma_array_connect(src@, pos0, els);
                                lemma_dec_digits(els.len());
                                lemma_encode_all_lower(els);
                                let d = dec_digits(els.len()).len() as int;
                                assert(find_crlf(src@, pos0 + 1) == Some(pos0 + 1 + d));
                                assert(dec_value(src@.subrange(pos0 + 1, pos0 + 1 + d))
                                    == els.len());
                                assert(3 * els.len() <= src@.len());
                                assert(els.len() <= u64::MAX as int);
                                assert(false);
                            }
                            _ => {}
                        }
                    }
                }
                assert forall|fv: FrameV| wf_frame(fv) && cut_inside(src@, pos0, fv) implies (
                e is InComplete) by {
                    lemma_first_byte(fv);
                    lemma_cut_bytes(src@, pos0, encode_spec(fv));
                    assert(src@[pos0 + 0] == encode_spec(fv)[0]);
                    match fv {
                        FrameV::Array(els) => {
                            lemma_dec_digits(els.len());
                            if src@.len() - pos0 < 3 + dec_digits(els.len()).len() {
                                lemma_array_cut_header(src@, pos0, els);
                            } else {
                                lemma_array_connect_cut(src@, pos0, els);
                                lemma_encode_all_lower(els);
                                let d = dec_digits(els.len()).len() as int;
                                assert(3 * els.len() <= usize::MAX as int);
                                assert(els.len() <= u64::MAX as int);
                                assert(false);
                            }
                        }
                        _ => {
                            assert(false);
                        }
                    }
                }
            }
            Err(e)
        }
        Ok(n) => {
            let ghost body0 = p as int;
            let ghost e1 = find_crlf(src@, pos0 + 1)->Some_0;
            let ghost hline = src@.subrange(pos0 + 1, e1);
            proof {
                lemma_find_crlf_props(src@, pos0 + 1, e1);
                assert forall|els: Seq<FrameV>| true implies #[trigger] encode_all(
                    els.take(0),
                ).len() == 0 by {
                    assert(els.take(0) =~= Seq::<FrameV>::empty());
                }
            }
            let mut out: Vec<Frame> = Vec::new();
            let mut i: u64 = 0;
            while i < n
                invariant
                    pos0 == pos as int,
                    src@.len() <= usize::MAX as int,
                    usize::MAX as int <= u64::MAX as int,
                    pos0 + 1 <= src@.len(),
                    src@[pos0] == 42,
                    find_crlf(src@, pos0 + 1) == Some(e1),
                    e1 + 2 == body0,
                    pos0 + 2 <= e1,
                    hline == src@.subrange(pos0 + 1, e1),
                    all_digits(hline),
                    hline.len() >= 1,
                    dec_value(hline) == n as int,
                    body0 <= p as int,
                    p <= src@.len(),
                    i <= n,
                    out@.len() == i as int,
                    forall|els: Seq<FrameV>| (all_wf(els) && els.len() == n as int
                        && encodes_all_at(src@, body0, els)) ==> p as int == body0
                        + encode_all(#[trigger] els.take(i as int)).len() && (forall|k: int|
                        0 <= k < i as int ==> frame_view(#[trigger] out@[k]) == els[k]),
                    forall|els: Seq<FrameV>| (all_wf(els) && els.len() == n as int && cut_all_at(
                        src@,
                        body0,
                        els,
                    )) ==> p as int == body0 + encode_all(#[trigger] els.take(i as int)).len(),
                decreases n - i,
            {
                let ghost oldp = p as int;
                let ghost oldout = out@;
                match parse_rec(src, p) {
                    Ok(fp) => {
                        let (f, p2) = fp;
                        let ghost fview = f@;
                        out.push(f);
                        proof {
                            assert forall|els: Seq<FrameV>| (all_wf(els) && els.len() == n as int
                                && encodes_all_at(src@, body0, els)) implies p2 as int == body0
                                + encode_all(#[trigger] els.take(i + 1 as int)).len() && (forall|
                                k: int,
                            |
                                0 <= k < i + 1 ==> frame_view(#[trigger] out@[k]) == els[k]) by {
                                assert(oldp == body0 + encode_all(els.take(i as int)).len());
                                lemma_at_all_child(src@, body0, els, i as int, oldp);
                                assert(wf_frame(els[i as int]));
                                assert(fview == els[i as int]);
                                lemma_take_succ(els, i as int);
                                assert forall|k: int| 0 <= k < i + 1 implies frame_view(
                                    #[trigger] out@[k],
                                ) == els[k] by {
                                    if k < i as int {
                                        assert(out@[k] == oldout[k]);
                                    } else {
                                        assert(out@[k] == f);
                                    }
                                }
                            }
                            assert forall|els: Seq<FrameV>| (all_wf(els) && els.len() == n as int
                                && cut_all_at(src@, body0, els)) implies p2 as int == body0
                                + encode_all(#[trigger] els.take(i + 1 as int)).len() by {
                                assert(oldp == body0 + encode_all(els.take(i as int)).len());
                                lemma_cut_all_child(src@, body0, els, i as int, oldp);
                                assert(wf_frame(els[i as int]));
                                lemma_take_succ(els, i as int);
                            }
                        }
                        p = p2;
                    }
                    Err(e) => {
                        proof {
                            assert forall|fv: FrameV| !(wf_frame(fv) && encodes_at(src@, pos0,
                            fv)) by {
                                if wf_frame(fv) && encodes_at(src@, pos0, fv) {
                                    lemma_first_byte(fv);
                                    lemma_at_bytes(src@, pos0, encode_spec(fv));
                                    assert(src@[pos0 + 0] == encode_spec(fv)[0]);
                                    match fv {
                                        FrameV::Array(els) => {
                                            lemma_array_connect(src@, pos0, els);
                                            array_header_facts(src@, pos0, els, n, body0);
                                            assert(all_wf(els));
                                            assert(oldp == body0 + encode_all(
                                                els.take(i as int),
                                            ).len());
                                            lemma_at_all_child(src@, body0, els, i as int, oldp);
                                            assert(wf_frame(els[i as int]));
                                        }
                                        _ => {}
                                    }
                                }
                            }
                            assert forall|fv: FrameV| wf_frame(fv) && cut_inside(src@, pos0, fv)
                                implies (e is InComplete) by {
                                lemma_first_byte(fv);
                                lemma_cut_bytes(src@, pos0, encode_spec(fv));
                                assert(src@[pos0 + 0] == encode_spec(fv)[0]);
                                match fv {
                                    FrameV::Array(els) => {
                                        lemma_dec_digits(els.len());
                                        if src@.len() - pos0 < 3 + dec_digits(els.len()).len() {
                                            lemma_array_cut_header(src@, pos0, els);
                                            assert(false);
                                        } else {
                                            array_header_facts(src@, pos0, els, n, body0);
                                            assert(all_wf(els));
                                            assert(oldp == body0 + encode_all(
                                                els.take(i as int),
                                            ).len());
                                            lemma_cut_all_child(src@, body0, els, i as int,
                                                oldp);
                                            assert(wf_frame(els[i as int]));
                                        }
                                    }
                                    _ => {
                                        assert(false);
                                    }
                                }
                            }
                        }
                        return Err(e);
                    }
                }
                i = i + 1;
            }
            let f = Frame::Array(out);
            proof {
                assert forall|fv: FrameV| wf_frame(fv) && encodes_at(src@, pos0, fv) implies f@
                    == fv && p == pos0 + encode_spec(fv).len() by {
                    lemma_first_byte(fv);
                    lemma_at_bytes(src@, pos0, encode_spec(fv));
                    assert(src@[pos0 + 0] == encode_spec(fv)[0]);
                    match fv {
                        FrameV::Array(els) => {
                            lemma_array_connect(src@, pos0, els);
                            array_header_facts(src@, pos0, els, n, body0);
                            assert(p as int == body0 + encode_all(els.take(n as int)).len());
                            assert(els.take(n as int) =~= els);
                            lemma_layout_tail(42, dec_digits(els.len()), encode_all(els));
                            assert(array_els(f@) =~= els);
                            assert(f@ == FrameV::Array(array_els(f@)));
                        }
                        _ => {
                            assert(false);
                        }
                    }
                }
                assert forall|fv: FrameV| !(wf_frame(fv) && cut_inside(src@, pos0, fv)) by {
                    if wf_frame(fv) && cut_inside(src@, pos0, fv) {
                        lemma_first_byte(fv);
                        lemma_cut_bytes(src@, pos0, encode_spec(fv));
                        assert(src@[pos0 + 0] == encode_spec(fv)[0]);
                        match fv {
                            FrameV::Array(els) => {
                                lemma_dec_digits(els.len());
                                if src@.len() - pos0 < 3 + dec_digits(els.len()).len() {
                                    lemma_array_cut_header(src@, pos0, els);
                                } else {
                                    array_header_facts(src@, pos0, els, n, body0);
                                    assert(p as int == body0 + encode_all(
                                        els.take(n as int),
                                    ).len());
                                    assert(els.take(n as int) =~= els);
                                    lemma_layout_tail(42, dec_digits(els.len()),
                                        encode_all(els));
                                }
                            }
                            _ => {}
                        }
                    }
                }
            }
            Ok((f, p))
        }
    }
}

impl Frame {
    /// Checks whether an entire frame can be decoded from `src` at the
    /// cursor, advancing the cursor past the frame when it can.
    ///
    /// Partial-read safety: a buffer that ends anywhere strictly inside an
    /// encoding yields `InComplete` — the signal to wait for more bytes —
    /// and never a hard error.
    pub fn check(src: &[u8], pos: &mut usize) -> (r: Result<(), Error>)
        requires
            *old(pos) <= src@.len(),
        ensures
            r is Ok ==> *old(pos) < *final(pos) <= src@.len(),
            r is Err ==> *final(pos) == *old(pos),
            forall|fv: FrameV| wf_frame(fv) && encodes_at(src@, *old(pos) as int, fv) ==> (
            r is Ok && *final(pos) == *old(pos) + encode_spec(fv).len()),
            forall|fv: FrameV| wf_frame(fv) && cut_inside(src@, *old(pos) as int, fv) ==> (
            r matches Err(e) && e is InComplete),
            *old(pos) == src@.len() ==> (r matches Err(e) && e is InComplete),
            *old(pos) < src@.len() && !is_type_byte(src@[*old(pos) as int]) ==> (r matches Err(e)
                && e is Other),
    {
        match check_rec(src, *pos) {
            Ok(p2) => {
                *pos = p2;
                Ok(())
            }
            Err(e) => Err(e),
        }
    }

    /// Decodes the frame at the cursor, advancing the cursor past it.
    ///
    /// Round trip: whenever the buffer carries `encode_spec(fv)` of a
    /// representable frame `fv` at the cursor, the result is exactly that
    /// frame, whatever else follows it in the buffer.
    pub fn parse(src: &[u8], pos: &mut usize) -> (r: Result<Frame, Error>)
        requires
            *old(pos) <= src@.len(),
        ensures
            r is Ok ==> *old(pos) < *final(pos) <= src@.len(),
            r is Err ==> *final(pos) == *old(pos),
            forall|fv: FrameV| wf_frame(fv) && encodes_at(src@, *old(pos) as int, fv) ==> (
            r matches Ok(f) && f@ == fv && *final(pos) == *old(pos) + encode_spec(fv).len()),
            forall|fv: FrameV| wf_frame(fv) && cut_inside(src@, *old(pos) as int, fv) ==> (
            r matches Err(e) && e is InComplete),
            *old(pos) == src@.len() ==> (r matches Err(e) && e is InComplete),
            *old(pos) < src@.len() && !is_type_byte(src@[*old(pos) as int]) ==> (r matches Err(e)
                && e is Other),
    {
        match parse_rec(src, *pos) {
            Ok(fp) => {
                let (f, p2) = fp;
                *pos = p2;
                Ok(f)
            }
            Err(e) => Err(e),
        }
    }
}

/// Compares two byte vectors.
fn bytes_eq(a: &Vec<u8>, b: &Vec<u8>) -> (r: bool)
    ensures
        r == (a@ == b@),
{
    if a.len() != b.len() {
        return false;
    }
    let mut i: usize = 0;
    while i < a.len()
        invariant
            i <= a@.len(),
            a@.len() == b@.len(),
            forall|k: int| 0 <= k < i as int ==> a@[k] == b@[k],
        decreases a@.len() - i,
    {
        if a[i] != b[i] {
            return false;
        }
        i = i + 1;
    }
    proof {
        assert(a@ =~= b@);
    }
    true
}

/// Structural equality of frames: equality of their views.
pub fn frame_eq(a: &Frame, b: &Frame) -> (r: bool)
    ensures
        r == (a@ == b@),
    decreases frame_view(*a),
{
    match (a, b) {
        (Frame::Simple(x), Frame::Simple(y)) => {
            let r = *x == *y;
            proof {
                assert(a@ == FrameV::Simple(x@));
                assert(b@ == FrameV::Simple(y@));
                assert(r == (a@ == b@));
            }
            r
        }
        (Frame::Error(x), Frame::Error(y)) => {
            let r = *x == *y;
            proof {
                assert(a@ == FrameV::Error(x@));
                assert(b@ == FrameV::Error(y@));
                assert(r == (a@ == b@));
            }
            r
        }
        (Frame::Int(x), Frame::Int(y)) => {
            let r = *x == *y;
            proof {
                assert(a@ == FrameV::Int(*x));
                assert(b@ == FrameV::Int(*y));
                assert(r == (a@ == b@));
            }
            r
        }
        (Frame::Bulk(x), Frame::Bulk(y)) => {
            let r = bytes_eq(x, y);
            proof {
                assert(a@ == FrameV::Bulk(x@));
                assert(b@ == FrameV::Bulk(y@));
                assert(r == (a@ == b@));
            }
            r
        }
        (Frame::Null, Frame::Null) => {
            proof {
                assert(a@ == FrameV::Null);
                assert(b@ == FrameV::Null);
            }
            true
        }
        (Frame::Array(x), Frame::Array(y)) => {
            let ghost ea = array_els(a@);
            let ghost eb = array_els(b@);
            proof {
                assert(a@ == FrameV::Array(ea));
                assert(b@ == FrameV::Array(eb));
                assert(ea.len() == x@.len());
                assert(eb.len() == y@.len());
            }
            if x.len() != y.len() {
                return false;
            }
            let mut i: usize = 0;
            while i < x.len()
                invariant
                    a@ == FrameV::Array(ea),
                    b@ == FrameV::Array(eb),
                    ea.len() == x@.len(),
                    eb.len() == y@.len(),
                    x@.len() == y@.len(),
                    i <= x@.len(),
                    forall|k: int| 0 <= k < ea.len() ==> ea[k] == frame_view(#[trigger] x@[k]),
                    forall|k: int| 0 <= k < eb.len() ==> eb[k] == frame_view(#[trigger] y@[k]),
                    forall|k: int| 0 <= k < i as int ==> ea[k] == #[trigger] eb[k],
                decreases x@.len() - i,
            {
                proof {
                    assert(decreases_to!(a@ => a@->Array_0));
                    assert(a@->Array_0 == ea);
                    assert(decreases_to!(ea => ea[i as int]));
                    assert(frame_view(x[i as int]) == ea[i as int]);
                }
                if !frame_eq(&x[i], &y[i]) {
                    proof {
                        assert(ea[i as int] != eb[i as int]);
                    }
                    return false;
                }
                i = i + 1;
            }
            proof {
                assert(ea =~= eb);
            }
            true
        }
        _ => {
            proof {
                assert(a@ != b@);
            }
            false
        }
    }
}

impl PartialEq for Frame {
    fn eq(&self, other: &Frame) -> (r: bool) {
        frame_eq(self, other)
    }
}

impl vstd::std_specs::cmp::PartialEqSpecImpl for Frame {
    open spec fn obeys_eq_spec() -> bool {
        true
    }

    open spec fn eq_spec(&self, other: &Frame) -> bool {
        self@ == other@
    }
}

/// The round-trip law, as an executable witness: parsing the encoding of
/// any representable frame yields the frame itself and consumes exactly
/// its bytes.  A frame is representable (`wf_frame`) when none of its
/// line-delimited texts carries CR or LF.
pub fn round_trip(f: &Frame) -> (r: Frame)
    requires
        wf_frame(f@),
    ensures
        r@ == f@,
{
    let enc = f.encode();
    let mut pos: usize = 0;
    proof {
        assert(enc@.subrange(0, enc@.len() as int) =~= enc@);
        assert(encodes_at(enc@, 0, f@));
    }
    match Frame::parse(enc.as_slice(), &mut pos) {
        Ok(g) => g,
        Err(_) => vstd::pervasive::unreached(),
    }
}

} // verus!
