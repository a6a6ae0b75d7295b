//! A cursor over the elements of an array frame, used to read a command's
//! name and arguments one by one.

use crate::digits::{all_digits, dec_value, parse_digits};
use crate::frame::{array_els, frame_view, Frame, FrameV};
use vstd::prelude::*;
use vstd::utf8::{decode_utf8, encode_utf8, valid_utf8};

verus! {

/// Errors of reading a command out of a frame.
#[derive(Debug)]
pub enum ParseError {
    /// The frame held no further elements.
    EndOfStream,
    /// An element had the wrong shape for what the command expects.
    Other(String),
}

/// The text a frame element can stand for: a simple string directly, a bulk
/// payload through UTF-8 decoding.
pub open spec fn string_of(fv: FrameV) -> Option<Seq<char>> {
    match fv {
        FrameV::Simple(s) => Some(s),
        FrameV::Bulk(b) => if valid_utf8(b) {
            Some(decode_utf8(b))
        } else {
            None
        },
        _ => None,
    }
}

/// The raw bytes a frame element can stand for.
pub open spec fn bytes_of(fv: FrameV) -> Option<Seq<u8>> {
    match fv {
        FrameV::Simple(s) => Some(encode_utf8(s)),
        FrameV::Bulk(b) => Some(b),
        _ => None,
    }
}

/// An unsigned decimal read from a byte string.
pub open spec fn dec_of(b: Seq<u8>) -> Option<u64> {
    if all_digits(b) && b.len() >= 1 && dec_value(b) <= u64::MAX as int {
        Some(dec_value(b) as u64)
    } else {
        None
    }
}

/// The integer a frame element can stand for: an integer frame directly, a
/// textual element through decimal reading.
pub open spec fn int_of(fv: FrameV) -> Option<u64> {
    match fv {
        FrameV::Int(u) => Some(u),
        FrameV::Simple(s) => dec_of(encode_utf8(s)),
        FrameV::Bulk(b) => dec_of(b),
        _ => None,
    }
}

/// A cursor over the elements of an array frame.  The view is the sequence
/// of element views still to be consumed, front first.
pub struct Parse {
    /// The elements not consumed yet, in reverse order: the next one is
    /// last, so that consuming is a pop.
    parts: Vec<Frame>,
}

impl View for Parse {
    type V = Seq<FrameV>;

    closed spec fn view(&self) -> Seq<FrameV> {
        Seq::new(
            self.parts@.len(),
            |i: int|
                if 0 <= i < self.parts@.len() {
                    frame_view(self.parts[self.parts@.len() - 1 - i])
                } else {
                    FrameV::Null
                },
        )
    }
}

fn parse_error() -> (e: ParseError)
    ensures
        e is Other,
{
    ParseError::Other(String::from_str("protocol error; invalid frame format"))
}

impl Parse {
    /// Opens a cursor over `frame`, which must be an array frame.
    pub fn new(frame: Frame) -> (r: Result<Parse, ParseError>)
        ensures
            frame@ is Array ==> (r matches Ok(p) && p@ == array_els(frame@)),
            !(frame@ is Array) ==> (r matches Err(e) && e is Other),
    {
        let ghost fv = frame@;
        match frame {
            Frame::Array(mut v) => {
                let ghost orig = v@;
                let mut rev: Vec<Frame> = Vec::new();
                proof {
                    assert(orig.subrange(0, v@.len() as int) =~= orig);
                }
                while v.len() > 0
                    invariant
                        rev@.len() + v@.len() == orig.len(),
                        v@ == orig.subrange(0, v@.len() as int),
                        forall|j: int|
                            0 <= j < rev@.len() ==> #[trigger] rev@[j] == orig[orig.len() - 1
                                - j],
                    decreases v@.len(),
                {
                    match v.pop() {
                        Some(f) => {
                            rev.push(f);
                            proof {
                                assert(v@ =~= orig.subrange(0, v@.len() as int));
                            }
                        }
                        None => {
                            proof {
                                assert(false);
                            }
                        }
                    }
                }
                let p = Parse { parts: rev };
                proof {
                    assert(fv == FrameV::Array(array_els(fv)));
                    assert(p@ =~= array_els(fv));
                }
                Ok(p)
            }
            _ => Err(parse_error()),
        }
    }

    /// Removes and returns the next element.
    pub fn next(&mut self) -> (r: Result<Frame, ParseError>)
        ensures
            old(self)@.len() == 0 ==> (r matches Err(e) && e is EndOfStream && final(self)@
                == old(self)@),
            old(self)@.len() > 0 ==> (r matches Ok(f) && f@ == old(self)@[0] && final(self)@
                == old(self)@.drop_first()),
    {
        match self.parts.pop() {
            Some(f) => {
                proof {
                    assert(self@ =~= old(self)@.drop_first());
                }
                Ok(f)
            }
            None => {
                proof {
                    assert(self@ =~= old(self)@);
                }
                Err(ParseError::EndOfStream)
            }
        }
    }

    /// Removes the next element and reads it as text.
    pub fn next_string(&mut self) -> (r: Result<String, ParseError>)
        ensures
            old(self)@.len() == 0 ==> (r matches Err(e) && e is EndOfStream && final(self)@
                == old(self)@),
            old(self)@.len() > 0 ==> match string_of(old(self)@[0]) {
                Some(cs) => r matches Ok(s) && s@ == cs && final(self)@
                    == old(self)@.drop_first(),
                None => r matches Err(e) && e is Other,
            },
    {
        let f = match self.next() {
            Ok(f) => f,
            Err(e) => {
                return Err(e);
            }
        };
        match f {
            Frame::Simple(s) => Ok(s),
            Frame::Bulk(b) => match crate::frame::string_from_utf8(b) {
                Some(s) => Ok(s),
                None => Err(parse_error()),
            },
            _ => Err(parse_error()),
        }
    }

    /// Removes the next element and reads it as raw bytes.
    pub fn next_bytes(&mut self) -> (r: Result<Vec<u8>, ParseError>)
        ensures
            old(self)@.len() == 0 ==> (r matches Err(e) && e is EndOfStream && final(self)@
                == old(self)@),
            old(self)@.len() > 0 ==> match bytes_of(old(self)@[0]) {
                Some(bs) => r matches Ok(b) && b@ == bs && final(self)@
                    == old(self)@.drop_first(),
                None => r matches Err(e) && e is Other,
            },
    {
        let f = match self.next() {
            Ok(f) => f,
            Err(e) => {
                return Err(e);
            }
        };
        match f {
            Frame::Simple(s) => Ok(s.as_str().as_bytes_vec()),
            Frame::Bulk(b) => Ok(b),
            _ => Err(parse_error()),
        }
    }

    /// Removes the next element and reads it as an unsigned decimal.
    pub fn next_int(&mut self) -> (r: Result<u64, ParseError>)
        ensures
            old(self)@.len() == 0 ==> (r matches Err(e) && e is EndOfStream && final(self)@
                == old(self)@),
            old(self)@.len() > 0 ==> match int_of(old(self)@[0]) {
                Some(u) => r matches Ok(n) && n == u && final(self)@ == old(self)@.drop_first(),
                None => r matches Err(e) && e is Other,
            },
    {
        let f = match self.next() {
            Ok(f) => f,
            Err(e) => {
                return Err(e);
            }
        };
        match f {
            Frame::Int(u) => Ok(u),
            Frame::Simple(s) => {
                let bs = s.as_str().as_bytes();
                proof {
                    assert(bs@.subrange(0, bs@.len() as int) =~= bs@);
                }
                match parse_digits(bs, 0, bs.len()) {
                    Some(u) => Ok(u),
                    None => Err(parse_error()),
                }
            }
            Frame::Bulk(b) => {
                let bs = b.as_slice();
                proof {
                    assert(bs@.subrange(0, bs@.len() as int) =~= bs@);
                }
                match parse_digits(bs, 0, bs.len()) {
                    Some(u) => Ok(u),
                    None => Err(parse_error()),
                }
            }
            _ => Err(parse_error()),
        }
    }

    /// Succeeds exactly when every element has been consumed.
    pub fn finish(&mut self) -> (r: Result<(), ParseError>)
        ensures
            final(self)@ == old(self)@,
            old(self)@.len() == 0 <==> r is Ok,
            r matches Err(e) ==> e is Other,
    {
        if self.parts.len() == 0 {
            Ok(())
        } else {
            Err(parse_error())
        }
    }
}

} // verus!
