//! The GET command: fetch the value of a key.

use crate::cmd::CommandV;
use crate::frame::{array_els, Frame, FrameV};
use crate::parse::{string_of, Parse, ParseError};
use vstd::prelude::*;
use vstd::utf8::encode_utf8;

verus! {

/// Get the value of a key.  If the key does not exist the reply is the
/// null frame.
#[derive(Debug)]
pub struct Get {
    /// Name of the key to get.
    key: String,
}

impl View for Get {
    type V = CommandV;

    closed spec fn view(&self) -> CommandV {
        CommandV::Get { key: self.key@ }
    }
}

impl Get {
    /// The view of a `Get` is always the `Get` variant.
    pub proof fn view_shape(&self)
        ensures
            self@ is Get,
    {
    }

    /// Creates a new `Get` command which fetches `key`.
    pub fn new(key: String) -> (r: Get)
        ensures
            r@ == (CommandV::Get { key: key@ }),
    {
        Get { key }
    }

    /// The key to fetch.
    pub fn key(&self) -> (r: &str)
        ensures
            self@ matches CommandV::Get { key } && r@ == key,
    {
        self.key.as_str()
    }

    /// Reads the single key argument off the cursor.
    pub fn parse_frames(parse: &mut Parse) -> (r: Result<Get, ParseError>)
        ensures
            old(parse)@.len() == 0 ==> (r matches Err(e) && e is EndOfStream),
            old(parse)@.len() > 0 ==> match string_of(old(parse)@[0]) {
                Some(k) => r matches Ok(g) && g@ == (CommandV::Get { key: k }) && final(parse)@
                    == old(parse)@.drop_first(),
                None => r matches Err(e) && e is Other,
            },
    {
        match parse.next_string() {
            Ok(key) => Ok(Get { key }),
            Err(e) => Err(e),
        }
    }

    /// The reply for a looked-up value: the value as a bulk frame, or the
    /// null frame when the key was absent.
    pub fn response(value: Option<Vec<u8>>) -> (r: Frame)
        ensures
            value matches Some(v) ==> r@ == FrameV::Bulk(v@),
            value is None ==> r@ == FrameV::Null,
    {
        match value {
            Some(v) => Frame::Bulk(v),
            None => Frame::Null,
        }
    }

    /// Renders the command as the array frame a client would send.
    pub fn into_frame(self) -> (r: Frame)
        ensures
            r@ == FrameV::Array(
                seq![
                    FrameV::Bulk(encode_utf8("get"@)),
                    FrameV::Bulk(encode_utf8(self@->Get_key)),
                ],
            ),
    {
        let ghost key_chars = self.key@;
        let mut frame = Frame::array();
        frame.push_bulk("get".as_bytes_vec());
        frame.push_bulk(self.key.as_str().as_bytes_vec());
        proof {
            assert(array_els(frame@) =~= seq![
                FrameV::Bulk(encode_utf8("get"@)),
                FrameV::Bulk(encode_utf8(key_chars)),
            ]);
        }
        frame
    }
}

} // verus!
