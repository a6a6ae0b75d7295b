//! The PING command: a liveness probe, valid in and out of subscribed mode.

use crate::cmd::CommandV;
use crate::frame::{Frame, FrameV};
use crate::parse::{bytes_of, Parse, ParseError};
use vstd::prelude::*;

verus! {

/// Ping the server, optionally carrying a message to echo.
#[derive(Debug)]
pub struct Ping {
    msg: Option<Vec<u8>>,
}

impl View for Ping {
    type V = CommandV;

    closed spec fn view(&self) -> CommandV {
        CommandV::Ping {
            msg: match self.msg {
                Some(m) => Some(m@),
                None => None,
            },
        }
    }
}

/// What the PING arguments denote, if anything.
pub open spec fn ping_args(rest: Seq<FrameV>) -> Option<Option<Seq<u8>>> {
    if rest.len() == 0 {
        Some(None)
    } else if rest.len() == 1 {
        match bytes_of(rest[0]) {
            Some(m) => Some(Some(m)),
            None => None,
        }
    } else {
        None
    }
}

impl Ping {
    /// The view of a `Ping` is always the `Ping` variant.
    pub proof fn view_shape(&self)
        ensures
            self@ is Ping,
    {
    }

    /// Creates a new `Ping` command with an optional echo message.
    pub fn new(msg: Option<Vec<u8>>) -> (r: Ping)
        ensures
            r@ == (CommandV::Ping {
                msg: match msg {
                    Some(m) => Some(m@),
                    None => None,
                },
            }),
    {
        Ping { msg }
    }

    /// Reads the optional message off the cursor.
    pub fn parse_frames(parse: &mut Parse) -> (r: Result<Ping, ParseError>)
        ensures
            match ping_args(old(parse)@) {
                Some(m) => r matches Ok(p) && p@ == (CommandV::Ping { msg: m })
                    && final(parse)@.len() == 0,
                None => r is Err,
            },
    {
        let msg = match parse.next_bytes() {
            Ok(m) => Some(m),
            Err(ParseError::EndOfStream) => None,
            Err(e) => {
                return Err(e);
            }
        };
        match parse.finish() {
            Ok(_) => Ok(Ping { msg }),
            Err(e) => Err(e),
        }
    }

    /// The reply: the echoed message as a bulk frame, or the fixed simple
    /// string `PONG` when no message was given.
    pub fn response(self) -> (r: Frame)
        ensures
            self@ matches CommandV::Ping { msg } && r@ == match msg {
                Some(m) => FrameV::Bulk(m),
                None => FrameV::Simple("PONG"@),
            },
    {
        match self.msg {
            Some(m) => Frame::Bulk(m),
            None => Frame::Simple(String::from_str("PONG")),
        }
    }
}

} // verus!
