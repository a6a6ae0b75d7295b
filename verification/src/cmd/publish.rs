//! The PUBLISH command: post a message to a channel.

use crate::cmd::CommandV;
use crate::frame::{Frame, FrameV};
use crate::parse::{bytes_of, string_of, Parse, ParseError};
use vstd::prelude::*;

verus! {

/// Post `message` to the channel named `channel`.  The reply is the number
/// of subscribers the channel had at publish time: a racy snapshot, not a
/// delivery count.
#[derive(Debug)]
pub struct Publish {
    channel: String,
    message: Vec<u8>,
}

impl View for Publish {
    type V = CommandV;

    closed spec fn view(&self) -> CommandV {
        CommandV::Publish { channel: self.channel@, message: self.message@ }
    }
}

impl Publish {
    /// The view of a `Publish` is always the `Publish` variant.
    pub proof fn view_shape(&self)
        ensures
            self@ is Publish,
    {
    }

    /// Creates a new `Publish` command.
    pub fn new(channel: String, message: Vec<u8>) -> (r: Publish)
        ensures
            r@ == (CommandV::Publish { channel: channel@, message: message@ }),
    {
        Publish { channel, message }
    }

    /// The channel to publish on.
    pub fn channel(&self) -> (r: &str)
        ensures
            self@ matches CommandV::Publish { channel, .. } && r@ == channel,
    {
        self.channel.as_str()
    }

    /// The message to post.
    pub fn message(&self) -> (r: &Vec<u8>)
        ensures
            self@ matches CommandV::Publish { message, .. } && r@ == message,
    {
        &self.message
    }

    /// Reads `channel message` off the cursor.
    pub fn parse_frames(parse: &mut Parse) -> (r: Result<Publish, ParseError>)
        ensures
            old(parse)@.len() == 0 ==> r is Err,
            old(parse)@.len() > 0 ==> match string_of(old(parse)@[0]) {
                Some(c) => ({
                    let rest1 = old(parse)@.drop_first();
                    &&& (rest1.len() != 1 ==> r is Err)
                    &&& (rest1.len() == 1 ==> match bytes_of(rest1[0]) {
                        Some(m) => r matches Ok(p) && p@ == (CommandV::Publish {
                            channel: c,
                            message: m,
                        }) && final(parse)@.len() == 0,
                        None => r is Err,
                    })
                }),
                None => r is Err,
            },
    {
        let channel = match parse.next_string() {
            Ok(c) => c,
            Err(e) => {
                return Err(e);
            }
        };
        let message = match parse.next_bytes() {
            Ok(m) => m,
            Err(e) => {
                return Err(e);
            }
        };
        match parse.finish() {
            Ok(_) => Ok(Publish { channel, message }),
            Err(e) => Err(e),
        }
    }

    /// The reply: the subscriber count as an integer frame.
    pub fn response(subscriber_count: u64) -> (r: Frame)
        ensures
            r@ == FrameV::Int(subscriber_count),
    {
        Frame::Int(subscriber_count)
    }
}

} // verus!
