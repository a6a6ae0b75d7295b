//! The SET command: store a value under a key, with an optional expiry.

use crate::cmd::CommandV;
use crate::frame::{Frame, FrameV};
use crate::parse::{bytes_of, int_of, string_of, Parse, ParseError};
use vstd::prelude::*;

verus! {

/// A time to live, as the client stated it.
#[derive(Clone, Copy, Debug, PartialEq, Eq, Structural)]
pub enum Expiration {
    /// `EX n`: n seconds.
    Seconds(u64),
    /// `PX n`: n milliseconds.
    Millis(u64),
}

/// The expiry option name `EX`, matched without regard to ASCII case.
pub open spec fn is_ex_word(s: Seq<char>) -> bool {
    s.len() == 2 && (s[0] == 'e' || s[0] == 'E') && (s[1] == 'x' || s[1] == 'X')
}

/// The expiry option name `PX`, matched without regard to ASCII case.
pub open spec fn is_px_word(s: Seq<char>) -> bool {
    s.len() == 2 && (s[0] == 'p' || s[0] == 'P') && (s[1] == 'x' || s[1] == 'X')
}

/// Store `value` under `key`, expiring after the optional time to live.
#[derive(Debug)]
pub struct SetCmd {
    key: String,
    value: Vec<u8>,
    expire: Option<Expiration>,
}

impl View for SetCmd {
    type V = CommandV;

    closed spec fn view(&self) -> CommandV {
        CommandV::SetCmd { key: self.key@, value: self.value@, expire: self.expire }
    }
}

/// What the SET arguments after key and value denote, if anything.
pub open spec fn set_tail(rest: Seq<FrameV>) -> Option<Option<Expiration>> {
    if rest.len() == 0 {
        Some(None)
    } else if rest.len() == 2 {
        match (string_of(rest[0]), int_of(rest[1])) {
            (Some(w), Some(n)) => if is_ex_word(w) {
                Some(Some(Expiration::Seconds(n)))
            } else if is_px_word(w) {
                Some(Some(Expiration::Millis(n)))
            } else {
                None
            },
            _ => None,
        }
    } else {
        None
    }
}

impl SetCmd {
    /// The view of a `SetCmd` is always the `SetCmd` variant.
    pub proof fn view_shape(&self)
        ensures
            self@ is SetCmd,
    {
    }

    /// Creates a new `Set` command.
    pub fn new(key: String, value: Vec<u8>, expire: Option<Expiration>) -> (r: SetCmd)
        ensures
            r@ == (CommandV::SetCmd { key: key@, value: value@, expire }),
    {
        SetCmd { key, value, expire }
    }

    /// The key to set.
    pub fn key(&self) -> (r: &str)
        ensures
            self@ matches CommandV::SetCmd { key, .. } && r@ == key,
    {
        self.key.as_str()
    }

    /// The value to store.
    pub fn value(&self) -> (r: &Vec<u8>)
        ensures
            self@ matches CommandV::SetCmd { value, .. } && r@ == value,
    {
        &self.value
    }

    /// The optional time to live.
    pub fn expire(&self) -> (r: Option<Expiration>)
        ensures
            self@ matches CommandV::SetCmd { expire, .. } && r == expire,
    {
        self.expire
    }

    /// Reads `key value [EX seconds | PX milliseconds]` off the cursor.
    pub fn parse_frames(parse: &mut Parse) -> (r: Result<SetCmd, ParseError>)
        ensures
            old(parse)@.len() == 0 ==> r is Err,
            old(parse)@.len() > 0 ==> match string_of(old(parse)@[0]) {
                Some(k) => ({
                    let rest1 = old(parse)@.drop_first();
                    &&& (rest1.len() == 0 ==> r is Err)
                    &&& (rest1.len() > 0 ==> match bytes_of(rest1[0]) {
                        Some(v) => match set_tail(rest1.drop_first()) {
                            Some(expire) => r matches Ok(c) && c@ == (CommandV::SetCmd {
                                key: k,
                                value: v,
                                expire,
                            }) && final(parse)@.len() == 0,
                            None => r is Err,
                        },
                        None => r is Err,
                    })
                }),
                None => r is Err,
            },
    {
        let key = match parse.next_string() {
            Ok(k) => k,
            Err(e) => {
                return Err(e);
            }
        };
        let value = match parse.next_bytes() {
            Ok(v) => v,
            Err(e) => {
                return Err(e);
            }
        };
        let word = match parse.next_string() {
            Ok(w) => w,
            Err(ParseError::EndOfStream) => {
                return Ok(SetCmd { key, value, expire: None });
            }
            Err(e) => {
                return Err(e);
            }
        };
        let ws = word.as_str();
        if ws.unicode_len() != 2 {
            return Err(set_option_error());
        }
        let c0 = ws.get_char(0);
        let c1 = ws.get_char(1);
        let is_x = c1 == 'x' || c1 == 'X';
        let n = match parse.next_int() {
            Ok(n) => n,
            Err(e) => {
                return Err(e);
            }
        };
        let expire = if (c0 == 'e' || c0 == 'E') && is_x {
            Expiration::Seconds(n)
        } else if (c0 == 'p' || c0 == 'P') && is_x {
            Expiration::Millis(n)
        } else {
            return Err(set_option_error());
        };
        match parse.finish() {
            Ok(_) => Ok(SetCmd { key, value, expire: Some(expire) }),
            Err(e) => Err(e),
        }
    }

    /// The reply to a successful SET: the fixed simple string `OK`.
    pub fn response() -> (r: Frame)
        ensures
            r@ == FrameV::Simple("OK"@),
    {
        Frame::Simple(String::from_str("OK"))
    }
}

fn set_option_error() -> (e: ParseError)
    ensures
        e is Other,
{
    ParseError::Other(String::from_str("currently SET only supports the expiration option"))
}

} // verus!
