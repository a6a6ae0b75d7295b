//! The command model: the closed set of supported operations, read out of
//! an array frame whose first element is a case-insensitive command name.

mod get;

pub use get::Get;

mod set_cmd;

pub use set_cmd::Expiration;
pub use set_cmd::SetCmd;

mod publish;

pub use publish::Publish;

mod ping;

pub use ping::Ping;

mod subscribe;

pub use subscribe::{make_message_frame, make_subscribe_frame, make_unsubscribe_frame,
    message_push, strings_of, strs_view, subscribe_ack, unsubscribe_ack, Subscribe,
    Subscriptions, Unsubscribe};

mod unknown;

pub use unknown::Unknown;

use crate::frame::{array_els, Frame, FrameV};
use crate::parse::{bytes_of, string_of, Parse, ParseError};
use set_cmd::set_tail;
use ping::ping_args;
use vstd::prelude::*;
use vstd::utf8::{decode_utf8, encode_utf8, valid_utf8};

verus! {

/// Mathematical model of a command.
pub enum CommandV {
    Get { key: Seq<char> },
    SetCmd { key: Seq<char>, value: Seq<u8>, expire: Option<Expiration> },
    Publish { channel: Seq<char>, message: Seq<u8> },
    Subscribe { channels: Seq<Seq<char>> },
    Unsubscribe { channels: Seq<Seq<char>> },
    Ping { msg: Option<Seq<u8>> },
    Unknown { name: Seq<char> },
}

/// Enumeration of the supported commands.
#[derive(Debug)]
pub enum Command {
    Get(Get),
    Publish(Publish),
    SetCmd(SetCmd),
    Subscribe(Subscribe),
    Unsubscribe(Unsubscribe),
    Ping(Ping),
    Unknown(Unknown),
}

impl View for Command {
    type V = CommandV;

    open spec fn view(&self) -> CommandV {
        match self {
            Command::Get(c) => c@,
            Command::Publish(c) => c@,
            Command::SetCmd(c) => c@,
            Command::Subscribe(c) => c@,
            Command::Unsubscribe(c) => c@,
            Command::Ping(c) => c@,
            Command::Unknown(c) => c@,
        }
    }
}

/// ASCII lowering of one byte: the letters `A` to `Z` map down, every
/// other byte stays.
pub open spec fn lower_byte(b: u8) -> u8 {
    if 65 <= b <= 90 {
        (b + 32) as u8
    } else {
        b
    }
}

/// ASCII lowering of a byte string.
pub open spec fn lower_bytes(s: Seq<u8>) -> Seq<u8> {
    s.map_values(|b: u8| lower_byte(b))
}

/// The command name after ASCII lowering, when the lowered bytes are still
/// valid UTF-8 (lowering touches only ASCII letters, so a name that came
/// from text always is).
pub open spec fn lowered(s: Seq<char>) -> Option<Seq<char>> {
    if valid_utf8(lower_bytes(encode_utf8(s))) {
        Some(decode_utf8(lower_bytes(encode_utf8(s))))
    } else {
        None
    }
}

/// What an array frame's elements denote as a command, if anything.
///
/// The first element, lowered, selects the variant; the rest are consumed
/// positionally.  An unrecognized name is no failure: it denotes
/// `Unknown` and the remaining elements are ignored.  For a recognized
/// name, leftover elements after its arity are a failure.
pub open spec fn parse_command(els: Seq<FrameV>) -> Option<CommandV> {
    if els.len() == 0 {
        None
    } else {
        match string_of(els[0]) {
            None => None,
            Some(raw) => match lowered(raw) {
                None => None,
                Some(name) => {
                    let rest = els.drop_first();
                    if name == "get"@ {
                        if rest.len() == 1 {
                            match string_of(rest[0]) {
                                Some(k) => Some(CommandV::Get { key: k }),
                                None => None,
                            }
                        } else {
                            None
                        }
                    } else if name == "set"@ {
                        if rest.len() >= 2 {
                            match (string_of(rest[0]), bytes_of(rest[1])) {
                                (Some(k), Some(v)) => match set_tail(rest.drop_first().drop_first()) {
                                    Some(expire) => Some(
                                        CommandV::SetCmd { key: k, value: v, expire },
                                    ),
                                    None => None,
                                },
                                _ => None,
                            }
                        } else {
                            None
                        }
                    } else if name == "publish"@ {
                        if rest.len() == 2 {
                            match (string_of(rest[0]), bytes_of(rest[1])) {
                                (Some(c), Some(m)) => Some(
                                    CommandV::Publish { channel: c, message: m },
                                ),
                                _ => None,
                            }
                        } else {
                            None
                        }
                    } else if name == "subscribe"@ {
                        if rest.len() >= 1 {
                            match strings_of(rest) {
                                Some(cs) => Some(CommandV::Subscribe { channels: cs }),
                                None => None,
                            }
                        } else {
                            None
                        }
                    } else if name == "unsubscribe"@ {
                        match strings_of(rest) {
                            Some(cs) => Some(CommandV::Unsubscribe { channels: cs }),
                            None => None,
                        }
                    } else if name == "ping"@ {
                        match ping_args(rest) {
                            Some(m) => Some(CommandV::Ping { msg: m }),
                            None => None,
                        }
                    } else {
                        Some(CommandV::Unknown { name })
                    }
                },
            },
        }
    }
}

/// ASCII-lowers a byte string.
fn lower_vec(v: &[u8]) -> (r: Vec<u8>)
    ensures
        r@ == lower_bytes(v@),
{
    let mut out: Vec<u8> = Vec::new();
    let mut i: usize = 0;
    while i < v.len()
        invariant
            i <= v@.len(),
            out@ =~= lower_bytes(v@).take(i as int),
        decreases v@.len() - i,
    {
        let b = v[i];
        if 65 <= b && b <= 90 {
            out.push(b + 32);
        } else {
            out.push(b);
        }
        proof {
            assert(out@ =~= lower_bytes(v@).take(i + 1));
        }
        i = i + 1;
    }
    proof {
        assert(out@ =~= lower_bytes(v@));
    }
    out
}

impl Command {
    /// Reads a command from a received frame.
    ///
    /// The frame must be the array variant; its elements must denote one
    /// of the supported commands, or any command shape under an
    /// unrecognized name.
    pub fn from_frame(frame: Frame) -> (r: Result<Command, ParseError>)
        ensures
            frame@ is Array ==> match parse_command(array_els(frame@)) {
                Some(cv) => r matches Ok(c) && c@ == cv,
                None => r is Err,
            },
            !(frame@ is Array) ==> r is Err,
    {
        let ghost els = array_els(frame@);
        let mut parse = match Parse::new(frame) {
            Ok(p) => p,
            Err(e) => {
                return Err(e);
            }
        };
        let raw = match parse.next_string() {
            Ok(s) => s,
            Err(e) => {
                return Err(e);
            }
        };
        let lowered_bytes = lower_vec(raw.as_str().as_bytes());
        let name = match crate::frame::string_from_utf8(lowered_bytes) {
            Some(s) => s,
            None => {
                return Err(ParseError::Other(
                    String::from_str("protocol error; invalid frame format"),
                ));
            }
        };
        let command = if name == String::from_str("get") {
            match Get::parse_frames(&mut parse) {
                Ok(c) => Command::Get(c),
                Err(e) => {
                    return Err(e);
                }
            }
        } else if name == String::from_str("set") {
            return match SetCmd::parse_frames(&mut parse) {
                Ok(c) => Ok(Command::SetCmd(c)),
                Err(e) => Err(e),
            };
        } else if name == String::from_str("publish") {
            match Publish::parse_frames(&mut parse) {
                Ok(c) => Command::Publish(c),
                Err(e) => {
                    return Err(e);
                }
            }
        } else if name == String::from_str("subscribe") {
            match Subscribe::parse_frames(&mut parse) {
                Ok(c) => Command::Subscribe(c),
                Err(e) => {
                    return Err(e);
                }
            }
        } else if name == String::from_str("unsubscribe") {
            match Unsubscribe::parse_frames(&mut parse) {
                Ok(c) => Command::Unsubscribe(c),
                Err(e) => {
                    return Err(e);
                }
            }
        } else if name == String::from_str("ping") {
            return match Ping::parse_frames(&mut parse) {
                Ok(c) => Ok(Command::Ping(c)),
                Err(e) => Err(e),
            };
        } else {
            return Ok(Command::Unknown(Unknown::new(name)));
        };
        match parse.finish() {
            Ok(_) => Ok(command),
            Err(e) => Err(e),
        }
    }

    /// The spec-level name of each command.
    pub open spec fn name_spec(cv: CommandV) -> Seq<char> {
        match cv {
            CommandV::Get { .. } => "get"@,
            CommandV::Publish { .. } => "pub"@,
            CommandV::SetCmd { .. } => "set"@,
            CommandV::Subscribe { .. } => "subscribe"@,
            CommandV::Unsubscribe { .. } => "unsubscribe"@,
            CommandV::Ping { .. } => "ping"@,
            CommandV::Unknown { name } => name,
        }
    }

    /// Returns the command name.
    pub fn get_name(&self) -> (r: &str)
        ensures
            r@ == Command::name_spec(self@),
    {
        match self {
            Command::Get(c) => {
                proof {
                    c.view_shape();
                }
                "get"
            }
            Command::Publish(c) => {
                proof {
                    c.view_shape();
                }
                "pub"
            }
            Command::SetCmd(c) => {
                proof {
                    c.view_shape();
                }
                "set"
            }
            Command::Subscribe(c) => {
                proof {
                    c.view_shape();
                }
                "subscribe"
            }
            Command::Unsubscribe(c) => {
                proof {
                    c.view_shape();
                }
                "unsubscribe"
            }
            Command::Ping(c) => {
                proof {
                    c.view_shape();
                }
                "ping"
            }
            Command::Unknown(cmd) => cmd.get_name(),
        }
    }

    /// Whether the command may arrive while the connection is subscribed:
    /// only further SUBSCRIBE and UNSUBSCRIBE commands and PING are
    /// accepted there; anything else is a protocol error that ends the
    /// connection.
    pub fn valid_while_subscribed(&self) -> (r: bool)
        ensures
            r == (self@ is Subscribe || self@ is Unsubscribe || self@ is Ping),
    {
        match self {
            Command::Subscribe(c) => {
                proof {
                    c.view_shape();
                }
                true
            }
            Command::Unsubscribe(c) => {
                proof {
                    c.view_shape();
                }
                true
            }
            Command::Ping(c) => {
                proof {
                    c.view_shape();
                }
                true
            }
            Command::Get(c) => {
                proof {
                    c.view_shape();
                }
                false
            }
            Command::Publish(c) => {
                proof {
                    c.view_shape();
                }
                false
            }
            Command::SetCmd(c) => {
                proof {
                    c.view_shape();
                }
                false
            }
            Command::Unknown(c) => {
                proof {
                    c.view_shape();
                }
                false
            }
        }
    }

    /// Whether the generic dispatcher accepts the command.  `Unsubscribe`
    /// is meaningful only inside the subscribed loop: reaching generic
    /// dispatch with it is an internal-contract violation, not a protocol
    /// error of the client.
    pub fn accepted_by_dispatch(&self) -> (r: bool)
        ensures
            r == !(self@ is Unsubscribe),
    {
        match self {
            Command::Unsubscribe(c) => {
                proof {
                    c.view_shape();
                }
                false
            }
            Command::Get(c) => {
                proof {
                    c.view_shape();
                }
                true
            }
            Command::Publish(c) => {
                proof {
                    c.view_shape();
                }
                true
            }
            Command::SetCmd(c) => {
                proof {
                    c.view_shape();
                }
                true
            }
            Command::Subscribe(c) => {
                proof {
                    c.view_shape();
                }
                true
            }
            Command::Ping(c) => {
                proof {
                    c.view_shape();
                }
                true
            }
            Command::Unknown(c) => {
                proof {
                    c.view_shape();
                }
                true
            }
        }
    }
}

} // verus!
