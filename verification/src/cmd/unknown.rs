//! The reply to a command name the server does not know.  An unknown name
//! keeps the connection alive: the client gets an error frame, not a
//! closed socket.

use crate::cmd::CommandV;
use crate::frame::{Frame, FrameV};
use vstd::prelude::*;

verus! {

/// A command whose name is not recognized.
#[derive(Debug)]
pub struct Unknown {
    cmd_name: String,
}

impl View for Unknown {
    type V = CommandV;

    closed spec fn view(&self) -> CommandV {
        CommandV::Unknown { name: self.cmd_name@ }
    }
}

impl Unknown {
    /// The view of a `Unknown` is always the `Unknown` variant.
    pub proof fn view_shape(&self)
        ensures
            self@ is Unknown,
    {
    }

    /// Creates a new `Unknown` command carrying the unrecognized name.
    pub fn new(key: String) -> (r: Unknown)
        ensures
            r@ == (CommandV::Unknown { name: key@ }),
    {
        Unknown { cmd_name: key }
    }

    /// The unrecognized name.
    pub fn get_name(&self) -> (r: &str)
        ensures
            self@ matches CommandV::Unknown { name } && r@ == name,
    {
        self.cmd_name.as_str()
    }

    /// The reply: an error frame naming the command, and nothing else.
    pub fn response(&self) -> (r: Frame)
        ensures
            self@ matches CommandV::Unknown { name } && r@ == FrameV::Error(
                "err unknown command '"@ + name + "'"@,
            ),
    {
        let mut m = String::from_str("err unknown command '");
        m.append(self.cmd_name.as_str());
        m.append("'");
        Frame::Error(m)
    }
}

} // verus!
