//! The SUBSCRIBE and UNSUBSCRIBE commands, and the per-connection
//! subscription state they drive.
//!
//! Once a connection is subscribed it lives in a select loop that serves
//! channel messages, further SUBSCRIBE / UNSUBSCRIBE / PING commands, and
//! the shutdown signal.  The waiting itself is the caller's business; the
//! state — which channels are held, in what order, with what acks — is
//! modelled and verified here.

use crate::cmd::CommandV;
use crate::frame::{array_els, Frame, FrameV};
use crate::parse::{string_of, Parse, ParseError};
use vstd::prelude::*;
use vstd::utf8::encode_utf8;

verus! {

/// The texts of a run of frame elements, when every one of them is text.
pub open spec fn strings_of(fvs: Seq<FrameV>) -> Option<Seq<Seq<char>>>
    decreases fvs.len(),
{
    if fvs.len() == 0 {
        Some(Seq::empty())
    } else {
        match string_of(fvs[0]) {
            Some(c) => match strings_of(fvs.drop_first()) {
                Some(cs) => Some(seq![c] + cs),
                None => None,
            },
            None => None,
        }
    }
}

/// The views of a vector of channel names.
pub open spec fn strs_view(v: Seq<String>) -> Seq<Seq<char>> {
    Seq::new(v.len(), |i: int| if 0 <= i < v.len() { v[i]@ } else { Seq::empty() })
}

/// Subscribes the client to one or more channels.
#[derive(Debug)]
pub struct Subscribe {
    channels: Vec<String>,
}

/// Unsubscribes the client from the named channels, or from every channel
/// when none is named.
#[derive(Debug)]
pub struct Unsubscribe {
    channels: Vec<String>,
}

impl View for Subscribe {
    type V = CommandV;

    closed spec fn view(&self) -> CommandV {
        CommandV::Subscribe { channels: strs_view(self.channels@) }
    }
}

impl View for Unsubscribe {
    type V = CommandV;

    closed spec fn view(&self) -> CommandV {
        CommandV::Unsubscribe { channels: strs_view(self.channels@) }
    }
}

/// Reads every remaining element as a channel name.
fn read_channels(parse: &mut Parse) -> (r: Result<Vec<String>, ParseError>)
    ensures
        match strings_of(old(parse)@) {
            Some(cs) => r matches Ok(v) && strs_view(v@) == cs && final(parse)@.len() == 0,
            None => r matches Err(e) && e is Other,
        },
{
    let mut channels: Vec<String> = Vec::new();
    proof {
        assert(strs_view(channels@) =~= Seq::<Seq<char>>::empty());
        assert(strings_of(old(parse)@) matches Some(cs0) ==> cs0 =~= strs_view(channels@)
            + strings_of(parse@)->Some_0);
    }
    loop
        invariant_except_break
            strings_of(old(parse)@) matches Some(cs0) ==> (strings_of(parse@) is Some && cs0
                == strs_view(channels@) + strings_of(parse@)->Some_0),
            strings_of(old(parse)@) is None ==> strings_of(parse@) is None,
        ensures
            strings_of(old(parse)@) is Some,
            strings_of(old(parse)@) matches Some(cs) ==> strs_view(channels@) == cs
                && parse@.len() == 0,
        decreases parse@.len(),
    {
        let ghost pre = parse@;
        let ghost prechans = channels@;
        match parse.next_string() {
            Ok(s) => {
                let ghost sv = s@;
                channels.push(s);
                proof {
                    if strings_of(old(parse)@) is Some {
                        assert(string_of(pre[0]) == Some(sv));
                        assert(strings_of(pre) is Some);
                        let pcs = strings_of(pre)->Some_0;
                        assert(strings_of(parse@) is Some);
                        assert(pcs == seq![sv] + strings_of(parse@)->Some_0);
                        assert(strs_view(channels@) =~= strs_view(prechans).push(sv));
                        assert(strs_view(channels@) + strings_of(parse@)->Some_0 =~= strs_view(
                            prechans,
                        ) + pcs);
                    } else {
                        assert(strings_of(pre) is None);
                        assert(string_of(pre[0]) is Some);
                        assert(strings_of(parse@) is None);
                    }
                }
            }
            Err(ParseError::EndOfStream) => {
                proof {
                    assert(parse@.len() == 0);
                    assert(strings_of(parse@) == Some(Seq::<Seq<char>>::empty()));
                    if strings_of(old(parse)@) is Some {
                        let cs0 = strings_of(old(parse)@)->Some_0;
                        assert(cs0 =~= strs_view(channels@));
                    }
                }
                break ;
            }
            Err(e) => {
                proof {
                    if strings_of(old(parse)@) is Some {
                        assert(strings_of(pre) is Some);
                        assert(string_of(pre[0]) is Some);
                        assert(false);
                    }
                }
                return Err(e);
            }
        }
    }
    Ok(channels)
}

impl Subscribe {
    /// The view of a `Subscribe` is always the `Subscribe` variant.
    pub proof fn view_shape(&self)
        ensures
            self@ is Subscribe,
    {
    }

    /// Creates a new `Subscribe` command for the given channels.
    pub fn new(channels: Vec<String>) -> (r: Subscribe)
        ensures
            r@ == (CommandV::Subscribe { channels: strs_view(channels@) }),
    {
        Subscribe { channels }
    }

    /// The channels to subscribe to.
    pub fn channels(&self) -> (r: &Vec<String>)
        ensures
            self@ matches CommandV::Subscribe { channels } && strs_view(r@) == channels,
    {
        &self.channels
    }

    /// Reads one or more channel names off the cursor.
    pub fn parse_frames(parse: &mut Parse) -> (r: Result<Subscribe, ParseError>)
        ensures
            old(parse)@.len() == 0 ==> (r matches Err(e) && e is EndOfStream),
            old(parse)@.len() > 0 ==> match strings_of(old(parse)@) {
                Some(cs) => r matches Ok(s) && s@ == (CommandV::Subscribe { channels: cs })
                    && final(parse)@.len() == 0,
                None => r matches Err(e) && e is Other,
            },
    {
        match parse.finish() {
            Ok(_) => {
                return Err(ParseError::EndOfStream);
            }
            Err(_) => {}
        }
        match read_channels(parse) {
            Ok(channels) => Ok(Subscribe { channels }),
            Err(e) => Err(e),
        }
    }
}

impl Unsubscribe {
    /// The view of an `Unsubscribe` is always the `Unsubscribe` variant.
    pub proof fn view_shape(&self)
        ensures
            self@ is Unsubscribe,
    {
    }

    /// Creates a new `Unsubscribe` command; an empty list means every
    /// channel.
    pub fn new(channels: Vec<String>) -> (r: Unsubscribe)
        ensures
            r@ == (CommandV::Unsubscribe { channels: strs_view(channels@) }),
    {
        Unsubscribe { channels }
    }

    /// The channels to drop, possibly none (meaning all).
    pub fn channels(&self) -> (r: &Vec<String>)
        ensures
            self@ matches CommandV::Unsubscribe { channels } && strs_view(r@) == channels,
    {
        &self.channels
    }

    /// Reads any number of channel names off the cursor.
    pub fn parse_frames(parse: &mut Parse) -> (r: Result<Unsubscribe, ParseError>)
        ensures
            match strings_of(old(parse)@) {
                Some(cs) => r matches Ok(u) && u@ == (CommandV::Unsubscribe { channels: cs })
                    && final(parse)@.len() == 0,
                None => r matches Err(e) && e is Other,
            },
    {
        match read_channels(parse) {
            Ok(channels) => Ok(Unsubscribe { channels }),
            Err(e) => Err(e),
        }
    }
}

/// The ack sent after entering a channel: `["subscribe", channel, count]`.
pub open spec fn subscribe_ack(chan: Seq<char>, count: u64) -> FrameV {
    FrameV::Array(
        seq![
            FrameV::Bulk(encode_utf8("subscribe"@)),
            FrameV::Bulk(encode_utf8(chan)),
            FrameV::Int(count),
        ],
    )
}

/// The ack sent after leaving a channel: `["unsubscribe", channel, count]`.
pub open spec fn unsubscribe_ack(chan: Seq<char>, count: u64) -> FrameV {
    FrameV::Array(
        seq![
            FrameV::Bulk(encode_utf8("unsubscribe"@)),
            FrameV::Bulk(encode_utf8(chan)),
            FrameV::Int(count),
        ],
    )
}

/// The push sent for a channel message: `["message", channel, payload]`.
pub open spec fn message_push(chan: Seq<char>, payload: Seq<u8>) -> FrameV {
    FrameV::Array(
        seq![
            FrameV::Bulk(encode_utf8("message"@)),
            FrameV::Bulk(encode_utf8(chan)),
            FrameV::Bulk(payload),
        ],
    )
}

/// Builds the response to a subscribe request.
pub fn make_subscribe_frame(chan_name: String, num_subs: u64) -> (r: Frame)
    ensures
        r@ == subscribe_ack(chan_name@, num_subs),
{
    let ghost chan = chan_name@;
    let mut resp = Frame::array();
    resp.push_bulk("subscribe".as_bytes_vec());
    resp.push_bulk(chan_name.as_str().as_bytes_vec());
    resp.push_int(num_subs);
    proof {
        assert(array_els(resp@) =~= array_els(subscribe_ack(chan, num_subs)));
    }
    resp
}

/// Builds the response to an unsubscribe request.
pub fn make_unsubscribe_frame(chan_name: String, num_subs: u64) -> (r: Frame)
    ensures
        r@ == unsubscribe_ack(chan_name@, num_subs),
{
    let ghost chan = chan_name@;
    let mut resp = Frame::array();
    resp.push_bulk("unsubscribe".as_bytes_vec());
    resp.push_bulk(chan_name.as_str().as_bytes_vec());
    resp.push_int(num_subs);
    proof {
        assert(array_els(resp@) =~= array_els(unsubscribe_ack(chan, num_subs)));
    }
    resp
}

/// Builds the push informing the client of a new message on a channel it
/// subscribes to.
pub fn make_message_frame(chan_name: String, msg: Vec<u8>) -> (r: Frame)
    ensures
        r@ == message_push(chan_name@, msg@),
{
    let ghost chan = chan_name@;
    let ghost m = msg@;
    let mut resp = Frame::array();
    resp.push_bulk("message".as_bytes_vec());
    resp.push_bulk(chan_name.as_str().as_bytes_vec());
    resp.push_bulk(msg);
    proof {
        assert(array_els(resp@) =~= array_els(message_push(chan, m)));
    }
    resp
}

/// The channels a subscribed connection holds, in subscription order,
/// each at most once.
pub struct Subscriptions {
    channels: Vec<String>,
}

impl View for Subscriptions {
    type V = Seq<Seq<char>>;

    closed spec fn view(&self) -> Seq<Seq<char>> {
        strs_view(self.channels@)
    }
}

impl Subscriptions {
    /// Each held channel appears once.
    pub open spec fn wf(&self) -> bool {
        forall|i: int, j: int| 0 <= i < j < self@.len() ==> self@[i] != self@[j]
    }

    /// An empty subscription set.
    pub fn new() -> (r: Subscriptions)
        ensures
            r@.len() == 0,
            r.wf(),
    {
        let r = Subscriptions { channels: Vec::new() };
        proof {
            assert(r@ =~= Seq::<Seq<char>>::empty());
        }
        r
    }

    /// How many channels are held.
    pub fn len(&self) -> (r: usize)
        ensures
            r == self@.len(),
    {
        self.channels.len()
    }

    /// Whether the named channel is held.
    pub fn contains(&self, name: &String) -> (r: bool)
        ensures
            r == self@.contains(name@),
    {
        let mut i: usize = 0;
        while i < self.channels.len()
            invariant
                i <= self@.len(),
                self@.len() == self.channels@.len(),
                forall|k: int| 0 <= k < self@.len() ==> self@[k] == self.channels@[k]@,
                forall|k: int| 0 <= k < i as int ==> self@[k] != name@,
            decreases self@.len() - i,
        {
            if self.channels[i] == *name {
                proof {
                    assert(self@[i as int] == name@);
                }
                return true;
            }
            i = i + 1;
        }
        proof {
            if self@.contains(name@) {
                let k = choose|k: int| 0 <= k < self@.len() && self@[k] == name@;
                assert(false);
            }
        }
        false
    }

    /// Holds one more channel: appended if new, left alone if already
    /// held (re-subscribing replaces the stream, not the membership).
    pub fn insert(&mut self, name: String) -> (added: bool)
        requires
            old(self).wf(),
        ensures
            final(self).wf(),
            added == !old(self)@.contains(name@),
            added ==> final(self)@ == old(self)@.push(name@),
            !added ==> final(self)@ == old(self)@,
    {
        if self.contains(&name) {
            return false;
        }
        let ghost pre = self@;
        self.channels.push(name);
        proof {
            assert(self@ =~= pre.push(name@));
            assert forall|i: int, j: int| 0 <= i < j < self@.len() implies self@[i]
                != self@[j] by {
                if j == self@.len() - 1 {
                    assert(!pre.contains(self@[j]));
                }
            }
        }
        true
    }

    /// Drops the named channel if held, keeping the order of the rest.
    pub fn remove(&mut self, name: &String) -> (removed: bool)
        requires
            old(self).wf(),
        ensures
            final(self).wf(),
            removed == old(self)@.contains(name@),
            removed ==> final(self)@ == old(self)@.remove_value(name@),
            !removed ==> final(self)@ == old(self)@,
    {
        let mut i: usize = 0;
        while i < self.channels.len()
            invariant
                old(self).wf(),
                self@ == old(self)@,
                self.channels@.len() == self@.len(),
                forall|k: int| 0 <= k < self@.len() ==> self@[k] == self.channels@[k]@,
                i <= self@.len(),
                forall|k: int| 0 <= k < i as int ==> self@[k] != name@,
            decreases self@.len() - i,
        {
            if self.channels[i] == *name {
                let ghost pre = self@;
                proof {
                    assert(pre[i as int] == name@);
                    pre.index_of_first_ensures(name@);
                    assert(pre.contains(name@));
                    assert(pre.index_of_first(name@) == Some(i as int));
                }
                self.channels.remove(i);
                proof {
                    assert(self@ =~= pre.remove(i as int));
                    assert(pre.remove_value(name@) == pre.remove(i as int));
                    assert forall|a: int, b: int| 0 <= a < b < self@.len() implies self@[a]
                        != self@[b] by {
                        assert(self@[a] == if a < i as int {
                            pre[a]
                        } else {
                            pre[a + 1]
                        });
                        assert(self@[b] == if b < i as int {
                            pre[b]
                        } else {
                            pre[b + 1]
                        });
                    }
                    assert(pre.contains(name@));
                }
                return true;
            }
            i = i + 1;
        }
        proof {
            if self@.contains(name@) {
                let k = choose|k: int| 0 <= k < self@.len() && self@[k] == name@;
                assert(false);
            }
        }
        false
    }
}

impl Subscriptions {
    /// Enters one channel and builds its ack, whose count is the number of
    /// channels held afterwards.  Re-entering a held channel replaces its
    /// stream but not its membership, and is acked all the same.
    pub fn subscribe_one(&mut self, chan: String) -> (ack: Frame)
        requires
            old(self).wf(),
        ensures
            final(self).wf(),
            !old(self)@.contains(chan@) ==> final(self)@ == old(self)@.push(chan@),
            old(self)@.contains(chan@) ==> final(self)@ == old(self)@,
            ack@ == subscribe_ack(chan@, final(self)@.len() as u64),
    {
        let name = chan.clone();
        self.insert(name);
        let n = self.len();
        make_subscribe_frame(chan, n as u64)
    }

    /// Leaves one channel and builds its ack, whose count is the number of
    /// channels still held.  Leaving a channel not held is a no-op, still
    /// acked.
    pub fn unsubscribe_one(&mut self, chan: String) -> (ack: Frame)
        requires
            old(self).wf(),
        ensures
            final(self).wf(),
            old(self)@.contains(chan@) ==> final(self)@ == old(self)@.remove_value(chan@),
            !old(self)@.contains(chan@) ==> final(self)@ == old(self)@,
            ack@ == unsubscribe_ack(chan@, final(self)@.len() as u64),
    {
        self.remove(&chan);
        let n = self.len();
        make_unsubscribe_frame(chan, n as u64)
    }

    /// Leaves every channel: one ack per channel, in subscription order,
    /// counting down to zero; the set ends empty, which ends the
    /// subscribed loop.
    pub fn unsubscribe_all(&mut self) -> (acks: Vec<Frame>)
        requires
            old(self).wf(),
        ensures
            final(self)@.len() == 0,
            final(self).wf(),
            acks@.len() == old(self)@.len(),
            forall|k: int|
                0 <= k < acks@.len() ==> (#[trigger] acks@[k])@ == unsubscribe_ack(
                    old(self)@[k],
                    (old(self)@.len() - 1 - k) as u64,
                ),
    {
        let ghost orig = self@;
        let mut acks: Vec<Frame> = Vec::new();
        while self.channels.len() > 0
            invariant
                self@ =~= orig.skip(acks@.len() as int),
                acks@.len() <= orig.len(),
                self.channels@.len() == self@.len(),
                forall|k: int| 0 <= k < self@.len() ==> self@[k] == self.channels@[k]@,
                forall|k: int|
                    0 <= k < acks@.len() ==> (#[trigger] acks@[k])@ == unsubscribe_ack(
                        orig[k],
                        (orig.len() - 1 - k) as u64,
                    ),
            decreases self.channels@.len(),
        {
            let ghost pre = self@;
            let name = self.channels.remove(0);
            let n = self.channels.len();
            let ack = make_unsubscribe_frame(name, n as u64);
            acks.push(ack);
            proof {
                assert(self@ =~= pre.drop_first());
                assert(self@ =~= orig.skip(acks@.len() as int));
                assert(pre[0] == orig[acks@.len() - 1]);
            }
        }
        proof {
            assert(self@ =~= Seq::<Seq<char>>::empty());
        }
        acks
    }

    /// When the subscribed loop ends: the subscription set has emptied,
    /// the peer's read side has closed, or the shutdown signal has fired.
    pub fn loop_done(&self, shutdown_seen: bool, read_closed: bool) -> (r: bool)
        ensures
            r == (self@.len() == 0 || shutdown_seen || read_closed),
    {
        self.channels.len() == 0 || shutdown_seen || read_closed
    }
}

} // verus!
