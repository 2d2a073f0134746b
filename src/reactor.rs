//! The decisions of the receive loop. The loop itself (polling, receiving,
//! reading the control channel) runs outside the library: it reports what
//! happened as an `Event`, and performs the `Action` that comes back.

use crate::metrics::{payload_value, result_view, ParseMessageError, StatMsg};
use vstd::prelude::*;
use vstd::string::StringSliceAdditionalSpecFns;
use vstd::utf8::{decode_utf8, encode_utf8_decode_utf8, valid_utf8};

verus! {

/// The identifier under which the socket is registered with the poller.
pub const SOCKET_SOURCE: usize = 0;

/// The identifier under which the control channel is registered.
pub const CHANNEL_SOURCE: usize = 1;

/// The size of the receive buffer: the largest payload a UDP datagram
/// carries, so that no datagram is cut short.
pub const RECV_BUFFER_SIZE: usize = 65507;

/// Why the loop ended.
#[derive(Clone, Copy, Debug, PartialEq, Eq, Structural)]
pub enum StopReason {
    /// The cancellation token was triggered.
    Cancelled,
    /// The socket's receive failed.
    SocketError,
    /// A receive on a socket reported readable found nothing to read.
    NothingReceived,
    /// A datagram was not valid UTF-8.
    NotUtf8,
    /// The poller reported a source that was never registered.
    UnknownSource,
}

/// What the loop saw.
pub enum Event {
    /// The poller reported `source` ready; `readable` tells whether for reading.
    Ready { source: usize, readable: bool },
    /// A receive returned these bytes.
    Datagram(Vec<u8>),
    /// A receive found nothing to read (it would have blocked).
    WouldBlock,
    /// A receive failed.
    RecvFailed,
    /// A message taken from the control channel.
    Control(String),
    /// The control channel held no message.
    ControlEmpty,
    /// The cancellation token was seen triggered.
    Cancelled,
}

/// What the loop is to do next.
pub enum Action {
    /// Receive one datagram from the socket.
    Receive,
    /// Take one message from the control channel.
    TakeControl,
    /// Hand this decoded payload, or its parse error, to the sink.
    Deliver(Result<StatMsg, ParseMessageError>),
    /// Log this control message.
    Note(String),
    /// Nothing to do: wait for the poller again.
    Wait,
    /// End the loop.
    Stop(StopReason),
}

/// Why an action ends the loop, if it does.
pub open spec fn stop_of(a: Action) -> Option<StopReason> {
    match a {
        Action::Stop(why) => Some(why),
        _ => None,
    }
}

/// How a running loop answers `ev`.
pub open spec fn reacts(ev: Event, a: Action) -> bool {
    match ev {
        Event::Ready { source, readable } => if source == SOCKET_SOURCE {
            a == (if readable {
                Action::Receive
            } else {
                Action::Wait
            })
        } else if source == CHANNEL_SOURCE {
            a == Action::TakeControl
        } else {
            a == Action::Stop(StopReason::UnknownSource)
        },
        Event::Datagram(b) => if valid_utf8(b@) {
            &&& a is Deliver
            &&& result_view(a->Deliver_0) == payload_value(decode_utf8(b@))
        } else {
            a == Action::Stop(StopReason::NotUtf8)
        },
        Event::WouldBlock => a == Action::Stop(StopReason::NothingReceived),
        Event::RecvFailed => a == Action::Stop(StopReason::SocketError),
        Event::Control(m) => a is Note && a->Note_0@ == m@,
        Event::ControlEmpty => a == Action::Wait,
        Event::Cancelled => a == Action::Stop(StopReason::Cancelled),
    }
}

/// Relies on `std::str::from_utf8`: it accepts exactly the valid UTF-8
/// byte strings, and the text it returns is made of those bytes.
#[verifier::external_body]
fn utf8_text<'a>(b: &'a [u8]) -> (r: Option<&'a str>)
    ensures
        r is Some <==> valid_utf8(b@),
        r matches Some(t) ==> t.spec_bytes() == b@,
{
    std::str::from_utf8(b).ok()
}

/// The state of the loop: running, or stopped for a reason.
pub struct Reactor {
    stopped: Option<StopReason>,
}

impl Reactor {
    /// Why the loop stopped; `None` while it runs.
    pub closed spec fn halted(&self) -> Option<StopReason> {
        self.stopped
    }

    /// A running loop.
    pub fn new() -> (r: Reactor)
        ensures
            r.halted() is None,
    {
        Reactor { stopped: None }
    }

    /// Why the loop stopped; `None` while it runs.
    pub fn stop_reason(&self) -> (r: Option<StopReason>)
        ensures
            r == self.halted(),
    {
        self.stopped
    }

    /// Decides what to do on `ev`. A stopped loop answers every event by
    /// stopping again; a running one stops exactly when its answer is `Stop`.
    pub fn on_event(&mut self, ev: Event) -> (a: Action)
        ensures
            match old(self).halted() {
                Some(why) => a == Action::Stop(why) && final(self).halted() == Some(why),
                None => reacts(ev, a) && final(self).halted() == stop_of(a),
            },
    {
        if let Some(why) = self.stopped {
            return Action::Stop(why);
        }
        let a = match ev {
            Event::Ready { source, readable } => {
                if source == SOCKET_SOURCE {
                    if readable {
                        Action::Receive
                    } else {
                        Action::Wait
                    }
                } else if source == CHANNEL_SOURCE {
                    Action::TakeControl
                } else {
                    Action::Stop(StopReason::UnknownSource)
                }
            },
            Event::Datagram(b) => match utf8_text(b.as_slice()) {
                Some(t) => {
                    proof {
                        encode_utf8_decode_utf8(t@);
                    }
                    Action::Deliver(StatMsg::parse(t))
                },
                None => Action::Stop(StopReason::NotUtf8),
            },
            Event::WouldBlock => Action::Stop(StopReason::NothingReceived),
            Event::RecvFailed => Action::Stop(StopReason::SocketError),
            Event::Control(m) => Action::Note(m),
            Event::ControlEmpty => Action::Wait,
            Event::Cancelled => Action::Stop(StopReason::Cancelled),
        };
        if let Action::Stop(why) = a {
            self.stopped = Some(why);
        }
        a
    }
}

} // verus!
