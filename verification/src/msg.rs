//! Protocol messages and their mathematical views.
//!
//! Each message carries a single-byte wire identifier; the body layouts are
//! given in `codec`. Messages with a `String` field have a view type whose
//! `plate` (or `msg`) field is the string's character sequence.

use vstd::prelude::*;

verus! {

/// An error report sent to a client before the connection closes.
#[derive(Clone, Debug, PartialEq, Eq)]
pub struct Error(pub String);

/// A speeding ticket for `plate` on `road`, computed from the two
/// observations `(mile1, timestamp1)` and `(mile2, timestamp2)`.
/// `speed` is miles per hour times one hundred.
#[derive(Clone, Debug, PartialEq, Eq)]
pub struct Ticket {
    pub plate: String,
    pub road: u16,
    pub mile1: u16,
    pub timestamp1: u32,
    pub mile2: u16,
    pub timestamp2: u32,
    pub speed: u16,
}

/// The empty keep-alive message.
#[derive(Clone, Copy, Debug, PartialEq, Eq)]
pub struct Heartbeat;

/// A camera's report that `plate` was seen at the camera's position
/// at `timestamp` (seconds).
#[derive(Clone, Debug, PartialEq, Eq)]
pub struct Plate {
    pub plate: String,
    pub timestamp: u32,
}

/// A client's request for periodic heartbeats.
#[derive(Clone, Copy, Debug, PartialEq, Eq)]
pub struct WantHeartbeat {
    pub interval: Decisecond,
}

/// A duration in tenths of a second.
#[derive(Clone, Copy, Debug, PartialEq, Eq)]
pub struct Decisecond(pub u32);

impl Decisecond {
    /// The same duration in milliseconds.
    pub fn to_millis(&self) -> (r: u64)
        ensures
            r == self.0 * 100,
    {
        (self.0 as u64) * 100
    }
}

/// A client's registration as a camera at `mile` on `road`, which has
/// the posted speed `limit` (miles per hour).
#[derive(Clone, Copy, Debug, PartialEq, Eq)]
pub struct IAmCamera {
    pub road: u16,
    pub mile: u16,
    pub limit: u16,
}

/// A client's registration as a ticket dispatcher for `roads`.
#[derive(Clone, Debug, PartialEq, Eq)]
pub struct IAmDispatcher {
    pub roads: Vec<u16>,
}

/// A protocol message, identified on the wire by a single byte.
pub trait Message {
    /// The wire identifier of this message type.
    spec fn spec_id() -> u8;

    /// The wire identifier of this message type.
    fn id(&self) -> (r: u8)
        ensures
            r == Self::spec_id(),
    ;
}

impl Message for Error {
    open spec fn spec_id() -> u8 {
        0x10
    }

    fn id(&self) -> u8 {
        0x10
    }
}

impl Message for Plate {
    open spec fn spec_id() -> u8 {
        0x20
    }

    fn id(&self) -> u8 {
        0x20
    }
}

impl Message for Ticket {
    open spec fn spec_id() -> u8 {
        0x21
    }

    fn id(&self) -> u8 {
        0x21
    }
}

impl Message for WantHeartbeat {
    open spec fn spec_id() -> u8 {
        0x40
    }

    fn id(&self) -> u8 {
        0x40
    }
}

impl Message for Heartbeat {
    open spec fn spec_id() -> u8 {
        0x41
    }

    fn id(&self) -> u8 {
        0x41
    }
}

impl Message for IAmCamera {
    open spec fn spec_id() -> u8 {
        0x80
    }

    fn id(&self) -> u8 {
        0x80
    }
}

impl Message for IAmDispatcher {
    open spec fn spec_id() -> u8 {
        0x81
    }

    fn id(&self) -> u8 {
        0x81
    }
}

/// The view of a `Plate`.
pub struct PlateV {
    pub plate: Seq<char>,
    pub timestamp: u32,
}

/// The view of a `Ticket`.
pub struct TicketV {
    pub plate: Seq<char>,
    pub road: u16,
    pub mile1: u16,
    pub timestamp1: u32,
    pub mile2: u16,
    pub timestamp2: u32,
    pub speed: u16,
}

impl View for Plate {
    type V = PlateV;

    open spec fn view(&self) -> PlateV {
        PlateV { plate: self.plate@, timestamp: self.timestamp }
    }
}

impl View for Ticket {
    type V = TicketV;

    open spec fn view(&self) -> TicketV {
        TicketV {
            plate: self.plate@,
            road: self.road,
            mile1: self.mile1,
            timestamp1: self.timestamp1,
            mile2: self.mile2,
            timestamp2: self.timestamp2,
            speed: self.speed,
        }
    }
}

/// A message a client may send to the server.
#[derive(Debug, PartialEq, Eq)]
pub enum IncomingMessage {
    IAmCamera(IAmCamera),
    IAmDispatcher(IAmDispatcher),
    WantHeartbeat(WantHeartbeat),
    Plate(Plate),
}

/// A message the server may send to a client.
#[derive(Debug, PartialEq, Eq)]
pub enum OutgoingMessage {
    Heartbeat,
    Error(Error),
    Ticket(Ticket),
}

/// The view of an `IncomingMessage`.
pub enum IncomingV {
    IAmCamera(IAmCamera),
    IAmDispatcher(Seq<u16>),
    WantHeartbeat(u32),
    Plate(PlateV),
}

/// The view of an `OutgoingMessage`.
pub enum OutgoingV {
    Heartbeat,
    Error(Seq<char>),
    Ticket(TicketV),
}

impl View for IncomingMessage {
    type V = IncomingV;

    open spec fn view(&self) -> IncomingV {
        match self {
            IncomingMessage::IAmCamera(c) => IncomingV::IAmCamera(*c),
            IncomingMessage::IAmDispatcher(d) => IncomingV::IAmDispatcher(d.roads@),
            IncomingMessage::WantHeartbeat(w) => IncomingV::WantHeartbeat(w.interval.0),
            IncomingMessage::Plate(p) => IncomingV::Plate(p@),
        }
    }
}

impl View for OutgoingMessage {
    type V = OutgoingV;

    open spec fn view(&self) -> OutgoingV {
        match self {
            OutgoingMessage::Heartbeat => OutgoingV::Heartbeat,
            OutgoingMessage::Error(e) => OutgoingV::Error(e.0@),
            OutgoingMessage::Ticket(t) => OutgoingV::Ticket(t@),
        }
    }
}

} // verus!
