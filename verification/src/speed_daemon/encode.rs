//! Encoding data into the Speed Daemon binary format
use super::{Observation, ServerMessage, Ticket, Timestamp};
use vstd::prelude::*;
use vstd::utf8::encode_utf8;

verus! {

/// The UTF-8 bytes of a string.
pub open spec fn utf8_bytes(s: String) -> Seq<u8> {
    encode_utf8(s@)
}

/// The big-endian bytes of a `u16`.
pub open spec fn be_u16(v: u16) -> Seq<u8> {
    seq![(v / 256) as u8, (v % 256) as u8]
}

/// The big-endian bytes of a `u32`.
pub open spec fn be_u32(v: u32) -> Seq<u8> {
    seq![(v / 0x100_0000) as u8, ((v / 0x1_0000) % 256) as u8, ((v / 256) % 256) as u8, (v % 256) as u8]
}

/// A string on the wire: one length byte, then the bytes. The length byte only
/// holds the length modulo 256.
pub open spec fn str_bytes(bytes: Seq<u8>) -> Seq<u8> {
    seq![(bytes.len() % 256) as u8] + bytes
}

/// An observation on the wire: mile, then timestamp.
pub open spec fn observation_bytes(o: Observation) -> Seq<u8> {
    be_u16(o.mile) + be_u32(o.timestamp.0)
}

/// The tag byte that starts off a server message.
pub open spec fn tag_of(m: ServerMessage) -> u8 {
    match m {
        ServerMessage::Error { .. } => 0x10,
        ServerMessage::Ticket { .. } => 0x21,
        ServerMessage::Heartbeat => 0x41,
    }
}

/// The body of a ticket on the wire.
pub open spec fn ticket_bytes(t: Ticket) -> Seq<u8> {
    str_bytes(utf8_bytes(t.plate)) + be_u16(t.road) + observation_bytes(t.observation1)
        + observation_bytes(t.observation2) + be_u16(t.speed)
}

/// A server message on the wire.
pub open spec fn message_bytes(m: ServerMessage) -> Seq<u8> {
    seq![tag_of(m)] + match m {
        ServerMessage::Error { message } => str_bytes(utf8_bytes(message)),
        ServerMessage::Ticket { ticket } => ticket_bytes(ticket),
        ServerMessage::Heartbeat => Seq::empty(),
    }
}

impl ServerMessage {
    /// Encode a message into the Speed Daemon binary format
    pub fn encode(&self) -> (r: Vec<u8>)
        ensures
            r@ == message_bytes(*self),
    {
        let mut bytes = Vec::new();
        self.encode_into(&mut bytes);
        bytes
    }

    /// Get the tag byte that starts off this message
    pub fn tag(&self) -> (r: u8)
        ensures
            r == tag_of(*self),
    {
        match self {
            ServerMessage::Error { .. } => 0x10,
            ServerMessage::Ticket { .. } => 0x21,
            ServerMessage::Heartbeat => 0x41,
        }
    }
}

/// Anything that can be encoded into the Speed Daemon binary format
pub trait Encode {
    /// The bytes that encode this value.
    spec fn encoding(&self) -> Seq<u8>;

    /// Encode this data into the given buffer
    fn encode_into(&self, bytes: &mut Vec<u8>)
        ensures
            final(bytes)@ == old(bytes)@ + self.encoding(),
    ;
}

impl Encode for u8 {
    open spec fn encoding(&self) -> Seq<u8> {
        seq![*self]
    }

    fn encode_into(&self, bytes: &mut Vec<u8>) {
        bytes.push(*self);
    }
}

impl<'a> Encode for &'a [u8] {
    open spec fn encoding(&self) -> Seq<u8> {
        self@
    }

    fn encode_into(&self, bytes: &mut Vec<u8>) {
        let ghost start = bytes@;
        let n = self.len();
        let mut i: usize = 0;
        while i < n
            invariant
                n == self@.len(),
                i <= n,
                bytes@ == start + self@.take(i as int),
            decreases n - i,
        {
            bytes.push(self[i]);
            i = i + 1;
            assert(self@.take(i as int) == self@.take(i - 1) + seq![self@[i - 1]]);
        }
        assert(self@.take(n as int) == self@);
    }
}

impl Encode for ServerMessage {
    open spec fn encoding(&self) -> Seq<u8> {
        message_bytes(*self)
    }

    fn encode_into(&self, bytes: &mut Vec<u8>) {
        let ghost start = bytes@;
        // Add the tag byte first
        self.tag().encode_into(bytes);
        // Add the message body
        match self {
            ServerMessage::Error { message } => {
                message.encode_into(bytes);
                assert(bytes@ == start + message_bytes(*self));
            },
            ServerMessage::Ticket { ticket } => {
                let ghost t0 = bytes@;
                ticket.plate.encode_into(bytes);
                ticket.road.encode_into(bytes);
                ticket.observation1.encode_into(bytes);
                ticket.observation2.encode_into(bytes);
                ticket.speed.encode_into(bytes);
                assert(bytes@ == t0 + ticket_bytes(*ticket));
                assert(bytes@ == start + message_bytes(*self));
            },
            ServerMessage::Heartbeat => {
                assert(bytes@ == start + message_bytes(*self));
            },
        }
    }
}

impl Encode for Observation {
    open spec fn encoding(&self) -> Seq<u8> {
        observation_bytes(*self)
    }

    fn encode_into(&self, bytes: &mut Vec<u8>) {
        self.mile.encode_into(bytes);
        self.timestamp.encode_into(bytes);
    }
}

impl Encode for String {
    open spec fn encoding(&self) -> Seq<u8> {
        str_bytes(utf8_bytes(*self))
    }

    fn encode_into(&self, bytes: &mut Vec<u8>) {
        // String format is defined in the problem statement
        // Length must be a **byte**
        let raw: &[u8] = self.as_str().as_bytes();
        ((raw.len() % 256) as u8).encode_into(bytes);
        raw.encode_into(bytes);
    }
}

impl Encode for u16 {
    open spec fn encoding(&self) -> Seq<u8> {
        be_u16(*self)
    }

    fn encode_into(&self, bytes: &mut Vec<u8>) {
        bytes.push((*self / 256) as u8);
        bytes.push((*self % 256) as u8);
    }
}

impl Encode for u32 {
    open spec fn encoding(&self) -> Seq<u8> {
        be_u32(*self)
    }

    fn encode_into(&self, bytes: &mut Vec<u8>) {
        bytes.push((*self / 0x100_0000) as u8);
        bytes.push(((*self / 0x1_0000) % 256) as u8);
        bytes.push(((*self / 256) % 256) as u8);
        bytes.push((*self % 256) as u8);
    }
}

impl Encode for Timestamp {
    open spec fn encoding(&self) -> Seq<u8> {
        be_u32(self.0)
    }

    fn encode_into(&self, bytes: &mut Vec<u8>) {
        self.0.encode_into(bytes);
    }
}

impl<'a, T: Encode> Encode for &'a T {
    open spec fn encoding(&self) -> Seq<u8> {
        (**self).encoding()
    }

    fn encode_into(&self, bytes: &mut Vec<u8>) {
        (**self).encode_into(bytes);
    }
}

} // verus!
