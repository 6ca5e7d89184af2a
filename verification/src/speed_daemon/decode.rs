//! Decoding data from the Speed Daemon binary format
use super::encode::{be_u16, be_u32, message_bytes};
use super::{Camera, ClientMessage, Road, ServerMessage, Ticket, Timestamp};
use vstd::prelude::*;
use vstd::utf8::{decode_utf8, encode_utf8, encode_utf8_decode_utf8, encode_utf8_valid_utf8, valid_utf8};

verus! {

/// What `String::from_utf8_lossy` makes of a byte sequence.
pub uninterp spec fn utf8_lossy(bytes: Seq<u8>) -> Seq<char>;

/// Calls `String::from_utf8_lossy`. Trusted: the result is the lossy decoding of
/// the bytes, a function of the bytes alone, and when the bytes already are
/// valid UTF-8 it is exactly the text they encode (nothing is replaced).
#[verifier::external_body]
fn string_from_utf8_lossy(bytes: &[u8]) -> (r: String)
    ensures
        r@ == utf8_lossy(bytes@),
        valid_utf8(bytes@) ==> r@ == decode_utf8(bytes@),
{
    String::from_utf8_lossy(bytes).into_owned()
}

/// A client message as the bytes state it: the plate is still raw bytes.
pub enum RawMessage {
    Plate { plate: Seq<u8>, timestamp: u32 },
    WantHeartbeat { interval: u32 },
    IAmCamera { road: u16, mile: u16, speed_limit: u16 },
    IAmDispatcher { roads: Seq<u16> },
}

/// What the grammar makes of the front of a buffer.
pub enum RawParse {
    /// A whole message, and the number of bytes it took.
    Done(RawMessage, int),
    /// The bytes so far are the start of a message, but not all of it.
    Incomplete,
    /// The first byte is not the tag of any client message.
    IllegalTag,
}

/// The big-endian `u16` at position `i`.
pub open spec fn read_u16(s: Seq<u8>, i: int) -> u16 {
    (s[i] as int * 256 + s[i + 1] as int) as u16
}

/// The big-endian `u32` at position `i`.
pub open spec fn read_u32(s: Seq<u8>, i: int) -> u32 {
    (s[i] as int * 0x100_0000 + s[i + 1] as int * 0x1_0000 + s[i + 2] as int * 256 + s[i + 3] as int) as u32
}

/// Tag of a plate report.
pub const TAG_PLATE: u8 = 0x20;
/// Tag of a heartbeat request.
pub const TAG_WANT_HEARTBEAT: u8 = 0x40;
/// Tag of a camera introducing itself.
pub const TAG_I_AM_CAMERA: u8 = 0x80;
/// Tag of a dispatcher introducing itself.
pub const TAG_I_AM_DISPATCHER: u8 = 0x81;

/// The grammar of client messages. A message starts with a tag byte:
/// - `0x20` Plate: a string (length byte, then that many bytes) and a `u32` timestamp;
/// - `0x40` WantHeartbeat: a `u32` interval;
/// - `0x80` IAmCamera: three `u16`s, road, mile and speed limit;
/// - `0x81` IAmDispatcher: a count byte, then that many `u16` roads.
/// All numbers are big-endian. Bytes after the message are left alone.
pub open spec fn spec_parse(s: Seq<u8>) -> RawParse {
    if s.len() == 0 {
        RawParse::Incomplete
    } else if s[0] == TAG_PLATE {
        if s.len() < 2 {
            RawParse::Incomplete
        } else {
            let n = s[1] as int;
            if s.len() < 6 + n {
                RawParse::Incomplete
            } else {
                RawParse::Done(
                    RawMessage::Plate { plate: s.subrange(2, 2 + n), timestamp: read_u32(s, 2 + n) },
                    6 + n,
                )
            }
        }
    } else if s[0] == TAG_WANT_HEARTBEAT {
        if s.len() < 5 {
            RawParse::Incomplete
        } else {
            RawParse::Done(RawMessage::WantHeartbeat { interval: read_u32(s, 1) }, 5)
        }
    } else if s[0] == TAG_I_AM_CAMERA {
        if s.len() < 7 {
            RawParse::Incomplete
        } else {
            RawParse::Done(
                RawMessage::IAmCamera {
                    road: read_u16(s, 1),
                    mile: read_u16(s, 3),
                    speed_limit: read_u16(s, 5),
                },
                7,
            )
        }
    } else if s[0] == TAG_I_AM_DISPATCHER {
        if s.len() < 2 {
            RawParse::Incomplete
        } else {
            let n = s[1] as int;
            if s.len() < 2 + 2 * n {
                RawParse::Incomplete
            } else {
                RawParse::Done(
                    RawMessage::IAmDispatcher { roads: Seq::new(n as nat, |i: int| read_u16(s, 2 + 2 * i)) },
                    2 + 2 * n,
                )
            }
        }
    } else {
        RawParse::IllegalTag
    }
}

/// Whether a decoded message is the one the raw message describes; the plate is
/// decoded leniently, as `String::from_utf8_lossy` does.
pub open spec fn decodes_to(raw: RawMessage, m: ClientMessage) -> bool {
    match (raw, m) {
        (RawMessage::Plate { plate, timestamp }, ClientMessage::Plate { plate: p, timestamp: t }) =>
            p@ == utf8_lossy(plate) && (valid_utf8(plate) ==> p@ == decode_utf8(plate)) && t.0
                == timestamp,
        (RawMessage::WantHeartbeat { interval }, ClientMessage::WantHeartbeat { interval: i }) =>
            i == interval,
        (RawMessage::IAmCamera { road, mile, speed_limit }, ClientMessage::IAmCamera { camera }) =>
            camera == (Camera { road, mile, speed_limit }),
        (RawMessage::IAmDispatcher { roads }, ClientMessage::IAmDispatcher { roads: r }) =>
            r@ == roads,
        _ => false,
    }
}

/// The result of decoding the front of a buffer.
pub enum Parsed {
    Complete { message: ClientMessage, consumed: usize },
    Incomplete,
    IllegalTag,
}

/// Whether `p` is what the grammar says of `s`.
pub open spec fn parsed_as(s: Seq<u8>, p: Parsed) -> bool {
    match spec_parse(s) {
        RawParse::Done(raw, n) => p matches Parsed::Complete { message, consumed }
            && consumed == n && decodes_to(raw, message),
        RawParse::Incomplete => p is Incomplete,
        RawParse::IllegalTag => p is IllegalTag,
    }
}

fn get_u16(s: &[u8], i: usize) -> (r: u16)
    requires
        i + 2 <= s@.len(),
    ensures
        r == read_u16(s@, i as int),
{
    (s[i] as u16) * 256 + (s[i + 1] as u16)
}

fn get_u32(s: &[u8], i: usize) -> (r: u32)
    requires
        i + 4 <= s@.len(),
    ensures
        r == read_u32(s@, i as int),
{
    (s[i] as u32) * 0x100_0000 + (s[i + 1] as u32) * 0x1_0000 + (s[i + 2] as u32) * 256 + (s[i + 3] as u32)
}

/// Decode a message from binary data. This supports incomplete or
/// over-complete parsing, meaning there can be an incomplete message or
/// additional bytes beyond the message ending in the buffer. This allows
/// for streamed parsing from a socket.
pub fn parse_message(bytes: &[u8]) -> (r: Parsed)
    ensures
        parsed_as(bytes@, r),
{
    let len = bytes.len();
    if len == 0 {
        return Parsed::Incomplete;
    }
    let tag = bytes[0];
    if tag == TAG_PLATE {
        if len < 2 {
            return Parsed::Incomplete;
        }
        let n = bytes[1] as usize;
        if len < 6 + n {
            return Parsed::Incomplete;
        }
        let raw_plate = &bytes[2..2 + n];
        let plate = string_from_utf8_lossy(raw_plate);
        let timestamp = get_u32(bytes, 2 + n);
        assert(raw_plate@ == bytes@.subrange(2, 2 + n));
        Parsed::Complete {
            message: ClientMessage::Plate { plate, timestamp: Timestamp(timestamp) },
            consumed: 6 + n,
        }
    } else if tag == TAG_WANT_HEARTBEAT {
        if len < 5 {
            return Parsed::Incomplete;
        }
        Parsed::Complete {
            message: ClientMessage::WantHeartbeat { interval: get_u32(bytes, 1) },
            consumed: 5,
        }
    } else if tag == TAG_I_AM_CAMERA {
        if len < 7 {
            return Parsed::Incomplete;
        }
        let camera = Camera {
            road: get_u16(bytes, 1),
            mile: get_u16(bytes, 3),
            speed_limit: get_u16(bytes, 5),
        };
        Parsed::Complete { message: ClientMessage::IAmCamera { camera }, consumed: 7 }
    } else if tag == TAG_I_AM_DISPATCHER {
        if len < 2 {
            return Parsed::Incomplete;
        }
        let n = bytes[1] as usize;
        if len < 2 + 2 * n {
            return Parsed::Incomplete;
        }
        let mut roads: Vec<Road> = Vec::new();
        let mut i: usize = 0;
        while i < n
            invariant
                i <= n,
                n < 256,
                2 + 2 * n <= bytes@.len(),
                roads@.len() == i,
                forall|j: int| 0 <= j < i ==> roads@[j] == read_u16(bytes@, 2 + 2 * j),
            decreases n - i,
        {
            roads.push(get_u16(bytes, 2 + 2 * i));
            i = i + 1;
        }
        let ghost expected = Seq::new(n as nat, |j: int| read_u16(bytes@, 2 + 2 * j));
        assert(roads@ == expected);
        Parsed::Complete { message: ClientMessage::IAmDispatcher { roads }, consumed: 2 + 2 * n }
    } else {
        Parsed::IllegalTag
    }
}

/// A buffered parse result, as handed to the connection loop.
#[derive(Debug)]
pub enum ParseOutcome {
    Success(ClientMessage),
    IllegalMessageType,
}

/// One step of what a decoder reads off its buffer, as the grammar states it.
pub enum Decoded {
    Message(RawMessage),
    Illegal,
}

/// What a decoder makes of a buffer when it cuts off message after message until
/// the rest is incomplete: the messages in order, and the bytes it keeps for
/// later. A buffer that starts with an unknown tag is reported and dropped whole.
pub open spec fn drain(s: Seq<u8>) -> (Seq<Decoded>, Seq<u8>)
    decreases s.len(),
{
    match spec_parse(s) {
        RawParse::Done(raw, n) => if 1 <= n <= s.len() {
            (seq![Decoded::Message(raw)] + drain(s.skip(n)).0, drain(s.skip(n)).1)
        } else {
            (Seq::empty(), s)
        },
        RawParse::Incomplete => (Seq::empty(), s),
        RawParse::IllegalTag => (seq![Decoded::Illegal], Seq::empty()),
    }
}

/// No unknown tag was met.
pub open spec fn no_illegal(d: Seq<Decoded>) -> bool {
    forall|i: int| 0 <= i < d.len() ==> (#[trigger] d[i]) is Message
}

/// What a connection reads when the bytes come in the given chunks: after each
/// chunk it cuts off every whole message, and keeps the rest for the next one.
pub open spec fn feed(pending: Seq<u8>, chunks: Seq<Seq<u8>>) -> (Seq<Decoded>, Seq<u8>)
    decreases chunks.len(),
{
    if chunks.len() == 0 {
        (Seq::empty(), pending)
    } else {
        let step = drain(pending + chunks[0]);
        (step.0 + feed(step.1, chunks.drop_first()).0, feed(step.1, chunks.drop_first()).1)
    }
}

/// Whether an outcome handed out is the step the grammar describes.
pub open spec fn outcome_matches(o: ParseOutcome, d: Decoded) -> bool {
    match (o, d) {
        (ParseOutcome::Success(m), Decoded::Message(raw)) => decodes_to(raw, m),
        (ParseOutcome::IllegalMessageType, Decoded::Illegal) => true,
        _ => false,
    }
}

/// Reading a buffer in two parts gives what reading it whole gives: the messages
/// cut off the first part, then those cut off what was kept plus the second
/// part, are the messages of the whole, and the same bytes are kept. This holds
/// while no unknown tag is met (an unknown tag drops what is buffered at the
/// time, so it depends on where the bytes were split).
pub proof fn lemma_drain_split(a: Seq<u8>, b: Seq<u8>)
    requires
        no_illegal(drain(a + b).0),
    ensures
        drain(a).0 + drain(drain(a).1 + b).0 == drain(a + b).0,
        drain(drain(a).1 + b).1 == drain(a + b).1,
    decreases a.len(),
{
    lemma_parse_progress(a);
    lemma_parse_ignores_trailing(a, b);
    match spec_parse(a) {
        RawParse::Done(raw, n) => {
            let rest = a.skip(n);
            assert((a + b).skip(n) =~= rest + b);
            let whole = drain(rest + b).0;
            assert(drain(a + b).0 == seq![Decoded::Message(raw)] + whole);
            assert forall|i: int| 0 <= i < whole.len() implies (#[trigger] whole[i]) is Message by {
                assert(drain(a + b).0[i + 1] == whole[i]);
            }
            lemma_drain_split(rest, b);
            assert(drain(a).0 + drain(drain(a).1 + b).0 =~= seq![Decoded::Message(raw)] + (drain(
                rest,
            ).0 + drain(drain(rest).1 + b).0));
        },
        RawParse::Incomplete => {
            assert(drain(a).0 + drain(drain(a).1 + b).0 =~= drain(a + b).0);
        },
        RawParse::IllegalTag => {
            assert((a + b)[0] == a[0]);
            assert(drain(a + b).0[0] is Illegal);
        },
    }
}

/// What a decoder keeps after cutting off all it can holds no whole message.
pub proof fn lemma_drain_leaves_incomplete(s: Seq<u8>)
    ensures
        spec_parse(drain(s).1) is Incomplete,
    decreases s.len(),
{
    lemma_parse_progress(s);
    if let RawParse::Done(_, n) = spec_parse(s) {
        lemma_drain_leaves_incomplete(s.skip(n));
    }
}

/// How the bytes are split into reads does not change what is decoded: starting
/// from a buffer that holds no whole message (an empty one, say), feeding the
/// chunks one by one yields the messages that the whole stream holds, in order,
/// and keeps the same incomplete tail, as long as no unknown tag is met.
pub proof fn lemma_split_independent(pending: Seq<u8>, chunks: Seq<Seq<u8>>)
    requires
        spec_parse(pending) is Incomplete,
        no_illegal(drain(pending + chunks.flatten()).0),
    ensures
        feed(pending, chunks) == drain(pending + chunks.flatten()),
    decreases chunks.len(),
{
    if chunks.len() == 0 {
        assert(pending + chunks.flatten() =~= pending);
        assert(drain(pending).0 =~= Seq::<Decoded>::empty());
    } else {
        let first = pending + chunks[0];
        let later = chunks.drop_first().flatten();
        assert(pending + chunks.flatten() =~= first + later);
        lemma_drain_split(first, later);
        let kept = drain(first).1;
        lemma_drain_leaves_incomplete(first);
        let tail = drain(kept + later).0;
        assert forall|i: int| 0 <= i < tail.len() implies (#[trigger] tail[i]) is Message by {
            assert(drain(first + later).0[drain(first).0.len() + i] == tail[i]);
        }
        lemma_split_independent(kept, chunks.drop_first());
        assert(feed(pending, chunks).0 == drain(first + later).0);
        assert(feed(pending, chunks).1 == drain(first + later).1);
    }
}

/// Accumulates the bytes a client sends, and cuts whole messages off the front.
#[derive(Debug)]
pub struct Decoder {
    buffer: Vec<u8>,
}

impl View for Decoder {
    type V = Seq<u8>;

    /// The bytes received and not consumed yet.
    closed spec fn view(&self) -> Seq<u8> {
        self.buffer@
    }
}

impl Decoder {
    /// A decoder with nothing buffered.
    pub fn new() -> (d: Self)
        ensures
            d@ == Seq::<u8>::empty(),
    {
        Decoder { buffer: Vec::new() }
    }

    /// Append freshly read bytes to the buffer.
    pub fn receive(&mut self, data: &[u8])
        ensures
            final(self)@ == old(self)@ + data@,
    {
        let n = data.len();
        let mut i: usize = 0;
        while i < n
            invariant
                n == data@.len(),
                i <= n,
                self.buffer@ == old(self).buffer@ + data@.take(i as int),
            decreases n - i,
        {
            self.buffer.push(data[i]);
            i = i + 1;
            assert(data@.take(i as int) == data@.take(i - 1) + seq![data@[i - 1]]);
        }
        assert(data@.take(n as int) == data@);
    }

    /// Whether any bytes are buffered.
    pub fn has_pending(&self) -> (r: bool)
        ensures
            r == (self@.len() > 0),
    {
        self.buffer.len() > 0
    }

    /// Cut the next message off the front of the buffer. An incomplete message
    /// is left where it is (`None`), to be completed by later reads. A buffer
    /// that does not start with a known tag is dropped whole, and reported as an
    /// illegal message type.
    pub fn decode_next_message(&mut self) -> (r: Option<ParseOutcome>)
        ensures
            match spec_parse(old(self)@) {
                RawParse::Done(raw, n) => r matches Some(ParseOutcome::Success(m)) && decodes_to(raw, m)
                    && final(self)@ == old(self)@.skip(n),
                RawParse::Incomplete => r is None && final(self)@ == old(self)@,
                RawParse::IllegalTag => r matches Some(ParseOutcome::IllegalMessageType)
                    && final(self)@ == Seq::<u8>::empty(),
            },
    {
        match parse_message(self.buffer.as_slice()) {
            Parsed::Complete { message, consumed } => {
                proof {
                    lemma_parse_progress(self.buffer@);
                }
                self.consume_bytes(consumed);
                Some(ParseOutcome::Success(message))
            },
            // We didn't have enough bytes to form a full message. Just
            // return nothing and hope we get more data next time
            Parsed::Incomplete => None,
            Parsed::IllegalTag => {
                let n = self.buffer.len();
                self.consume_bytes(n);
                Some(ParseOutcome::IllegalMessageType)
            },
        }
    }

    /// Cut every whole message off the front of the buffer, in order, and keep
    /// the incomplete rest for later reads. A buffer that does not start with a
    /// known tag is dropped whole and reported as an illegal message type.
    pub fn decode_available(&mut self) -> (r: Vec<ParseOutcome>)
        ensures
            r@.len() == drain(old(self)@).0.len(),
            forall|i: int| 0 <= i < r@.len() ==> outcome_matches(#[trigger] r@[i], drain(old(self)@).0[i]),
            final(self)@ == drain(old(self)@).1,
    {
        let ghost start = self@;
        let ghost mut taken: Seq<Decoded> = Seq::empty();
        let mut out: Vec<ParseOutcome> = Vec::new();
        loop
            invariant
                taken + drain(self@).0 == drain(start).0,
                drain(self@).1 == drain(start).1,
                out@.len() == taken.len(),
                forall|i: int| 0 <= i < out@.len() ==> outcome_matches(#[trigger] out@[i], taken[i]),
            ensures
                taken == drain(start).0,
                self@ == drain(start).1,
                out@.len() == taken.len(),
                forall|i: int| 0 <= i < out@.len() ==> outcome_matches(#[trigger] out@[i], taken[i]),
            decreases self@.len(),
        {
            let ghost before = self@;
            proof {
                lemma_parse_progress(before);
            }
            match self.decode_next_message() {
                Some(outcome) => {
                    proof {
                        let step = drain(before).0[0];
                        assert(taken.push(step) + drain(self@).0 =~= taken + drain(before).0);
                        taken = taken.push(step);
                    }
                    out.push(outcome);
                },
                None => {
                    assert(taken =~= taken + drain(self@).0);
                    break;
                },
            }
        }
        out
    }

    /// Remove the first `n` bytes from the buffer
    fn consume_bytes(&mut self, n: usize)
        requires
            n <= old(self)@.len(),
        ensures
            final(self)@ == old(self)@.skip(n as int),
    {
        let rest = self.buffer.split_off(n);
        self.buffer = rest;
    }
}

/// A whole message takes at least one byte, and no more than the buffer holds.
pub proof fn lemma_parse_progress(s: Seq<u8>)
    ensures
        spec_parse(s) matches RawParse::Done(_, n) ==> 1 <= n <= s.len(),
{
}

/// Bytes that follow a whole message do not change how it is read: a message
/// cut off the front of a buffer is the same whatever arrives after it.
pub proof fn lemma_parse_ignores_trailing(s: Seq<u8>, t: Seq<u8>)
    ensures
        spec_parse(s) is Done ==> spec_parse(s + t) == spec_parse(s),
{
    let st = s + t;
    if spec_parse(s) is Done {
        assert(st[0] == s[0]);
        if s[0] == TAG_PLATE {
            let n = s[1] as int;
            assert(st[1] == s[1]);
            assert(st.subrange(2, 2 + n) =~= s.subrange(2, 2 + n));
            assert(read_u32(st, 2 + n) == read_u32(s, 2 + n));
        } else if s[0] == TAG_WANT_HEARTBEAT {
            assert(read_u32(st, 1) == read_u32(s, 1));
        } else if s[0] == TAG_I_AM_CAMERA {
            assert(read_u16(st, 1) == read_u16(s, 1));
            assert(read_u16(st, 3) == read_u16(s, 3));
            assert(read_u16(st, 5) == read_u16(s, 5));
        } else {
            let n = s[1] as int;
            assert(st[1] == s[1]);
            let a = Seq::new(n as nat, |i: int| read_u16(st, 2 + 2 * i));
            let b = Seq::new(n as nat, |i: int| read_u16(s, 2 + 2 * i));
            assert forall|i: int| 0 <= i < n implies a[i] == b[i] by {
                assert(st[2 + 2 * i] == s[2 + 2 * i]);
                assert(st[2 + 2 * i + 1] == s[2 + 2 * i + 1]);
            }
            assert(a =~= b);
        }
    }
}

/// An incomplete buffer is always the beginning of some whole message: more
/// bytes can complete it.
pub proof fn lemma_incomplete_can_complete(s: Seq<u8>)
    ensures
        spec_parse(s) is Incomplete ==> exists|t: Seq<u8>| (#[trigger] spec_parse(s + t)) is Done,
{
    if spec_parse(s) is Incomplete {
        if s.len() == 0 {
            let t = seq![TAG_WANT_HEARTBEAT, 0u8, 0u8, 0u8, 0u8];
            assert((s + t) =~= t);
            assert(spec_parse(s + t) is Done);
        } else {
            let t = Seq::new(600, |i: int| 0u8);
            let st = s + t;
            assert(st[0] == s[0]);
            if s.len() >= 2 {
                assert(st[1] == s[1]);
            } else {
                assert(st[1] == 0u8);
            }
            assert(spec_parse(st) is Done);
        }
    }
}

/// The bytes of a list of roads: each road as a big-endian `u16`.
pub open spec fn roads_bytes(roads: Seq<u16>) -> Seq<u8>
    decreases roads.len(),
{
    if roads.len() == 0 {
        Seq::empty()
    } else {
        roads_bytes(roads.drop_last()) + be_u16(roads.last())
    }
}

/// Whether a raw message can be written on the wire: the plate and the list
/// of roads are counted by a single byte.
pub open spec fn encodable(m: RawMessage) -> bool {
    match m {
        RawMessage::Plate { plate, .. } => plate.len() <= 255,
        RawMessage::IAmDispatcher { roads } => roads.len() <= 255,
        _ => true,
    }
}

/// A client message on the wire.
pub open spec fn raw_bytes(m: RawMessage) -> Seq<u8> {
    match m {
        RawMessage::Plate { plate, timestamp } => seq![TAG_PLATE, plate.len() as u8] + plate + be_u32(
            timestamp,
        ),
        RawMessage::WantHeartbeat { interval } => seq![TAG_WANT_HEARTBEAT] + be_u32(interval),
        RawMessage::IAmCamera { road, mile, speed_limit } => seq![TAG_I_AM_CAMERA] + be_u16(road)
            + be_u16(mile) + be_u16(speed_limit),
        RawMessage::IAmDispatcher { roads } => seq![TAG_I_AM_DISPATCHER, roads.len() as u8]
            + roads_bytes(roads),
    }
}

proof fn lemma_read_be_u16(s: Seq<u8>, i: int, v: u16)
    requires
        0 <= i,
        i + 2 <= s.len(),
        s.subrange(i, i + 2) == be_u16(v),
    ensures
        read_u16(s, i) == v,
{
    assert(s[i] == be_u16(v)[0]);
    assert(s[i + 1] == be_u16(v)[1]);
    let a = v / 256;
    let b = v % 256;
    assert(a * 256 + b == v) by (nonlinear_arith)
        requires
            a == v / 256,
            b == v % 256,
    ;
}

proof fn lemma_read_be_u32(s: Seq<u8>, i: int, v: u32)
    requires
        0 <= i,
        i + 4 <= s.len(),
        s.subrange(i, i + 4) == be_u32(v),
    ensures
        read_u32(s, i) == v,
{
    assert(s[i] == be_u32(v)[0]);
    assert(s[i + 1] == be_u32(v)[1]);
    assert(s[i + 2] == be_u32(v)[2]);
    assert(s[i + 3] == be_u32(v)[3]);
    let a = v / 0x100_0000;
    let b = (v / 0x1_0000) % 256;
    let c = (v / 256) % 256;
    let d = v % 256;
    assert(a * 0x100_0000 + b * 0x1_0000 + c * 256 + d == v) by (nonlinear_arith)
        requires
            a == v / 0x100_0000,
            b == (v / 0x1_0000) % 256,
            c == (v / 256) % 256,
            d == v % 256,
    ;
}

proof fn lemma_roads_bytes(roads: Seq<u16>)
    ensures
        roads_bytes(roads).len() == 2 * roads.len(),
        forall|k: int|
            0 <= k < roads.len() ==> #[trigger] roads_bytes(roads).subrange(2 * k, 2 * k + 2) == be_u16(
                roads[k],
            ),
    decreases roads.len(),
{
    if roads.len() > 0 {
        let init = roads.drop_last();
        lemma_roads_bytes(init);
        let b = roads_bytes(roads);
        assert forall|k: int| 0 <= k < roads.len() implies #[trigger] b.subrange(2 * k, 2 * k + 2)
            == be_u16(roads[k]) by {
            if k < init.len() {
                assert(b.subrange(2 * k, 2 * k + 2) =~= roads_bytes(init).subrange(2 * k, 2 * k + 2));
            } else {
                assert(b.subrange(2 * k, 2 * k + 2) =~= be_u16(roads.last()));
            }
        }
    }
}

/// A message on the wire is read back as itself, whatever follows it; and
/// every strict prefix of it is incomplete.
pub proof fn lemma_parse_encoded(m: RawMessage, rest: Seq<u8>)
    requires
        encodable(m),
    ensures
        spec_parse(raw_bytes(m) + rest) == RawParse::Done(m, raw_bytes(m).len() as int),
        forall|k: int| 0 <= k < raw_bytes(m).len() ==> #[trigger] spec_parse(raw_bytes(m).take(k)) is Incomplete,
{
    let e = raw_bytes(m);
    let s = e + rest;
    match m {
        RawMessage::Plate { plate, timestamp } => {
            let n = plate.len() as int;
            assert(s[0] == TAG_PLATE);
            assert(s[1] == n as u8);
            assert(s.subrange(2, 2 + n) =~= plate);
            assert(s.subrange(2 + n, 6 + n) =~= be_u32(timestamp));
            lemma_read_be_u32(s, 2 + n, timestamp);
        },
        RawMessage::WantHeartbeat { interval } => {
            assert(s.subrange(1, 5) =~= be_u32(interval));
            lemma_read_be_u32(s, 1, interval);
        },
        RawMessage::IAmCamera { road, mile, speed_limit } => {
            assert(s.subrange(1, 3) =~= be_u16(road));
            assert(s.subrange(3, 5) =~= be_u16(mile));
            assert(s.subrange(5, 7) =~= be_u16(speed_limit));
            lemma_read_be_u16(s, 1, road);
            lemma_read_be_u16(s, 3, mile);
            lemma_read_be_u16(s, 5, speed_limit);
        },
        RawMessage::IAmDispatcher { roads } => {
            let n = roads.len() as int;
            lemma_roads_bytes(roads);
            assert(s[1] == n as u8);
            let parsed = Seq::new(n as nat, |i: int| read_u16(s, 2 + 2 * i));
            assert forall|i: int| 0 <= i < n implies parsed[i] == roads[i] by {
                assert(roads_bytes(roads).subrange(2 * i, 2 * i + 2) == be_u16(roads[i]));
                assert(s.subrange(2 + 2 * i, 2 + 2 * i + 2) =~= roads_bytes(roads).subrange(
                    2 * i,
                    2 * i + 2,
                ));
                lemma_read_be_u16(s, 2 + 2 * i, roads[i]);
            }
            assert(parsed =~= roads);
        },
    }
    assert forall|k: int| 0 <= k < e.len() implies #[trigger] spec_parse(e.take(k)) is Incomplete by {
        let p = e.take(k);
        if k > 0 {
            assert(p[0] == e[0]);
        }
        if k > 1 {
            assert(p[1] == e[1]);
        }
        match m {
            RawMessage::IAmDispatcher { roads } => {
                lemma_roads_bytes(roads);
            },
            _ => {},
        }
    }
}

/// A plate sent as the UTF-8 bytes of a text is read back as that text.
pub proof fn lemma_plate_text_round_trip(plate: Seq<u8>, timestamp: u32, text: Seq<char>, m: ClientMessage)
    requires
        plate == encode_utf8(text),
        decodes_to(RawMessage::Plate { plate, timestamp }, m),
    ensures
        m matches ClientMessage::Plate { plate: p, timestamp: t } && p@ == text && t.0 == timestamp,
{
    encode_utf8_valid_utf8(text);
    encode_utf8_decode_utf8(text);
}

/// The wire form of messages sent one after the other.
pub open spec fn stream_bytes(ms: Seq<RawMessage>) -> Seq<u8>
    decreases ms.len(),
{
    if ms.len() == 0 {
        Seq::empty()
    } else {
        raw_bytes(ms[0]) + stream_bytes(ms.drop_first())
    }
}

/// The decoded form of messages, one step each.
pub open spec fn as_decoded(ms: Seq<RawMessage>) -> Seq<Decoded> {
    ms.map_values(|m: RawMessage| Decoded::Message(m))
}

/// Whole messages followed by bytes that hold no whole message (such as the
/// start of one more) decode to exactly those messages, in order, and the
/// decoder keeps the trailing bytes.
pub proof fn lemma_stream_decodes(ms: Seq<RawMessage>, tail: Seq<u8>)
    requires
        forall|i: int| 0 <= i < ms.len() ==> encodable(#[trigger] ms[i]),
        spec_parse(tail) is Incomplete,
    ensures
        drain(stream_bytes(ms) + tail) == (as_decoded(ms), tail),
    decreases ms.len(),
{
    if ms.len() == 0 {
        assert(stream_bytes(ms) + tail =~= tail);
        assert(as_decoded(ms) =~= Seq::<Decoded>::empty());
    } else {
        let first = raw_bytes(ms[0]);
        let rest = stream_bytes(ms.drop_first()) + tail;
        let s = stream_bytes(ms) + tail;
        assert(s =~= first + rest);
        lemma_parse_encoded(ms[0], rest);
        lemma_parse_progress(s);
        assert(s.skip(first.len() as int) =~= rest);
        assert forall|i: int| 0 <= i < ms.drop_first().len() implies encodable(
            #[trigger] ms.drop_first()[i],
        ) by {
            assert(encodable(ms[i + 1]));
        }
        lemma_stream_decodes(ms.drop_first(), tail);
        assert(as_decoded(ms) =~= seq![Decoded::Message(ms[0])] + as_decoded(ms.drop_first()));
    }
}

/// A connection that receives whole messages followed by the start of one
/// more, split into reads in any way, decodes exactly those messages, in order,
/// and keeps the start of the next one.
pub proof fn lemma_stream_read_in_chunks(ms: Seq<RawMessage>, next: RawMessage, k: int, chunks: Seq<Seq<u8>>)
    requires
        forall|i: int| 0 <= i < ms.len() ==> encodable(#[trigger] ms[i]),
        encodable(next),
        0 <= k < raw_bytes(next).len(),
        chunks.flatten() == stream_bytes(ms) + raw_bytes(next).take(k),
    ensures
        feed(Seq::empty(), chunks) == (as_decoded(ms), raw_bytes(next).take(k)),
{
    let tail = raw_bytes(next).take(k);
    lemma_parse_encoded(next, Seq::empty());
    assert(spec_parse(tail) is Incomplete);
    lemma_stream_decodes(ms, tail);
    assert(Seq::<u8>::empty() + chunks.flatten() =~= stream_bytes(ms) + tail);
    assert(spec_parse(Seq::<u8>::empty()) is Incomplete);
    lemma_split_independent(Seq::empty(), chunks);
}

/// A ticket on the wire reads back field by field: the tag `0x21`, the plate's
/// length (modulo 256) and bytes, then the road, each observation's mile and
/// timestamp, and the speed, all big-endian, and nothing after.
pub proof fn lemma_ticket_reads_back(t: Ticket)
    ensures
        ({
            let b = message_bytes(ServerMessage::Ticket { ticket: t });
            let p = encode_utf8(t.plate@);
            let n = p.len() as int;
            &&& b.len() == n + 18
            &&& b[0] == 0x21
            &&& b[1] == (n % 256) as u8
            &&& b.subrange(2, 2 + n) == p
            &&& read_u16(b, 2 + n) == t.road
            &&& read_u16(b, 4 + n) == t.observation1.mile
            &&& read_u32(b, 6 + n) == t.observation1.timestamp.0
            &&& read_u16(b, 10 + n) == t.observation2.mile
            &&& read_u32(b, 12 + n) == t.observation2.timestamp.0
            &&& read_u16(b, 16 + n) == t.speed
        }),
{
    let b = message_bytes(ServerMessage::Ticket { ticket: t });
    let p = encode_utf8(t.plate@);
    let n = p.len() as int;
    assert(b =~= seq![0x21u8, (n % 256) as u8] + p + be_u16(t.road) + be_u16(t.observation1.mile)
        + be_u32(t.observation1.timestamp.0) + be_u16(t.observation2.mile) + be_u32(
        t.observation2.timestamp.0,
    ) + be_u16(t.speed));
    assert(b.subrange(2, 2 + n) =~= p);
    assert(b.subrange(2 + n, 4 + n) =~= be_u16(t.road));
    assert(b.subrange(4 + n, 6 + n) =~= be_u16(t.observation1.mile));
    assert(b.subrange(6 + n, 10 + n) =~= be_u32(t.observation1.timestamp.0));
    assert(b.subrange(10 + n, 12 + n) =~= be_u16(t.observation2.mile));
    assert(b.subrange(12 + n, 16 + n) =~= be_u32(t.observation2.timestamp.0));
    assert(b.subrange(16 + n, 18 + n) =~= be_u16(t.speed));
    lemma_read_be_u16(b, 2 + n, t.road);
    lemma_read_be_u16(b, 4 + n, t.observation1.mile);
    lemma_read_be_u32(b, 6 + n, t.observation1.timestamp.0);
    lemma_read_be_u16(b, 10 + n, t.observation2.mile);
    lemma_read_be_u32(b, 12 + n, t.observation2.timestamp.0);
    lemma_read_be_u16(b, 16 + n, t.speed);
}

/// An error on the wire is the tag `0x10`, the text's length (modulo 256) and
/// its bytes; a heartbeat is the single byte `0x41`.
pub proof fn lemma_error_and_heartbeat_read_back(message: String)
    ensures
        ({
            let b = message_bytes(ServerMessage::Error { message });
            let p = encode_utf8(message@);
            &&& b.len() == p.len() + 2
            &&& b[0] == 0x10
            &&& b[1] == (p.len() % 256) as u8
            &&& b.subrange(2, b.len() as int) == p
        }),
        message_bytes(ServerMessage::Heartbeat) == seq![0x41u8],
{
    let b = message_bytes(ServerMessage::Error { message });
    let p = encode_utf8(message@);
    assert(b =~= seq![0x10u8, (p.len() % 256) as u8] + p);
    assert(b.subrange(2, b.len() as int) =~= p);
    assert(message_bytes(ServerMessage::Heartbeat) =~= seq![0x41u8]);
}

} // verus!
