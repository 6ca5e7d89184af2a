//! Means to an End: clients insert timestamped prices and query their mean.
//! Each message is 9 bytes: an action byte and two big-endian `i32`s.
use crate::error::ServerError;
use crate::util::text_with_char;
use vstd::prelude::*;

verus! {

/// The length of a message.
pub const MESSAGE_LEN: usize = 9;

/// A decoded request.
#[derive(Copy, Clone, Debug, PartialEq, Eq, Structural)]
pub enum PriceRequest {
    /// The mean price over the closed range of timestamps `[start, end]`.
    Query { start: i32, end: i32 },
    /// A price at a timestamp.
    Insert { timestamp: i32, price: i32 },
}

/// The value of a 32-bit pattern read as a two's complement number.
pub open spec fn signed(u: u32) -> int {
    if u < 0x8000_0000 {
        u as int
    } else {
        u as int - 0x1_0000_0000
    }
}

/// The 32-bit pattern of a number in two's complement.
pub open spec fn unsigned(v: i32) -> u32 {
    if v >= 0 {
        v as u32
    } else {
        (v + 0x1_0000_0000) as u32
    }
}

/// The big-endian 32-bit pattern at position `i`.
pub open spec fn pattern_at(s: Seq<u8>, i: int) -> u32 {
    (s[i] as int * 0x100_0000 + s[i + 1] as int * 0x1_0000 + s[i + 2] as int * 256 + s[i + 3] as int) as u32
}

/// The big-endian bytes of a 32-bit pattern.
pub open spec fn pattern_bytes(u: u32) -> Seq<u8> {
    seq![(u / 0x100_0000) as u8, ((u / 0x1_0000) % 256) as u8, ((u / 256) % 256) as u8, (u % 256) as u8]
}

/// The text of the error for an unknown action byte.
pub open spec fn invalid_action_text(action: u8) -> Seq<char> {
    "Invalid action: '"@ + seq![action as char] + "'"@
}

fn read_i32(s: &[u8], i: usize) -> (r: i32)
    requires
        i + 4 <= s@.len(),
    ensures
        r == signed(pattern_at(s@, i as int)),
{
    let u: u32 = (s[i] as u32) * 0x100_0000 + (s[i + 1] as u32) * 0x1_0000 + (s[i + 2] as u32) * 256
        + (s[i + 3] as u32);
    if u < 0x8000_0000 {
        u as i32
    } else {
        ((u - 0x8000_0000) as i32) - 0x7fff_ffff - 1
    }
}

/// Decode one message: `Q` asks for a mean, `I` inserts a price, any other
/// action byte is an error.
pub fn decode_request(message: &[u8]) -> (r: Result<PriceRequest, ServerError>)
    requires
        message@.len() == MESSAGE_LEN,
    ensures
        ({
            let i1 = signed(pattern_at(message@, 1));
            let i2 = signed(pattern_at(message@, 5));
            if message@[0] == 'Q' as u8 {
                r matches Ok(PriceRequest::Query { start, end }) && start == i1 && end == i2
            } else if message@[0] == 'I' as u8 {
                r matches Ok(PriceRequest::Insert { timestamp, price }) && timestamp == i1 && price == i2
            } else {
                r matches Err(ServerError::Other(text)) && text@ == invalid_action_text(message@[0])
            }
        }),
{
    let action = message[0];
    let i1 = read_i32(message, 1);
    let i2 = read_i32(message, 5);
    if action == 'Q' as u8 {
        // Args are [start, end] of query timestamp range
        Ok(PriceRequest::Query { start: i1, end: i2 })
    } else if action == 'I' as u8 {
        // Args are (timestamp, price)
        Ok(PriceRequest::Insert { timestamp: i1, price: i2 })
    } else {
        Err(ServerError::Other(text_with_char("Invalid action: '", action as char, "'")))
    }
}

/// The reply to a query: the mean as a big-endian two's complement `i32`.
pub fn encode_mean(mean: i32) -> (r: Vec<u8>)
    ensures
        r@ == pattern_bytes(unsigned(mean)),
{
    let u: u32 = if mean >= 0 {
        mean as u32
    } else {
        ((mean + 0x7fff_ffff + 1) as u32) + 0x8000_0000
    };
    let mut r: Vec<u8> = Vec::new();
    r.push((u / 0x100_0000) as u8);
    r.push(((u / 0x1_0000) % 256) as u8);
    r.push(((u / 256) % 256) as u8);
    r.push((u % 256) as u8);
    r
}

/// Reading a number back from its 32-bit pattern gives the number.
pub proof fn lemma_signed_unsigned(v: i32)
    ensures
        signed(unsigned(v)) == v,
{
}

/// The reply to a query, read back as a message field, is the mean.
pub proof fn lemma_reply_reads_back(mean: i32)
    ensures
        signed(pattern_at(pattern_bytes(unsigned(mean)), 0)) == mean,
{
    let u = unsigned(mean);
    let b = pattern_bytes(u);
    assert(pattern_at(b, 0) == u) by (nonlinear_arith)
        requires
            b == seq![(u / 0x100_0000) as u8, ((u / 0x1_0000) % 256) as u8, ((u / 256) % 256) as u8, (u % 256) as u8],
    ;
}

} // verus!
