//! Small helpers shared by the servers.
use crate::error::ServerError;
use vstd::prelude::*;
use vstd::utf8::encode_utf8_decode_utf8;

verus! {

/// Extensions on the `Result` type.
pub trait ResultExt<T> {
    /// The value held by the result, whichever side holds it.
    spec fn spec_smush(self) -> T;

    /// "Smush" a result together by extracting either the `Ok` or `Err` value,
    /// whichever is present.
    fn smush(self) -> (r: T)
        ensures
            r == self.spec_smush(),
    ;
}

impl<T> ResultExt<T> for Result<T, T> {
    open spec fn spec_smush(self) -> T {
        match self {
            Ok(v) => v,
            Err(v) => v,
        }
    }

    fn smush(self) -> (r: T) {
        match self {
            Ok(val) => val,
            Err(val) => val,
        }
    }
}

/// What a read from a socket delivered. `bytes_read` is the count the read
/// reported into `buffer`; a count of zero means the peer closed the socket.
pub fn received_bytes(buffer: &[u8], bytes_read: usize) -> (r: Result<&[u8], ServerError>)
    requires
        bytes_read <= buffer@.len(),
    ensures
        bytes_read == 0 ==> r matches Err(ServerError::SocketClose),
        bytes_read > 0 ==> (r matches Ok(received) && received@ == buffer@.take(bytes_read as int)),
{
    if bytes_read == 0 {
        Err(ServerError::SocketClose)
    } else {
        Ok(&buffer[0..bytes_read])
    }
}

/// The decimal digit for `d`, which is below ten.
pub open spec fn digit_char(d: nat) -> char {
    (48 + d) as char
}

/// The decimal notation of a number, without leading zeros.
pub open spec fn decimal(n: nat) -> Seq<char>
    decreases n,
{
    if n < 10 {
        seq![digit_char(n)]
    } else {
        decimal(n / 10).push(digit_char(n % 10))
    }
}

/// The decimal digit `d` as a one-character text.
fn digit_text(d: u8) -> (r: &'static str)
    requires
        d < 10,
    ensures
        r@ == seq![digit_char(d as nat)],
{
    let digits = "0123456789";
    proof {
        reveal_strlit("0123456789");
    }
    let i = d as usize;
    let r = digits.substring_char(i, i + 1);
    assert(r@ =~= seq![digits@[i as int]]);
    r
}

/// A text followed by a number in decimal notation.
pub(crate) fn text_with_number(prefix: &str, n: u8) -> (r: String)
    ensures
        r@ == prefix@ + decimal(n as nat),
{
    let mut out = String::from_str(prefix);
    if n >= 100 {
        out.append(digit_text(n / 100));
    }
    if n >= 10 {
        out.append(digit_text(n / 10 % 10));
    }
    out.append(digit_text(n % 10));
    proof {
        let m = n as nat;
        if m >= 100 {
            assert(decimal(m / 100 / 1) == seq![digit_char(m / 100)]);
            assert(decimal(m / 10) == decimal(m / 10 / 10).push(digit_char(m / 10 % 10)));
            assert(m / 10 / 10 == m / 100);
        } else if m >= 10 {
            assert(decimal(m / 10) == seq![digit_char(m / 10)]);
            assert(m / 10 % 10 == m / 10);
        }
        assert(out@ =~= prefix@ + decimal(m));
    }
    out
}

/// Calls `format!` to write a character between two texts. Trusted: the result
/// is the three concatenated, which is how `str` and `char` display.
#[verifier::external_body]
pub(crate) fn text_with_char(prefix: &str, c: char, suffix: &str) -> (r: String)
    ensures
        r@ == prefix@ + seq![c] + suffix@,
{
    format!("{}{}{}", prefix, c, suffix)
}

/// Append bytes to a buffer.
pub fn append_bytes(out: &mut Vec<u8>, bytes: &[u8])
    ensures
        final(out)@ == old(out)@ + bytes@,
{
    let n = bytes.len();
    let mut i: usize = 0;
    while i < n
        invariant
            n == bytes@.len(),
            i <= n,
            out@ == old(out)@ + bytes@.take(i as int),
        decreases n - i,
    {
        out.push(bytes[i]);
        i = i + 1;
        assert(bytes@.take(i as int) == bytes@.take(i - 1) + seq![bytes@[i - 1]]);
    }
    assert(bytes@.take(n as int) == bytes@);
}

/// Whether two byte slices hold the same bytes.
pub fn bytes_eq(a: &[u8], b: &[u8]) -> (r: bool)
    ensures
        r == (a@ == b@),
{
    if a.len() != b.len() {
        return false;
    }
    let mut i: usize = 0;
    while i < a.len()
        invariant
            a@.len() == b@.len(),
            i <= a@.len(),
            forall|j: int| 0 <= j < i ==> a@[j] == b@[j],
        decreases a@.len() - i,
    {
        if a[i] != b[i] {
            return false;
        }
        i = i + 1;
    }
    assert(a@ =~= b@);
    true
}

/// Whether two strings hold the same text.
pub fn str_eq(a: &str, b: &str) -> (r: bool)
    ensures
        r == (a@ == b@),
{
    proof {
        encode_utf8_decode_utf8(a@);
        encode_utf8_decode_utf8(b@);
    }
    bytes_eq(a.as_bytes(), b.as_bytes())
}

} // verus!
