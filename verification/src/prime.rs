//! Prime Time: answer JSON requests that ask whether a number is prime.
use crate::util::str_eq;
use vstd::prelude::*;

verus! {

/// The only method a request may name.
pub const IS_PRIME_METHOD: &'static str = "isPrime";

/// The method a response names when the request was malformed.
pub const MALFORMED_METHOD: &'static str = "MALFORMED";

/// Whether `n` is a prime number.
pub open spec fn prime(n: nat) -> bool {
    n > 1 && forall|d: nat| 2 <= d < n ==> #[trigger] (n % d) != 0
}

/// The number in a request, as the primality test sees it: a whole,
/// non-negative number, or anything else (negative or fractional), which is
/// not prime.
#[derive(Copy, Clone, Debug, PartialEq, Eq, Structural)]
pub enum Number {
    Natural(u64),
    Other,
}

/// A well-formed request.
#[derive(Debug)]
pub struct InputMessage {
    pub method: String,
    pub number: Number,
}

/// A response.
#[derive(Debug)]
pub struct OutputMessage {
    pub method: String,
    pub prime: bool,
}

impl OutputMessage {
    /// The answer to a well-formed request.
    pub fn new(prime: bool) -> (r: Self)
        ensures
            r.method@ == IS_PRIME_METHOD@,
            r.prime == prime,
    {
        OutputMessage { method: IS_PRIME_METHOD.to_owned(), prime }
    }

    /// The answer to a malformed request.
    pub fn malformed() -> (r: Self)
        ensures
            r.method@ == MALFORMED_METHOD@,
            !r.prime,
    {
        OutputMessage { method: MALFORMED_METHOD.to_owned(), prime: false }
    }
}

/// A divisor of `n` that is at least `i`, with `i * i > n`, comes with a
/// cofactor that is a divisor of `n` below `i`.
proof fn lemma_small_cofactor(n: nat, i: nat, d: nat)
    requires
        2 <= i,
        n < i * i,
        i <= d < n,
        n % d == 0,
    ensures
        2 <= n / d < i,
        n % (n / d) == 0,
{
    let e = n / d;
    assert(n == d * e) by (nonlinear_arith)
        requires
            n % d == 0,
            d > 0,
            e == n / d,
    ;
    assert(e >= 2) by (nonlinear_arith)
        requires
            n == d * e,
            d < n,
            d > 0,
    ;
    assert(e < i) by (nonlinear_arith)
        requires
            n == d * e,
            i <= d,
            n < i * i,
            e >= 0,
    ;
    assert(n % e == 0) by (nonlinear_arith)
        requires
            n == e * d,
            e > 0,
    ;
}

/// Check if a natural number is prime, by trial division up to its square root.
pub fn is_prime(n: u64) -> (r: bool)
    ensures
        r == prime(n as nat),
{
    // 0 and 1 aren't prime
    if n <= 1 {
        return false;
    }
    let mut i: u64 = 2;
    while i <= n / i
        invariant
            n > 1,
            2 <= i <= n,
            forall|d: nat| 2 <= d < i ==> #[trigger] ((n as nat) % d) != 0,
        decreases n - i,
    {
        if n % i == 0 {
            assert(((n as nat) % (i as nat)) == 0);
            assert(i < n) by (nonlinear_arith)
                requires
                    i <= n / i,
                    2 <= i,
                    n > 1,
            ;
            return false;
        }
        assert(i + 1 <= n) by (nonlinear_arith)
            requires
                i <= n / i,
                2 <= i,
                n > 1,
        ;
        i = i + 1;
    }
    proof {
        let nn = n as nat;
        let ii = i as nat;
        assert(nn < ii * ii) by (nonlinear_arith)
            requires
                ii > nn / ii,
                ii >= 2,
        ;
        assert forall|d: nat| 2 <= d < nn implies #[trigger] (nn % d) != 0 by {
            if d >= ii && nn % d == 0 {
                lemma_small_cofactor(nn, ii, d);
                let e = nn / d;
                assert((nn % e) != 0);
            }
        }
    }
    true
}

/// Problem 1 - test if the input number is prime
#[derive(Copy, Clone, Debug)]
pub struct PrimeTestServer;

impl PrimeTestServer {
    /// The answer to one request line: `None` stands for a line that is not a
    /// well-formed request. A request for any other method is malformed; a
    /// number that is not natural is not prime.
    pub fn respond(&self, request: Option<InputMessage>) -> (r: OutputMessage)
        ensures
            match request {
                Some(m) if m.method@ == IS_PRIME_METHOD@ => r.method@ == IS_PRIME_METHOD@ && r.prime == match m.number {
                    Number::Natural(n) => prime(n as nat),
                    Number::Other => false,
                },
                _ => r.method@ == MALFORMED_METHOD@ && !r.prime,
            },
    {
        match request {
            Some(input_message) => {
                if !str_eq(input_message.method.as_str(), IS_PRIME_METHOD) {
                    OutputMessage::malformed()
                } else {
                    match input_message.number {
                        Number::Natural(n) => OutputMessage::new(is_prime(n)),
                        Number::Other => OutputMessage::new(false),
                    }
                }
            },
            None => OutputMessage::malformed(),
        }
    }
}

} // verus!
