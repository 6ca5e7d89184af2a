//! Mob in the Middle: a chat proxy that rewrites Boguscoin addresses.
use crate::error::ServerError;
use vstd::prelude::*;

verus! {

/// The address every Boguscoin address is rewritten to.
pub const BIG_TONYS_FAT_SICILIAN_WALLET: &'static str = "7YWHMfk9JZe0LM0g1ZauHuiSxhI";

/// The characters an address is made of after its leading `7`: ASCII letters
/// and digits.
pub open spec fn is_address_char(c: char) -> bool {
    ('0' <= c && c <= '9') || ('A' <= c && c <= 'Z') || ('a' <= c && c <= 'z')
}

/// Where the run of address characters that starts at `i` ends.
pub open spec fn run_end(s: Seq<char>, i: int) -> int
    decreases s.len() - i,
{
    if i < 0 || i >= s.len() || !is_address_char(s[i]) {
        i
    } else {
        run_end(s, i + 1)
    }
}

/// A run of address characters stays inside the message.
pub proof fn lemma_run_end_bounds(s: Seq<char>, i: int)
    requires
        0 <= i <= s.len(),
    ensures
        i <= run_end(s, i) <= s.len(),
    decreases s.len() - i,
{
    if i < s.len() && is_address_char(s[i]) {
        lemma_run_end_bounds(s, i + 1);
    }
}

/// Whether a Boguscoin address starts at `p`: a `7` followed by 25 to 34
/// address characters, preceded by the start of the message or a space, and
/// followed by a space, a newline or the end of the message.
pub open spec fn address_at(s: Seq<char>, p: int) -> bool {
    let e = run_end(s, p + 1);
    &&& 0 <= p < s.len()
    &&& (p == 0 || s[p - 1] == ' ')
    &&& s[p] == '7'
    &&& 25 <= e - (p + 1) <= 34
    &&& (e == s.len() || s[e] == ' ' || s[e] == '\n')
}

/// The message from position `i` on, with every address replaced by `wallet`
/// and every other character kept.
pub open spec fn rewrite_from(s: Seq<char>, i: int, wallet: Seq<char>) -> Seq<char>
    decreases s.len() - i,
{
    if i < 0 || i >= s.len() {
        Seq::empty()
    } else if address_at(s, i) {
        proof {
            lemma_run_end_bounds(s, i + 1);
        }
        wallet + rewrite_from(s, run_end(s, i + 1), wallet)
    } else {
        seq![s[i]] + rewrite_from(s, i + 1, wallet)
    }
}

/// The message with every Boguscoin address rewritten to Tony's.
pub open spec fn rewritten(s: Seq<char>) -> Seq<char> {
    rewrite_from(s, 0, BIG_TONYS_FAT_SICILIAN_WALLET@)
}

/// A message without any Boguscoin address is passed on unchanged.
pub proof fn lemma_no_address_unchanged(s: Seq<char>)
    requires
        forall|p: int| 0 <= p < s.len() ==> !#[trigger] address_at(s, p),
    ensures
        rewritten(s) == s,
{
    lemma_rewrite_from_unchanged(s, 0);
    assert(s.skip(0) =~= s);
}

proof fn lemma_rewrite_from_unchanged(s: Seq<char>, i: int)
    requires
        0 <= i <= s.len(),
        forall|p: int| 0 <= p < s.len() ==> !#[trigger] address_at(s, p),
    ensures
        rewrite_from(s, i, BIG_TONYS_FAT_SICILIAN_WALLET@) == s.skip(i),
    decreases s.len() - i,
{
    if i < s.len() {
        assert(!address_at(s, i));
        lemma_rewrite_from_unchanged(s, i + 1);
        assert(s.skip(i) =~= seq![s[i]] + s.skip(i + 1));
    } else {
        assert(s.skip(i) =~= Seq::<char>::empty());
    }
}

/// The characters of a text, one by one.
fn chars_of(s: &str) -> (r: Vec<char>)
    ensures
        r@ == s@,
{
    let mut r: Vec<char> = Vec::new();
    for c in it: s.chars()
        invariant
            r@ == it.seq().take(it.index() as int),
    {
        r.push(c);
    }
    r
}

/// Whether `c` is an ASCII letter or digit.
fn address_char(c: char) -> (r: bool)
    ensures
        r == is_address_char(c),
{
    ('0' <= c && c <= '9') || ('A' <= c && c <= 'Z') || ('a' <= c && c <= 'z')
}

/// Where the address that starts at `p` ends, if one does.
fn address_end(chars: &Vec<char>, p: usize) -> (r: Option<usize>)
    requires
        p < chars@.len(),
    ensures
        match r {
            Some(e) => address_at(chars@, p as int) && e == run_end(chars@, p + 1),
            None => !address_at(chars@, p as int),
        },
{
    let n = chars.len();
    if chars[p] != '7' || (p > 0 && chars[p - 1] != ' ') {
        return None;
    }
    let mut e = p + 1;
    while e < n && address_char(chars[e])
        invariant
            p < e <= n,
            n == chars@.len(),
            run_end(chars@, p + 1) == run_end(chars@, e as int),
        decreases n - e,
    {
        e = e + 1;
    }
    let len = e - (p + 1);
    if 25 <= len && len <= 34 && (e == n || chars[e] == ' ' || chars[e] == '\n') {
        Some(e)
    } else {
        None
    }
}

/// Rewrite every Boguscoin address in the message to Tony's.
pub fn rewrite_boguscoin(message: &str) -> (r: String)
    ensures
        r@ == rewritten(message@),
{
    let chars = chars_of(message);
    let n = chars.len();
    let ghost s = message@;
    let ghost w = BIG_TONYS_FAT_SICILIAN_WALLET@;
    let mut out = String::new();
    // Characters from `kept` to `i` are copied unchanged once an address or the
    // end is reached
    let mut kept: usize = 0;
    let mut i: usize = 0;
    while i < n
        invariant
            s == message@,
            w == BIG_TONYS_FAT_SICILIAN_WALLET@,
            n == s.len(),
            chars@ == s,
            kept <= i <= n,
            out@ + s.subrange(kept as int, i as int) + rewrite_from(s, i as int, w) == rewrite_from(s, 0, w),
        decreases n - i,
    {
        match address_end(&chars, i) {
            Some(e) => {
                let ghost before = out@;
                proof {
                    lemma_run_end_bounds(s, i + 1);
                }
                out.append(message.substring_char(kept, i));
                out.append(BIG_TONYS_FAT_SICILIAN_WALLET);
                assert(out@ + s.subrange(e as int, e as int) + rewrite_from(s, e as int, w) =~= before
                    + s.subrange(kept as int, i as int) + rewrite_from(s, i as int, w));
                kept = e;
                i = e;
            },
            None => {
                assert(s.subrange(kept as int, i as int) + rewrite_from(s, i as int, w) =~= s.subrange(
                    kept as int,
                    i + 1,
                ) + rewrite_from(s, i + 1, w));
                i = i + 1;
            },
        }
    }
    out.append(message.substring_char(kept, n));
    assert(rewrite_from(s, n as int, w) =~= Seq::<char>::empty());
    assert(out@ =~= rewrite_from(s, 0, w));
    out
}

/// https://protohackers.com/problem/5
#[derive(Debug)]
pub struct MaliciousChatProxy;

impl MaliciousChatProxy {
    /// What to pass on for one line read from one side: a read of zero bytes
    /// means that side closed; otherwise the line goes on with its Boguscoin
    /// addresses rewritten.
    pub fn proxy_line(&self, bytes_read: usize, line: &str) -> (r: Result<String, ServerError>)
        ensures
            bytes_read == 0 ==> r matches Err(ServerError::SocketClose),
            bytes_read > 0 ==> (r matches Ok(out) && out@ == rewritten(line@)),
    {
        if bytes_read == 0 {
            return Err(ServerError::SocketClose);
        }
        Ok(rewrite_boguscoin(line))
    }
}

} // verus!
