//! Unusual Database Program: a key-value store spoken to over UDP.
use crate::error::ServerError;
use crate::util::{append_bytes, str_eq};
use vstd::hash_map::StringHashMap;
use vstd::prelude::*;
use vstd::string::StrSliceExecFns;
use vstd::utf8::{decode_utf8, encode_utf8, valid_utf8};

verus! {

/// The key that clients cannot overwrite.
pub const VERSION_KEY: &'static str = "version";

/// The value the version key always holds.
pub const VERSION_VALUE: &'static str = "big booty judge judy";

/// Calls `String::from_utf8`. Trusted: it succeeds exactly on valid UTF-8, and
/// the string then holds the text those bytes encode. On failure it gives the
/// error's description, whose wording is not stated here.
#[verifier::external_body]
fn string_from_utf8(bytes: Vec<u8>) -> (r: Result<String, String>)
    ensures
        r is Ok <==> valid_utf8(bytes@),
        r matches Ok(s) ==> s@ == decode_utf8(bytes@),
{
    match String::from_utf8(bytes) {
        Ok(s) => Ok(s),
        Err(e) => Err(e.to_string()),
    }
}

/// Whether `k` is where the first `=` of `s` stands.
pub open spec fn first_equals_at(s: Seq<char>, k: int) -> bool {
    &&& 0 <= k < s.len()
    &&& s[k] == '='
    &&& forall|j: int| 0 <= j < k ==> s[j] != '='
}

/// Where the first `=` of `s` stands, if it has one.
pub open spec fn first_equals(s: Seq<char>) -> Option<int> {
    if exists|k: int| first_equals_at(s, k) {
        Some(choose|k: int| first_equals_at(s, k))
    } else {
        None
    }
}

/// The text of the database's answer to a retrieval: `key=value`, with an
/// empty value for a key it does not hold.
pub open spec fn retrieval(values: Map<Seq<char>, Seq<char>>, key: Seq<char>) -> Seq<u8> {
    encode_utf8(key) + encode_utf8("="@) + encode_utf8(
        if values.contains_key(key) {
            values[key]
        } else {
            Seq::empty()
        },
    )
}

/// What one request does to the store, and what it answers. A request with an
/// `=` is an insertion of the part before the first `=` as key and the rest as
/// value, answered with nothing; the version key is never overwritten. A request
/// without `=` is a retrieval of that key.
pub open spec fn db_step(values: Map<Seq<char>, Seq<char>>, request: Seq<char>) -> (
    Map<Seq<char>, Seq<char>>,
    Option<Seq<u8>>,
) {
    match first_equals(request) {
        Some(k) => {
            let key = request.take(k);
            if key == VERSION_KEY@ {
                (values, None)
            } else {
                (values.insert(key, request.skip(k + 1)), None)
            }
        },
        None => (values, Some(retrieval(values, request))),
    }
}

/// The first `=` is unique.
proof fn lemma_first_equals(s: Seq<char>, k: int)
    requires
        first_equals_at(s, k),
    ensures
        first_equals(s) == Some(k),
{
    let c = choose|c: int| first_equals_at(s, c);
    assert(first_equals_at(s, c));
    if c < k {
        assert(s[c] != '=');
    } else if k < c {
        assert(s[k] != '=');
    }
}

/// Problem 4: the store.
pub struct UnusualDatabaseServer {
    /// Values store that will be modified/read during operation.
    values: StringHashMap<String>,
}

impl View for UnusualDatabaseServer {
    type V = Map<Seq<char>, Seq<char>>;

    closed spec fn view(&self) -> Map<Seq<char>, Seq<char>> {
        self.values@.map_values(|v: String| v@)
    }
}

impl UnusualDatabaseServer {
    /// The store's invariant: the version key holds the version.
    pub open spec fn wf(&self) -> bool {
        self@.contains_key(VERSION_KEY@) && self@[VERSION_KEY@] == VERSION_VALUE@
    }

    /// A store that only holds the version.
    pub fn new() -> (r: Self)
        ensures
            r.wf(),
            r@ == Map::<Seq<char>, Seq<char>>::empty().insert(VERSION_KEY@, VERSION_VALUE@),
    {
        let mut values = StringHashMap::new();
        // This value should never be overwritten!
        values.insert(VERSION_KEY.to_owned(), VERSION_VALUE.to_owned());
        let r = UnusualDatabaseServer { values };
        assert(r@ =~= Map::<Seq<char>, Seq<char>>::empty().insert(VERSION_KEY@, VERSION_VALUE@));
        r
    }

    /// Where the first `=` of the text is, if it has one.
    fn find_equals(text: &str) -> (r: Option<usize>)
        ensures
            r matches Some(k) ==> first_equals_at(text@, k as int),
            r is None ==> forall|j: int| 0 <= j < text@.len() ==> text@[j] != '=',
    {
        let n = text.unicode_len();
        let mut i: usize = 0;
        while i < n
            invariant
                n == text@.len(),
                i <= n,
                forall|j: int| 0 <= j < i ==> text@[j] != '=',
            decreases n - i,
        {
            if text.get_char(i) == '=' {
                return Some(i);
            }
            i = i + 1;
        }
        None
    }

    /// Handle one datagram: bytes that are not UTF-8 are an error; otherwise the
    /// request is applied as [`db_step`] says, and its answer returned.
    pub fn handle_data(&mut self, data: Vec<u8>) -> (r: Result<Option<Vec<u8>>, ServerError>)
        requires
            old(self).wf(),
        ensures
            final(self).wf(),
            !valid_utf8(data@) ==> (r matches Err(ServerError::FromUtf8(_)) && final(self)@ == old(self)@),
            valid_utf8(data@) ==> r is Ok && ({
                let (values, answer) = db_step(old(self)@, decode_utf8(data@));
                &&& final(self)@ == values
                &&& match (answer, r) {
                    (Some(a), Ok(Some(bytes))) => bytes@ == a,
                    (None, Ok(None)) => true,
                    _ => false,
                }
            }),
    {
        let text = match string_from_utf8(data) {
            Ok(text) => text,
            Err(description) => return Err(ServerError::FromUtf8(description)),
        };
        let ghost request = text@;
        match Self::find_equals(text.as_str()) {
            // The `version` key is special and should never be overwritten
            Some(k) => {
                proof {
                    lemma_first_equals(request, k as int);
                }
                let n = text.as_str().unicode_len();
                let key = text.as_str().substring_char(0, k);
                let value = text.as_str().substring_char(k + 1, n);
                assert(key@ == request.take(k as int));
                assert(value@ == request.skip(k + 1));
                if !str_eq(key, VERSION_KEY) {
                    // Insert/update
                    self.values.insert(key.to_owned(), value.to_owned());
                    proof {
                        assert(self@ =~= old(self)@.insert(key@, value@));
                    }
                }
                assert(first_equals(request) == Some(k as int));
                assert(self@ == db_step(old(self)@, request).0);
                Ok(None)
            },
            // Retrieval: the full message is the requested key
            None => {
                proof {
                    if exists|k: int| first_equals_at(request, k) {
                        let k = choose|k: int| first_equals_at(request, k);
                        assert(request[k] == '=');
                    }
                }
                let key = text.as_str();
                let mut response: Vec<u8> = Vec::new();
                append_bytes(&mut response, key.as_bytes());
                append_bytes(&mut response, "=".as_bytes());
                match self.values.get(key) {
                    Some(value) => {
                        assert(old(self)@.contains_key(key@) && old(self)@[key@] == value@);
                        append_bytes(&mut response, value.as_str().as_bytes());
                    },
                    None => {
                        assert(!old(self)@.contains_key(key@));
                    },
                }
                proof {
                    assert(encode_utf8(Seq::<char>::empty()) =~= Seq::<u8>::empty());
                    assert(first_equals(request) is None);
                    assert(response@ == retrieval(old(self)@, request));
                }
                Ok(Some(response))
            },
        }
    }
}

/// The version key keeps its value, whatever a request says.
pub proof fn lemma_version_is_kept(values: Map<Seq<char>, Seq<char>>, request: Seq<char>)
    requires
        values.contains_key(VERSION_KEY@),
    ensures
        db_step(values, request).0.contains_key(VERSION_KEY@),
        db_step(values, request).0[VERSION_KEY@] == values[VERSION_KEY@],
{
}

/// A retrieval changes nothing.
pub proof fn lemma_retrieval_changes_nothing(values: Map<Seq<char>, Seq<char>>, request: Seq<char>)
    requires
        forall|j: int| 0 <= j < request.len() ==> request[j] != '=',
    ensures
        db_step(values, request).0 == values,
        db_step(values, request).1 == Some(retrieval(values, request)),
{
    if exists|k: int| first_equals_at(request, k) {
        let k = choose|k: int| first_equals_at(request, k);
        assert(request[k] == '=');
    }
}

/// A read gives back what a write wrote: after `key=value` is inserted, a
/// retrieval of `key` answers `key=value`, unless the key is the version key.
pub proof fn lemma_read_after_write(
    values: Map<Seq<char>, Seq<char>>,
    key: Seq<char>,
    value: Seq<char>,
)
    requires
        forall|j: int| 0 <= j < key.len() ==> key[j] != '=',
        key != VERSION_KEY@,
    ensures
        ({
            let written = db_step(values, key + seq!['='] + value).0;
            db_step(written, key).1 == Some(
                encode_utf8(key) + encode_utf8("="@) + encode_utf8(value),
            )
        }),
{
    let request = key + seq!['='] + value;
    let k = key.len() as int;
    assert(first_equals_at(request, k));
    lemma_first_equals(request, k);
    assert(request.take(k) =~= key);
    assert(request.skip(k + 1) =~= value);
    let written = values.insert(key, value);
    lemma_retrieval_changes_nothing(written, key);
}

/// An insertion changes only its own key: after `key=value` is stored, every
/// other key holds what it held before, so a retrieval of any other key answers
/// as it did before the insertion; and the key itself holds the value.
pub proof fn lemma_write_keeps_other_keys(
    values: Map<Seq<char>, Seq<char>>,
    key: Seq<char>,
    value: Seq<char>,
    other: Seq<char>,
)
    requires
        forall|j: int| 0 <= j < key.len() ==> key[j] != '=',
        key != VERSION_KEY@,
        other != key,
    ensures
        ({
            let written = db_step(values, key + seq!['='] + value).0;
            &&& written.contains_key(key) && written[key] == value
            &&& written.contains_key(other) == values.contains_key(other)
            &&& values.contains_key(other) ==> written[other] == values[other]
            &&& (forall|j: int| 0 <= j < other.len() ==> other[j] != '=') ==> db_step(written, other).1
                == db_step(values, other).1
        }),
{
    let request = key + seq!['='] + value;
    let k = key.len() as int;
    assert(first_equals_at(request, k));
    lemma_first_equals(request, k);
    assert(request.take(k) =~= key);
    assert(request.skip(k + 1) =~= value);
    let written = values.insert(key, value);
    if forall|j: int| 0 <= j < other.len() ==> other[j] != '=' {
        lemma_retrieval_changes_nothing(written, other);
        lemma_retrieval_changes_nothing(values, other);
    }
}

} // verus!
