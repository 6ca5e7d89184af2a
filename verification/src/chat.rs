//! Budget Chat: a chat room over lines of text.
use crate::error::ServerError;
use crate::util::{append_bytes, str_eq};
use vstd::prelude::*;
use vstd::string::StrSliceExecFns;
use vstd::utf8::encode_utf8;

verus! {

/// Whether a character is alphanumeric in Unicode's sense.
pub uninterp spec fn alphanumeric(c: char) -> bool;

/// Calls `char::is_alphanumeric`. Trusted: the result is whether the character
/// is alphabetic or numeric by Unicode's tables, a function of the character
/// alone; on ASCII this means exactly the letters and the digits.
pub assume_specification[ char::is_alphanumeric ](c: char) -> (r: bool)
    ensures
        r == alphanumeric(c),
        (c as u32) < 128 ==> (r <==> ('0' <= c <= '9' || 'a' <= c <= 'z' || 'A' <= c <= 'Z')),
;

/// Whether a character is an ASCII letter or digit.
pub open spec fn is_ascii_alphanumeric(c: char) -> bool {
    '0' <= c <= '9' || 'a' <= c <= 'z' || 'A' <= c <= 'Z'
}

/// A name is valid exactly when it is not empty, takes at most 16 bytes, and
/// every one of its characters, the first included, is alphanumeric; so a name
/// with any other character anywhere, such as a leading `_`, is refused.
pub proof fn lemma_valid_username_characters(name: Seq<char>, i: int)
    ensures
        valid_username(name) <==> (name.len() > 0 && encode_utf8(name).len() <= 16 && forall|j: int|
            0 <= j < name.len() ==> alphanumeric(#[trigger] name[j])),
        0 <= i < name.len() && !alphanumeric(name[i]) ==> !valid_username(name),
{
}

/// Whether a name is acceptable: 1 to 16 bytes long, all alphanumeric.
pub open spec fn valid_username(name: Seq<char>) -> bool {
    &&& name.len() > 0
    &&& encode_utf8(name).len() <= 16
    &&& forall|i: int| 0 <= i < name.len() ==> alphanumeric(#[trigger] name[i])
}

/// The UTF-8 bytes of a text.
pub open spec fn utf8(s: Seq<char>) -> Seq<u8> {
    encode_utf8(s)
}

/// The parts joined into one byte string, with the separator between each two.
pub open spec fn join(parts: Seq<Seq<u8>>, sep: Seq<u8>) -> Seq<u8>
    decreases parts.len(),
{
    if parts.len() == 0 {
        Seq::empty()
    } else if parts.len() == 1 {
        parts[0]
    } else {
        join(parts.drop_last(), sep) + sep + parts.last()
    }
}

/// Newtype wrapper for usernames
#[derive(Clone, Debug)]
pub struct Username(pub String);

impl Username {
    /// Check if the username is valid, according to the problem definition
    pub fn is_valid(username: &str) -> (r: bool)
        ensures
            r == valid_username(username@),
            r ==> username@.len() > 0,
            r ==> forall|i: int| 0 <= i < username@.len() ==> alphanumeric(#[trigger] username@[i]),
            r ==> forall|i: int|
                0 <= i < username@.len() && (username@[i] as u32) < 128 ==> is_ascii_alphanumeric(
                    #[trigger] username@[i],
                ),
    {
        if username.is_empty() || username.as_bytes().len() > 16 {
            return false;
        }
        let n = username.unicode_len();
        let mut i: usize = 0;
        while i < n
            invariant
                n == username@.len(),
                i <= n,
                forall|j: int| 0 <= j < i ==> alphanumeric(#[trigger] username@[j]),
                forall|j: int|
                    0 <= j < i && (username@[j] as u32) < 128 ==> is_ascii_alphanumeric(
                        #[trigger] username@[j],
                    ),
            decreases n - i,
        {
            if !username.get_char(i).is_alphanumeric() {
                return false;
            }
            i = i + 1;
        }
        true
    }

    /// The name as text.
    pub fn as_str(&self) -> (r: &str)
        ensures
            r@ == self.0@,
    {
        self.0.as_str()
    }

    /// A copy of this name.
    pub fn duplicate(&self) -> (r: Username)
        ensures
            r == *self,
    {
        Username(self.0.clone())
    }
}

/// The name the client gave first, if it is valid. Either the username was
/// invalid or the user disconnected (`None`); either way the session ends as a
/// closed socket.
pub fn accept_username(line: Option<String>) -> (r: Result<Username, ServerError>)
    ensures
        match line {
            Some(name) if valid_username(name@) => r matches Ok(u) && u.0 == name,
            _ => r matches Err(ServerError::SocketClose),
        },
{
    match line {
        Some(username) => {
            if Username::is_valid(username.as_str()) {
                Ok(Username(username))
            } else {
                Err(ServerError::SocketClose)
            }
        },
        None => Err(ServerError::SocketClose),
    }
}

/// A message propagated over the chat channel
#[derive(Clone, Debug)]
pub enum ChatMessage {
    Join { username: Username },
    Leave { username: Username },
    Chat { sender: Username, content: String },
}

/// The text of a chat message, as UTF-8 bytes.
pub open spec fn message_text(m: ChatMessage) -> Seq<u8> {
    match m {
        ChatMessage::Join { username } => utf8("* "@) + utf8(username.0@) + utf8(
            " has entered the room"@,
        ),
        ChatMessage::Leave { username } => utf8("* "@) + utf8(username.0@) + utf8(" has left the room"@),
        ChatMessage::Chat { sender, content } => utf8("["@) + utf8(sender.0@) + utf8("] "@) + utf8(
            content@,
        ),
    }
}

/// The user a message is about: who joined, left, or spoke.
pub open spec fn author(m: ChatMessage) -> Username {
    match m {
        ChatMessage::Join { username } => username,
        ChatMessage::Leave { username } => username,
        ChatMessage::Chat { sender, .. } => sender,
    }
}

impl ChatMessage {
    /// Get the username of the person who sent the chat message
    pub fn username(&self) -> (r: &Username)
        ensures
            *r == author(*self),
    {
        match self {
            ChatMessage::Join { username } => username,
            ChatMessage::Leave { username } => username,
            ChatMessage::Chat { sender, .. } => sender,
        }
    }

    /// The message as one line of text to send to a client, newline included.
    pub fn to_line(&self) -> (r: Vec<u8>)
        ensures
            r@ == message_text(*self) + utf8("\n"@),
    {
        let mut out: Vec<u8> = Vec::new();
        match self {
            ChatMessage::Join { username } => {
                append_bytes(&mut out, "* ".as_bytes());
                append_bytes(&mut out, username.as_str().as_bytes());
                append_bytes(&mut out, " has entered the room".as_bytes());
            },
            ChatMessage::Leave { username } => {
                append_bytes(&mut out, "* ".as_bytes());
                append_bytes(&mut out, username.as_str().as_bytes());
                append_bytes(&mut out, " has left the room".as_bytes());
            },
            ChatMessage::Chat { sender, content } => {
                append_bytes(&mut out, "[".as_bytes());
                append_bytes(&mut out, sender.as_str().as_bytes());
                append_bytes(&mut out, "] ".as_bytes());
                append_bytes(&mut out, content.as_str().as_bytes());
            },
        }
        append_bytes(&mut out, "\n".as_bytes());
        out
    }
}

/// Whether a client gets to see a message: it does, unless it sent it itself.
pub fn should_forward(message: &ChatMessage, owner: &Username) -> (r: bool)
    ensures
        r == (author(*message).0@ != owner.0@),
{
    !str_eq(message.username().as_str(), owner.as_str())
}

/// The names in a roster, as UTF-8 bytes.
pub open spec fn name_bytes(users: Seq<Seq<char>>) -> Seq<Seq<u8>> {
    users.map(|i: int, u: Seq<char>| utf8(u))
}

/// The line that tells a newcomer who is in the room.
pub open spec fn roster_text(users: Seq<Seq<char>>) -> Seq<u8> {
    utf8("* present and accounted for: "@) + join(name_bytes(users), utf8(", "@)) + utf8("\n"@)
}

/// The chat room: who is in it. A name appears at most once.
#[derive(Debug)]
pub struct ChatServer {
    /// List of active users, so we can print it out every time someone joins
    active_users: Vec<Username>,
}

impl ChatServer {
    /// The names of the active users.
    pub closed spec fn users(&self) -> Seq<Seq<char>> {
        self.active_users@.map(|i: int, u: Username| u.0@)
    }

    /// The room's invariant: no name twice.
    pub open spec fn wf(&self) -> bool {
        self.users().no_duplicates()
    }

    /// An empty room.
    pub fn new() -> (r: Self)
        ensures
            r.wf(),
            r.users() == Seq::<Seq<char>>::empty(),
    {
        let r = ChatServer { active_users: Vec::new() };
        assert(r.users() =~= Seq::<Seq<char>>::empty());
        r
    }

    /// Whether a name is in the room, and where.
    fn position(&self, name: &str) -> (r: Option<usize>)
        ensures
            r matches Some(k) ==> k < self.users().len() && self.users()[k as int] == name@,
            r is None ==> !self.users().contains(name@),
    {
        let mut i: usize = 0;
        while i < self.active_users.len()
            invariant
                i <= self.active_users@.len(),
                forall|j: int| 0 <= j < i ==> self.users()[j] != name@,
            decreases self.active_users@.len() - i,
        {
            if str_eq(self.active_users[i].as_str(), name) {
                return Some(i);
            }
            i = i + 1;
        }
        None
    }

    /// The line that lists everyone in the room.
    pub fn roster_message(&self) -> (r: Vec<u8>)
        ensures
            r@ == roster_text(self.users()),
    {
        let mut out: Vec<u8> = Vec::new();
        append_bytes(&mut out, "* present and accounted for: ".as_bytes());
        let ghost start = out@;
        let mut i: usize = 0;
        while i < self.active_users.len()
            invariant
                i <= self.active_users@.len(),
                out@ == start + join(name_bytes(self.users()).take(i as int), utf8(", "@)),
            decreases self.active_users@.len() - i,
        {
            let ghost before = out@;
            if i > 0 {
                append_bytes(&mut out, ", ".as_bytes());
            }
            append_bytes(&mut out, self.active_users[i].as_str().as_bytes());
            proof {
                let parts = name_bytes(self.users());
                assert(parts.take(i + 1).drop_last() =~= parts.take(i as int));
                assert(parts.take(i + 1).last() == utf8(self.active_users@[i as int].0@));
                if i == 0 {
                    assert(join(parts.take(0), utf8(", "@)) =~= Seq::<u8>::empty());
                    assert(out@ =~= start + join(parts.take(1), utf8(", "@)));
                } else {
                    assert(out@ =~= start + join(parts.take(i + 1), utf8(", "@)));
                }
            }
            i = i + 1;
        }
        proof {
            assert(name_bytes(self.users()).take(i as int) =~= name_bytes(self.users()));
        }
        append_bytes(&mut out, "\n".as_bytes());
        out
    }

    /// A user joins. Returns the line that tells them who is already here, and
    /// the announcement to everyone else; the user is then in the room.
    pub fn join(&mut self, username: Username) -> (r: (Vec<u8>, ChatMessage))
        requires
            old(self).wf(),
        ensures
            final(self).wf(),
            r.0@ == roster_text(old(self).users()),
            r.1 == (ChatMessage::Join { username }),
            old(self).users().contains(username.0@) ==> final(self).users() == old(self).users(),
            !old(self).users().contains(username.0@) ==> final(self).users() == old(self).users().push(
                username.0@,
            ),
    {
        // Print out who is already here
        let roster = self.roster_message();
        let present = self.position(username.as_str());
        let member = username.duplicate();
        if present.is_none() {
            self.active_users.push(member);
            proof {
                assert(self.users() =~= old(self).users().push(username.0@));
            }
        }
        (roster, ChatMessage::Join { username })
    }

    /// A user leaves. Returns the announcement to everyone else; the user is no
    /// longer in the room.
    pub fn leave(&mut self, username: Username) -> (r: ChatMessage)
        requires
            old(self).wf(),
        ensures
            final(self).wf(),
            r == (ChatMessage::Leave { username }),
            !final(self).users().contains(username.0@),
            !old(self).users().contains(username.0@) ==> final(self).users() == old(self).users(),
            old(self).users().contains(username.0@) ==> exists|k: int|
                0 <= k < old(self).users().len() && old(self).users()[k] == username.0@
                    && final(self).users() == old(self).users().remove(k),
            forall|name: Seq<char>|
                name != username.0@ ==> (#[trigger] final(self).users().contains(name) <==> old(
                    self,
                ).users().contains(name)),
    {
        match self.position(username.as_str()) {
            Some(k) => {
                self.active_users.remove(k);
                proof {
                    let o = old(self).users();
                    assert(self.users() =~= o.remove(k as int));
                    assert forall|j: int| 0 <= j < o.len() && j != k implies o[j] != username.0@ by {
                        assert(o[k as int] == username.0@);
                    }
                    assert forall|name: Seq<char>| name != username.0@ implies (#[trigger] self.users().contains(
                        name,
                    ) <==> o.contains(name)) by {
                        if o.contains(name) {
                            let j = choose|j: int| 0 <= j < o.len() && o[j] == name;
                            if j < k {
                                assert(self.users()[j] == name);
                            } else {
                                assert(self.users()[j - 1] == name);
                            }
                        }
                    }
                }
            },
            None => {},
        }
        ChatMessage::Leave { username }
    }
}

} // verus!
