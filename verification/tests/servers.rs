use protohackers::chat::{accept_username, should_forward, ChatMessage, ChatServer, Username};
use protohackers::database::UnusualDatabaseServer;
use protohackers::echo::EchoServer;
use protohackers::error::ServerError;
use protohackers::price::{decode_request, encode_mean, PriceRequest};
use protohackers::prime::{is_prime, InputMessage, Number, OutputMessage, PrimeTestServer};
use protohackers::problems::{problem_kind, ProblemKind};
use protohackers::proxy::{rewrite_boguscoin, MaliciousChatProxy, BIG_TONYS_FAT_SICILIAN_WALLET};
use protohackers::util::{bytes_eq, received_bytes, str_eq, ResultExt};

#[test]
fn smush_takes_either_side() {
    let ok: Result<u32, u32> = Ok(3);
    let err: Result<u32, u32> = Err(4);
    assert_eq!(ok.smush(), 3);
    assert_eq!(err.smush(), 4);
}

#[test]
fn received_bytes_zero_means_closed() {
    let buf = [1u8, 2, 3, 4];
    assert!(matches!(received_bytes(&buf, 0), Err(ServerError::SocketClose)));
    assert_eq!(received_bytes(&buf, 2).ok(), Some(&buf[0..2]));
    assert_eq!(received_bytes(&buf, 4).ok(), Some(&buf[..]));
}

#[test]
fn io_errors_classified() {
    assert!(ServerError::from_io(true, "eof".to_string()).is_socket_close());
    match ServerError::from_io(false, "reset".to_string()) {
        ServerError::Io(s) => assert_eq!(s, "reset"),
        _ => panic!("expected an I/O error"),
    }
}

#[test]
fn string_helpers() {
    assert!(str_eq("abc", "abc"));
    assert!(!str_eq("abc", "abd"));
    assert!(!str_eq("abc", "ab"));
    assert!(bytes_eq(&[1, 2], &[1, 2]));
    assert!(!bytes_eq(&[1, 2], &[2, 1]));
}

#[test]
fn echo_replies_same_bytes() {
    let data = b"hello\x00\xff";
    assert_eq!(EchoServer.reply(data), &data[..]);
}

#[test]
fn primes() {
    let primes: Vec<u64> = (0..30).filter(|n| is_prime(*n)).collect();
    assert_eq!(primes, vec![2, 3, 5, 7, 11, 13, 17, 19, 23, 29]);
    assert!(is_prime(7919));
    assert!(!is_prime(7917));
    assert!(!is_prime(49));
    assert!(!is_prime(1_000_000_007 * 3));
    assert!(is_prime(1_000_000_007));
    assert!(!is_prime(4_294_967_297));
}

#[test]
fn prime_responses() {
    let server = PrimeTestServer;
    let ok = server.respond(Some(InputMessage { method: "isPrime".to_string(), number: Number::Natural(13) }));
    assert_eq!(ok.method, "isPrime");
    assert!(ok.prime);
    let not = server.respond(Some(InputMessage { method: "isPrime".to_string(), number: Number::Natural(12) }));
    assert!(!not.prime);
    let other = server.respond(Some(InputMessage { method: "isPrime".to_string(), number: Number::Other }));
    assert_eq!(other.method, "isPrime");
    assert!(!other.prime);
    let wrong = server.respond(Some(InputMessage { method: "isprime".to_string(), number: Number::Natural(13) }));
    assert_eq!(wrong.method, "MALFORMED");
    assert!(!wrong.prime);
    let bad = server.respond(None);
    assert_eq!(bad.method, "MALFORMED");
    assert_eq!(OutputMessage::new(true).method, "isPrime");
    assert_eq!(OutputMessage::malformed().method, "MALFORMED");
}

#[test]
fn price_requests() {
    let q = [b'Q', 0x00, 0x00, 0x03, 0xe8, 0x00, 0x01, 0x86, 0xa0];
    assert_eq!(decode_request(&q).ok(), Some(PriceRequest::Query { start: 1000, end: 100000 }));
    let i = [b'I', 0x00, 0x00, 0x30, 0x39, 0xff, 0xff, 0xff, 0x9c];
    assert_eq!(decode_request(&i).ok(), Some(PriceRequest::Insert { timestamp: 12345, price: -100 }));
    let min = [b'I', 0x80, 0x00, 0x00, 0x00, 0x7f, 0xff, 0xff, 0xff];
    assert_eq!(decode_request(&min).ok(), Some(PriceRequest::Insert { timestamp: i32::MIN, price: i32::MAX }));
    match decode_request(&[b'X', 0, 0, 0, 0, 0, 0, 0, 0]) {
        Err(ServerError::Other(text)) => assert_eq!(text, "Invalid action: 'X'"),
        _ => panic!("expected an invalid action"),
    }
}

#[test]
fn price_replies() {
    assert_eq!(encode_mean(101), vec![0x00, 0x00, 0x00, 0x65]);
    assert_eq!(encode_mean(-1), vec![0xff, 0xff, 0xff, 0xff]);
    assert_eq!(encode_mean(i32::MIN), i32::MIN.to_be_bytes().to_vec());
    assert_eq!(encode_mean(0), vec![0, 0, 0, 0]);
}

#[test]
fn price_reply_reads_back() {
    for mean in [0, 1, -1, 255, -256, 65536, i32::MAX, i32::MIN, -123456789] {
        let reply = encode_mean(mean);
        let mut message = vec![b'I'];
        message.extend_from_slice(&reply);
        message.extend_from_slice(&reply);
        assert_eq!(decode_request(&message).ok(), Some(PriceRequest::Insert { timestamp: mean, price: mean }));
    }
}

#[test]
fn unknown_problem_numbers() {
    for (n, text) in [(4u8, "Unknown problem: 4"), (10, "Unknown problem: 10"), (255, "Unknown problem: 255"), (100, "Unknown problem: 100"), (99, "Unknown problem: 99")] {
        match problem_kind(n) {
            Err(ServerError::Other(t)) => assert_eq!(t, text),
            _ => panic!("expected an unknown problem"),
        }
    }
}

#[test]
fn invalid_action_names_the_byte() {
    match decode_request(&[b'?', 0, 0, 0, 0, 0, 0, 0, 0]) {
        Err(ServerError::Other(text)) => assert_eq!(text, "Invalid action: '?'"),
        _ => panic!("expected an invalid action"),
    }
}

#[test]
fn problem_selection() {
    assert_eq!(problem_kind(0).ok(), Some(ProblemKind::Echo));
    assert_eq!(problem_kind(1).ok(), Some(ProblemKind::PrimeTest));
    assert_eq!(problem_kind(2).ok(), Some(ProblemKind::PriceTracking));
    assert_eq!(problem_kind(3).ok(), Some(ProblemKind::Chat));
    match problem_kind(42) {
        Err(ServerError::Other(text)) => assert_eq!(text, "Unknown problem: 42"),
        _ => panic!("expected an unknown problem"),
    }
}

#[test]
fn usernames() {
    assert!(Username::is_valid("alice"));
    assert!(Username::is_valid("Bob42"));
    assert!(Username::is_valid("abcdefghijklmnop"));
    assert!(!Username::is_valid("abcdefghijklmnopq"));
    assert!(!Username::is_valid(""));
    assert!(!Username::is_valid("bad name"));
    assert!(!Username::is_valid("x!"));
    assert!(Username::is_valid("élan"));
    assert!(accept_username(Some("carol".to_string())).is_ok());
    assert!(matches!(accept_username(Some("no way".to_string())), Err(ServerError::SocketClose)));
    assert!(matches!(accept_username(None), Err(ServerError::SocketClose)));
}

#[test]
fn chat_lines() {
    let alice = || Username("alice".to_string());
    assert_eq!(ChatMessage::Join { username: alice() }.to_line(), b"* alice has entered the room\n".to_vec());
    assert_eq!(ChatMessage::Leave { username: alice() }.to_line(), b"* alice has left the room\n".to_vec());
    let chat = ChatMessage::Chat { sender: alice(), content: "hi all".to_string() };
    assert_eq!(chat.to_line(), b"[alice] hi all\n".to_vec());
    assert_eq!(chat.username().as_str(), "alice");
    assert!(!should_forward(&chat, &alice()));
    assert!(should_forward(&chat, &Username("bob".to_string())));
}

#[test]
fn chat_room_membership() {
    let mut room = ChatServer::new();
    assert_eq!(room.roster_message(), b"* present and accounted for: \n".to_vec());
    let (roster, hello) = room.join(Username("alice".to_string()));
    assert_eq!(roster, b"* present and accounted for: \n".to_vec());
    assert!(matches!(hello, ChatMessage::Join { .. }));
    let (roster, _) = room.join(Username("bob".to_string()));
    assert_eq!(roster, b"* present and accounted for: alice\n".to_vec());
    let (roster, _) = room.join(Username("carol".to_string()));
    assert_eq!(roster, b"* present and accounted for: alice, bob\n".to_vec());
    let bye = room.leave(Username("bob".to_string()));
    assert_eq!(bye.to_line(), b"* bob has left the room\n".to_vec());
    assert_eq!(room.roster_message(), b"* present and accounted for: alice, carol\n".to_vec());
    room.join(Username("alice".to_string()));
    assert_eq!(room.roster_message(), b"* present and accounted for: alice, carol\n".to_vec());
}

#[test]
fn database_insert_and_retrieve() {
    let mut db = UnusualDatabaseServer::new();
    assert_eq!(db.handle_data(b"foo=bar".to_vec()).ok(), Some(None));
    assert_eq!(db.handle_data(b"foo".to_vec()).ok(), Some(Some(b"foo=bar".to_vec())));
    assert_eq!(db.handle_data(b"foo=bar=baz".to_vec()).ok(), Some(None));
    assert_eq!(db.handle_data(b"foo".to_vec()).ok(), Some(Some(b"foo=bar=baz".to_vec())));
    assert_eq!(db.handle_data(b"foo=".to_vec()).ok(), Some(None));
    assert_eq!(db.handle_data(b"foo".to_vec()).ok(), Some(Some(b"foo=".to_vec())));
    assert_eq!(db.handle_data(b"=x".to_vec()).ok(), Some(None));
    assert_eq!(db.handle_data(b"".to_vec()).ok(), Some(Some(b"=x".to_vec())));
    assert_eq!(db.handle_data(b"missing".to_vec()).ok(), Some(Some(b"missing=".to_vec())));
}

#[test]
fn database_keeps_version() {
    let mut db = UnusualDatabaseServer::new();
    assert_eq!(db.handle_data(b"version".to_vec()).ok(), Some(Some(b"version=big booty judge judy".to_vec())));
    assert_eq!(db.handle_data(b"version=1.0".to_vec()).ok(), Some(None));
    assert_eq!(db.handle_data(b"version".to_vec()).ok(), Some(Some(b"version=big booty judge judy".to_vec())));
}

#[test]
fn database_rejects_invalid_utf8() {
    let mut db = UnusualDatabaseServer::new();
    assert!(matches!(db.handle_data(vec![0x66, 0xff, 0x3d]), Err(ServerError::FromUtf8(_))));
}

#[test]
fn boguscoin_rewrite() {
    let tony = BIG_TONYS_FAT_SICILIAN_WALLET;
    assert_eq!(
        rewrite_boguscoin("Hi alice, please send payment to 7iKDZEwPZSqIvDnHvVN2r0hUWXD5rHX\n"),
        format!("Hi alice, please send payment to {}\n", tony)
    );
    assert_eq!(
        rewrite_boguscoin("7F1u3wSD5RbOHQmupo9nx4TnhQ 7adNeSwJkMakpEcln9HEtthSRtxdmEHOT8T"),
        format!("{} {}", tony, tony)
    );
    assert_eq!(rewrite_boguscoin("not 7abc short\n"), "not 7abc short\n");
    assert_eq!(rewrite_boguscoin("x7iKDZEwPZSqIvDnHvVN2r0hUWXD5rHX\n"), "x7iKDZEwPZSqIvDnHvVN2r0hUWXD5rHX\n");
}

#[test]
fn boguscoin_address_lengths() {
    let tony = BIG_TONYS_FAT_SICILIAN_WALLET;
    // A 7 and then 25 to 34 letters or digits
    let shortest = format!("7{}", "a".repeat(25));
    let longest = format!("7{}", "B".repeat(34));
    assert_eq!(rewrite_boguscoin(&shortest), tony);
    assert_eq!(rewrite_boguscoin(&longest), tony);
    let too_short = format!("7{}", "a".repeat(24));
    let too_long = format!("7{}", "9".repeat(35));
    assert_eq!(rewrite_boguscoin(&too_short), too_short);
    assert_eq!(rewrite_boguscoin(&too_long), too_long);
}

#[test]
fn boguscoin_address_boundaries() {
    let tony = BIG_TONYS_FAT_SICILIAN_WALLET;
    let addr = "7iKDZEwPZSqIvDnHvVN2r0hUWXD5rHX";
    // Followed by something other than a space, a newline or the end
    assert_eq!(rewrite_boguscoin(&format!("{}-x", addr)), format!("{}-x", addr));
    assert_eq!(rewrite_boguscoin(&format!("{}\t", addr)), format!("{}\t", addr));
    // Preceded by something other than a space
    assert_eq!(rewrite_boguscoin(&format!("\n{}", addr)), format!("\n{}", addr));
    // Several addresses, and text around them that is not ASCII
    assert_eq!(
        rewrite_boguscoin(&format!("é {} {} ü\n", addr, addr)),
        format!("é {} {} ü\n", tony, tony)
    );
    assert_eq!(rewrite_boguscoin(""), "");
}

#[test]
fn proxy_lines() {
    let proxy = MaliciousChatProxy;
    assert!(matches!(proxy.proxy_line(0, ""), Err(ServerError::SocketClose)));
    assert_eq!(proxy.proxy_line(6, "hello\n").ok(), Some("hello\n".to_string()));
    assert_eq!(
        proxy.proxy_line(36, "pay 7iKDZEwPZSqIvDnHvVN2r0hUWXD5rHX\n").ok(),
        Some(format!("pay {}\n", BIG_TONYS_FAT_SICILIAN_WALLET))
    );
}
