use protohackers::speed_daemon::client::{error_reply, handle_message, Action, Client, ClientType, SpeedError};
use protohackers::speed_daemon::decode::{parse_message, Decoder, ParseOutcome, Parsed};
use protohackers::speed_daemon::encode::Encode;
use protohackers::speed_daemon::server::{exceeds_limit, speeding_observations, SpeedDaemonServer};
use protohackers::speed_daemon::tickets::{Delivery, TicketBox};
use protohackers::speed_daemon::{Camera, ClientMessage, Observation, ServerMessage, Ticket, Timestamp};

fn ticket(plate: &str, road: u16, t1: u32, t2: u32) -> Ticket {
    Ticket {
        plate: plate.to_string(),
        road,
        observation1: Observation { mile: 8, timestamp: Timestamp(t1) },
        observation2: Observation { mile: 9, timestamp: Timestamp(t2) },
        speed: 8000,
    }
}

#[test]
fn encode_heartbeat() {
    assert_eq!(ServerMessage::Heartbeat.encode(), vec![0x41]);
}

#[test]
fn encode_error() {
    let m = ServerMessage::Error { message: "bad".to_string() };
    assert_eq!(m.encode(), vec![0x10, 0x03, 0x62, 0x61, 0x64]);
    assert_eq!(m.tag(), 0x10);
}

#[test]
fn encode_ticket_example() {
    let m = ServerMessage::Ticket {
        ticket: Ticket {
            plate: "UN1X".to_string(),
            road: 66,
            observation1: Observation { mile: 100, timestamp: Timestamp(123456) },
            observation2: Observation { mile: 110, timestamp: Timestamp(123816) },
            speed: 10000,
        },
    };
    assert_eq!(
        m.encode(),
        vec![
            0x21, 0x04, 0x55, 0x4e, 0x31, 0x58, 0x00, 0x42, 0x00, 0x64, 0x00, 0x01, 0xe2, 0x40, 0x00,
            0x6e, 0x00, 0x01, 0xe3, 0xa8, 0x27, 0x10
        ]
    );
}

#[test]
fn encode_into_appends() {
    let mut bytes = vec![0xaa];
    0x1234u16.encode_into(&mut bytes);
    0x01020304u32.encode_into(&mut bytes);
    Timestamp(7).encode_into(&mut bytes);
    "hi".to_string().encode_into(&mut bytes);
    assert_eq!(bytes, vec![0xaa, 0x12, 0x34, 1, 2, 3, 4, 0, 0, 0, 7, 2, b'h', b'i']);
}

#[test]
fn encode_long_string_length_wraps() {
    let s = "a".repeat(300);
    let mut bytes = Vec::new();
    s.encode_into(&mut bytes);
    assert_eq!(bytes[0], (300 % 256) as u8);
    assert_eq!(bytes.len(), 301);
}

#[test]
fn parse_plate() {
    let bytes = [0x20, 0x04, 0x55, 0x4e, 0x31, 0x58, 0x00, 0x00, 0x03, 0xe8];
    match parse_message(&bytes) {
        Parsed::Complete { message: ClientMessage::Plate { plate, timestamp }, consumed } => {
            assert_eq!(plate, "UN1X");
            assert_eq!(timestamp, Timestamp(1000));
            assert_eq!(consumed, 10);
        }
        other => panic!("unexpected {:?}", matches!(other, Parsed::Incomplete)),
    }
}

#[test]
fn parse_plate_lossy() {
    let bytes = [0x20, 0x02, 0xff, 0x41, 0x00, 0x00, 0x00, 0x01];
    match parse_message(&bytes) {
        Parsed::Complete { message: ClientMessage::Plate { plate, .. }, consumed } => {
            assert_eq!(plate, "\u{fffd}A");
            assert_eq!(consumed, 8);
        }
        _ => panic!("expected a plate"),
    }
}

#[test]
fn parse_want_heartbeat() {
    let bytes = [0x40, 0x00, 0x00, 0x00, 0x0a, 0x99];
    match parse_message(&bytes) {
        Parsed::Complete { message: ClientMessage::WantHeartbeat { interval }, consumed } => {
            assert_eq!(interval, 10);
            assert_eq!(consumed, 5);
        }
        _ => panic!("expected a heartbeat request"),
    }
}

#[test]
fn parse_i_am_camera() {
    let bytes = [0x80, 0x00, 0x42, 0x00, 0x64, 0x00, 0x3c];
    match parse_message(&bytes) {
        Parsed::Complete { message: ClientMessage::IAmCamera { camera }, consumed } => {
            assert_eq!(camera, Camera { road: 66, mile: 100, speed_limit: 60 });
            assert_eq!(consumed, 7);
        }
        _ => panic!("expected a camera"),
    }
}

#[test]
fn parse_i_am_dispatcher() {
    let bytes = [0x81, 0x03, 0x00, 0x42, 0x01, 0x70, 0x13, 0x88];
    match parse_message(&bytes) {
        Parsed::Complete { message: ClientMessage::IAmDispatcher { roads }, consumed } => {
            assert_eq!(roads, vec![66, 368, 5000]);
            assert_eq!(consumed, 8);
        }
        _ => panic!("expected a dispatcher"),
    }
}

#[test]
fn parse_incomplete_and_illegal() {
    assert!(matches!(parse_message(&[]), Parsed::Incomplete));
    assert!(matches!(parse_message(&[0x20]), Parsed::Incomplete));
    assert!(matches!(parse_message(&[0x20, 0x04, 0x55]), Parsed::Incomplete));
    assert!(matches!(parse_message(&[0x40, 0x00, 0x00]), Parsed::Incomplete));
    assert!(matches!(parse_message(&[0x81, 0x02, 0x00, 0x01, 0x00]), Parsed::Incomplete));
    assert!(matches!(parse_message(&[0x10, 0x00]), Parsed::IllegalTag));
    assert!(matches!(parse_message(&[0xff]), Parsed::IllegalTag));
}

#[test]
fn parse_ignores_trailing_bytes() {
    let short = [0x40, 0x00, 0x00, 0x01, 0x00];
    let long = [0x40, 0x00, 0x00, 0x01, 0x00, 0x80, 0x01];
    let a = parse_message(&short);
    let b = parse_message(&long);
    match (a, b) {
        (
            Parsed::Complete { message: ClientMessage::WantHeartbeat { interval: x }, consumed: n },
            Parsed::Complete { message: ClientMessage::WantHeartbeat { interval: y }, consumed: m },
        ) => {
            assert_eq!((x, n), (y, m));
            assert_eq!(x, 256);
        }
        _ => panic!("expected two heartbeat requests"),
    }
}

#[test]
fn decoder_streams_messages() {
    let mut d = Decoder::new();
    assert!(!d.has_pending());
    assert!(d.decode_next_message().is_none());
    d.receive(&[0x80, 0x00, 0x01]);
    assert!(d.decode_next_message().is_none());
    assert!(d.has_pending());
    d.receive(&[0x00, 0x02, 0x00, 0x03, 0x40, 0x00]);
    match d.decode_next_message() {
        Some(ParseOutcome::Success(ClientMessage::IAmCamera { camera })) => {
            assert_eq!(camera, Camera { road: 1, mile: 2, speed_limit: 3 })
        }
        _ => panic!("expected a camera"),
    }
    assert!(d.has_pending());
    assert!(d.decode_next_message().is_none());
    d.receive(&[0x00, 0x00, 0x05]);
    match d.decode_next_message() {
        Some(ParseOutcome::Success(ClientMessage::WantHeartbeat { interval })) => assert_eq!(interval, 5),
        _ => panic!("expected a heartbeat request"),
    }
    assert!(!d.has_pending());
}

#[test]
fn decoder_drops_illegal_buffer() {
    let mut d = Decoder::new();
    d.receive(&[0x42, 0x40, 0x00, 0x00, 0x00, 0x01]);
    assert!(matches!(d.decode_next_message(), Some(ParseOutcome::IllegalMessageType)));
    assert!(!d.has_pending());
}

#[test]
fn timestamp_days() {
    assert_eq!(Timestamp(0).day(), 0);
    assert_eq!(Timestamp(86399).day(), 0);
    assert_eq!(Timestamp(86400).day(), 1);
    assert_eq!(ticket("A", 1, 86000, 200000).days(), (0, 2));
}

#[test]
fn client_identifies_once() {
    let mut c = Client::new();
    assert!(matches!(c.get_camera(), Err(SpeedError::NotACamera)));
    let cam = Camera { road: 1, mile: 2, speed_limit: 60 };
    assert!(c.identify(ClientType::Camera(cam)).is_ok());
    assert_eq!(c.get_camera().ok(), Some(cam));
    assert!(matches!(c.identify(ClientType::Dispatcher), Err(SpeedError::AlreadyIdentified)));
    assert_eq!(c.get_camera().ok(), Some(cam));
}

#[test]
fn client_heartbeat_rules() {
    let mut c = Client::new();
    assert_eq!(c.start_heartbeat(0).ok(), Some(false));
    assert_eq!(c.start_heartbeat(0).ok(), Some(false));
    assert_eq!(c.start_heartbeat(25).ok(), Some(true));
    assert!(matches!(c.start_heartbeat(25), Err(SpeedError::AlreadyBeating)));
}

#[test]
fn handle_message_routes() {
    let mut c = Client::new();
    let plate = ClientMessage::Plate { plate: "X".to_string(), timestamp: Timestamp(5) };
    assert!(matches!(handle_message(&mut c, plate), Err(SpeedError::NotACamera)));
    let cam = Camera { road: 7, mile: 3, speed_limit: 50 };
    assert!(matches!(handle_message(&mut c, ClientMessage::IAmCamera { camera: cam }), Ok(Action::Nothing)));
    match handle_message(&mut c, ClientMessage::Plate { plate: "X".to_string(), timestamp: Timestamp(5) }) {
        Ok(Action::Observe { camera, plate, timestamp }) => {
            assert_eq!(camera, cam);
            assert_eq!(plate, "X");
            assert_eq!(timestamp, Timestamp(5));
        }
        _ => panic!("expected an observation"),
    }
    assert!(matches!(
        handle_message(&mut c, ClientMessage::IAmDispatcher { roads: vec![1] }),
        Err(SpeedError::AlreadyIdentified)
    ));
    assert!(matches!(
        handle_message(&mut c, ClientMessage::WantHeartbeat { interval: 10 }),
        Ok(Action::StartHeartbeat { interval: 10 })
    ));
    assert!(matches!(
        handle_message(&mut c, ClientMessage::WantHeartbeat { interval: 10 }),
        Err(SpeedError::AlreadyBeating)
    ));
    let mut d = Client::new();
    match handle_message(&mut d, ClientMessage::IAmDispatcher { roads: vec![3, 4] }) {
        Ok(Action::RegisterDispatcher { roads }) => assert_eq!(roads, vec![3, 4]),
        _ => panic!("expected a dispatcher registration"),
    }
}

#[test]
fn error_replies() {
    match error_reply(SpeedError::IllegalMessageType) {
        Ok(ServerMessage::Error { message }) => assert_eq!(message, "Illegal message type"),
        _ => panic!("expected an error message"),
    }
    match error_reply(SpeedError::NotACamera) {
        Ok(ServerMessage::Error { message }) => {
            assert_eq!(message, "Observations can only be reported by cameras")
        }
        _ => panic!("expected an error message"),
    }
    assert_eq!(SpeedError::AlreadyIdentified.message(), "Client already identified");
    assert_eq!(SpeedError::AlreadyBeating.message(), "Heartbeat already running");
    assert!(matches!(
        error_reply(SpeedError::ServerError(protohackers::error::ServerError::SocketClose)),
        Err(protohackers::error::ServerError::SocketClose)
    ));
}

#[test]
fn speed_limit_check() {
    let cam = Camera { road: 1, mile: 0, speed_limit: 60 };
    assert!(!exceeds_limit(cam, 6000));
    assert!(exceeds_limit(cam, 6001));
    let prev = vec![
        Observation { mile: 0, timestamp: Timestamp(0) },
        Observation { mile: 1, timestamp: Timestamp(10) },
        Observation { mile: 2, timestamp: Timestamp(20) },
    ];
    let found = speeding_observations(cam, &prev, &vec![5000, 7000, 6001]);
    assert_eq!(found, vec![(prev[1], 7000), (prev[2], 6001)]);
}

#[test]
fn ticket_box_duplicates_and_backlog() {
    let mut b: TicketBox<u32> = TicketBox::new();
    assert!(b.dispatcher().is_none());
    let t1 = ticket("AB1", 5, 100, 200);
    assert!(!b.is_duplicate(&t1));
    b.file_ticket(t1, Delivery::NoDispatcher);
    assert!(b.is_duplicate(&ticket("AB1", 5, 300, 400)));
    assert!(!b.is_duplicate(&ticket("CD2", 5, 300, 400)));
    assert!(!b.is_duplicate(&ticket("AB1", 5, 86400, 86500)));
    assert!(b.is_duplicate(&ticket("AB1", 5, 50000, 172800)));
    assert_eq!(b.unsent_tickets().len(), 1);
    // The backlog is handed to the new dispatcher, and counts as dispatched
    b.set_dispatcher(7);
    assert_eq!(b.dispatcher(), Some(&7));
    assert!(b.unsent_tickets().is_empty());
    assert!(b.is_duplicate(&ticket("AB1", 5, 300, 400)));
    let t2 = ticket("AB1", 5, 86400, 86500);
    b.file_ticket(t2, Delivery::Delivered);
    assert!(b.unsent_tickets().is_empty());
    let t3 = ticket("ZZ9", 5, 0, 10);
    b.file_ticket(t3, Delivery::Failed);
    assert!(b.dispatcher().is_none());
    let unsent: Vec<String> = b.unsent_tickets().into_iter().map(|t| t.plate).collect();
    assert_eq!(unsent, vec!["ZZ9".to_string()]);
}

#[test]
fn server_records_observations_in_order() {
    let mut s: SpeedDaemonServer<u32> = SpeedDaemonServer::new();
    let cam = |mile| Camera { road: 123, mile, speed_limit: 60 };
    s.record_observation(cam(8), "UN1X".to_string(), Timestamp(45));
    s.record_observation(cam(9), "UN1X".to_string(), Timestamp(0));
    s.record_observation(cam(10), "UN1X".to_string(), Timestamp(20));
    s.record_observation(cam(11), "OTHER".to_string(), Timestamp(1));
    let obs = s.previous_observations(&"UN1X".to_string(), 123);
    let times: Vec<u32> = obs.iter().map(|o| o.timestamp.0).collect();
    assert_eq!(times, vec![0, 20, 45]);
    assert_eq!(obs[0].mile, 9);
    assert!(s.previous_observations(&"UN1X".to_string(), 124).is_empty());
    assert_eq!(s.previous_observations(&"OTHER".to_string(), 123).len(), 1);
}

#[test]
fn server_tickets_once_per_day() {
    let mut s: SpeedDaemonServer<u32> = SpeedDaemonServer::new();
    let o1 = Observation { mile: 8, timestamp: Timestamp(45) };
    let o2 = Observation { mile: 9, timestamp: Timestamp(0) };
    let t = s.report_speeding("UN1X".to_string(), 123, o1, o2, 8000).expect("a new ticket");
    // The earlier observation comes first
    assert_eq!(t.observation1, o2);
    assert_eq!(t.observation2, o1);
    assert!(s.dispatcher_for(123).is_none());
    assert!(!s.is_duplicate(&t));
    s.file_ticket(t, Delivery::NoDispatcher);
    let o3 = Observation { mile: 20, timestamp: Timestamp(600) };
    assert!(s.report_speeding("UN1X".to_string(), 123, o1, o3, 9000).is_none());
    // Nor on another road that day
    assert!(s.report_speeding("UN1X".to_string(), 124, o1, o3, 9000).is_none());
    assert!(s.report_speeding("OTHER".to_string(), 124, o1, o3, 9000).is_some());
    assert_eq!(s.unsent_tickets(123).len(), 1);
    s.set_dispatcher(123, 99);
    assert_eq!(s.dispatcher_for(123), Some(&99));
    assert!(s.unsent_tickets(123).is_empty());
    assert!(s.unsent_tickets(555).is_empty());
}

#[test]
fn server_tickets_again_on_a_later_day_on_any_road() {
    let mut s: SpeedDaemonServer<u32> = SpeedDaemonServer::new();
    let o1 = Observation { mile: 8, timestamp: Timestamp(0) };
    let o2 = Observation { mile: 9, timestamp: Timestamp(45) };
    let t = s.report_speeding("UN1X".to_string(), 123, o1, o2, 8000).expect("a new ticket");
    s.file_ticket(t, Delivery::NoDispatcher);
    let o3 = Observation { mile: 8, timestamp: Timestamp(86400) };
    let o4 = Observation { mile: 9, timestamp: Timestamp(86445) };
    let t2 = s.report_speeding("UN1X".to_string(), 124, o3, o4, 8000).expect("a ticket on the next day");
    assert!(!s.is_duplicate(&t2));
    s.file_ticket(t2, Delivery::NoDispatcher);
    assert_eq!(s.unsent_tickets(124).len(), 1);
    // A span that covers the first day again is refused on any road
    assert!(s.report_speeding("UN1X".to_string(), 125, o1, o3, 9000).is_none());
}

fn decode_in_chunks(chunks: &[&[u8]]) -> Vec<String> {
    let mut d = Decoder::new();
    let mut seen = Vec::new();
    for chunk in chunks {
        d.receive(chunk);
        for outcome in d.decode_available() {
            seen.push(match outcome {
                ParseOutcome::Success(ClientMessage::Plate { plate, timestamp }) => format!("plate {} {}", plate, timestamp.0),
                ParseOutcome::Success(ClientMessage::WantHeartbeat { interval }) => format!("heartbeat {}", interval),
                ParseOutcome::Success(ClientMessage::IAmCamera { camera }) => format!("camera {}", camera.road),
                ParseOutcome::Success(ClientMessage::IAmDispatcher { roads }) => format!("dispatcher {:?}", roads),
                ParseOutcome::IllegalMessageType => "illegal".to_string(),
            });
        }
    }
    seen
}

#[test]
fn decode_available_is_independent_of_read_splits() {
    let stream: Vec<u8> = vec![
        0x80, 0x00, 0x42, 0x00, 0x64, 0x00, 0x3c, 0x20, 0x04, 0x55, 0x4e, 0x31, 0x58, 0x00, 0x00, 0x03, 0xe8, 0x40,
        0x00, 0x00, 0x00, 0x0a, 0x81, 0x01,
    ];
    let expected = vec![
        "camera 66".to_string(),
        "plate UN1X 1000".to_string(),
        "heartbeat 10".to_string(),
    ];
    assert_eq!(decode_in_chunks(&[&stream[..]]), expected);
    let bytewise: Vec<&[u8]> = stream.chunks(1).collect();
    assert_eq!(decode_in_chunks(&bytewise), expected);
    assert_eq!(decode_in_chunks(&[&stream[..3], &stream[3..10], &stream[10..]]), expected);
    let mut d = Decoder::new();
    d.receive(&stream);
    assert_eq!(d.decode_available().len(), 3);
    // The start of the dispatcher message is kept for later reads
    assert!(d.has_pending());
    d.receive(&[0x00, 0x07]);
    match d.decode_available().pop() {
        Some(ParseOutcome::Success(ClientMessage::IAmDispatcher { roads })) => assert_eq!(roads, vec![7]),
        _ => panic!("expected a dispatcher"),
    }
    assert!(!d.has_pending());
}

#[test]
fn decode_available_reports_illegal_tag() {
    assert_eq!(decode_in_chunks(&[&[0x40, 0x00, 0x00, 0x00, 0x01, 0x99, 0x40]]), vec!["heartbeat 1", "illegal"]);
    let mut d = Decoder::new();
    d.receive(&[0x99, 0x40, 0x00]);
    assert_eq!(d.decode_available().len(), 1);
    assert!(!d.has_pending());
    assert!(d.decode_available().is_empty());
}
