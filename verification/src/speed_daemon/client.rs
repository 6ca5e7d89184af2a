//! The state of one connected client, and the decisions taken on its messages.
use super::{Camera, ClientMessage, Road, ServerMessage, Timestamp};
use crate::error::ServerError;
use vstd::prelude::*;

verus! {

/// What a client has said it is.
#[derive(Copy, Clone, Debug, PartialEq, Eq, Structural)]
pub enum ClientType {
    Camera(Camera),
    Dispatcher,
}

/// An error during server operation. The error can be of a known client error
/// class, in which case it will be gracefully reported to the client. Or it
/// could be a general server error, in which case the connection will close.
#[derive(Debug)]
pub enum SpeedError {
    IllegalMessageType,
    AlreadyIdentified,
    NotACamera,
    AlreadyBeating,
    /// Server-level errors, should be propagated up
    ServerError(ServerError),
}

/// The result of handling one client message.
pub type SpeedResult<T> = Result<T, SpeedError>;

/// The text that describes a client error.
pub open spec fn speed_error_text(e: SpeedError) -> Seq<char> {
    match e {
        SpeedError::IllegalMessageType => "Illegal message type"@,
        SpeedError::AlreadyIdentified => "Client already identified"@,
        SpeedError::NotACamera => "Observations can only be reported by cameras"@,
        SpeedError::AlreadyBeating => "Heartbeat already running"@,
        SpeedError::ServerError(e) => server_error_text(e),
    }
}

/// The text that describes a server error.
pub open spec fn server_error_text(e: ServerError) -> Seq<char> {
    match e {
        ServerError::SocketClose => "Socket closed"@,
        ServerError::Io(s) => s@,
        ServerError::Serde(s) => s@,
        ServerError::FromUtf8(s) => s@,
        ServerError::Other(s) => s@,
    }
}

/// The description of a server error.
pub fn server_error_description(e: &ServerError) -> (r: String)
    ensures
        r@ == server_error_text(*e),
{
    match e {
        ServerError::SocketClose => "Socket closed".to_owned(),
        ServerError::Io(s) => s.clone(),
        ServerError::Serde(s) => s.clone(),
        ServerError::FromUtf8(s) => s.clone(),
        ServerError::Other(s) => s.clone(),
    }
}

impl SpeedError {
    /// The text that describes this error.
    pub fn message(&self) -> (r: String)
        ensures
            r@ == speed_error_text(*self),
    {
        match self {
            SpeedError::IllegalMessageType => "Illegal message type".to_owned(),
            SpeedError::AlreadyIdentified => "Client already identified".to_owned(),
            SpeedError::NotACamera => "Observations can only be reported by cameras".to_owned(),
            SpeedError::AlreadyBeating => "Heartbeat already running".to_owned(),
            SpeedError::ServerError(e) => server_error_description(e),
        }
    }
}

/// What the connection has to do after a message was accepted.
#[derive(Debug)]
pub enum Action {
    /// Nothing more.
    Nothing,
    /// Record that the camera saw the plate at the time.
    Observe { camera: Camera, plate: String, timestamp: Timestamp },
    /// Start sending heartbeats at this interval, in deciseconds.
    StartHeartbeat { interval: u32 },
    /// Register this client as the dispatcher of these roads.
    RegisterDispatcher { roads: Vec<Road> },
}

/// A connected client. The client will typically be identified, meaning it's
/// told us whether it's a camera or a dispatcher.
#[derive(Debug)]
pub struct Client {
    client_type: Option<ClientType>,
    heartbeat_running: bool,
}

impl Client {
    /// What the client has said it is, if it has.
    pub closed spec fn identity(&self) -> Option<ClientType> {
        self.client_type
    }

    /// Whether a heartbeat has been started for this client.
    pub closed spec fn beating(&self) -> bool {
        self.heartbeat_running
    }

    /// A client that has not said what it is and gets no heartbeat.
    pub fn new() -> (r: Client)
        ensures
            r.identity() is None,
            !r.beating(),
    {
        Client { client_type: None, heartbeat_running: false }
    }

    /// Set the identity of this client. If the identity is already set, return
    /// an error.
    pub fn identify(&mut self, client: ClientType) -> (r: SpeedResult<()>)
        ensures
            old(self).identity() is None ==> r is Ok && final(self).identity() == Some(client),
            old(self).identity() is Some ==> (r matches Err(SpeedError::AlreadyIdentified)
                && final(self).identity() == old(self).identity()),
            final(self).beating() == old(self).beating(),
    {
        match &self.client_type {
            None => {
                self.client_type = Some(client);
                Ok(())
            },
            Some(_) => Err(SpeedError::AlreadyIdentified),
        }
    }

    /// Get the contained camera, or error if this client isn't a camera
    pub fn get_camera(&self) -> (r: SpeedResult<Camera>)
        ensures
            self.identity() matches Some(ClientType::Camera(c)) ==> r == Ok::<Camera, SpeedError>(c),
            !(self.identity() matches Some(ClientType::Camera(_))) ==> (r matches Err(
                SpeedError::NotACamera,
            )),
    {
        match &self.client_type {
            Some(ClientType::Camera(camera)) => Ok(*camera),
            _ => Err(SpeedError::NotACamera),
        }
    }

    /// Ask for heartbeats every `interval_ds` deciseconds. A second request is
    /// an error, unless the first asked for none (an interval of zero). Returns
    /// whether a heartbeat has to be started now.
    pub fn start_heartbeat(&mut self, interval_ds: u32) -> (r: SpeedResult<bool>)
        ensures
            old(self).beating() ==> (r matches Err(SpeedError::AlreadyBeating) && final(self).beating()),
            !old(self).beating() ==> r == Ok::<bool, SpeedError>(interval_ds > 0)
                && final(self).beating() == (interval_ds > 0),
            final(self).identity() == old(self).identity(),
    {
        if self.heartbeat_running {
            return Err(SpeedError::AlreadyBeating);
        }
        if interval_ds > 0 {
            self.heartbeat_running = true;
            Ok(true)
        } else {
            Ok(false)
        }
    }
}

/// Take the decision on an incoming client message: check it against what the
/// client is, update the client, and say what is left to do.
pub fn handle_message(client: &mut Client, message: ClientMessage) -> (r: SpeedResult<Action>)
    ensures
        match message {
            ClientMessage::Plate { plate, timestamp } => (match old(client).identity() {
                Some(ClientType::Camera(camera)) => r matches Ok(Action::Observe { camera: c, plate: p, timestamp: t })
                    && c == camera && p == plate && t == timestamp,
                _ => r matches Err(SpeedError::NotACamera),
            }) && *final(client) == *old(client),
            ClientMessage::WantHeartbeat { interval } => if old(client).beating() {
                r matches Err(SpeedError::AlreadyBeating) && *final(client) == *old(client)
            } else {
                &&& interval > 0 ==> (r matches Ok(Action::StartHeartbeat { interval: i }) && i == interval)
                &&& interval == 0 ==> (r matches Ok(Action::Nothing))
                &&& final(client).beating() == (interval > 0)
                &&& final(client).identity() == old(client).identity()
            },
            ClientMessage::IAmCamera { camera } => if old(client).identity() is None {
                r matches Ok(Action::Nothing) && final(client).identity() == Some(ClientType::Camera(camera))
                    && final(client).beating() == old(client).beating()
            } else {
                r matches Err(SpeedError::AlreadyIdentified) && *final(client) == *old(client)
            },
            ClientMessage::IAmDispatcher { roads } => if old(client).identity() is None {
                r matches Ok(Action::RegisterDispatcher { roads: rs }) && rs == roads
                    && final(client).identity() == Some(ClientType::Dispatcher)
                    && final(client).beating() == old(client).beating()
            } else {
                r matches Err(SpeedError::AlreadyIdentified) && *final(client) == *old(client)
            },
        },
{
    match message {
        ClientMessage::Plate { plate, timestamp } => {
            let camera = client.get_camera()?;
            Ok(Action::Observe { camera, plate, timestamp })
        },
        ClientMessage::WantHeartbeat { interval } => {
            if client.start_heartbeat(interval)? {
                Ok(Action::StartHeartbeat { interval })
            } else {
                Ok(Action::Nothing)
            }
        },
        ClientMessage::IAmCamera { camera } => {
            client.identify(ClientType::Camera(camera))?;
            Ok(Action::Nothing)
        },
        ClientMessage::IAmDispatcher { roads } => {
            // Register the dispatcher for all of its constituent roads
            client.identify(ClientType::Dispatcher)?;
            Ok(Action::RegisterDispatcher { roads })
        },
    }
}

/// What to tell a client about an error: a client-induced error is reported to
/// it in an error message; a server error ends the connection instead.
pub fn error_reply(error: SpeedError) -> (r: Result<ServerMessage, ServerError>)
    ensures
        match error {
            SpeedError::ServerError(e) => r == Err::<ServerMessage, ServerError>(e),
            _ => r matches Ok(ServerMessage::Error { message }) && message@ == speed_error_text(error),
        },
{
    match error {
        SpeedError::ServerError(e) => Err(e),
        _ => Ok(ServerMessage::Error { message: error.message() }),
    }
}

} // verus!
