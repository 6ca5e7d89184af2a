//! The Speed Daemon: cameras report number plates seen on roads, the server
//! works out which cars went over the limit and hands tickets to dispatchers.
pub mod client;
pub mod decode;
pub mod encode;
pub mod server;
pub mod tickets;

use vstd::prelude::*;

verus! {

/// A road number.
pub type Road = u16;

/// A position along a road, in miles.
pub type Mile = u16;

/// A speed limit, in miles per hour.
pub type SpeedLimit = u16;

/// Seconds since the UNIX epoch.
#[derive(Copy, Clone, Debug, PartialEq, Eq, Structural)]
pub struct Timestamp(pub u32);

/// Seconds in a day.
pub const SECONDS_PER_DAY: u32 = 86400;

/// The day a timestamp falls on.
pub open spec fn day_of(t: u32) -> int {
    t as int / SECONDS_PER_DAY as int
}

/// A timestamp's day is the number of whole days of 86400 seconds before it:
/// the day starts at most 86399 seconds earlier, and later times never fall on
/// earlier days.
pub proof fn lemma_day_of(t: u32, u: u32)
    ensures
        day_of(t) * 86400 <= t < day_of(t) * 86400 + 86400,
        t <= u ==> day_of(t) <= day_of(u),
{
    let d = t as int / 86400;
    assert(d * 86400 <= t < d * 86400 + 86400) by (nonlinear_arith)
        requires
            d == t as int / 86400,
    ;
    assert(t <= u ==> t as int / 86400 <= u as int / 86400) by (nonlinear_arith);
}

impl Timestamp {
    /// Get the ordinal number representing the day that this timestamp falls on
    pub fn day(self) -> (d: u32)
        ensures
            d == day_of(self.0),
    {
        self.0 / SECONDS_PER_DAY
    }
}

/// Where a camera stands and the limit it enforces.
#[derive(Copy, Clone, Debug, PartialEq, Eq, Structural)]
pub struct Camera {
    pub road: Road,
    pub mile: Mile,
    pub speed_limit: SpeedLimit,
}

/// A car seen by a camera at some time.
#[derive(Copy, Clone, Debug, PartialEq, Eq, Structural)]
pub struct Observation {
    pub mile: Mile,
    pub timestamp: Timestamp,
}

/// A speeding ticket: two observations of one car on one road, the earlier one
/// first, and the average speed between them.
#[derive(Debug)]
pub struct Ticket {
    pub plate: String,
    pub road: Road,
    pub observation1: Observation,
    pub observation2: Observation,
    /// Speed is in **100x MPH**
    pub speed: u16,
}

impl Ticket {
    /// The first and the last day that this ticket spans; the ticket covers
    /// every day in between as well. Typically one day, but could be a lot more.
    pub fn days(&self) -> (r: (u32, u32))
        ensures
            r.0 == day_of(self.observation1.timestamp.0),
            r.1 == day_of(self.observation2.timestamp.0),
    {
        (self.observation1.timestamp.day(), self.observation2.timestamp.day())
    }

    /// A copy of this ticket.
    pub fn duplicate(&self) -> (r: Ticket)
        ensures
            r == *self,
    {
        Ticket {
            plate: self.plate.clone(),
            road: self.road,
            observation1: self.observation1,
            observation2: self.observation2,
            speed: self.speed,
        }
    }
}

/// A message from the server to a client.
#[derive(Debug)]
pub enum ServerMessage {
    Error { message: String },
    Ticket { ticket: Ticket },
    Heartbeat,
}

/// A message from a client to the server.
#[derive(Debug)]
pub enum ClientMessage {
    Plate { plate: String, timestamp: Timestamp },
    WantHeartbeat {
        /// Interval is in deciseconds (100ms)
        interval: u32,
    },
    IAmCamera { camera: Camera },
    IAmDispatcher { roads: Vec<Road> },
}

} // verus!
