//! What the Speed Daemon remembers: where each car was seen, and the tickets of
//! each road.
use super::tickets::{
    chronological, lemma_share_a_day_symmetric, mark_sent, share_a_day, unsent, Delivery, TicketBox,
};
use super::{Camera, Observation, Road, Ticket, Timestamp};
use crate::util::ResultExt;
use std::collections::HashMap;
use vstd::hash_map::StringHashMap;
use vstd::prelude::*;

verus! {

broadcast use vstd::std_specs::hash::group_hash_axioms;

/// Whether observations are sorted chronologically.
pub open spec fn sorted_by_time(s: Seq<Observation>) -> bool {
    forall|i: int, j: int| 0 <= i <= j < s.len() ==> s[i].timestamp.0 <= s[j].timestamp.0
}

/// Whether `i` is a place where an observation at time `t` can go in `s`
/// without breaking the chronological order.
pub open spec fn insertion_point(s: Seq<Observation>, i: int, t: u32) -> bool {
    &&& 0 <= i <= s.len()
    &&& forall|j: int| 0 <= j < i ==> s[j].timestamp.0 <= t
    &&& forall|j: int| i <= j < s.len() ==> s[j].timestamp.0 >= t
}

/// The ticket for two observations of a car: the earlier observation first.
pub open spec fn ticket_for(
    plate: String,
    road: Road,
    observation1: Observation,
    observation2: Observation,
    speed: u16,
) -> Ticket {
    if observation1.timestamp.0 < observation2.timestamp.0 {
        Ticket { plate, road, observation1, observation2, speed }
    } else {
        Ticket { plate, road, observation1: observation2, observation2: observation1, speed }
    }
}

/// Whether a speed, in 100x MPH, is over the limit of a camera.
pub fn exceeds_limit(camera: Camera, speed: u16) -> (r: bool)
    requires
        camera.speed_limit * 100 <= u16::MAX,
    ensures
        r == (speed > camera.speed_limit * 100),
{
    speed > camera.speed_limit * 100
}

/// The earlier observations that a new one shows the car was speeding
/// against, with the speeds between them: `speeds[i]` is the speed between the
/// new observation and `previous[i]`.
pub open spec fn speeding(camera: Camera, previous: Seq<Observation>, speeds: Seq<u16>) -> Seq<
    (Observation, u16),
>
    decreases previous.len(),
{
    if previous.len() == 0 || speeds.len() == 0 {
        Seq::empty()
    } else {
        let rest = speeding(camera, previous.drop_last(), speeds.drop_last());
        if speeds.last() > camera.speed_limit * 100 {
            rest.push((previous.last(), speeds.last()))
        } else {
            rest
        }
    }
}

/// Pick the earlier observations that the car was speeding against: those
/// whose speed, given in `speeds` at the same index, is over the camera's
/// limit. Each of them is reported with [`SpeedDaemonServer::report_speeding`].
/// The limit is compared in 100x MPH, as a `u16`, so it must fit there once
/// there is an earlier observation to compare against.
pub fn speeding_observations(camera: Camera, previous: &Vec<Observation>, speeds: &Vec<u16>) -> (r:
    Vec<(Observation, u16)>)
    requires
        previous@.len() == speeds@.len(),
        previous@.len() > 0 ==> camera.speed_limit * 100 <= u16::MAX,
    ensures
        r@ == speeding(camera, previous@, speeds@),
        r@ == paired(previous@, speeds@).filter(over_limit(camera)),
        forall|i: int|
            0 <= i < previous@.len() && speeds@[i] > camera.speed_limit * 100 ==> r@.contains(
                (previous@[i], speeds@[i]),
            ),
{
    let mut r: Vec<(Observation, u16)> = Vec::new();
    let mut i: usize = 0;
    while i < previous.len()
        invariant
            i <= previous@.len(),
            previous@.len() == speeds@.len(),
            previous@.len() > 0 ==> camera.speed_limit * 100 <= u16::MAX,
            r@ == speeding(camera, previous@.take(i as int), speeds@.take(i as int)),
        decreases previous@.len() - i,
    {
        assert(previous@.take(i + 1).drop_last() =~= previous@.take(i as int));
        assert(speeds@.take(i + 1).drop_last() =~= speeds@.take(i as int));
        if exceeds_limit(camera, speeds[i]) {
            r.push((previous[i], speeds[i]));
        }
        i = i + 1;
    }
    assert(previous@.take(i as int) =~= previous@);
    assert(speeds@.take(i as int) =~= speeds@);
    proof {
        lemma_speeding_picks_every_fast_pair(camera, previous@, speeds@);
    }
    r
}

/// Each earlier observation paired with the speed against it.
pub open spec fn paired(previous: Seq<Observation>, speeds: Seq<u16>) -> Seq<(Observation, u16)> {
    Seq::new(previous.len(), |i: int| (previous[i], speeds[i]))
}

/// Whether a pair's speed is over a camera's limit, in 100x MPH.
pub open spec fn over_limit(camera: Camera) -> spec_fn((Observation, u16)) -> bool {
    |x: (Observation, u16)| x.1 > camera.speed_limit * 100
}

/// The car was speeding against exactly the earlier observations whose speed
/// is over the limit: every one of them is reported, each with its speed, in
/// the order of the observations, and nothing else is.
pub proof fn lemma_speeding_picks_every_fast_pair(
    camera: Camera,
    previous: Seq<Observation>,
    speeds: Seq<u16>,
)
    requires
        previous.len() == speeds.len(),
    ensures
        speeding(camera, previous, speeds) == paired(previous, speeds).filter(over_limit(camera)),
        forall|i: int|
            0 <= i < previous.len() && speeds[i] > camera.speed_limit * 100 ==> speeding(
                camera,
                previous,
                speeds,
            ).contains((previous[i], speeds[i])),
        forall|k: int|
            0 <= k < speeding(camera, previous, speeds).len() ==> (#[trigger] speeding(
                camera,
                previous,
                speeds,
            )[k]).1 > camera.speed_limit * 100 && paired(previous, speeds).contains(
                speeding(camera, previous, speeds)[k],
            ),
    decreases previous.len(),
{
    let all = paired(previous, speeds);
    let pred = over_limit(camera);
    reveal(Seq::filter);
    if previous.len() > 0 {
        lemma_speeding_picks_every_fast_pair(camera, previous.drop_last(), speeds.drop_last());
        assert(all.drop_last() =~= paired(previous.drop_last(), speeds.drop_last()));
        assert(all.last() == (previous.last(), speeds.last()));
        assert(pred(all.last()) == (speeds.last() > camera.speed_limit * 100));
        assert(all.filter(pred) == if pred(all.last()) {
            all.drop_last().filter(pred).push(all.last())
        } else {
            all.drop_last().filter(pred)
        });
    } else {
        assert(all =~= Seq::<(Observation, u16)>::empty());
    }
    let r = speeding(camera, previous, speeds);
    assert(r == all.filter(pred));
    assert forall|i: int| 0 <= i < previous.len() && speeds[i] > camera.speed_limit * 100 implies r.contains(
        (previous[i], speeds[i]),
    ) by {
        assert(all[i] == (previous[i], speeds[i]));
        assert(pred(all[i]));
        all.filter_lemma(pred);
    }
    assert forall|k: int| 0 <= k < r.len() implies (#[trigger] r[k]).1 > camera.speed_limit * 100
        && all.contains(r[k]) by {
        all.filter_lemma(pred);
        assert(all.filter(pred).contains(r[k]));
        all.lemma_filter_contains_rev(pred, r[k]);
        assert(pred(r[k]));
    }
}

/// Find where an observation at time `t` goes: `Ok` with the index of an
/// observation at the same time, or `Err` with the index of the first later one.
fn binary_search_by_timestamp(observations: &Vec<Observation>, t: Timestamp) -> (r: Result<
    usize,
    usize,
>)
    requires
        sorted_by_time(observations@),
    ensures
        r matches Ok(i) ==> i < observations@.len() && observations@[i as int].timestamp.0 == t.0,
        r matches Err(i) ==> i <= observations@.len() && (forall|j: int|
            0 <= j < i ==> observations@[j].timestamp.0 < t.0) && (forall|j: int|
            i <= j < observations@.len() ==> observations@[j].timestamp.0 > t.0),
{
    let mut lo: usize = 0;
    let mut hi: usize = observations.len();
    while lo < hi
        invariant
            lo <= hi <= observations@.len(),
            sorted_by_time(observations@),
            forall|j: int| 0 <= j < lo ==> observations@[j].timestamp.0 < t.0,
            forall|j: int| hi <= j < observations@.len() ==> observations@[j].timestamp.0 > t.0,
        decreases hi - lo,
    {
        let mid = lo + (hi - lo) / 2;
        let m = observations[mid].timestamp.0;
        if m < t.0 {
            lo = mid + 1;
        } else if m > t.0 {
            hi = mid;
        } else {
            return Ok(mid);
        }
    }
    Err(lo)
}

/// Inserting at an insertion point keeps a sorted sequence sorted.
proof fn lemma_insert_sorted(s: Seq<Observation>, i: int, o: Observation)
    requires
        sorted_by_time(s),
        insertion_point(s, i, o.timestamp.0),
    ensures
        sorted_by_time(s.insert(i, o)),
{
    let r = s.insert(i, o);
    assert forall|a: int, b: int| 0 <= a <= b < r.len() implies r[a].timestamp.0 <= r[b].timestamp.0 by {
        if a < i && b < i {
        } else if a < i && b == i {
        } else if a < i {
            assert(r[b] == s[b - 1]);
        } else if a == i && b == i {
        } else if a == i {
            assert(r[b] == s[b - 1]);
        } else {
            assert(r[a] == s[a - 1]);
            assert(r[b] == s[b - 1]);
        }
    }
}

fn copy_observations(v: &Vec<Observation>) -> (r: Vec<Observation>)
    ensures
        r@ == v@,
{
    let mut r: Vec<Observation> = Vec::new();
    let mut i: usize = 0;
    while i < v.len()
        invariant
            i <= v@.len(),
            r@ == v@.take(i as int),
        decreases v@.len() - i,
    {
        r.push(v[i]);
        i = i + 1;
        assert(v@.take(i as int) =~= v@.take(i - 1).push(v@[i - 1]));
    }
    assert(v@.take(i as int) =~= v@);
    r
}

/// The state shared by all clients. `D` is the handle through which a
/// dispatcher is reached.
pub struct SpeedDaemonServer<D> {
    /// For each road, we'll keep a receptacle of tickets. This will be
    /// populated lazily, either as a ticket is reported or a dispatcher
    /// connects.
    ticket_boxes: HashMap<Road, TicketBox<D>>,
    /// For each road and plate, we store the list of timestamped
    /// observations, **sorted chronologically**. All modifications to this
    /// maintain ordering.
    plate_observations: HashMap<Road, StringHashMap<Vec<Observation>>>,
}

impl<D> SpeedDaemonServer<D> {
    /// Where the car with this plate was seen on this road, chronologically.
    pub closed spec fn observations(&self, plate: Seq<char>, road: Road) -> Seq<Observation> {
        if self.plate_observations@.contains_key(road) && self.plate_observations@[road]@.contains_key(
            plate,
        ) {
            self.plate_observations@[road]@[plate]@
        } else {
            Seq::empty()
        }
    }

    /// The ticket box of a road, once it has one.
    pub closed spec fn ticket_box(&self, road: Road) -> Option<TicketBox<D>> {
        if self.ticket_boxes@.contains_key(road) {
            Some(self.ticket_boxes@[road])
        } else {
            None
        }
    }

    /// Whether the box of the road holds an `i`th ticket.
    pub open spec fn holds_ticket(&self, road: Road, i: int) -> bool {
        self.ticket_box(road) is Some && 0 <= i < self.ticket_box(road)->0.tickets().len()
    }

    /// The `i`th ticket of a road.
    pub open spec fn ticket_at(&self, road: Road, i: int) -> Ticket {
        self.ticket_box(road)->0.tickets()[i].0
    }

    /// The tickets' invariant: every ticket box keeps its own (chronological
    /// tickets, one ticket per car and day on the road), and no car has
    /// tickets on two roads that cover a common day.
    pub open spec fn tickets_wf(&self) -> bool {
        &&& forall|road: Road| #[trigger] self.ticket_box(road) matches Some(b) ==> b.wf()
        &&& forall|r1: Road, i: int, r2: Road, j: int|
            r1 != r2 && self.holds_ticket(r1, i) && self.holds_ticket(r2, j) && (#[trigger] self.ticket_at(
                r1,
                i,
            )).plate@ == (#[trigger] self.ticket_at(r2, j)).plate@ ==> !share_a_day(
                self.ticket_at(r1, i),
                self.ticket_at(r2, j),
            )
    }

    /// The server's invariant: the tickets' invariant, and every list of
    /// observations is sorted.
    pub open spec fn wf(&self) -> bool {
        &&& self.tickets_wf()
        &&& forall|plate: Seq<char>, road: Road| sorted_by_time(#[trigger] self.observations(plate, road))
    }

    /// A server that has seen nothing.
    pub fn new() -> (r: Self)
        ensures
            r.wf(),
            forall|plate: Seq<char>, road: Road| r.observations(plate, road) == Seq::<Observation>::empty(),
            forall|road: Road| r.ticket_box(road) is None,
    {
        SpeedDaemonServer { ticket_boxes: HashMap::new(), plate_observations: HashMap::new() }
    }

    /// Where the car with this plate was seen on this road before.
    pub fn previous_observations(&self, plate: &String, road: Road) -> (r: Vec<Observation>)
        ensures
            r@ == self.observations(plate@, road),
    {
        match self.plate_observations.get(&road) {
            Some(by_plate) => match by_plate.get(plate.as_str()) {
                Some(v) => copy_observations(v),
                None => Vec::new(),
            },
            None => Vec::new(),
        }
    }

    /// Store an observation from a camera. It goes in among the earlier ones so
    /// that the list stays chronological.
    pub fn record_observation(&mut self, camera: Camera, plate: String, timestamp: Timestamp)
        requires
            old(self).wf(),
        ensures
            final(self).wf(),
            exists|k: int|
                0 <= k <= old(self).observations(plate@, camera.road).len() && final(self).observations(
                    plate@,
                    camera.road,
                ) == old(self).observations(plate@, camera.road).insert(
                    k,
                    Observation { mile: camera.mile, timestamp },
                ),
            forall|p: Seq<char>, r: Road|
                !(p == plate@ && r == camera.road) ==> #[trigger] final(self).observations(p, r) == old(
                    self,
                ).observations(p, r),
            forall|r: Road| #[trigger] final(self).ticket_box(r) == old(self).ticket_box(r),
    {
        let road = camera.road;
        let observation = Observation { mile: camera.mile, timestamp };
        let ghost old_obs = self.observations(plate@, road);
        let mut by_plate = match self.plate_observations.remove(&road) {
            Some(m) => m,
            None => StringHashMap::new(),
        };
        let mut observations = match by_plate.get(plate.as_str()) {
            Some(v) => copy_observations(v),
            None => Vec::new(),
        };
        assert(observations@ == old_obs);
        let insert_index = binary_search_by_timestamp(&observations, timestamp).smush();
        proof {
            assert(insertion_point(observations@, insert_index as int, timestamp.0));
            lemma_insert_sorted(observations@, insert_index as int, observation);
        }
        observations.insert(insert_index, observation);
        let ghost new_obs = observations@;
        by_plate.insert(plate, observations);
        self.plate_observations.insert(road, by_plate);
        assert(self.observations(plate@, road) == new_obs);
        assert forall|p: Seq<char>, r: Road| !(p == plate@ && r == road) implies #[trigger] self.observations(
            p,
            r,
        ) == old(self).observations(p, r) by {}
        assert forall|p: Seq<char>, r: Road| sorted_by_time(#[trigger] self.observations(p, r)) by {
            if !(p == plate@ && r == road) {
                assert(self.observations(p, r) == old(self).observations(p, r));
                assert(sorted_by_time(old(self).observations(p, r)));
            }
        }
        proof {
            lemma_same_boxes(*old(self), *self);
        }
    }
}

impl<D> SpeedDaemonServer<D> {
    /// Whether the box of the road holds a ticket for the same car on a day
    /// that `ticket` also covers.
    pub open spec fn road_has_ticket_on_same_day(&self, road: Road, ticket: Ticket) -> bool {
        self.ticket_box(road) is Some && self.ticket_box(road)->0.has_ticket_on_same_day(ticket)
    }

    /// Whether a ticket would repeat one the car already has, on any road: the
    /// same car, on a day both tickets cover.
    pub open spec fn has_ticket_on_same_day(&self, ticket: Ticket) -> bool {
        exists|road: Road| #[trigger] self.road_has_ticket_on_same_day(road, ticket)
    }

    /// Take the box of a road out of the map, or a new one.
    fn take_box(&mut self, road: Road) -> (b: TicketBox<D>)
        ensures
            match old(self).ticket_box(road) {
                Some(ob) => b == ob,
                None => b.tickets() == Seq::<(Ticket, bool)>::empty() && b.spec_dispatcher() is None,
            },
            final(self).ticket_box(road) is None,
            forall|r: Road| r != road ==> #[trigger] final(self).ticket_box(r) == old(self).ticket_box(r),
            forall|p: Seq<char>, r: Road| #[trigger] final(self).observations(p, r) == old(
                self,
            ).observations(p, r),
    {
        match self.ticket_boxes.remove(&road) {
            Some(b) => b,
            None => TicketBox::new(),
        }
    }

    /// Put a box in as the one of a road.
    fn put_box(&mut self, road: Road, b: TicketBox<D>)
        ensures
            final(self).ticket_box(road) == Some(b),
            forall|r: Road| r != road ==> #[trigger] final(self).ticket_box(r) == old(self).ticket_box(r),
            forall|p: Seq<char>, r: Road| #[trigger] final(self).observations(p, r) == old(
                self,
            ).observations(p, r),
    {
        self.ticket_boxes.insert(road, b);
    }

    /// Whether any road already has a ticket for the car of `ticket` on one of
    /// the days it covers.
    pub fn is_duplicate(&self, ticket: &Ticket) -> (r: bool)
        ensures
            r == self.has_ticket_on_same_day(*ticket),
    {
        let ghost keys = self.ticket_boxes@.dom();
        let ghost mut seen: Set<Road> = Set::empty();
        for road in it: self.ticket_boxes.keys()
            invariant
                keys == self.ticket_boxes@.dom(),
                it.seq().unref().to_set() == keys,
                forall|r: Road|
                    #[trigger] keys.contains(r) ==> seen.contains(r) || exists|k: int|
                        it.index() <= k < it.seq().len() && *(#[trigger] it.seq()[k]) == r,
                forall|r: Road| #[trigger] seen.contains(r) ==> !self.road_has_ticket_on_same_day(r, *ticket),
        {
            match self.ticket_boxes.get(road) {
                Some(b) => {
                    if b.is_duplicate(ticket) {
                        assert(self.road_has_ticket_on_same_day(*road, *ticket));
                        return true;
                    }
                },
                None => {},
            }
            proof {
                seen = seen.insert(*road);
            }
        }
        assert forall|r: Road| !#[trigger] self.road_has_ticket_on_same_day(r, *ticket) by {
            if keys.contains(r) {
                assert(seen.contains(r));
            }
        }
        false
    }

    /// A car was seen going too fast between two observations on a road. The
    /// road gets a ticket box if it had none. The ticket is returned for
    /// delivery unless the car already has a ticket, on any road, for one of
    /// the days it covers; it is stored with
    /// [`SpeedDaemonServer::file_ticket`] once the delivery was tried.
    pub fn report_speeding(
        &mut self,
        plate: String,
        road: Road,
        observation1: Observation,
        observation2: Observation,
        speed: u16,
    ) -> (r: Option<Ticket>)
        requires
            old(self).wf(),
        ensures
            final(self).wf(),
            match old(self).ticket_box(road) {
                Some(b) => final(self).ticket_box(road) == Some(b),
                None => final(self).ticket_box(road) matches Some(b) && b.tickets() == Seq::<
                    (Ticket, bool),
                >::empty() && b.spec_dispatcher() is None,
            },
            forall|r2: Road| r2 != road ==> #[trigger] final(self).ticket_box(r2) == old(self).ticket_box(r2),
            forall|p: Seq<char>, r2: Road| #[trigger] final(self).observations(p, r2) == old(
                self,
            ).observations(p, r2),
            forall|t: Ticket| #[trigger] final(self).has_ticket_on_same_day(t) == old(self).has_ticket_on_same_day(t),
            ({
                let t = ticket_for(plate, road, observation1, observation2, speed);
                if old(self).has_ticket_on_same_day(t) {
                    r is None
                } else {
                    r == Some(t)
                }
            }),
    {
        // Make sure the earlier observation is first!
        let (observation1, observation2) = if observation1.timestamp.0 < observation2.timestamp.0 {
            (observation1, observation2)
        } else {
            (observation2, observation1)
        };
        let ticket = Ticket { plate, road, observation1, observation2, speed };
        // If the car has already received a ticket today, then don't send it.
        let duplicate = self.is_duplicate(&ticket);
        let ticket_box = self.take_box(road);
        let ghost mid = *self;
        self.put_box(road, ticket_box);
        proof {
            lemma_other_roads_kept(*old(self), mid, *self, road);
            lemma_grown_boxes(*old(self), *self, road);
        }
        if duplicate {
            None
        } else {
            Some(ticket)
        }
    }

    /// The dispatcher of a road, if one is registered.
    pub fn dispatcher_for(&self, road: Road) -> (r: Option<&D>)
        ensures
            r matches Some(d) ==> (self.ticket_box(road) matches Some(b) && b.spec_dispatcher()
                == Some(*d)),
            r is None ==> (self.ticket_box(road) matches Some(b) ==> b.spec_dispatcher() is None),
    {
        match self.ticket_boxes.get(&road) {
            Some(b) => b.dispatcher(),
            None => None,
        }
    }

    /// Store a new ticket in its road's box, with the outcome of handing it to
    /// the road's dispatcher. Tickets that repeat a day the car already has a
    /// ticket for must be filtered out before, with
    /// [`SpeedDaemonServer::is_duplicate`].
    pub fn file_ticket(&mut self, ticket: Ticket, delivery: Delivery)
        requires
            old(self).wf(),
            chronological(ticket),
            old(self).ticket_box(ticket.road) is Some,
            !old(self).has_ticket_on_same_day(ticket),
            (delivery == Delivery::NoDispatcher) <==> old(self).ticket_box(ticket.road)->0.spec_dispatcher() is None,
        ensures
            final(self).wf(),
            final(self).ticket_box(ticket.road) matches Some(b) && b.tickets() == old(self).ticket_box(
                ticket.road,
            )->0.tickets().push((ticket, delivery == Delivery::Delivered)) && (if delivery
                == Delivery::Failed {
                b.spec_dispatcher() is None
            } else {
                b.spec_dispatcher() == old(self).ticket_box(ticket.road)->0.spec_dispatcher()
            }),
            forall|r2: Road| r2 != ticket.road ==> #[trigger] final(self).ticket_box(r2) == old(
                self,
            ).ticket_box(r2),
            forall|p: Seq<char>, r2: Road| #[trigger] final(self).observations(p, r2) == old(
                self,
            ).observations(p, r2),
    {
        let road = ticket.road;
        let ghost t = ticket;
        proof {
            assert(!old(self).road_has_ticket_on_same_day(road, t));
        }
        let mut ticket_box = self.take_box(road);
        let ghost mid = *self;
        ticket_box.file_ticket(ticket, delivery);
        self.put_box(road, ticket_box);
        proof {
            lemma_other_roads_kept(*old(self), mid, *self, road);
            assert forall|r: Road| #[trigger] self.ticket_box(r) is Some implies self.ticket_box(
                r,
            )->0.wf() by {
                if r != road {
                    assert(old(self).ticket_box(r) == self.ticket_box(r));
                }
            }
            let n = old(self).ticket_box(road)->0.tickets().len();
            assert forall|r1: Road, i: int, r2: Road, j: int|
                r1 != r2 && self.holds_ticket(r1, i) && self.holds_ticket(r2, j) && (#[trigger] self.ticket_at(
                    r1,
                    i,
                )).plate@ == (#[trigger] self.ticket_at(r2, j)).plate@ implies !share_a_day(
                self.ticket_at(r1, i),
                self.ticket_at(r2, j),
            ) by {
                if r1 == road && i == n {
                    assert(self.ticket_at(r1, i) == t);
                    assert(old(self).ticket_at(r2, j) == self.ticket_at(r2, j));
                    assert(!old(self).road_has_ticket_on_same_day(r2, t));
                    assert(old(self).holds_ticket(r2, j));
                    assert(old(self).ticket_box(r2)->0.tickets()[j].0 == self.ticket_at(r2, j));
                    lemma_share_a_day_symmetric(t, self.ticket_at(r2, j));
                } else if r2 == road && j == n {
                    assert(self.ticket_at(r2, j) == t);
                    assert(old(self).ticket_at(r1, i) == self.ticket_at(r1, i));
                    assert(!old(self).road_has_ticket_on_same_day(r1, t));
                    assert(old(self).holds_ticket(r1, i));
                    assert(old(self).ticket_box(r1)->0.tickets()[i].0 == self.ticket_at(r1, i));
                } else {
                    assert(old(self).holds_ticket(r1, i));
                    assert(old(self).holds_ticket(r2, j));
                    assert(old(self).ticket_at(r1, i) == self.ticket_at(r1, i));
                    assert(old(self).ticket_at(r2, j) == self.ticket_at(r2, j));
                }
            }
        }
    }

    /// The tickets of a road that wait for a dispatcher.
    pub fn unsent_tickets(&self, road: Road) -> (r: Vec<Ticket>)
        ensures
            match self.ticket_box(road) {
                Some(b) => r@ == unsent(b.tickets()),
                None => r@ == Seq::<Ticket>::empty(),
            },
    {
        match self.ticket_boxes.get(&road) {
            Some(b) => b.unsent_tickets(),
            None => Vec::new(),
        }
    }

    /// Make a dispatcher the one of a road, which gets a ticket box if it had
    /// none. The waiting tickets must be handed to it first, see
    /// [`SpeedDaemonServer::unsent_tickets`]; after this call every ticket of
    /// the road counts as dispatched.
    pub fn set_dispatcher(&mut self, road: Road, dispatcher: D)
        requires
            old(self).wf(),
        ensures
            final(self).wf(),
            final(self).ticket_box(road) matches Some(b) && b.spec_dispatcher() == Some(dispatcher)
                && b.tickets() == mark_sent(
                match old(self).ticket_box(road) {
                    Some(ob) => ob.tickets(),
                    None => Seq::<(Ticket, bool)>::empty(),
                },
            ) && unsent(b.tickets()) == Seq::<Ticket>::empty(),
            forall|r2: Road| r2 != road ==> #[trigger] final(self).ticket_box(r2) == old(self).ticket_box(r2),
            forall|p: Seq<char>, r2: Road| #[trigger] final(self).observations(p, r2) == old(
                self,
            ).observations(p, r2),
    {
        let mut ticket_box = self.take_box(road);
        let ghost mid = *self;
        let ghost before = ticket_box.tickets();
        proof {
            if old(self).ticket_box(road) is None {
                assert(ticket_box.tickets() =~= Seq::<(Ticket, bool)>::empty());
            }
            assert(ticket_box.wf());
        }
        ticket_box.set_dispatcher(dispatcher);
        self.put_box(road, ticket_box);
        proof {
            lemma_other_roads_kept(*old(self), mid, *self, road);
            assert forall|r: Road| #[trigger] self.ticket_box(r) is Some implies self.ticket_box(
                r,
            )->0.wf() by {
                if r != road {
                    assert(old(self).ticket_box(r) == self.ticket_box(r));
                }
            }
            assert forall|r1: Road, i: int, r2: Road, j: int|
                r1 != r2 && self.holds_ticket(r1, i) && self.holds_ticket(r2, j) && (#[trigger] self.ticket_at(
                    r1,
                    i,
                )).plate@ == (#[trigger] self.ticket_at(r2, j)).plate@ implies !share_a_day(
                self.ticket_at(r1, i),
                self.ticket_at(r2, j),
            ) by {
                assert(old(self).holds_ticket(r1, i));
                assert(old(self).holds_ticket(r2, j));
                assert(old(self).ticket_at(r1, i) == self.ticket_at(r1, i));
                assert(old(self).ticket_at(r2, j) == self.ticket_at(r2, j));
            }
        }
    }
}

/// Taking a road's box out and putting one back leaves the boxes of the other
/// roads, and all observations, as they were.
proof fn lemma_other_roads_kept<D>(
    a: SpeedDaemonServer<D>,
    mid: SpeedDaemonServer<D>,
    b: SpeedDaemonServer<D>,
    road: Road,
)
    requires
        forall|r: Road| r != road ==> #[trigger] mid.ticket_box(r) == a.ticket_box(r),
        forall|r: Road| r != road ==> #[trigger] b.ticket_box(r) == mid.ticket_box(r),
        forall|p: Seq<char>, r: Road| #[trigger] mid.observations(p, r) == a.observations(p, r),
        forall|p: Seq<char>, r: Road| #[trigger] b.observations(p, r) == mid.observations(p, r),
    ensures
        forall|r: Road| r != road ==> #[trigger] b.ticket_box(r) == a.ticket_box(r),
        forall|p: Seq<char>, r: Road| #[trigger] b.observations(p, r) == a.observations(p, r),
{
    assert forall|r: Road| r != road implies #[trigger] b.ticket_box(r) == a.ticket_box(r) by {
        assert(mid.ticket_box(r) == a.ticket_box(r));
    }
    assert forall|p: Seq<char>, r: Road| #[trigger] b.observations(p, r) == a.observations(p, r) by {
        assert(mid.observations(p, r) == a.observations(p, r));
    }
}

/// Two servers with the same ticket boxes agree on the tickets' invariant and
/// on which tickets are duplicates.
proof fn lemma_same_boxes<D>(a: SpeedDaemonServer<D>, b: SpeedDaemonServer<D>)
    requires
        forall|r: Road| #[trigger] b.ticket_box(r) == a.ticket_box(r),
    ensures
        a.tickets_wf() ==> b.tickets_wf(),
        forall|t: Ticket| #[trigger] b.has_ticket_on_same_day(t) == a.has_ticket_on_same_day(t),
{
    if a.tickets_wf() {
        assert forall|r: Road| #[trigger] b.ticket_box(r) is Some implies b.ticket_box(r)->0.wf() by {
            assert(a.ticket_box(r) == b.ticket_box(r));
        }
        assert forall|r1: Road, i: int, r2: Road, j: int|
            r1 != r2 && b.holds_ticket(r1, i) && b.holds_ticket(r2, j) && (#[trigger] b.ticket_at(
                r1,
                i,
            )).plate@ == (#[trigger] b.ticket_at(r2, j)).plate@ implies !share_a_day(
            b.ticket_at(r1, i),
            b.ticket_at(r2, j),
        ) by {
            assert(a.ticket_at(r1, i) == b.ticket_at(r1, i));
            assert(a.ticket_at(r2, j) == b.ticket_at(r2, j));
        }
    }
    assert forall|t: Ticket| #[trigger] b.has_ticket_on_same_day(t) == a.has_ticket_on_same_day(t) by {
        if b.has_ticket_on_same_day(t) {
            let r = choose|r: Road| #[trigger] b.road_has_ticket_on_same_day(r, t);
            assert(a.road_has_ticket_on_same_day(r, t));
        }
        if a.has_ticket_on_same_day(t) {
            let r = choose|r: Road| #[trigger] a.road_has_ticket_on_same_day(r, t);
            assert(b.road_has_ticket_on_same_day(r, t));
        }
    }
}

/// Giving a road without a box an empty box changes neither the tickets'
/// invariant nor which tickets are duplicates.
proof fn lemma_grown_boxes<D>(a: SpeedDaemonServer<D>, b: SpeedDaemonServer<D>, road: Road)
    requires
        forall|r: Road| r != road ==> #[trigger] b.ticket_box(r) == a.ticket_box(r),
        match a.ticket_box(road) {
            Some(x) => b.ticket_box(road) == Some(x),
            None => b.ticket_box(road) matches Some(x) && x.tickets() == Seq::<(Ticket, bool)>::empty(),
        },
    ensures
        a.tickets_wf() ==> b.tickets_wf(),
        forall|t: Ticket| #[trigger] b.has_ticket_on_same_day(t) == a.has_ticket_on_same_day(t),
{
    if a.ticket_box(road) is Some {
        lemma_same_boxes(a, b);
    } else {
        let e = b.ticket_box(road)->0;
        assert(e.tickets() == Seq::<(Ticket, bool)>::empty());
        if a.tickets_wf() {
            assert forall|r: Road| #[trigger] b.ticket_box(r) is Some implies b.ticket_box(r)->0.wf() by {
                if r != road {
                    assert(a.ticket_box(r) == b.ticket_box(r));
                }
            }
            assert forall|r1: Road, i: int, r2: Road, j: int|
                r1 != r2 && b.holds_ticket(r1, i) && b.holds_ticket(r2, j) && (#[trigger] b.ticket_at(
                    r1,
                    i,
                )).plate@ == (#[trigger] b.ticket_at(r2, j)).plate@ implies !share_a_day(
                b.ticket_at(r1, i),
                b.ticket_at(r2, j),
            ) by {
                assert(a.ticket_at(r1, i) == b.ticket_at(r1, i));
                assert(a.ticket_at(r2, j) == b.ticket_at(r2, j));
            }
        }
        assert forall|t: Ticket| #[trigger] b.has_ticket_on_same_day(t) == a.has_ticket_on_same_day(t) by {
            if b.has_ticket_on_same_day(t) {
                let r = choose|r: Road| #[trigger] b.road_has_ticket_on_same_day(r, t);
                if r == road {
                    let i = choose|i: int|
                        0 <= i < e.tickets().len() && (#[trigger] e.tickets()[i]).0.plate@ == t.plate@
                            && share_a_day(e.tickets()[i].0, t);
                    assert(false);
                }
                assert(a.road_has_ticket_on_same_day(r, t));
            }
            if a.has_ticket_on_same_day(t) {
                let r = choose|r: Road| #[trigger] a.road_has_ticket_on_same_day(r, t);
                assert(b.road_has_ticket_on_same_day(r, t));
            }
        }
    }
}

/// A car never holds two tickets that cover a common day, on the same road or
/// on two roads.
pub proof fn lemma_one_ticket_per_car_per_day<D>(
    server: SpeedDaemonServer<D>,
    r1: Road,
    i: int,
    r2: Road,
    j: int,
)
    requires
        server.wf(),
        server.holds_ticket(r1, i),
        server.holds_ticket(r2, j),
        r1 != r2 || i != j,
        server.ticket_at(r1, i).plate@ == server.ticket_at(r2, j).plate@,
    ensures
        !share_a_day(server.ticket_at(r1, i), server.ticket_at(r2, j)),
{
    if r1 == r2 {
        let b = server.ticket_box(r1)->0;
        assert(b.wf());
        assert(b.tickets()[i].0.plate@ == b.tickets()[j].0.plate@);
    }
}

/// Every ticket of the server has its earlier observation first.
pub proof fn lemma_tickets_chronological<D>(server: SpeedDaemonServer<D>, road: Road, i: int)
    requires
        server.wf(),
        server.holds_ticket(road, i),
    ensures
        chronological(server.ticket_at(road, i)),
{
    let b = server.ticket_box(road)->0;
    assert(b.wf());
    assert(chronological(b.tickets()[i].0));
}

/// Once a car has a ticket on some road, any further ticket for it, on any
/// road, that covers one of the same days is a duplicate, and is not issued.
pub proof fn lemma_no_second_ticket_on_a_day<D>(
    server: SpeedDaemonServer<D>,
    road: Road,
    i: int,
    ticket: Ticket,
)
    requires
        server.holds_ticket(road, i),
        server.ticket_at(road, i).plate@ == ticket.plate@,
        share_a_day(server.ticket_at(road, i), ticket),
    ensures
        server.has_ticket_on_same_day(ticket),
{
    let b = server.ticket_box(road)->0;
    assert(b.tickets()[i].0.plate@ == ticket.plate@ && share_a_day(b.tickets()[i].0, ticket));
    assert(server.road_has_ticket_on_same_day(road, ticket));
}

} // verus!
