//! Per-road receptacles of speeding tickets.
use super::{day_of, Ticket};
use vstd::prelude::*;

verus! {

/// Whether a ticket covers the given day.
pub open spec fn covers_day(t: Ticket, d: int) -> bool {
    day_of(t.observation1.timestamp.0) <= d <= day_of(t.observation2.timestamp.0)
}

/// Whether two tickets cover a common day.
pub open spec fn share_a_day(a: Ticket, b: Ticket) -> bool {
    exists|d: int| #[trigger] covers_day(a, d) && covers_day(b, d)
}

/// Whether a ticket has its earlier observation first.
pub open spec fn chronological(t: Ticket) -> bool {
    t.observation1.timestamp.0 <= t.observation2.timestamp.0
}

/// What became of the attempt to hand a new ticket to the road's dispatcher.
#[derive(Copy, Clone, Debug, PartialEq, Eq, Structural)]
pub enum Delivery {
    /// The road has no dispatcher; the ticket waits.
    NoDispatcher,
    /// The dispatcher took the ticket.
    Delivered,
    /// The dispatcher is gone; the ticket waits.
    Failed,
}

/// A receptacle for tickets. This can either be connected to a particular
/// dispatcher, or a queue that will hold onto tickets until a dispatcher
/// connects. `D` is the handle through which a dispatcher is reached.
#[derive(Debug)]
pub struct TicketBox<D> {
    /// All tickets registered on this road, in the order they came, each with a
    /// flag that says whether it has been handed to a dispatcher.
    tickets: Vec<(Ticket, bool)>,
    dispatcher: Option<D>,
}

/// The tickets of `s` that were not handed to a dispatcher, in order.
pub open spec fn unsent(s: Seq<(Ticket, bool)>) -> Seq<Ticket>
    decreases s.len(),
{
    if s.len() == 0 {
        Seq::empty()
    } else if s.last().1 {
        unsent(s.drop_last())
    } else {
        unsent(s.drop_last()).push(s.last().0)
    }
}

/// Whether a stored ticket still waits for a dispatcher.
pub open spec fn waiting() -> spec_fn((Ticket, bool)) -> bool {
    |x: (Ticket, bool)| !x.1
}

/// The tickets waiting for a dispatcher are exactly the stored tickets whose
/// flag says they were not handed over, all of them and in the order they were
/// stored.
pub proof fn lemma_unsent_is_every_waiting_ticket(s: Seq<(Ticket, bool)>)
    ensures
        unsent(s) == s.filter(waiting()).map_values(|x: (Ticket, bool)| x.0),
        unsent(s).len() == s.filter(waiting()).len(),
        forall|i: int| 0 <= i < s.len() && !s[i].1 ==> unsent(s).contains(#[trigger] s[i].0),
    decreases s.len(),
{
    reveal(Seq::filter);
    let f = |x: (Ticket, bool)| x.0;
    let w = waiting();
    if s.len() > 0 {
        lemma_unsent_is_every_waiting_ticket(s.drop_last());
        assert(w(s.last()) == !s.last().1);
        assert(s.filter(w) == if w(s.last()) {
            s.drop_last().filter(w).push(s.last())
        } else {
            s.drop_last().filter(w)
        });
        if !s.last().1 {
            assert(s.filter(w).map_values(f) =~= s.drop_last().filter(w).map_values(f).push(s.last().0));
        }
    } else {
        assert(s.filter(w).map_values(f) =~= Seq::<Ticket>::empty());
    }
    assert forall|i: int| 0 <= i < s.len() && !s[i].1 implies unsent(s).contains(#[trigger] s[i].0) by {
        s.filter_lemma(w);
        assert(w(s[i]));
        assert(s.filter(w).contains(s[i]));
        let j = choose|j: int| 0 <= j < s.filter(w).len() && s.filter(w)[j] == s[i];
        assert(unsent(s)[j] == s[i].0);
    }
}

/// Storing a ticket that waits for a dispatcher adds it at the end of the
/// waiting ones; storing one that was handed over leaves them as they were.
pub proof fn lemma_unsent_push(s: Seq<(Ticket, bool)>, t: Ticket)
    ensures
        unsent(s.push((t, false))) == unsent(s).push(t),
        unsent(s.push((t, true))) == unsent(s),
{
    assert(s.push((t, false)).drop_last() =~= s);
    assert(s.push((t, true)).drop_last() =~= s);
}

/// The same tickets, all flagged as handed to a dispatcher.
pub open spec fn mark_sent(s: Seq<(Ticket, bool)>) -> Seq<(Ticket, bool)> {
    Seq::new(s.len(), |i: int| (s[i].0, true))
}

/// Once every ticket is flagged as handed over, none waits.
pub proof fn lemma_unsent_of_mark_sent(s: Seq<(Ticket, bool)>)
    ensures
        unsent(mark_sent(s)) == Seq::<Ticket>::empty(),
    decreases s.len(),
{
    if s.len() > 0 {
        assert(mark_sent(s).drop_last() =~= mark_sent(s.drop_last()));
        lemma_unsent_of_mark_sent(s.drop_last());
    }
}

impl<D> TicketBox<D> {
    /// The registered tickets with their "sent" flags.
    pub closed spec fn tickets(&self) -> Seq<(Ticket, bool)> {
        self.tickets@
    }

    /// The current dispatcher.
    pub closed spec fn spec_dispatcher(&self) -> Option<D> {
        self.dispatcher
    }

    /// Whether the box already holds a ticket for the same plate on a day that
    /// `ticket` also covers.
    pub open spec fn has_ticket_on_same_day(&self, ticket: Ticket) -> bool {
        exists|i: int|
            0 <= i < self.tickets().len() && (#[trigger] self.tickets()[i]).0.plate@ == ticket.plate@
                && share_a_day(self.tickets()[i].0, ticket)
    }

    /// The box's invariant: every ticket is chronological, and no car has two
    /// tickets covering the same day.
    pub open spec fn wf(&self) -> bool {
        &&& forall|i: int| 0 <= i < self.tickets().len() ==> chronological(#[trigger] self.tickets()[i].0)
        &&& forall|i: int, j: int|
            0 <= i < self.tickets().len() && 0 <= j < self.tickets().len() && i != j
                && (#[trigger] self.tickets()[i]).0.plate@ == (#[trigger] self.tickets()[j]).0.plate@
                ==> !share_a_day(self.tickets()[i].0, self.tickets()[j].0)
    }

    /// An empty box without a dispatcher.
    pub fn new() -> (r: Self)
        ensures
            r.tickets() == Seq::<(Ticket, bool)>::empty(),
            r.spec_dispatcher() is None,
            r.wf(),
    {
        TicketBox { tickets: Vec::new(), dispatcher: None }
    }

    /// The dispatcher of this road, if one is registered.
    pub fn dispatcher(&self) -> (r: Option<&D>)
        ensures
            r matches Some(d) ==> self.spec_dispatcher() == Some(*d),
            r is None <==> self.spec_dispatcher() is None,
    {
        match &self.dispatcher {
            Some(d) => Some(d),
            None => None,
        }
    }

    /// Get the list of all tickets that have yet to be sent
    pub fn unsent_tickets(&self) -> (r: Vec<Ticket>)
        ensures
            r@ == unsent(self.tickets()),
            r@ == self.tickets().filter(waiting()).map_values(|x: (Ticket, bool)| x.0),
            forall|i: int|
                0 <= i < self.tickets().len() && !self.tickets()[i].1 ==> r@.contains(
                    #[trigger] self.tickets()[i].0,
                ),
    {
        proof {
            lemma_unsent_is_every_waiting_ticket(self.tickets());
        }
        let mut r: Vec<Ticket> = Vec::new();
        let mut i: usize = 0;
        while i < self.tickets.len()
            invariant
                i <= self.tickets@.len(),
                r@ == unsent(self.tickets@.take(i as int)),
            decreases self.tickets@.len() - i,
        {
            assert(self.tickets@.take(i + 1).drop_last() =~= self.tickets@.take(i as int));
            if !self.tickets[i].1 {
                r.push(self.tickets[i].0.duplicate());
            }
            i = i + 1;
        }
        assert(self.tickets@.take(i as int) =~= self.tickets@);
        r
    }

    /// Check if a ticket has already been reported on the same day as the given
    /// one. A ticket can span multiple days, so this will check for all
    /// possible overlaps between the two.
    pub fn is_duplicate(&self, ticket: &Ticket) -> (r: bool)
        ensures
            r == self.has_ticket_on_same_day(*ticket),
    {
        let (first, last) = ticket.days();
        let mut i: usize = 0;
        while i < self.tickets.len()
            invariant
                i <= self.tickets@.len(),
                first == day_of(ticket.observation1.timestamp.0),
                last == day_of(ticket.observation2.timestamp.0),
                forall|k: int|
                    0 <= k < i ==> !((#[trigger] self.tickets@[k]).0.plate@ == ticket.plate@
                        && share_a_day(self.tickets@[k].0, *ticket)),
            decreases self.tickets@.len() - i,
        {
            let other = &self.tickets[i].0;
            if other.plate == ticket.plate {
                let (other_first, other_last) = other.days();
                let overlap = first <= other_last && other_first <= last && first <= last
                    && other_first <= other_last;
                proof {
                    lemma_share_a_day(*other, *ticket);
                }
                if overlap {
                    assert(self.tickets()[i as int].0.plate@ == ticket.plate@);
                    assert(share_a_day(self.tickets()[i as int].0, *ticket));
                    return true;
                }
            }
            i = i + 1;
        }
        false
    }

    /// Set the dispatcher for this ticket box. The tickets that wait must be
    /// handed to it first, see [`TicketBox::unsent_tickets`]; once it is set,
    /// every ticket of the box counts as dispatched. If the road is already
    /// managed by another dispatcher, the new one takes over.
    pub fn set_dispatcher(&mut self, dispatcher: D)
        ensures
            final(self).tickets() == mark_sent(old(self).tickets()),
            unsent(final(self).tickets()) == Seq::<Ticket>::empty(),
            final(self).spec_dispatcher() == Some(dispatcher),
            old(self).wf() ==> final(self).wf(),
    {
        let mut sent: Vec<(Ticket, bool)> = Vec::new();
        let mut i: usize = 0;
        while i < self.tickets.len()
            invariant
                i <= self.tickets@.len(),
                sent@ == mark_sent(self.tickets@.take(i as int)),
            decreases self.tickets@.len() - i,
        {
            sent.push((self.tickets[i].0.duplicate(), true));
            i = i + 1;
            assert(sent@ =~= mark_sent(self.tickets@.take(i as int)));
        }
        assert(self.tickets@.take(i as int) =~= self.tickets@);
        self.tickets = sent;
        self.dispatcher = Some(dispatcher);
        proof {
            lemma_unsent_of_mark_sent(old(self).tickets());
            let o = old(self).tickets();
            let n = self.tickets@;
            assert forall|k: int| 0 <= k < n.len() implies #[trigger] n[k].0 == o[k].0 by {}
            if old(self).wf() {
                assert forall|a: int| 0 <= a < n.len() implies chronological(#[trigger] n[a].0) by {
                    assert(n[a].0 == o[a].0);
                }
                assert forall|a: int, b: int|
                    0 <= a < n.len() && 0 <= b < n.len() && a != b && (#[trigger] n[a]).0.plate@
                        == (#[trigger] n[b]).0.plate@ implies !share_a_day(n[a].0, n[b].0) by {
                    assert(n[a].0 == o[a].0);
                    assert(n[b].0 == o[b].0);
                    assert(o[a].0.plate@ == o[b].0.plate@);
                }
            }
        }
    }

    /// Store a new ticket, with a flag that says whether the dispatcher took
    /// it. A dispatcher that failed to take it has disconnected, and is
    /// forgotten. Duplicate tickets must be filtered out before, with
    /// [`TicketBox::is_duplicate`].
    pub fn file_ticket(&mut self, ticket: Ticket, delivery: Delivery)
        requires
            old(self).wf(),
            chronological(ticket),
            !old(self).has_ticket_on_same_day(ticket),
            (delivery == Delivery::NoDispatcher) <==> old(self).spec_dispatcher() is None,
        ensures
            final(self).wf(),
            final(self).tickets() == old(self).tickets().push((ticket, delivery == Delivery::Delivered)),
            delivery == Delivery::Failed ==> final(self).spec_dispatcher() is None,
            delivery != Delivery::Failed ==> final(self).spec_dispatcher() == old(self).spec_dispatcher(),
    {
        if delivery == Delivery::Failed {
            self.dispatcher = None;
        }
        let ghost t = ticket;
        self.tickets.push((ticket, delivery == Delivery::Delivered));
        proof {
            let s = self.tickets@;
            let n = s.len() - 1;
            assert forall|i: int| 0 <= i < s.len() implies chronological(#[trigger] s[i].0) by {
                if i < n {
                    assert(s[i] == old(self).tickets()[i]);
                }
            }
            assert forall|i: int, j: int|
                0 <= i < s.len() && 0 <= j < s.len() && i != j && (#[trigger] s[i]).0.plate@ == (
                #[trigger] s[j]).0.plate@ implies !share_a_day(s[i].0, s[j].0) by {
                if i == n {
                    assert(s[j] == old(self).tickets()[j]);
                    assert(!(old(self).tickets()[j].0.plate@ == t.plate@ && share_a_day(
                        old(self).tickets()[j].0,
                        t,
                    )));
                    lemma_share_a_day_symmetric(s[i].0, s[j].0);
                } else if j == n {
                    assert(s[i] == old(self).tickets()[i]);
                    assert(!(old(self).tickets()[i].0.plate@ == t.plate@ && share_a_day(
                        old(self).tickets()[i].0,
                        t,
                    )));
                } else {
                    assert(s[i] == old(self).tickets()[i]);
                    assert(s[j] == old(self).tickets()[j]);
                }
            }
        }
    }
}

/// Two tickets cover a common day exactly when their day ranges overlap.
pub proof fn lemma_share_a_day(a: Ticket, b: Ticket)
    ensures
        share_a_day(a, b) <==> {
            let (a1, a2) = (day_of(a.observation1.timestamp.0), day_of(a.observation2.timestamp.0));
            let (b1, b2) = (day_of(b.observation1.timestamp.0), day_of(b.observation2.timestamp.0));
            a1 <= b2 && b1 <= a2 && a1 <= a2 && b1 <= b2
        },
{
    let (a1, a2) = (day_of(a.observation1.timestamp.0), day_of(a.observation2.timestamp.0));
    let (b1, b2) = (day_of(b.observation1.timestamp.0), day_of(b.observation2.timestamp.0));
    if a1 <= b2 && b1 <= a2 && a1 <= a2 && b1 <= b2 {
        let d = if a1 <= b1 { b1 } else { a1 };
        assert(covers_day(a, d) && covers_day(b, d));
    }
}

/// Sharing a day does not depend on the order of the two tickets.
pub proof fn lemma_share_a_day_symmetric(a: Ticket, b: Ticket)
    ensures
        share_a_day(a, b) == share_a_day(b, a),
{
    lemma_share_a_day(a, b);
    lemma_share_a_day(b, a);
}

} // verus!
