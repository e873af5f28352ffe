use vstd::prelude::*;
use crate::ledger::{
    count_for, has_order, lemma_count_absent, lemma_count_positive, lemma_count_push,
    lemma_count_remove, lemma_unique_push, orders_unique,
};
use crate::policy::{may_reserve, AccessPolicy};
use crate::records::{status_for, BookingError, Event, OrderNumber, Status, Ticket};

verus! {

/// The abstract state of a [`Contract`].
pub struct ContractModel {
    /// Accounts allowed to create events.
    pub organizers: Seq<Seq<char>>,
    /// The catalog, indexed by event id.
    pub events: Seq<Event>,
    /// Issued tickets, in order of issuance.
    pub tickets: Seq<Ticket>,
    /// Order numbers whose payment has not settled yet.
    pub pending: Seq<OrderNumber>,
}

/// The events of `events` that `organizer` created, in creation order.
pub open spec fn events_by(events: Seq<Event>, organizer: Seq<char>) -> Seq<Event> {
    events.filter(|e: Event| e.event_organizer@ == organizer)
}

/// The tickets of `tickets` that `owner` holds, in order of issuance.
pub open spec fn tickets_of(tickets: Seq<Ticket>, owner: Seq<char>) -> Seq<Ticket> {
    tickets.filter(|t: Ticket| t.ticket_owner@ == owner)
}

/// Event `e` after one unit of it was reserved.
pub open spec fn reserved(e: Event) -> Event {
    Event {
        mounts_tickets: (e.mounts_tickets - 1) as i32,
        status: status_for(e.mounts_tickets - 1),
        tickets_issued: (e.tickets_issued + 1) as u64,
        ..e
    }
}

/// Event `e` after one unit of it was given back.
pub open spec fn restored(e: Event) -> Event {
    Event { mounts_tickets: (e.mounts_tickets + 1) as i32, status: Status::Available, ..e }
}

impl ContractModel {
    /// Event `i` is consistent with its id, its capacity and the ledger.
    pub open spec fn event_wf(self, i: int) -> bool {
        let e = self.events[i];
        &&& e.eid == i
        &&& e.price >= 0
        &&& 0 <= e.mounts_tickets <= e.capacity
        &&& e.status == status_for(e.mounts_tickets as int)
        &&& e.mounts_tickets + count_for(self.tickets, e.eid) == e.capacity
    }

    /// Ticket `j` belongs to an existing event that issued its order number.
    pub open spec fn ticket_wf(self, j: int) -> bool {
        let t = self.tickets[j];
        &&& t.event_id < self.events.len()
        &&& t.order_number.event_id == t.event_id
        &&& t.order_number.serial < self.events[t.event_id as int].tickets_issued
    }

    pub open spec fn wf(self) -> bool {
        &&& forall|i: int| 0 <= i < self.events.len() ==> #[trigger] self.event_wf(i)
        &&& forall|j: int| 0 <= j < self.tickets.len() ==> #[trigger] self.ticket_wf(j)
        &&& orders_unique(self.tickets)
        &&& self.pending.no_duplicates()
        &&& forall|p: int|
            0 <= p < self.pending.len() ==> has_order(self.tickets, #[trigger] self.pending[p])
    }

    /// Every order number handed out so far, revoked ones included.
    pub open spec fn issued(self) -> Set<OrderNumber> {
        Set::new(
            |o: OrderNumber|
                o.event_id < self.events.len() && o.serial
                    < self.events[o.event_id as int].tickets_issued,
        )
    }

    /// The ticket with order number `o`, if one is held.
    pub open spec fn ticket_with(self, o: OrderNumber) -> Option<Ticket> {
        if has_order(self.tickets, o) {
            Some(self.tickets[self.ticket_index(o)])
        } else {
            None
        }
    }

    /// Why creating an event would fail, if it would.
    pub open spec fn create_error(self, caller: Seq<char>, price: i32, capacity: i32) -> Option<
        BookingError,
    > {
        if !self.organizers.contains(caller) {
            Some(BookingError::Unauthorized)
        } else if capacity <= 0 || price < 0 {
            Some(BookingError::InvalidInput)
        } else {
            None
        }
    }

    /// The state after `caller` created an event.
    pub open spec fn after_create(
        self,
        caller: String,
        description: String,
        price: i32,
        venue: String,
        capacity: i32,
    ) -> ContractModel {
        ContractModel {
            events: self.events.push(
                Event {
                    description,
                    price,
                    venue,
                    status: Status::Available,
                    mounts_tickets: capacity,
                    event_organizer: caller,
                    eid: self.events.len() as u64,
                    capacity,
                    tickets_issued: 0,
                },
            ),
            ..self
        }
    }

    /// Why a reservation by `caller` against `event_id` would fail, if it
    /// would; `balance` is what the caller holds.
    pub open spec fn reserve_error(self, caller: Seq<char>, event_id: u64, balance: u128) -> Option<
        BookingError,
    > {
        if !may_reserve(caller) {
            Some(BookingError::Unauthorized)
        } else if event_id >= self.events.len() {
            Some(BookingError::EventNotFound)
        } else if self.events[event_id as int].status != Status::Available
            || self.events[event_id as int].mounts_tickets <= 0 {
            Some(BookingError::SoldOut)
        } else if balance < self.events[event_id as int].price {
            Some(BookingError::InsufficientFunds)
        } else if self.events[event_id as int].tickets_issued == u64::MAX {
            Some(BookingError::InvariantViolation)
        } else {
            None
        }
    }

    /// The ticket that a successful reservation by `caller` issues.
    pub open spec fn ticket_for(self, caller: String, event_id: u64) -> Ticket {
        let e = self.events[event_id as int];
        Ticket {
            order_number: OrderNumber { event_id, serial: e.tickets_issued },
            event_id,
            ticket_owner: caller,
            ticket_description: e.description,
        }
    }

    /// The state after a successful reservation by `caller`: one unit less,
    /// one ticket more, and its payment pending.
    pub open spec fn after_reserve(self, caller: String, event_id: u64) -> ContractModel {
        let t = self.ticket_for(caller, event_id);
        ContractModel {
            events: self.events.update(event_id as int, reserved(self.events[event_id as int])),
            tickets: self.tickets.push(t),
            pending: self.pending.push(t.order_number),
            ..self
        }
    }

    /// The state after the payment for order `o` was confirmed.
    pub open spec fn after_confirm(self, o: OrderNumber) -> ContractModel {
        ContractModel { pending: self.pending.remove(self.pending.index_of(o)), ..self }
    }

    /// The state after the payment for order `o` failed: its ticket is
    /// revoked and its unit given back to the event.
    pub open spec fn after_revoke(self, o: OrderNumber) -> ContractModel {
        ContractModel {
            events: self.events.update(
                o.event_id as int,
                restored(self.events[o.event_id as int]),
            ),
            tickets: self.tickets.remove(self.ticket_index(o)),
            pending: self.pending.remove(self.pending.index_of(o)),
            ..self
        }
    }

    /// Where the ticket with order number `o` stands in the ledger.
    pub open spec fn ticket_index(self, o: OrderNumber) -> int {
        choose|j: int| 0 <= j < self.tickets.len() && self.tickets[j].order_number == o
    }
}

/// The booking engine: event catalog, ticket ledger and access policy.
pub struct Contract {
    policy: AccessPolicy,
    events: Vec<Event>,
    tickets: Vec<Ticket>,
    pending: Vec<OrderNumber>,
}

impl View for Contract {
    type V = ContractModel;

    closed spec fn view(&self) -> ContractModel {
        ContractModel {
            organizers: self.policy@,
            events: self.events@,
            tickets: self.tickets@,
            pending: self.pending@,
        }
    }
}

impl Contract {
    pub open spec fn wf(&self) -> bool {
        self@.wf()
    }

    /// An empty contract whose single organizer is `uid`.
    pub fn new(uid: String) -> (r: Contract)
        ensures
            r.wf(),
            r@.organizers == seq![uid@],
            r@.events.len() == 0,
            r@.tickets.len() == 0,
            r@.pending.len() == 0,
    {
        Contract::with_policy(AccessPolicy::single(uid))
    }

    /// An empty contract governed by `policy`.
    pub fn with_policy(policy: AccessPolicy) -> (r: Contract)
        ensures
            r.wf(),
            r@.organizers == policy@,
            r@.events.len() == 0,
            r@.tickets.len() == 0,
            r@.pending.len() == 0,
    {
        Contract { policy, events: Vec::new(), tickets: Vec::new(), pending: Vec::new() }
    }

    /// The access policy in force.
    pub fn policy(&self) -> (r: &AccessPolicy)
        ensures
            r@ == self@.organizers,
    {
        &self.policy
    }

    /// The whole catalog, indexed by event id.
    pub fn events(&self) -> (r: &Vec<Event>)
        ensures
            r@ == self@.events,
    {
        &self.events
    }

    /// The whole ledger, in order of issuance.
    pub fn tickets(&self) -> (r: &Vec<Ticket>)
        ensures
            r@ == self@.tickets,
    {
        &self.tickets
    }

    /// The orders whose payment has not settled yet.
    pub fn pending(&self) -> (r: &Vec<OrderNumber>)
        ensures
            r@ == self@.pending,
    {
        &self.pending
    }

    /// Rebuilds a contract from its parts, as [`Contract::policy`],
    /// [`Contract::events`], [`Contract::tickets`] and [`Contract::pending`]
    /// hand them out; `None` when the parts are not consistent.
    pub fn restore(
        policy: AccessPolicy,
        events: Vec<Event>,
        tickets: Vec<Ticket>,
        pending: Vec<OrderNumber>,
    ) -> (r: Option<Contract>)
        ensures
            ({
                let m = ContractModel {
                    organizers: policy@,
                    events: events@,
                    tickets: tickets@,
                    pending: pending@,
                };
                &&& r is Some <==> m.wf()
                &&& r is Some ==> r->Some_0@ == m
            }),
    {
        let c = Contract { policy, events, tickets, pending };
        if c.events_consistent() && c.tickets_consistent() && c.orders_distinct()
            && c.pending_distinct() && c.pending_held() {
            Some(c)
        } else {
            None
        }
    }

    /// How many tickets of the ledger belong to event `eid`.
    fn tickets_for(&self, eid: u64) -> (r: usize)
        ensures
            r == count_for(self@.tickets, eid),
    {
        let mut r: usize = 0;
        let mut j: usize = 0;
        while j < self.tickets.len()
            invariant
                j <= self.tickets.len(),
                r == count_for(self.tickets@.subrange(0, j as int), eid),
                r <= j,
            decreases self.tickets.len() - j,
        {
            assert(self.tickets@.subrange(0, j + 1).drop_last() =~= self.tickets@.subrange(
                0,
                j as int,
            ));
            if self.tickets[j].event_id == eid {
                r = r + 1;
            }
            j = j + 1;
        }
        assert(self.tickets@.subrange(0, j as int) =~= self.tickets@);
        r
    }

    fn events_consistent(&self) -> (r: bool)
        ensures
            r == forall|i: int| 0 <= i < self@.events.len() ==> #[trigger] self@.event_wf(i),
    {
        let mut i: usize = 0;
        while i < self.events.len()
            invariant
                i <= self.events.len(),
                forall|k: int| 0 <= k < i ==> #[trigger] self@.event_wf(k),
            decreases self.events.len() - i,
        {
            let e = &self.events[i];
            if e.eid != i as u64 || e.price < 0 || e.mounts_tickets < 0 || e.mounts_tickets
                > e.capacity {
                assert(!self@.event_wf(i as int));
                return false;
            }
            let expected = if e.mounts_tickets == 0 {
                Status::Unavailable
            } else {
                Status::Available
            };
            if e.status != expected {
                assert(!self@.event_wf(i as int));
                return false;
            }
            let held = self.tickets_for(e.eid);
            if held != (e.capacity - e.mounts_tickets) as usize {
                assert(!self@.event_wf(i as int));
                return false;
            }
            i = i + 1;
        }
        true
    }

    fn tickets_consistent(&self) -> (r: bool)
        ensures
            r == forall|j: int| 0 <= j < self@.tickets.len() ==> #[trigger] self@.ticket_wf(j),
    {
        let mut j: usize = 0;
        while j < self.tickets.len()
            invariant
                j <= self.tickets.len(),
                forall|k: int| 0 <= k < j ==> #[trigger] self@.ticket_wf(k),
            decreases self.tickets.len() - j,
        {
            let t = &self.tickets[j];
            if t.event_id >= self.events.len() as u64 || t.order_number.event_id != t.event_id
                || t.order_number.serial >= self.events[t.event_id as usize].tickets_issued {
                assert(!self@.ticket_wf(j as int));
                return false;
            }
            j = j + 1;
        }
        true
    }

    fn orders_distinct(&self) -> (r: bool)
        ensures
            r == orders_unique(self@.tickets),
    {
        let mut j: usize = 0;
        while j < self.tickets.len()
            invariant
                j <= self.tickets.len(),
                orders_unique(self.tickets@.subrange(0, j as int)),
            decreases self.tickets.len() - j,
        {
            let mut k: usize = 0;
            while k < j
                invariant
                    k <= j < self.tickets.len(),
                    orders_unique(self.tickets@.subrange(0, j as int)),
                    forall|a: int| 0 <= a < k ==> self.tickets@[a].order_number
                        != self.tickets@[j as int].order_number,
                decreases j - k,
            {
                if self.tickets[k].order_number == self.tickets[j].order_number {
                    assert(self.tickets@[k as int].order_number == self.tickets@[j as int].order_number);
                    return false;
                }
                k = k + 1;
            }
            let ghost prefix = self.tickets@.subrange(0, j as int);
            let ghost next = self.tickets@.subrange(0, j + 1);
            assert forall|a: int, b: int|
                0 <= a < next.len() && 0 <= b < next.len() && a != b implies #[trigger] next[a].order_number
                != #[trigger] next[b].order_number by {
                if a < j && b < j {
                    assert(prefix[a] == next[a] && prefix[b] == next[b]);
                }
            }
            j = j + 1;
        }
        assert(self.tickets@.subrange(0, j as int) =~= self.tickets@);
        true
    }

    fn pending_distinct(&self) -> (r: bool)
        ensures
            r == self@.pending.no_duplicates(),
    {
        let mut j: usize = 0;
        while j < self.pending.len()
            invariant
                j <= self.pending.len(),
                self.pending@.subrange(0, j as int).no_duplicates(),
            decreases self.pending.len() - j,
        {
            let mut k: usize = 0;
            while k < j
                invariant
                    k <= j < self.pending.len(),
                    self.pending@.subrange(0, j as int).no_duplicates(),
                    forall|a: int| 0 <= a < k ==> self.pending@[a] != self.pending@[j as int],
                decreases j - k,
            {
                if self.pending[k] == self.pending[j] {
                    return false;
                }
                k = k + 1;
            }
            let ghost prefix = self.pending@.subrange(0, j as int);
            let ghost next = self.pending@.subrange(0, j + 1);
            assert forall|a: int, b: int|
                0 <= a < next.len() && 0 <= b < next.len() && a != b implies next[a] != next[b] by {
                if a < j && b < j {
                    assert(prefix[a] == next[a] && prefix[b] == next[b]);
                }
            }
            j = j + 1;
        }
        assert(self.pending@.subrange(0, j as int) =~= self.pending@);
        true
    }

    fn pending_held(&self) -> (r: bool)
        ensures
            r == forall|p: int|
                0 <= p < self@.pending.len() ==> has_order(self@.tickets, #[trigger] self@.pending[p]),
    {
        let mut p: usize = 0;
        while p < self.pending.len()
            invariant
                p <= self.pending.len(),
                forall|a: int|
                    0 <= a < p ==> has_order(self@.tickets, #[trigger] self@.pending[a]),
            decreases self.pending.len() - p,
        {
            if self.position_of(self.pending[p]).is_none() {
                assert(!has_order(self@.tickets, self@.pending[p as int]));
                return false;
            }
            p = p + 1;
        }
        true
    }

    pub fn count_events(&self) -> (r: usize)
        ensures
            r == self@.events.len(),
    {
        self.events.len()
    }

    pub fn count_tickets(&self) -> (r: usize)
        ensures
            r == self@.tickets.len(),
    {
        self.tickets.len()
    }

    /// Creates an event on behalf of `caller`, who becomes its organizer,
    /// and returns its id.
    pub fn new_event(
        &mut self,
        caller: String,
        description: String,
        price: i32,
        venue: String,
        ticket_amount: i32,
    ) -> (r: Result<u64, BookingError>)
        requires
            old(self).wf(),
        ensures
            final(self).wf(),
            match old(self)@.create_error(caller@, price, ticket_amount) {
                Some(err) => r == Err::<u64, BookingError>(err) && final(self)@ == old(self)@,
                None => r == Ok::<u64, BookingError>(old(self)@.events.len() as u64)
                    && final(self)@ == old(self)@.after_create(
                    caller,
                    description,
                    price,
                    venue,
                    ticket_amount,
                ),
            },
    {
        if !self.policy.authorize_create(&caller) {
            return Err(BookingError::Unauthorized);
        }
        if ticket_amount <= 0 || price < 0 {
            return Err(BookingError::InvalidInput);
        }
        let eid = self.events.len() as u64;
        let ghost before = self@;
        proof {
            assert forall|j: int| 0 <= j < before.tickets.len() implies #[trigger] before.tickets[
                j].event_id != eid by {
                assert(before.ticket_wf(j));
            }
            lemma_count_absent(before.tickets, eid);
        }
        self.events.push(Event::new(description, price, venue, ticket_amount, caller, eid));
        assert(self@ == before.after_create(caller, description, price, venue, ticket_amount));
        proof {
            let m = self@;
            assert forall|i: int| 0 <= i < m.events.len() implies #[trigger] m.event_wf(i) by {
                if i < before.events.len() {
                    assert(before.event_wf(i));
                }
            }
            assert forall|j: int| 0 <= j < m.tickets.len() implies #[trigger] m.ticket_wf(j) by {
                assert(before.ticket_wf(j));
            }
        }
        Ok(eid)
    }

    /// Reserves one unit of event `event_id` for `caller`, who holds
    /// `balance`. The ticket is issued at once and its payment is pending
    /// until [`Contract::on_settled`] reports on it.
    pub fn get_ticket(&mut self, caller: String, event_id: u64, balance: u128) -> (r: Result<
        Ticket,
        BookingError,
    >)
        requires
            old(self).wf(),
        ensures
            final(self).wf(),
            match old(self)@.reserve_error(caller@, event_id, balance) {
                Some(err) => r == Err::<Ticket, BookingError>(err) && final(self)@ == old(self)@,
                None => r == Ok::<Ticket, BookingError>(old(self)@.ticket_for(caller, event_id))
                    && final(self)@ == old(self)@.after_reserve(caller, event_id),
            },
    {
        if !self.policy.authorize_reserve(&caller) {
            return Err(BookingError::Unauthorized);
        }
        if event_id >= self.events.len() as u64 {
            return Err(BookingError::EventNotFound);
        }
        let i = event_id as usize;
        let ghost before = self@;
        proof {
            assert(before.event_wf(i as int));
        }
        let mut updated = self.events[i].copied();
        if updated.status != Status::Available || updated.mounts_tickets <= 0 {
            return Err(BookingError::SoldOut);
        }
        if balance < updated.price as u128 {
            return Err(BookingError::InsufficientFunds);
        }
        if updated.tickets_issued == u64::MAX {
            return Err(BookingError::InvariantViolation);
        }
        let order = OrderNumber { event_id, serial: updated.tickets_issued };
        let ticket = Ticket::new(order, event_id, caller, updated.description.clone());
        updated.mounts_tickets = updated.mounts_tickets - 1;
        updated.status = if updated.mounts_tickets == 0 {
            Status::Unavailable
        } else {
            Status::Available
        };
        updated.tickets_issued = updated.tickets_issued + 1;
        self.events.set(i, updated);
        self.tickets.push(ticket.copied());
        self.pending.push(order);
        proof {
            let m = self@;
            assert(m == before.after_reserve(caller, event_id));
            assert forall|j: int| 0 <= j < before.tickets.len() implies #[trigger] before.tickets[
                j].order_number != order by {
                assert(before.ticket_wf(j));
            }
            lemma_unique_push(before.tickets, ticket);
            assert forall|k: int| 0 <= k < m.events.len() implies #[trigger] m.event_wf(k) by {
                assert(before.event_wf(k));
                lemma_count_push(before.tickets, ticket, k as u64);
            }
            assert forall|j: int| 0 <= j < m.tickets.len() implies #[trigger] m.ticket_wf(j) by {
                if j < before.tickets.len() {
                    assert(before.ticket_wf(j));
                }
            }
            assert forall|p: int| 0 <= p < m.pending.len() implies has_order(
                m.tickets,
                #[trigger] m.pending[p],
            ) by {
                if p < before.pending.len() {
                    assert(has_order(before.tickets, before.pending[p]));
                    let q = choose|q: int|
                        0 <= q < before.tickets.len() && #[trigger] before.tickets[q].order_number
                            == before.pending[p];
                    assert(m.tickets[q] == before.tickets[q]);
                } else {
                    assert(m.tickets[before.tickets.len() as int] == ticket);
                }
            }
            assert forall|p: int| 0 <= p < before.pending.len() implies #[trigger] before.pending[p]
                != order by {
                assert(has_order(before.tickets, before.pending[p]));
            }
        }
        Ok(ticket)
    }

    /// Settlement callback for the payment of order `order_number`. A
    /// confirmed payment ends the pending state; a failed one revokes the
    /// ticket and gives its unit back to the event.
    pub fn on_settled(&mut self, order_number: OrderNumber, success: bool) -> (r: Result<
        (),
        BookingError,
    >)
        requires
            old(self).wf(),
        ensures
            final(self).wf(),
            if !old(self)@.pending.contains(order_number) {
                r == Err::<(), BookingError>(BookingError::InvariantViolation) && final(self)@
                    == old(self)@
            } else if success {
                r == Ok::<(), BookingError>(()) && final(self)@ == old(self)@.after_confirm(
                    order_number,
                )
            } else {
                r == Err::<(), BookingError>(BookingError::TransferFailed) && final(self)@ == old(
                    self,
                )@.after_revoke(order_number)
            },
    {
        let ghost before = self@;
        let p = match self.pending_position(order_number) {
            Some(p) => p,
            None => {
                return Err(BookingError::InvariantViolation);
            },
        };
        assert(before.pending.index_of(order_number) == p);
        proof {
            assert(has_order(before.tickets, before.pending[p as int]));
        }
        self.pending.remove(p);
        proof {
            let m = self@;
            assert forall|a: int| 0 <= a < m.pending.len() implies #[trigger] m.pending[a]
                != order_number by {
                if a < p {
                    assert(m.pending[a] == before.pending[a]);
                } else {
                    assert(m.pending[a] == before.pending[a + 1]);
                }
            }
        }
        if success {
            proof {
                let m = self@;
                assert(m == before.after_confirm(order_number));
                assert forall|i: int| 0 <= i < m.events.len() implies #[trigger] m.event_wf(i) by {
                    assert(before.event_wf(i));
                }
                assert forall|b: int| 0 <= b < m.tickets.len() implies #[trigger] m.ticket_wf(b) by {
                    assert(before.ticket_wf(b));
                }
                assert forall|x: int, y: int|
                    0 <= x < m.pending.len() && 0 <= y < m.pending.len() && x != y implies m.pending[x]
                    != m.pending[y] by {
                    let x0 = if x < p { x } else { x + 1 };
                    let y0 = if y < p { y } else { y + 1 };
                    assert(m.pending[x] == before.pending[x0]);
                    assert(m.pending[y] == before.pending[y0]);
                }
                assert forall|a: int| 0 <= a < m.pending.len() implies has_order(
                    m.tickets,
                    #[trigger] m.pending[a],
                ) by {
                    if a < p {
                        assert(m.pending[a] == before.pending[a]);
                    } else {
                        assert(m.pending[a] == before.pending[a + 1]);
                    }
                }
            }
            return Ok(());
        }
        let j = match self.position_of(order_number) {
            Some(j) => j,
            None => {
                return Err(BookingError::InvariantViolation);
            },
        };
        assert(before.ticket_index(order_number) == j);
        let eid = order_number.event_id;
        proof {
            assert(self@.tickets == before.tickets);
            assert(before.tickets[j as int].order_number == order_number);
            assert(before.ticket_wf(j as int));
            assert(before.event_wf(eid as int));
            lemma_count_positive(before.tickets, j as int);
            assert(before.events[eid as int].mounts_tickets < before.events[eid as int].capacity);
        }
        assert(eid < self.events.len());
        let i = eid as usize;
        let mut updated = self.events[i].copied();
        updated.mounts_tickets = updated.mounts_tickets + 1;
        updated.status = Status::Available;
        self.events.set(i, updated);
        self.tickets.remove(j);
        proof {
            let m = self@;
            assert(m == before.after_revoke(order_number));
            assert forall|k: int| 0 <= k < m.events.len() implies #[trigger] m.event_wf(k) by {
                assert(before.event_wf(k));
                lemma_count_remove(before.tickets, j as int, k as u64);
            }
            assert forall|b: int| 0 <= b < m.tickets.len() implies #[trigger] m.ticket_wf(b) by {
                if b < j {
                    assert(m.tickets[b] == before.tickets[b]);
                    assert(before.ticket_wf(b));
                } else {
                    assert(m.tickets[b] == before.tickets[b + 1]);
                    assert(before.ticket_wf(b + 1));
                }
            }
            assert forall|x: int, y: int|
                0 <= x < m.tickets.len() && 0 <= y < m.tickets.len() && x != y implies #[trigger] m.tickets[x].order_number
                != #[trigger] m.tickets[y].order_number by {
                let x0 = if x < j { x } else { x + 1 };
                let y0 = if y < j { y } else { y + 1 };
                assert(m.tickets[x] == before.tickets[x0]);
                assert(m.tickets[y] == before.tickets[y0]);
            }
            assert forall|a: int| 0 <= a < m.pending.len() implies has_order(
                m.tickets,
                #[trigger] m.pending[a],
            ) by {
                let a0 = if a < p { a } else { a + 1 };
                assert(m.pending[a] == before.pending[a0]);
                assert(has_order(before.tickets, before.pending[a0]));
                let q = choose|q: int|
                    0 <= q < before.tickets.len() && #[trigger] before.tickets[q].order_number
                        == before.pending[a0];
                assert(q != j);
                let q1 = if q < j { q } else { q - 1 };
                assert(m.tickets[q1] == before.tickets[q]);
            }
        }
        Err(BookingError::TransferFailed)
    }

    /// Where `order_number` stands among the pending orders, if it does.
    fn pending_position(&self, order_number: OrderNumber) -> (r: Option<usize>)
        ensures
            match r {
                Some(p) => p < self@.pending.len() && self@.pending[p as int] == order_number,
                None => !self@.pending.contains(order_number),
            },
    {
        let mut p: usize = 0;
        while p < self.pending.len()
            invariant
                p <= self.pending.len(),
                forall|k: int| 0 <= k < p ==> self.pending@[k] != order_number,
            decreases self.pending.len() - p,
        {
            if self.pending[p] == order_number {
                return Some(p);
            }
            p = p + 1;
        }
        None
    }

    /// Where the ticket with order number `order_number` stands, if it is held.
    fn position_of(&self, order_number: OrderNumber) -> (r: Option<usize>)
        ensures
            match r {
                Some(j) => j < self@.tickets.len() && self@.tickets[j as int].order_number
                    == order_number,
                None => !has_order(self@.tickets, order_number),
            },
    {
        let mut j: usize = 0;
        while j < self.tickets.len()
            invariant
                j <= self.tickets.len(),
                forall|k: int| 0 <= k < j ==> self.tickets@[k].order_number != order_number,
            decreases self.tickets.len() - j,
        {
            if self.tickets[j].order_number == order_number {
                return Some(j);
            }
            j = j + 1;
        }
        None
    }

    /// The event with id `event_id`, if there is one.
    pub fn get_event(&self, event_id: u64) -> (r: Option<Event>)
        ensures
            r == (if event_id < self@.events.len() {
                Some(self@.events[event_id as int])
            } else {
                None
            }),
    {
        if event_id < self.events.len() as u64 {
            Some(self.events[event_id as usize].copied())
        } else {
            None
        }
    }

    /// The events that `organizer` created, in creation order.
    pub fn view_events(&self, organizer: &String) -> (r: Vec<Event>)
        ensures
            r@ == events_by(self@.events, organizer@),
    {
        let mut r: Vec<Event> = Vec::new();
        let mut i: usize = 0;
        proof {
            reveal_with_fuel(Seq::<Event>::filter, 1);
        }
        while i < self.events.len()
            invariant
                i <= self.events.len(),
                r@ == events_by(self.events@.subrange(0, i as int), organizer@),
            decreases self.events.len() - i,
        {
            let ghost done = self.events@.subrange(0, i as int);
            assert(self.events@.subrange(0, i + 1).drop_last() =~= done);
            proof {
                reveal_with_fuel(Seq::<Event>::filter, 1);
            }
            if self.events[i].event_organizer == *organizer {
                r.push(self.events[i].copied());
            }
            i = i + 1;
        }
        assert(self.events@.subrange(0, i as int) =~= self.events@);
        r
    }

    /// The tickets that `owner` holds, in order of issuance.
    pub fn view_tickets(&self, owner: &String) -> (r: Vec<Ticket>)
        ensures
            r@ == tickets_of(self@.tickets, owner@),
    {
        let mut r: Vec<Ticket> = Vec::new();
        let mut j: usize = 0;
        proof {
            reveal_with_fuel(Seq::<Ticket>::filter, 1);
        }
        while j < self.tickets.len()
            invariant
                j <= self.tickets.len(),
                r@ == tickets_of(self.tickets@.subrange(0, j as int), owner@),
            decreases self.tickets.len() - j,
        {
            assert(self.tickets@.subrange(0, j + 1).drop_last() =~= self.tickets@.subrange(
                0,
                j as int,
            ));
            proof {
                reveal_with_fuel(Seq::<Ticket>::filter, 1);
            }
            if self.tickets[j].ticket_owner == *owner {
                r.push(self.tickets[j].copied());
            }
            j = j + 1;
        }
        assert(self.tickets@.subrange(0, j as int) =~= self.tickets@);
        r
    }

    /// The ticket with order number `order_number`, if it is held.
    pub fn check_ticket_info(&self, order_number: OrderNumber) -> (r: Option<Ticket>)
        requires
            self.wf(),
        ensures
            r == self@.ticket_with(order_number),
    {
        match self.position_of(order_number) {
            Some(j) => {
                assert(self@.ticket_index(order_number) == j);
                Some(self.tickets[j].copied())
            },
            None => None,
        }
    }
}

} // verus!
