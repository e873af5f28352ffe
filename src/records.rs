use vstd::prelude::*;

verus! {

/// An account known to the system.
#[derive(Clone, Debug)]
pub struct User {
    pub user_id: String,
}

impl User {
    pub fn new(user_id: String) -> (r: User)
        ensures
            r.user_id == user_id,
    {
        User { user_id }
    }
}

/// Whether an event still has unreserved capacity.
#[derive(Clone, Copy, Debug, PartialEq, Eq, Structural)]
pub enum Status {
    Available,
    Unavailable,
}

/// The status that an event with `remaining` unreserved units must have.
pub open spec fn status_for(remaining: int) -> Status {
    if remaining == 0 {
        Status::Unavailable
    } else {
        Status::Available
    }
}

/// The outcomes by which an operation can fail.
#[derive(Clone, Copy, Debug, PartialEq, Eq, Structural)]
pub enum BookingError {
    /// The caller lacks the role the operation requires.
    Unauthorized,
    /// No event has the given id.
    EventNotFound,
    /// A non-positive capacity or a negative price at creation.
    InvalidInput,
    /// The event has no capacity left.
    SoldOut,
    /// The caller's balance is below the event's price.
    InsufficientFunds,
    /// The payment did not settle; the ticket was revoked.
    TransferFailed,
    /// An internal bookkeeping limit or invariant was hit.
    InvariantViolation,
}

/// Identity of a ticket: the event it belongs to and the event's own
/// sequence number for it. The sequence only ever grows, so no two
/// reservations share an order number.
#[derive(Clone, Copy, Debug, PartialEq, Eq, Hash, Structural)]
pub struct OrderNumber {
    pub event_id: u64,
    pub serial: u64,
}

/// A ticketed offering.
#[derive(Clone, Debug)]
pub struct Event {
    pub description: String,
    /// In the smallest currency unit.
    pub price: i32,
    pub venue: String,
    pub status: Status,
    /// Units not yet reserved.
    pub mounts_tickets: i32,
    pub event_organizer: String,
    pub eid: u64,
    /// Units the event was created with.
    pub capacity: i32,
    /// How many order numbers this event has handed out so far.
    pub tickets_issued: u64,
}

impl Event {
    /// A fresh event with all of its capacity available.
    pub fn new(
        description: String,
        price: i32,
        venue: String,
        capacity: i32,
        event_organizer: String,
        eid: u64,
    ) -> (r: Event)
        requires
            capacity > 0,
        ensures
            r == (Event {
                description,
                price,
                venue,
                status: Status::Available,
                mounts_tickets: capacity,
                event_organizer,
                eid,
                capacity,
                tickets_issued: 0,
            }),
    {
        Event {
            description,
            price,
            venue,
            status: Status::Available,
            mounts_tickets: capacity,
            event_organizer,
            eid,
            capacity,
            tickets_issued: 0,
        }
    }

    /// A field-by-field copy.
    pub fn copied(&self) -> (r: Event)
        ensures
            r == *self,
    {
        Event {
            description: self.description.clone(),
            price: self.price,
            venue: self.venue.clone(),
            status: self.status,
            mounts_tickets: self.mounts_tickets,
            event_organizer: self.event_organizer.clone(),
            eid: self.eid,
            capacity: self.capacity,
            tickets_issued: self.tickets_issued,
        }
    }
}

/// Proof of one reservation against one unit of an event's capacity.
#[derive(Clone, Debug, PartialEq, Eq)]
pub struct Ticket {
    pub order_number: OrderNumber,
    pub event_id: u64,
    pub ticket_owner: String,
    /// The event's description when the ticket was issued.
    pub ticket_description: String,
}

impl Ticket {
    pub fn new(
        order_number: OrderNumber,
        event_id: u64,
        ticket_owner: String,
        ticket_description: String,
    ) -> (r: Ticket)
        ensures
            r == (Ticket { order_number, event_id, ticket_owner, ticket_description }),
    {
        Ticket { order_number, event_id, ticket_owner, ticket_description }
    }

    /// A field-by-field copy.
    pub fn copied(&self) -> (r: Ticket)
        ensures
            r == *self,
    {
        Ticket {
            order_number: self.order_number,
            event_id: self.event_id,
            ticket_owner: self.ticket_owner.clone(),
            ticket_description: self.ticket_description.clone(),
        }
    }
}

} // verus!
