use vstd::prelude::*;
use crate::contract::ContractModel;
use crate::ledger::has_order;
use crate::records::{BookingError, OrderNumber, Status};

verus! {

/// A successful reservation takes exactly one unit from the reserved event
/// and leaves every other event as it was.
pub proof fn lemma_reservation_takes_one_unit(
    m: ContractModel,
    caller: String,
    event_id: u64,
    balance: u128,
)
    requires
        m.wf(),
        m.reserve_error(caller@, event_id, balance) is None,
    ensures
        ({
            let n = m.after_reserve(caller, event_id);
            &&& n.events.len() == m.events.len()
            &&& n.events[event_id as int].mounts_tickets == m.events[event_id as int].mounts_tickets
                - 1
            &&& forall|i: int|
                0 <= i < m.events.len() && i != event_id ==> n.events[i] == m.events[i]
        }),
{
}

/// A successful reservation hands out an order number that was never
/// handed out before, and records it as handed out.
pub proof fn lemma_reservation_order_is_fresh(
    m: ContractModel,
    caller: String,
    event_id: u64,
    balance: u128,
)
    requires
        m.wf(),
        m.reserve_error(caller@, event_id, balance) is None,
    ensures
        !m.issued().contains(m.ticket_for(caller, event_id).order_number),
        m.after_reserve(caller, event_id).issued() == m.issued().insert(
            m.ticket_for(caller, event_id).order_number,
        ),
{
    let o = m.ticket_for(caller, event_id).order_number;
    let n = m.after_reserve(caller, event_id);
    assert(n.issued() =~= m.issued().insert(o));
}

/// No operation forgets an order number that was handed out: creating an
/// event, confirming a payment and revoking a ticket all keep the set of
/// issued order numbers.
pub proof fn lemma_issued_never_shrinks(
    m: ContractModel,
    caller: String,
    description: String,
    price: i32,
    venue: String,
    capacity: i32,
    o: OrderNumber,
)
    requires
        m.wf(),
    ensures
        m.create_error(caller@, price, capacity) is None ==> m.issued() == m.after_create(
            caller,
            description,
            price,
            venue,
            capacity,
        ).issued(),
        m.pending.contains(o) ==> m.issued() == m.after_confirm(o).issued(),
        m.pending.contains(o) ==> m.issued() == m.after_revoke(o).issued(),
{
    if m.create_error(caller@, price, capacity) is None {
        let n = m.after_create(caller, description, price, venue, capacity);
        assert(m.issued() =~= n.issued());
    }
    if m.pending.contains(o) {
        assert(m.issued() =~= m.after_confirm(o).issued());
        let p = choose|p: int| 0 <= p < m.pending.len() && m.pending[p] == o;
        assert(has_order(m.tickets, m.pending[p]));
        let j = m.ticket_index(o);
        assert(m.ticket_wf(j));
        assert(m.issued() =~= m.after_revoke(o).issued());
    }
}

/// Ticket issuance is injective: a reservation made in state `b`, reached
/// from the state after an earlier reservation without forgetting any
/// issued order number, never repeats the earlier order number.
pub proof fn lemma_reservations_distinct(
    a: ContractModel,
    caller1: String,
    event1: u64,
    balance1: u128,
    b: ContractModel,
    caller2: String,
    event2: u64,
    balance2: u128,
)
    requires
        a.wf(),
        b.wf(),
        a.reserve_error(caller1@, event1, balance1) is None,
        b.reserve_error(caller2@, event2, balance2) is None,
        a.after_reserve(caller1, event1).issued().subset_of(b.issued()),
    ensures
        a.ticket_for(caller1, event1).order_number != b.ticket_for(caller2, event2).order_number,
{
    lemma_reservation_order_is_fresh(a, caller1, event1, balance1);
    lemma_reservation_order_is_fresh(b, caller2, event2, balance2);
}

/// In every well-formed state an event is unavailable exactly when none of
/// its capacity remains.
pub proof fn lemma_status_tracks_capacity(m: ContractModel, i: int)
    requires
        m.wf(),
        0 <= i < m.events.len(),
    ensures
        (m.events[i].status == Status::Unavailable) <==> (m.events[i].mounts_tickets == 0),
{
    assert(m.event_wf(i));
}

/// An organizer's request with a non-positive capacity or a negative price
/// is rejected as invalid.
pub proof fn lemma_invalid_input_rejected(
    m: ContractModel,
    caller: Seq<char>,
    price: i32,
    capacity: i32,
)
    requires
        m.organizers.contains(caller),
        capacity <= 0 || price < 0,
    ensures
        m.create_error(caller, price, capacity) == Some(BookingError::InvalidInput),
{
}

/// A caller who is not an organizer cannot create events.
pub proof fn lemma_unauthorized_creator_rejected(
    m: ContractModel,
    caller: Seq<char>,
    price: i32,
    capacity: i32,
)
    requires
        !m.organizers.contains(caller),
    ensures
        m.create_error(caller, price, capacity) == Some(BookingError::Unauthorized),
{
}

/// Revoking the ticket of a reservation right after it was made gives the
/// unit back: the event's remaining capacity and status are as before, and
/// the ledger and the pending payments are as before.
pub proof fn lemma_revoke_undoes_reservation(
    m: ContractModel,
    caller: String,
    event_id: u64,
    balance: u128,
)
    requires
        m.wf(),
        m.reserve_error(caller@, event_id, balance) is None,
    ensures
        ({
            let n = m.after_reserve(caller, event_id);
            let o = m.ticket_for(caller, event_id).order_number;
            let r = n.after_revoke(o);
            &&& n.pending.contains(o)
            &&& r.events.len() == m.events.len()
            &&& r.events[event_id as int].mounts_tickets == m.events[event_id as int].mounts_tickets
            &&& r.events[event_id as int].status == m.events[event_id as int].status
            &&& forall|i: int|
                0 <= i < m.events.len() && i != event_id ==> r.events[i] == m.events[i]
            &&& r.tickets == m.tickets
            &&& r.pending == m.pending
        }),
{
    let n = m.after_reserve(caller, event_id);
    let t = m.ticket_for(caller, event_id);
    let o = t.order_number;
    let last = m.tickets.len() as int;
    assert(n.tickets[last] == t);
    assert(n.pending[m.pending.len() as int] == o);
    lemma_reservation_order_is_fresh(m, caller, event_id, balance);
    assert forall|j: int| 0 <= j < m.tickets.len() implies #[trigger] m.tickets[j].order_number
        != o by {
        assert(m.ticket_wf(j));
    }
    let j = n.ticket_index(o);
    assert(j == last);
    assert forall|p: int| 0 <= p < m.pending.len() implies #[trigger] m.pending[p] != o by {
        assert(has_order(m.tickets, m.pending[p]));
    }
    let p = n.pending.index_of(o);
    assert(p == m.pending.len());
    assert(n.tickets.remove(j) =~= m.tickets);
    assert(n.pending.remove(p) =~= m.pending);
    assert(m.event_wf(event_id as int));
}

} // verus!
