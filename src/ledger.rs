use vstd::prelude::*;
use crate::records::{OrderNumber, Ticket};

verus! {

/// How many of `tickets` belong to event `eid`.
pub open spec fn count_for(tickets: Seq<Ticket>, eid: u64) -> nat
    decreases tickets.len(),
{
    if tickets.len() == 0 {
        0
    } else {
        count_for(tickets.drop_last(), eid) + if tickets.last().event_id == eid {
            1nat
        } else {
            0nat
        }
    }
}

/// No two tickets share an order number.
pub open spec fn orders_unique(tickets: Seq<Ticket>) -> bool {
    forall|i: int, j: int|
        0 <= i < tickets.len() && 0 <= j < tickets.len() && i != j
            ==> #[trigger] tickets[i].order_number != #[trigger] tickets[j].order_number
}

/// Whether some ticket carries order number `o`.
pub open spec fn has_order(tickets: Seq<Ticket>, o: OrderNumber) -> bool {
    exists|i: int| 0 <= i < tickets.len() && #[trigger] tickets[i].order_number == o
}

pub proof fn lemma_count_push(tickets: Seq<Ticket>, t: Ticket, eid: u64)
    ensures
        count_for(tickets.push(t), eid) == count_for(tickets, eid) + if t.event_id == eid {
            1nat
        } else {
            0nat
        },
{
    assert(tickets.push(t).drop_last() =~= tickets);
}

pub proof fn lemma_count_remove(tickets: Seq<Ticket>, i: int, eid: u64)
    requires
        0 <= i < tickets.len(),
    ensures
        count_for(tickets, eid) == count_for(tickets.remove(i), eid) + if tickets[i].event_id
            == eid {
            1nat
        } else {
            0nat
        },
    decreases tickets.len(),
{
    if i == tickets.len() - 1 {
        assert(tickets.remove(i) =~= tickets.drop_last());
    } else {
        let rest = tickets.drop_last();
        lemma_count_remove(rest, i, eid);
        assert(tickets.remove(i).drop_last() =~= rest.remove(i));
        assert(tickets.remove(i).last() == tickets.last());
    }
}

pub proof fn lemma_count_positive(tickets: Seq<Ticket>, i: int)
    requires
        0 <= i < tickets.len(),
    ensures
        count_for(tickets, tickets[i].event_id) >= 1,
{
    lemma_count_remove(tickets, i, tickets[i].event_id);
}

pub proof fn lemma_count_absent(tickets: Seq<Ticket>, eid: u64)
    requires
        forall|j: int| 0 <= j < tickets.len() ==> #[trigger] tickets[j].event_id != eid,
    ensures
        count_for(tickets, eid) == 0,
    decreases tickets.len(),
{
    if tickets.len() > 0 {
        let rest = tickets.drop_last();
        assert forall|j: int| 0 <= j < rest.len() implies #[trigger] rest[j].event_id != eid by {
            assert(rest[j] == tickets[j]);
        }
        lemma_count_absent(rest, eid);
    }
}

/// Order numbers stay unique when a ticket with a new one is added.
pub proof fn lemma_unique_push(tickets: Seq<Ticket>, t: Ticket)
    requires
        orders_unique(tickets),
        !has_order(tickets, t.order_number),
    ensures
        orders_unique(tickets.push(t)),
{
    let s = tickets.push(t);
    assert forall|i: int, j: int|
        0 <= i < s.len() && 0 <= j < s.len() && i != j implies #[trigger] s[i].order_number
        != #[trigger] s[j].order_number by {
        if i == tickets.len() {
            assert(tickets[j].order_number == s[j].order_number);
        } else if j == tickets.len() {
            assert(tickets[i].order_number == s[i].order_number);
        } else {
            assert(tickets[i] == s[i] && tickets[j] == s[j]);
        }
    }
}

} // verus!
