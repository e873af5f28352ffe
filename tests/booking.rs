use ticket_booking::{AccessPolicy, BookingError, Contract, Event, OrderNumber, Status, Ticket, User};

const ONE_NEAR: u128 = 1_000_000_000_000_000_000_000_000;

fn s(text: &str) -> String {
    text.to_string()
}

fn organizer_contract() -> Contract {
    Contract::new(s("kherld.testnet"))
}

#[test]
fn test_create_event() {
    let mut contract = organizer_contract();
    contract
        .new_event(s("kherld.testnet"), s("NEARCON 2022"), 500, s("Lisbon"), 230)
        .unwrap();
    contract
        .new_event(s("kherld.testnet"), s("NEARCON 2023"), 800, s("Nairobi"), 380)
        .unwrap();
    assert_eq!(contract.count_events(), 2, "Expected 2 Events");
}

#[test]
fn test_create_events() {
    let mut contract = organizer_contract();
    contract
        .new_event(s("kherld.testnet"), s("NEARCON 2023"), 800, s("In-Person"), 3000)
        .unwrap();
    let events = contract.view_events(&s("kherld.testnet"));
    let status = Status::Available;
    assert_eq!(
        events[0].status, status,
        "For event to be available, amount of ticket must be > 0"
    );
}

#[test]
fn test_get_ticket() {
    let mut contract = organizer_contract();
    contract
        .new_event(s("kherld.testnet"), s("NEARCON 2023"), 800, s("In-Person"), 1)
        .unwrap();
    let ticket = contract.get_ticket(s("kherld.testnet"), 0, 100 * ONE_NEAR).unwrap();
    assert_eq!(ticket.event_id, 0);
    // The only unit is taken, so the event is no longer available.
    let events = contract.view_events(&s("kherld.testnet"));
    assert_eq!(events[0].status, Status::Unavailable);
    assert_eq!(events[0].mounts_tickets, 0);
}

#[test]
fn test_check_ticket_info() {
    let mut contract = organizer_contract();
    contract
        .new_event(s("kherld.testnet"), s("NEARCON 2023"), 800, s("In-Person"), 66)
        .unwrap();
    let ticket = contract.get_ticket(s("kherld.testnet"), 0, 100 * ONE_NEAR).unwrap();
    // Event 0 with 66 units left: no order was ever numbered this way.
    let unknown = OrderNumber { event_id: 0, serial: 66 };
    assert_eq!(contract.check_ticket_info(unknown), None);
    assert_eq!(contract.check_ticket_info(ticket.order_number), Some(ticket.clone()));
    assert_eq!(ticket.ticket_description, "NEARCON 2023");
    assert_eq!(ticket.ticket_owner, "kherld.testnet");
}

/// Scenario A: an organizer creates one event with two units.
fn scenario_a() -> Contract {
    let mut contract = Contract::new(s("O"));
    let id = contract.new_event(s("O"), s("Conf"), 10, s("Hall"), 2);
    assert_eq!(id, Ok(0));
    contract
}

#[test]
fn scenario_a_create_and_list() {
    let contract = scenario_a();
    let events = contract.view_events(&s("O"));
    assert_eq!(events.len(), 1);
    assert_eq!(events[0].eid, 0);
    assert_eq!(events[0].mounts_tickets, 2);
    assert_eq!(events[0].status, Status::Available);
    assert_eq!(events[0].description, "Conf");
    assert_eq!(events[0].venue, "Hall");
    assert_eq!(events[0].price, 10);
    assert_eq!(events[0].event_organizer, "O");
}

#[test]
fn scenario_b_first_reservation() {
    let mut contract = scenario_a();
    let t = contract.get_ticket(s("A"), 0, 100).unwrap();
    assert_eq!(t.order_number, OrderNumber { event_id: 0, serial: 0 });
    assert_eq!(t.ticket_owner, "A");
    assert_eq!(t.ticket_description, "Conf");
    let e = contract.get_event(0).unwrap();
    assert_eq!(e.mounts_tickets, 1);
    assert_eq!(e.status, Status::Available);
    assert_eq!(contract.count_tickets(), 1);
}

#[test]
fn scenario_c_last_unit() {
    let mut contract = scenario_a();
    let a = contract.get_ticket(s("A"), 0, 100).unwrap();
    let b = contract.get_ticket(s("B"), 0, 100).unwrap();
    assert_ne!(a.order_number, b.order_number);
    let e = contract.get_event(0).unwrap();
    assert_eq!(e.mounts_tickets, 0);
    assert_eq!(e.status, Status::Unavailable);
}

#[test]
fn scenario_d_sold_out() {
    let mut contract = scenario_a();
    contract.get_ticket(s("A"), 0, 100).unwrap();
    contract.get_ticket(s("B"), 0, 100).unwrap();
    let before = contract.count_tickets();
    assert_eq!(contract.get_ticket(s("C"), 0, 100), Err(BookingError::SoldOut));
    assert_eq!(contract.count_tickets(), before);
    assert_eq!(contract.get_event(0).unwrap().mounts_tickets, 0);
}

#[test]
fn scenario_e_non_organizer_cannot_create() {
    let mut contract = scenario_a();
    let r = contract.new_event(s("mallory"), s("Fake"), 1, s("Nowhere"), 5);
    assert_eq!(r, Err(BookingError::Unauthorized));
    assert_eq!(contract.count_events(), 1);
    assert!(contract.view_events(&s("mallory")).is_empty());
    assert_eq!(contract.view_events(&s("O")).len(), 1);
}

#[test]
fn scenario_f_failed_settlement_revokes() {
    let mut contract = scenario_a();
    let t = contract.get_ticket(s("A"), 0, 100).unwrap();
    assert_eq!(contract.on_settled(t.order_number, false), Err(BookingError::TransferFailed));
    let e = contract.get_event(0).unwrap();
    assert_eq!(e.mounts_tickets, 2);
    assert_eq!(e.status, Status::Available);
    assert_eq!(contract.check_ticket_info(t.order_number), None);
    assert_eq!(contract.count_tickets(), 0);
}

#[test]
fn confirmed_settlement_keeps_ticket() {
    let mut contract = scenario_a();
    let t = contract.get_ticket(s("A"), 0, 100).unwrap();
    assert_eq!(contract.on_settled(t.order_number, true), Ok(()));
    assert_eq!(contract.check_ticket_info(t.order_number), Some(t.clone()));
    // Once settled, a later report on the same order is refused.
    assert_eq!(
        contract.on_settled(t.order_number, false),
        Err(BookingError::InvariantViolation)
    );
    assert_eq!(contract.check_ticket_info(t.order_number), Some(t));
    assert_eq!(contract.get_event(0).unwrap().mounts_tickets, 1);
}

#[test]
fn settlement_of_unknown_order_changes_nothing() {
    let mut contract = scenario_a();
    let r = contract.on_settled(OrderNumber { event_id: 0, serial: 3 }, false);
    assert_eq!(r, Err(BookingError::InvariantViolation));
    assert_eq!(contract.get_event(0).unwrap().mounts_tickets, 2);
}

#[test]
fn revoked_unit_can_be_sold_again_with_new_order_number() {
    let mut contract = scenario_a();
    let a = contract.get_ticket(s("A"), 0, 100).unwrap();
    let b = contract.get_ticket(s("B"), 0, 100).unwrap();
    assert_eq!(contract.on_settled(a.order_number, false), Err(BookingError::TransferFailed));
    let c = contract.get_ticket(s("C"), 0, 100).unwrap();
    assert_ne!(c.order_number, a.order_number);
    assert_ne!(c.order_number, b.order_number);
    assert_eq!(c.order_number, OrderNumber { event_id: 0, serial: 2 });
    assert_eq!(contract.get_event(0).unwrap().status, Status::Unavailable);
}

#[test]
fn order_numbers_differ_across_events() {
    let mut contract = Contract::new(s("O"));
    for _ in 0..8 {
        contract.new_event(s("O"), s("E"), 0, s("V"), 8).unwrap();
    }
    let mut seen: Vec<OrderNumber> = Vec::new();
    for (event, count) in [(7u64, 3usize), (3u64, 7usize)] {
        for _ in 0..count {
            let t = contract.get_ticket(s("U"), event, 0).unwrap();
            assert!(!seen.contains(&t.order_number));
            seen.push(t.order_number);
        }
    }
    assert!(seen.contains(&OrderNumber { event_id: 7, serial: 2 }));
    assert!(seen.contains(&OrderNumber { event_id: 3, serial: 6 }));
    assert_eq!(contract.count_tickets(), 10);
}

#[test]
fn reservation_leaves_other_events_alone() {
    let mut contract = scenario_a();
    contract.new_event(s("O"), s("Other"), 5, s("Room"), 3).unwrap();
    contract.get_ticket(s("A"), 1, 5).unwrap();
    assert_eq!(contract.get_event(0).unwrap().mounts_tickets, 2);
    assert_eq!(contract.get_event(1).unwrap().mounts_tickets, 2);
}

#[test]
fn invalid_input_rejected() {
    let mut contract = scenario_a();
    assert_eq!(
        contract.new_event(s("O"), s("Zero"), 10, s("Hall"), 0),
        Err(BookingError::InvalidInput)
    );
    assert_eq!(
        contract.new_event(s("O"), s("Negative"), 10, s("Hall"), -4),
        Err(BookingError::InvalidInput)
    );
    assert_eq!(
        contract.new_event(s("O"), s("Cheap"), -1, s("Hall"), 4),
        Err(BookingError::InvalidInput)
    );
    assert_eq!(contract.count_events(), 1);
}

#[test]
fn free_event_and_largest_capacity() {
    let mut contract = Contract::new(s("O"));
    assert_eq!(contract.new_event(s("O"), s("Free"), 0, s("Park"), i32::MAX), Ok(0));
    let t = contract.get_ticket(s("A"), 0, 0).unwrap();
    assert_eq!(contract.get_event(0).unwrap().mounts_tickets, i32::MAX - 1);
    assert_eq!(contract.on_settled(t.order_number, false), Err(BookingError::TransferFailed));
    assert_eq!(contract.get_event(0).unwrap().mounts_tickets, i32::MAX);
}

#[test]
fn reservation_errors() {
    let mut contract = scenario_a();
    assert_eq!(contract.get_ticket(s(""), 0, 100), Err(BookingError::Unauthorized));
    assert_eq!(contract.get_ticket(s("A"), 1, 100), Err(BookingError::EventNotFound));
    assert_eq!(contract.get_ticket(s("A"), 0, 9), Err(BookingError::InsufficientFunds));
    assert_eq!(contract.get_ticket(s("A"), 0, 10).map(|t| t.event_id), Ok(0));
    assert_eq!(contract.count_tickets(), 1);
}

#[test]
fn several_organizers_each_list_their_own() {
    let policy = AccessPolicy::new(vec![s("O"), s("P")]);
    let mut contract = Contract::with_policy(policy);
    assert_eq!(contract.new_event(s("P"), s("P1"), 1, s("X"), 1), Ok(0));
    assert_eq!(contract.new_event(s("O"), s("O1"), 1, s("X"), 1), Ok(1));
    assert_eq!(contract.new_event(s("P"), s("P2"), 1, s("X"), 1), Ok(2));
    let p: Vec<u64> = contract.view_events(&s("P")).iter().map(|e| e.eid).collect();
    assert_eq!(p, vec![0, 2]);
    let o: Vec<u64> = contract.view_events(&s("O")).iter().map(|e| e.eid).collect();
    assert_eq!(o, vec![1]);
    assert!(contract.view_events(&s("Q")).is_empty());
}

#[test]
fn policy_decisions() {
    let policy = AccessPolicy::single(s("O"));
    assert!(policy.authorize_create(&s("O")));
    assert!(!policy.authorize_create(&s("o")));
    assert!(policy.authorize_reserve(&s("anyone")));
    assert!(!policy.authorize_reserve(&s("")));
}

#[test]
fn tickets_listed_by_owner() {
    let mut contract = scenario_a();
    contract.new_event(s("O"), s("Second"), 1, s("Hall"), 5).unwrap();
    let a1 = contract.get_ticket(s("A"), 1, 10).unwrap();
    contract.get_ticket(s("B"), 0, 10).unwrap();
    let a2 = contract.get_ticket(s("A"), 0, 10).unwrap();
    assert_eq!(contract.view_tickets(&s("A")), vec![a1, a2]);
    assert!(contract.view_tickets(&s("Z")).is_empty());
}

#[test]
fn record_constructors() {
    let u = User::new(s("alice"));
    assert_eq!(u.user_id, "alice");
    let e = Event::new(s("D"), 3, s("V"), 4, s("O"), 9);
    assert_eq!(e.mounts_tickets, 4);
    assert_eq!(e.capacity, 4);
    assert_eq!(e.status, Status::Available);
    assert_eq!(e.tickets_issued, 0);
    let copy = e.copied();
    assert_eq!(copy.eid, 9);
    let o = OrderNumber { event_id: 9, serial: 1 };
    let t = Ticket::new(o, 9, s("alice"), s("D"));
    assert_eq!(t.copied(), t);
}

#[test]
fn restore_round_trip_and_rejection() {
    let mut contract = scenario_a();
    let t = contract.get_ticket(s("A"), 0, 100).unwrap();
    let policy = AccessPolicy::new(contract.policy().organizers().clone());
    let restored = Contract::restore(
        policy,
        contract.events().clone(),
        contract.tickets().clone(),
        contract.pending().clone(),
    );
    let mut restored = restored.expect("consistent parts");
    assert_eq!(restored.count_events(), 1);
    assert_eq!(restored.check_ticket_info(t.order_number), Some(t.clone()));
    assert_eq!(restored.on_settled(t.order_number, false), Err(BookingError::TransferFailed));
    assert_eq!(restored.get_event(0).unwrap().mounts_tickets, 2);

    // A capacity that disagrees with the ledger is refused.
    let mut events = contract.events().clone();
    events[0].mounts_tickets = 2;
    let bad = Contract::restore(
        AccessPolicy::single(s("O")),
        events,
        contract.tickets().clone(),
        contract.pending().clone(),
    );
    assert!(bad.is_none());

    // A pending order without a ticket is refused.
    let mut pending = contract.pending().clone();
    pending.push(OrderNumber { event_id: 0, serial: 9 });
    let bad = Contract::restore(
        AccessPolicy::single(s("O")),
        contract.events().clone(),
        contract.tickets().clone(),
        pending,
    );
    assert!(bad.is_none());

    // Two tickets with one order number are refused.
    let mut tickets = contract.tickets().clone();
    tickets.push(t.clone());
    let mut events = contract.events().clone();
    events[0].mounts_tickets = 0;
    events[0].status = Status::Unavailable;
    let bad = Contract::restore(AccessPolicy::single(s("O")), events, tickets, Vec::new());
    assert!(bad.is_none());
}
