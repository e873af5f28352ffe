//! Booking engine for ticketed events: organizers publish events with a fixed
//! capacity, callers reserve tickets against it, and a failed payment
//! settlement is compensated by revoking the ticket and restoring capacity.
//!
//! The host (identity, payments, storage) stays outside: operations take the
//! caller and the caller's balance as plain values, and settlement outcomes
//! are reported back through [`Contract::on_settled`].

pub mod records;
pub mod policy;
pub mod ledger;
pub mod contract;
pub mod laws;

pub use records::{BookingError, Event, OrderNumber, Status, Ticket, User};
pub use policy::AccessPolicy;
pub use contract::{Contract, ContractModel};
