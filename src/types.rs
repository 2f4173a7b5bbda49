//! Orders and trades.
use vstd::prelude::*;

verus! {

#[verifier::external_type_specification]
#[verifier::external_body]
pub struct ExUuid(uuid::Uuid);

/// Relies on `uuid::Uuid::new_v4`: a random identifier. Nothing is promised
/// of its value.
#[verifier::external_body]
pub(crate) fn fresh_id() -> (r: uuid::Uuid) {
    uuid::Uuid::new_v4()
}

/// Relies on `chrono::Utc::now` and `DateTime::timestamp_micros`: the current
/// time in microseconds since the Unix epoch. Nothing is promised of its value.
/// `Utc::now` panics only where the system clock reads before the epoch.
#[verifier::external_body]
pub(crate) fn now_micros() -> (r: i64) {
    chrono::Utc::now().timestamp_micros()
}

/// Relies on `chrono::Utc::now` and `DateTime::timestamp`: the current time in
/// seconds since the Unix epoch. Nothing is promised of its value.
/// `Utc::now` panics only where the system clock reads before the epoch.
#[verifier::external_body]
pub(crate) fn now_seconds() -> (r: i64) {
    chrono::Utc::now().timestamp()
}

/// Which side of the market an order stands on.
#[derive(Debug, Clone, Copy, PartialEq, Eq, Structural)]
pub enum OrderSide {
    /// Supply: offers to lend at or above its rate.
    Lend,
    /// Demand: seeks to borrow at or below its rate.
    Borrow,
}

/// An order to lend or borrow `initial_amount` at `interest_rate`.
#[derive(Debug, Clone, Copy)]
pub struct Order {
    pub id: uuid::Uuid,
    pub side: OrderSide,
    pub initial_amount: u64,
    pub remaining_amount: u64,
    pub interest_rate: u64,
    /// Creation time, in microseconds since the Unix epoch.
    pub timestamp: i64,
}

impl Order {
    /// A fresh order: a new random id, the current time, and nothing filled yet.
    pub fn new(side: OrderSide, amount: u64, interest_rate: u64) -> (r: Order)
        ensures
            r.side == side,
            r.initial_amount == amount,
            r.remaining_amount == amount,
            r.interest_rate == interest_rate,
    {
        let id = fresh_id();
        let timestamp = now_micros();
        Order { id, side, initial_amount: amount, remaining_amount: amount, interest_rate, timestamp }
    }

    /// An order fit to enter the book: nothing filled yet, and something to fill.
    pub open spec fn is_fresh(self) -> bool {
        self.remaining_amount == self.initial_amount && self.initial_amount > 0
    }

    /// An order that may rest in the book: partly filled at most, never empty.
    pub open spec fn is_resting(self) -> bool {
        0 < self.remaining_amount <= self.initial_amount
    }
}

/// A completed match between one lend order and one borrow order.
#[derive(Debug, Clone, Copy)]
pub struct Trade {
    pub id: uuid::Uuid,
    pub lend_order_id: uuid::Uuid,
    pub borrow_order_id: uuid::Uuid,
    pub amount: u64,
    pub interest_rate: u64,
    /// Time of the match, in seconds since the Unix epoch.
    pub timestamp: i64,
}

} // verus!
