//! What the matching engine records.
use vstd::prelude::*;
use crate::types::{Order, Trade};

verus! {

/// One entry of the engine's event log.
#[derive(Debug, Clone, Copy)]
pub enum EngineEvent {
    /// An order was accepted, before it entered the book.
    OrderPlaced(Order),
    /// Two resting orders were matched.
    OrderMatched(Trade),
    /// Reserved: an order was filled completely.
    OrderFilledComplete(uuid::Uuid),
    /// Reserved: an order was cancelled.
    OrderCancelled(uuid::Uuid),
}

/// `e` records the placement of the order with identifier `id`.
pub open spec fn places(e: EngineEvent, id: uuid::Uuid) -> bool {
    match e {
        EngineEvent::OrderPlaced(o) => o.id == id,
        _ => false,
    }
}

/// Some event of `h` records the placement of the order with identifier `id`.
pub open spec fn placed_in(h: Seq<EngineEvent>, id: uuid::Uuid) -> bool {
    exists|i: int| 0 <= i < h.len() && #[trigger] places(h[i], id)
}

/// Each match in `h` comes after a placement of both of its orders.
pub open spec fn causally_ordered(h: Seq<EngineEvent>) -> bool {
    forall|j: int|
        0 <= j < h.len() ==> match #[trigger] h[j] {
            EngineEvent::OrderMatched(t) => placed_in(h.take(j), t.lend_order_id) && placed_in(
                h.take(j),
                t.borrow_order_id,
            ),
            _ => true,
        }
}

/// No two placements in `h` carry the same identifier.
pub open spec fn placements_distinct(h: Seq<EngineEvent>) -> bool {
    forall|i: int, j: int, id: uuid::Uuid|
        0 <= i < h.len() && 0 <= j < h.len() && #[trigger] places(h[i], id) && #[trigger] places(
            h[j],
            id,
        ) ==> i == j
}

/// The log entries for `trades`, in order.
pub open spec fn matched_events(trades: Seq<Trade>) -> Seq<EngineEvent> {
    trades.map_values(|t: Trade| EngineEvent::OrderMatched(t))
}

pub(crate) proof fn lemma_placed_push(h: Seq<EngineEvent>, e: EngineEvent, id: uuid::Uuid)
    requires
        placed_in(h, id),
    ensures
        placed_in(h.push(e), id),
{
    let i = choose|i: int| 0 <= i < h.len() && #[trigger] places(h[i], id);
    assert(h.push(e)[i] == h[i]);
}

pub(crate) proof fn lemma_causal_push(h: Seq<EngineEvent>, e: EngineEvent)
    requires
        causally_ordered(h),
        match e {
            EngineEvent::OrderMatched(t) => placed_in(h, t.lend_order_id) && placed_in(
                h,
                t.borrow_order_id,
            ),
            _ => true,
        },
    ensures
        causally_ordered(h.push(e)),
{
    let h2 = h.push(e);
    assert forall|j: int| 0 <= j < h2.len() implies match #[trigger] h2[j] {
        EngineEvent::OrderMatched(t) => placed_in(h2.take(j), t.lend_order_id) && placed_in(
            h2.take(j),
            t.borrow_order_id,
        ),
        _ => true,
    } by {
        if j < h.len() {
            assert(h2.take(j) =~= h.take(j));
            assert(h2[j] == h[j]);
        } else {
            assert(h2.take(j) =~= h);
        }
    }
}

} // verus!
