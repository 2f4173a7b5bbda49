//! The matching engine: order intake, matching, and the event log.
use vstd::prelude::*;
use crate::events::{
    causally_ordered, lemma_causal_push, lemma_placed_push, matched_events, placed_in,
    placements_distinct, places, EngineEvent,
};
use crate::orderbook::{
    in_priority_order,
    after_fill, after_fills, fill_amount, matched, sides_with,
    OrderBook,
};
use crate::types::{Order, OrderSide, Trade};

verus! {

/// Every order of `s` has its placement recorded in `h`.
pub open spec fn all_placed(h: Seq<EngineEvent>, s: Seq<Order>) -> bool {
    forall|k: int| 0 <= k < s.len() ==> placed_in(h, (#[trigger] s[k]).id)
}

proof fn lemma_all_placed_push(h: Seq<EngineEvent>, e: EngineEvent, s: Seq<Order>)
    requires
        all_placed(h, s),
    ensures
        all_placed(h.push(e), s),
{
    assert forall|k: int| 0 <= k < s.len() implies placed_in(h.push(e), (#[trigger] s[k]).id) by {
        lemma_placed_push(h, e, s[k].id);
    }
}

proof fn lemma_all_placed_fill(h: Seq<EngineEvent>, s: Seq<Order>, amount: u64)
    requires
        all_placed(h, s),
        s.len() > 0,
    ensures
        all_placed(h, after_fill(s, amount)),
{
    let t = after_fill(s, amount);
    assert forall|k: int| 0 <= k < t.len() implies placed_in(h, (#[trigger] t[k]).id) by {
        if s[0].remaining_amount == amount {
            assert(t[k] == s[k + 1]);
        } else {
            assert(t[k].id == s[k].id);
        }
    }
}

proof fn lemma_all_placed_insert(h: Seq<EngineEvent>, s: Seq<Order>, p: int, o: Order)
    requires
        all_placed(h, s),
        placed_in(h, o.id),
        0 <= p <= s.len(),
    ensures
        all_placed(h, s.insert(p, o)),
{
    let t = s.insert(p, o);
    s.insert_ensures(p, o);
    assert forall|k: int| 0 <= k < t.len() implies placed_in(h, (#[trigger] t[k]).id) by {
        if k > p {
            assert(t[k] == s[k - 1]);
        }
    }
}

/// The book, and the log of what happened to it.
pub struct MatchingEngine {
    orderbook: OrderBook,
    event_queue: Vec<EngineEvent>,
    /// Every event ever logged, drained or not.
    history: Ghost<Seq<EngineEvent>>,
}

impl MatchingEngine {
    /// The book.
    pub closed spec fn spec_book(&self) -> OrderBook {
        self.orderbook
    }

    /// The events logged and not yet drained, oldest first.
    pub closed spec fn spec_pending(&self) -> Seq<EngineEvent> {
        self.event_queue@
    }

    /// Every event ever logged, oldest first: the logs drained so far, one
    /// after another, followed by the pending events.
    pub closed spec fn spec_history(&self) -> Seq<EngineEvent> {
        self.history@
    }

    /// The book is valid, the pending events end the history, each match in
    /// the history follows the placements of its orders, and each resting
    /// order has its placement in the history.
    pub closed spec fn wf(&self) -> bool {
        let h = self.history@;
        let q = self.event_queue@;
        &&& self.orderbook.wf()
        &&& q.len() <= h.len()
        &&& h.subrange(h.len() - q.len(), h.len() as int) == q
        &&& causally_ordered(h)
        &&& all_placed(h, self.orderbook.spec_bids())
        &&& all_placed(h, self.orderbook.spec_asks())
    }

    /// What one drain does: `r` is everything that was pending, nothing is
    /// pending after, and the book and the history stay as they were.
    pub open spec fn drains(before: MatchingEngine, after: MatchingEngine, r: Seq<EngineEvent>) -> bool {
        &&& r == before.spec_pending()
        &&& after.spec_pending() == Seq::<EngineEvent>::empty()
        &&& after.spec_history() == before.spec_history()
        &&& after.spec_book() == before.spec_book()
    }

    /// An engine with an empty book and an empty log.
    pub fn new() -> (r: MatchingEngine)
        ensures
            r.wf(),
            r.spec_book().spec_bids() == Seq::<Order>::empty(),
            r.spec_book().spec_asks() == Seq::<Order>::empty(),
            r.spec_pending() == Seq::<EngineEvent>::empty(),
            r.spec_history() == Seq::<EngineEvent>::empty(),
    {
        let r = MatchingEngine {
            orderbook: OrderBook::new(),
            event_queue: Vec::new(),
            history: Ghost(Seq::empty()),
        };
        assert(r.history@.subrange(0, 0) =~= r.event_queue@);
        r
    }

    /// Logs the placement of `order`, rests it in the book, then matches the
    /// book and logs one event per trade, in the order the trades were made.
    /// The order must be fresh, with a positive amount and nothing filled:
    /// checking that is the caller's part.
    pub fn place_order(&mut self, order: Order)
        requires
            old(self).wf(),
            order.is_fresh(),
        ensures
            final(self).wf(),
            ({
                let sides = sides_with(
                    old(self).spec_book().spec_bids(),
                    old(self).spec_book().spec_asks(),
                    order,
                );
                exists|trades: Seq<Trade>|
                    {
                        &&& matched(
                            sides.0,
                            sides.1,
                            trades,
                            final(self).spec_book().spec_bids(),
                            final(self).spec_book().spec_asks(),
                        )
                        &&& #[trigger] matched_events(trades) == final(self).spec_pending().skip(
                            old(self).spec_pending().len() as int + 1,
                        )
                    }
            }),
            final(self).spec_pending().take(old(self).spec_pending().len() as int + 1)
                == old(self).spec_pending().push(EngineEvent::OrderPlaced(order)),
            final(self).spec_history().take(old(self).spec_history().len() as int)
                == old(self).spec_history(),
    {
        let ghost h0 = self.history@;
        let e = EngineEvent::OrderPlaced(order);
        self.event_queue.push(e);
        self.history = Ghost(self.history@.push(e));
        proof {
            lemma_causal_push(h0, e);
            lemma_all_placed_push(h0, e, self.orderbook.spec_bids());
            lemma_all_placed_push(h0, e, self.orderbook.spec_asks());
            assert(places(self.history@[h0.len() as int], order.id));
            let h = self.history@;
            let q = self.event_queue@;
            assert(h.subrange(h.len() - q.len(), h.len() as int) =~= q);
        }
        let ghost bids0 = self.orderbook.spec_bids();
        let ghost asks0 = self.orderbook.spec_asks();
        self.orderbook.add_order(order);
        proof {
            let h = self.history@;
            crate::orderbook::lemma_slot_bounded(order.side, bids0, order);
            crate::orderbook::lemma_slot_bounded(order.side, asks0, order);
            match order.side {
                OrderSide::Borrow => lemma_all_placed_insert(
                    h,
                    bids0,
                    crate::orderbook::slot(OrderSide::Borrow, bids0, order) as int,
                    order,
                ),
                OrderSide::Lend => lemma_all_placed_insert(
                    h,
                    asks0,
                    crate::orderbook::slot(OrderSide::Lend, asks0, order) as int,
                    order,
                ),
            }
        }
        let ghost q1 = self.event_queue@;
        let ghost h1 = self.history@;
        self.process_matches();
        assert(self.event_queue@.take(q1.len() as int) =~= q1);
        assert(self.history@.take(h0.len() as int) =~= h1.take(h0.len() as int));
        assert(q1.take(q1.len() - 1) =~= old(self).event_queue@);
    }

    /// Matches the book and logs one event per trade.
    fn process_matches(&mut self)
        requires
            old(self).wf(),
        ensures
            final(self).wf(),
            exists|trades: Seq<Trade>|
                {
                    &&& matched(
                        old(self).orderbook.spec_bids(),
                        old(self).orderbook.spec_asks(),
                        trades,
                        final(self).orderbook.spec_bids(),
                        final(self).orderbook.spec_asks(),
                    )
                    &&& final(self).event_queue@ == old(self).event_queue@ + #[trigger] matched_events(trades)
                    &&& final(self).history@ == old(self).history@ + matched_events(trades)
                },
    {
        let ghost bids0 = self.orderbook.spec_bids();
        let ghost asks0 = self.orderbook.spec_asks();
        let ghost q0 = self.event_queue@;
        let ghost h0 = self.history@;
        let trades = self.orderbook.match_orders();
        let mut i: usize = 0;
        while i < trades.len()
            invariant
                0 <= i <= trades@.len(),
                self.orderbook.wf(),
                matched(
                    bids0,
                    asks0,
                    trades@,
                    self.orderbook.spec_bids(),
                    self.orderbook.spec_asks(),
                ),
                self.event_queue@ == q0 + matched_events(trades@.take(i as int)),
                self.history@ == h0 + matched_events(trades@.take(i as int)),
                q0.len() <= h0.len(),
                h0.subrange(h0.len() - q0.len(), h0.len() as int) == q0,
                causally_ordered(self.history@),
                all_placed(self.history@, after_fills(bids0, asks0, i as nat).0),
                all_placed(self.history@, after_fills(bids0, asks0, i as nat).1),
            decreases trades@.len() - i,
        {
            let t = trades[i];
            let e = EngineEvent::OrderMatched(t);
            proof {
                let h = self.history@;
                crate::orderbook::lemma_fill_recorded_at(bids0, asks0, trades@, i as int);
                let cur = after_fills(bids0, asks0, i as nat);
                assert(placed_in(h, cur.0[0].id));
                assert(placed_in(h, cur.1[0].id));
                lemma_causal_push(h, e);
                let m = fill_amount(cur.0[0], cur.1[0]);
                lemma_all_placed_fill(h, cur.0, m);
                lemma_all_placed_fill(h, cur.1, m);
                lemma_all_placed_push(h, e, after_fill(cur.0, m));
                lemma_all_placed_push(h, e, after_fill(cur.1, m));
                assert(matched_events(trades@.take(i as int + 1)) =~= matched_events(
                    trades@.take(i as int),
                ).push(e));
            }
            self.event_queue.push(e);
            self.history = Ghost(self.history@.push(e));
            i = i + 1;
        }
        proof {
            assert(trades@.take(i as int) =~= trades@);
            let h = self.history@;
            let q = self.event_queue@;
            assert(h.subrange(h.len() - q.len(), h.len() as int) =~= q);
        }
    }

    /// Hands out every pending event, oldest first, and leaves none pending.
    pub fn drain_events(&mut self) -> (r: Vec<EngineEvent>)
        requires
            old(self).wf(),
        ensures
            final(self).wf(),
            MatchingEngine::drains(*old(self), *final(self), r@),
    {
        let mut drained: Vec<EngineEvent> = Vec::new();
        std::mem::swap(&mut self.event_queue, &mut drained);
        proof {
            let h = self.history@;
            assert(h.subrange(h.len() as int, h.len() as int) =~= self.event_queue@);
        }
        drained
    }

    /// The book.
    pub fn orderbook(&self) -> (r: &OrderBook)
        ensures
            *r == self.spec_book(),
    {
        &self.orderbook
    }
}

/// Priority: the book of a valid engine is valid, so at every point between
/// calls each side is in price-then-time priority order.
pub proof fn lemma_book_in_priority(e: MatchingEngine)
    requires
        e.wf(),
    ensures
        e.spec_book().wf(),
        in_priority_order(OrderSide::Borrow, e.spec_book().spec_bids()),
        in_priority_order(OrderSide::Lend, e.spec_book().spec_asks()),
{
}

/// Event ordering: in the history of a valid engine, every match comes after
/// a placement of its lend order and of its borrow order. The pending events
/// end the history, so this holds of every drained log together with those
/// drained before it.
pub proof fn lemma_matches_follow_placements(e: MatchingEngine)
    requires
        e.wf(),
    ensures
        causally_ordered(e.spec_history()),
        e.spec_pending().len() <= e.spec_history().len(),
        e.spec_history().skip(e.spec_history().len() - e.spec_pending().len())
            == e.spec_pending(),
{
    let h = e.spec_history();
    assert(h.skip(h.len() - e.spec_pending().len()) =~= h.subrange(
        h.len() - e.spec_pending().len(),
        h.len() as int,
    ));
}

/// Event ordering by index: where no two placements carry the same
/// identifier, the placement of an order comes strictly before every match
/// that names it.
pub proof fn lemma_placement_index_precedes_match(e: MatchingEngine, i: int, j: int, id: uuid::Uuid)
    requires
        e.wf(),
        placements_distinct(e.spec_history()),
        0 <= i < e.spec_history().len(),
        0 <= j < e.spec_history().len(),
        places(e.spec_history()[i], id),
        e.spec_history()[j] matches EngineEvent::OrderMatched(t) && (t.lend_order_id == id
            || t.borrow_order_id == id),
    ensures
        i < j,
{
    let h = e.spec_history();
    lemma_matches_follow_placements(e);
    assert(causally_ordered(h));
    let hj = h[j];
    assert(placed_in(h.take(j), id));
    let w = choose|w: int| 0 <= w < h.take(j).len() && #[trigger] places(h.take(j)[w], id);
    assert(h.take(j)[w] == h[w]);
}

/// Idempotent drain: two drains in a row, with nothing placed between them,
/// give every pending event and then nothing.
pub proof fn lemma_drain_twice(
    a: MatchingEngine,
    b: MatchingEngine,
    c: MatchingEngine,
    first: Seq<EngineEvent>,
    second: Seq<EngineEvent>,
)
    requires
        MatchingEngine::drains(a, b, first),
        MatchingEngine::drains(b, c, second),
    ensures
        first == a.spec_pending(),
        second == Seq::<EngineEvent>::empty(),
        c.spec_history() == a.spec_history(),
{
}

} // verus!
