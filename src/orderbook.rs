//! The order book: both sides under price-then-time priority, and the
//! crossing algorithm that pairs them into trades.
use vstd::prelude::*;
use crate::error::SoluxError;
use crate::types::{fresh_id, now_seconds, Order, OrderSide, Trade};

verus! {

/// Price-then-time priority on one side: whether `a` is served no later than `b`.
/// Borrow orders paying more come first, lend orders asking less come first;
/// at an equal rate the earlier order comes first.
pub open spec fn precedes(side: OrderSide, a: Order, b: Order) -> bool {
    match side {
        OrderSide::Borrow => a.interest_rate > b.interest_rate || (a.interest_rate
            == b.interest_rate && a.timestamp <= b.timestamp),
        OrderSide::Lend => a.interest_rate < b.interest_rate || (a.interest_rate
            == b.interest_rate && a.timestamp <= b.timestamp),
    }
}

/// Every order of `s` is served no later than each order after it.
pub open spec fn in_priority_order(side: OrderSide, s: Seq<Order>) -> bool {
    forall|i: int, j: int|
        0 <= i < j < s.len() ==> precedes(side, #[trigger] s[i], #[trigger] s[j])
}

/// A valid side of the book: in priority order, each order of that side and
/// still resting.
pub open spec fn well_formed_side(side: OrderSide, s: Seq<Order>) -> bool {
    &&& in_priority_order(side, s)
    &&& forall|i: int| 0 <= i < s.len() ==> (#[trigger] s[i]).side == side && s[i].is_resting()
}

/// Both sides are valid: the borrow side and the lend side of one book.
pub open spec fn valid_sides(bids: Seq<Order>, asks: Seq<Order>) -> bool {
    well_formed_side(OrderSide::Borrow, bids) && well_formed_side(OrderSide::Lend, asks)
}

/// Where `o` enters `s`: after the longest prefix of orders served no later
/// than it, so that orders of equal priority keep their arrival order.
pub open spec fn slot(side: OrderSide, s: Seq<Order>, o: Order) -> nat
    decreases s.len(),
{
    if s.len() == 0 {
        0
    } else if precedes(side, s[0], o) {
        1 + slot(side, s.drop_first(), o)
    } else {
        0
    }
}

/// Both sides once `o` rests on its own side, at its place by priority.
pub open spec fn sides_with(bids: Seq<Order>, asks: Seq<Order>, o: Order) -> (
    Seq<Order>,
    Seq<Order>,
) {
    match o.side {
        OrderSide::Borrow => (bids.insert(slot(OrderSide::Borrow, bids, o) as int, o), asks),
        OrderSide::Lend => (bids, asks.insert(slot(OrderSide::Lend, asks, o) as int, o)),
    }
}

/// The best borrow order pays at least what the best lend order asks.
pub open spec fn crossable(bids: Seq<Order>, asks: Seq<Order>) -> bool {
    bids.len() > 0 && asks.len() > 0 && bids[0].interest_rate >= asks[0].interest_rate
}

/// The amount matched between two orders: the smaller remaining amount.
pub open spec fn fill_amount(bid: Order, ask: Order) -> u64 {
    if bid.remaining_amount <= ask.remaining_amount {
        bid.remaining_amount
    } else {
        ask.remaining_amount
    }
}

/// `o` with `amount` more of it filled.
pub open spec fn reduced(o: Order, amount: u64) -> Order {
    Order { remaining_amount: (o.remaining_amount - amount) as u64, ..o }
}

/// A side after its best order has `amount` filled: the order leaves the side
/// exactly when nothing of it remains.
pub open spec fn after_fill(s: Seq<Order>, amount: u64) -> Seq<Order> {
    if s[0].remaining_amount == amount {
        s.drop_first()
    } else {
        s.update(0, reduced(s[0], amount))
    }
}

/// Both sides after one match of their best orders, where they cross.
pub open spec fn fill_step(bids: Seq<Order>, asks: Seq<Order>) -> (Seq<Order>, Seq<Order>) {
    if crossable(bids, asks) {
        let m = fill_amount(bids[0], asks[0]);
        (after_fill(bids, m), after_fill(asks, m))
    } else {
        (bids, asks)
    }
}

/// Both sides after `n` matches.
pub open spec fn after_fills(bids: Seq<Order>, asks: Seq<Order>, n: nat) -> (
    Seq<Order>,
    Seq<Order>,
)
    decreases n,
{
    if n == 0 {
        (bids, asks)
    } else {
        let prev = after_fills(bids, asks, (n - 1) as nat);
        fill_step(prev.0, prev.1)
    }
}

/// `t` records the match of `bid` with `ask`, at the lend order's rate.
pub open spec fn trade_fills(t: Trade, bid: Order, ask: Order) -> bool {
    &&& t.lend_order_id == ask.id
    &&& t.borrow_order_id == bid.id
    &&& t.amount == fill_amount(bid, ask)
    &&& t.interest_rate == ask.interest_rate
}

/// Each of `trades` records a match of the best orders of both sides as they
/// stood after the trades before it, and those orders crossed.
pub open spec fn fills_recorded(bids: Seq<Order>, asks: Seq<Order>, trades: Seq<Trade>) -> bool {
    forall|k: nat|
        k < trades.len() ==> {
            let cur = #[trigger] after_fills(bids, asks, k);
            crossable(cur.0, cur.1) && trade_fills(trades[k as int], cur.0[0], cur.1[0])
        }
}

/// Matching the sides `bids`, `asks` produced `trades`, one per match of the
/// best orders then, and left `bids2`, `asks2`, which no longer cross.
pub open spec fn matched(
    bids: Seq<Order>,
    asks: Seq<Order>,
    trades: Seq<Trade>,
    bids2: Seq<Order>,
    asks2: Seq<Order>,
) -> bool {
    &&& fills_recorded(bids, asks, trades)
    &&& after_fills(bids, asks, trades.len()) == (bids2, asks2)
    &&& !crossable(bids2, asks2)
}

proof fn lemma_record_fill(bids: Seq<Order>, asks: Seq<Order>, trades: Seq<Trade>, t: Trade)
    requires
        fills_recorded(bids, asks, trades),
        crossable(after_fills(bids, asks, trades.len()).0, after_fills(bids, asks, trades.len()).1),
        trade_fills(
            t,
            after_fills(bids, asks, trades.len()).0[0],
            after_fills(bids, asks, trades.len()).1[0],
        ),
    ensures
        fills_recorded(bids, asks, trades.push(t)),
{
    let t2 = trades.push(t);
    assert forall|k: nat| k < t2.len() implies {
        let cur = #[trigger] after_fills(bids, asks, k);
        crossable(cur.0, cur.1) && trade_fills(t2[k as int], cur.0[0], cur.1[0])
    } by {
        if k < trades.len() {
            assert(t2[k as int] == trades[k as int]);
            let cur = after_fills(bids, asks, k);
            assert(crossable(cur.0, cur.1) && trade_fills(trades[k as int], cur.0[0], cur.1[0]));
        }
    }
}

pub(crate) proof fn lemma_slot_bounded(side: OrderSide, s: Seq<Order>, o: Order)
    ensures
        slot(side, s, o) <= s.len(),
    decreases s.len(),
{
    if s.len() > 0 {
        lemma_slot_bounded(side, s.drop_first(), o);
    }
}

pub(crate) proof fn lemma_fill_recorded_at(
    bids: Seq<Order>,
    asks: Seq<Order>,
    trades: Seq<Trade>,
    k: int,
)
    requires
        fills_recorded(bids, asks, trades),
        0 <= k < trades.len(),
    ensures
        crossable(after_fills(bids, asks, k as nat).0, after_fills(bids, asks, k as nat).1),
        trade_fills(
            trades[k],
            after_fills(bids, asks, k as nat).0[0],
            after_fills(bids, asks, k as nat).1[0],
        ),
{
}

proof fn lemma_precedes_total(side: OrderSide, a: Order, b: Order)
    ensures
        precedes(side, a, b) || precedes(side, b, a),
{
}

proof fn lemma_precedes_transitive(side: OrderSide, a: Order, b: Order, c: Order)
    requires
        precedes(side, a, b),
        precedes(side, b, c),
    ensures
        precedes(side, a, c),
{
}

proof fn lemma_slot_is(side: OrderSide, s: Seq<Order>, o: Order, i: int)
    requires
        0 <= i <= s.len(),
        forall|k: int| 0 <= k < i ==> precedes(side, #[trigger] s[k], o),
        i == s.len() || !precedes(side, s[i], o),
    ensures
        slot(side, s, o) == i,
    decreases s.len(),
{
    if s.len() > 0 && i > 0 {
        let t = s.drop_first();
        assert forall|k: int| 0 <= k < i - 1 implies precedes(side, #[trigger] t[k], o) by {
            assert(t[k] == s[k + 1]);
        }
        lemma_slot_is(side, t, o, i - 1);
    }
}

proof fn lemma_insert_keeps_order(side: OrderSide, s: Seq<Order>, o: Order, i: int)
    requires
        in_priority_order(side, s),
        0 <= i <= s.len(),
        forall|k: int| 0 <= k < i ==> precedes(side, #[trigger] s[k], o),
        i == s.len() || !precedes(side, s[i], o),
    ensures
        in_priority_order(side, s.insert(i, o)),
{
    let t = s.insert(i, o);
    s.insert_ensures(i, o);
    if i < s.len() {
        lemma_precedes_total(side, s[i], o);
    }
    assert forall|a: int, b: int| 0 <= a < b < t.len() implies precedes(
        side,
        #[trigger] t[a],
        #[trigger] t[b],
    ) by {
        if b < i {
        } else if b == i {
        } else if a < i {
            assert(t[b] == s[b - 1]);
        } else if a == i {
            assert(t[b] == s[b - 1]);
            if b - 1 > i {
                lemma_precedes_transitive(side, o, s[i], s[b - 1]);
            }
        } else {
            assert(t[a] == s[a - 1]);
            assert(t[b] == s[b - 1]);
        }
    }
}

proof fn lemma_fill_keeps_side(side: OrderSide, s: Seq<Order>, amount: u64)
    requires
        well_formed_side(side, s),
        s.len() > 0,
        amount <= s[0].remaining_amount,
    ensures
        well_formed_side(side, after_fill(s, amount)),
{
    let t = after_fill(s, amount);
    if s[0].remaining_amount == amount {
        assert forall|a: int, b: int| 0 <= a < b < t.len() implies precedes(
            side,
            #[trigger] t[a],
            #[trigger] t[b],
        ) by {
            assert(t[a] == s[a + 1]);
            assert(t[b] == s[b + 1]);
        }
        assert forall|a: int| 0 <= a < t.len() implies (#[trigger] t[a]).side == side
            && t[a].is_resting() by {
            assert(t[a] == s[a + 1]);
        }
    } else {
        assert forall|a: int, b: int| 0 <= a < b < t.len() implies precedes(
            side,
            #[trigger] t[a],
            #[trigger] t[b],
        ) by {
            assert(precedes(side, s[a], s[b]));
        }
    }
}

proof fn lemma_adjacent_order(side: OrderSide, s: Seq<Order>, n: int)
    requires
        0 <= n <= s.len(),
        forall|i: int| 0 < i < n ==> precedes(side, s[i - 1], #[trigger] s[i]),
    ensures
        forall|i: int, j: int| 0 <= i < j < n ==> precedes(side, #[trigger] s[i], #[trigger] s[j]),
    decreases n,
{
    if n > 1 {
        lemma_adjacent_order(side, s, n - 1);
        assert forall|i: int, j: int| 0 <= i < j < n implies precedes(
            side,
            #[trigger] s[i],
            #[trigger] s[j],
        ) by {
            if j == n - 1 && i < n - 2 {
                lemma_precedes_transitive(side, s[i], s[n - 2], s[n - 1]);
            }
        }
    }
}

proof fn lemma_after_fills_valid(bids: Seq<Order>, asks: Seq<Order>, n: nat)
    requires
        well_formed_side(OrderSide::Borrow, bids),
        well_formed_side(OrderSide::Lend, asks),
    ensures
        well_formed_side(OrderSide::Borrow, after_fills(bids, asks, n).0),
        well_formed_side(OrderSide::Lend, after_fills(bids, asks, n).1),
    decreases n,
{
    if n > 0 {
        lemma_after_fills_valid(bids, asks, (n - 1) as nat);
        let prev = after_fills(bids, asks, (n - 1) as nat);
        if crossable(prev.0, prev.1) {
            let m = fill_amount(prev.0[0], prev.1[0]);
            lemma_fill_keeps_side(OrderSide::Borrow, prev.0, m);
            lemma_fill_keeps_side(OrderSide::Lend, prev.1, m);
        }
    }
}

/// Conservation: the amount of every trade that matching produces is at most
/// what remained of each of its two orders just before, and each of the two
/// remaining amounts drops by exactly that amount. An order whose remaining
/// amount reaches zero leaves its side; the others stay at its head.
pub proof fn lemma_trade_conserves(
    bids: Seq<Order>,
    asks: Seq<Order>,
    trades: Seq<Trade>,
    bids2: Seq<Order>,
    asks2: Seq<Order>,
    k: int,
)
    requires
        well_formed_side(OrderSide::Borrow, bids),
        well_formed_side(OrderSide::Lend, asks),
        matched(bids, asks, trades, bids2, asks2),
        0 <= k < trades.len(),
    ensures
        ({
            let cur = after_fills(bids, asks, k as nat);
            let next = after_fills(bids, asks, (k + 1) as nat);
            let (bid, ask, m) = (cur.0[0], cur.1[0], trades[k].amount);
            &&& trades[k].borrow_order_id == bid.id
            &&& trades[k].lend_order_id == ask.id
            &&& 0 < m <= bid.remaining_amount
            &&& m <= ask.remaining_amount
            &&& bid.remaining_amount == m ==> next.0 == cur.0.drop_first()
            &&& bid.remaining_amount > m ==> next.0 == cur.0.update(0, reduced(bid, m))
                && next.0[0].remaining_amount == bid.remaining_amount - m
            &&& ask.remaining_amount == m ==> next.1 == cur.1.drop_first()
            &&& ask.remaining_amount > m ==> next.1 == cur.1.update(0, reduced(ask, m))
                && next.1[0].remaining_amount == ask.remaining_amount - m
        }),
{
    lemma_fill_recorded_at(bids, asks, trades, k);
    lemma_after_fills_valid(bids, asks, k as nat);
    let cur = after_fills(bids, asks, k as nat);
    assert(cur.0[0].is_resting() && cur.1[0].is_resting());
}

/// No over-fill: at every stage of matching each order on either side still
/// has something left to fill, and never more than it started with. So a
/// remaining amount never drops below zero, and an order leaves its side
/// exactly when its remaining amount reaches zero (see `lemma_trade_conserves`).
pub proof fn lemma_no_overfill(bids: Seq<Order>, asks: Seq<Order>, n: nat)
    requires
        well_formed_side(OrderSide::Borrow, bids),
        well_formed_side(OrderSide::Lend, asks),
    ensures
        forall|i: int|
            0 <= i < after_fills(bids, asks, n).0.len() ==> 0 < (
            #[trigger] after_fills(bids, asks, n).0[i]).remaining_amount
                <= after_fills(bids, asks, n).0[i].initial_amount,
        forall|i: int|
            0 <= i < after_fills(bids, asks, n).1.len() ==> 0 < (
            #[trigger] after_fills(bids, asks, n).1[i]).remaining_amount
                <= after_fills(bids, asks, n).1[i].initial_amount,
{
    lemma_after_fills_valid(bids, asks, n);
}

/// The lend and borrow orders that rest in the book.
pub struct OrderBook {
    bids: Vec<Order>,
    asks: Vec<Order>,
}

/// Whether `a` is served no later than `b` on `side`.
fn serves_before(side: OrderSide, a: &Order, b: &Order) -> (r: bool)
    ensures
        r == precedes(side, *a, *b),
{
    match side {
        OrderSide::Borrow => a.interest_rate > b.interest_rate || (a.interest_rate
            == b.interest_rate && a.timestamp <= b.timestamp),
        OrderSide::Lend => a.interest_rate < b.interest_rate || (a.interest_rate
            == b.interest_rate && a.timestamp <= b.timestamp),
    }
}

/// Puts `o` into the side `v` at its place by priority.
fn insert_by_priority(side: OrderSide, v: &mut Vec<Order>, o: Order)
    requires
        well_formed_side(side, old(v)@),
        o.side == side,
        o.is_resting(),
    ensures
        final(v)@ == old(v)@.insert(slot(side, old(v)@, o) as int, o),
        well_formed_side(side, final(v)@),
{
    let mut i: usize = 0;
    while i < v.len()
        invariant
            0 <= i <= v.len(),
            v@ == old(v)@,
            forall|k: int| 0 <= k < i ==> precedes(side, #[trigger] v@[k], o),
        ensures
            i == v.len() || !precedes(side, v@[i as int], o),
        decreases v.len() - i,
    {
        if !serves_before(side, &v[i], &o) {
            break;
        }
        i = i + 1;
    }
    proof {
        lemma_slot_is(side, v@, o, i as int);
        lemma_insert_keeps_order(side, v@, o, i as int);
        v@.insert_ensures(i as int, o);
    }
    v.insert(i, o);
    assert forall|k: int| 0 <= k < v@.len() implies (#[trigger] v@[k]).side == side
        && v@[k].is_resting() by {
        if k > i as int {
            assert(v@[k] == old(v)@[k - 1]);
        }
    }
}

/// Fills `amount` of the best order of the side `v`, and takes it out once
/// nothing of it remains.
fn fill_best(v: &mut Vec<Order>, amount: u64)
    requires
        old(v).len() > 0,
        amount <= old(v)@[0].remaining_amount,
    ensures
        final(v)@ == after_fill(old(v)@, amount),
{
    let mut best = v[0];
    best.remaining_amount = best.remaining_amount - amount;
    if best.remaining_amount == 0 {
        v.remove(0);
        assert(v@ =~= old(v)@.drop_first());
    } else {
        v.set(0, best);
        assert(v@ =~= old(v)@.update(0, reduced(old(v)@[0], amount)));
    }
}

/// A copy of the side `v`.
fn copy_side(v: &Vec<Order>) -> (r: Vec<Order>)
    ensures
        r@ == v@,
{
    let mut r: Vec<Order> = Vec::new();
    let mut i: usize = 0;
    while i < v.len()
        invariant
            0 <= i <= v.len(),
            r@ == v@.take(i as int),
        decreases v.len() - i,
    {
        r.push(v[i]);
        i = i + 1;
        assert(r@ =~= v@.take(i as int));
    }
    assert(v@.take(i as int) =~= v@);
    r
}

/// Whether `v` is a valid side `side` of a book.
fn side_is_valid(side: OrderSide, v: &Vec<Order>) -> (r: bool)
    ensures
        r == well_formed_side(side, v@),
{
    let mut i: usize = 0;
    while i < v.len()
        invariant
            0 <= i <= v.len(),
            forall|k: int| 0 < k < i ==> precedes(side, v@[k - 1], #[trigger] v@[k]),
            forall|k: int| 0 <= k < i ==> (#[trigger] v@[k]).side == side && v@[k].is_resting(),
        decreases v.len() - i,
    {
        let o = &v[i];
        if o.side != side || o.remaining_amount == 0 || o.remaining_amount > o.initial_amount {
            return false;
        }
        if i > 0 && !serves_before(side, &v[i - 1], o) {
            return false;
        }
        i = i + 1;
    }
    proof {
        lemma_adjacent_order(side, v@, v@.len() as int);
    }
    true
}

impl OrderBook {
    /// The borrow orders, best first.
    pub closed spec fn spec_bids(&self) -> Seq<Order> {
        self.bids@
    }

    /// The lend orders, best first.
    pub closed spec fn spec_asks(&self) -> Seq<Order> {
        self.asks@
    }

    /// Both sides are valid.
    pub open spec fn wf(&self) -> bool {
        valid_sides(self.spec_bids(), self.spec_asks())
    }

    /// An empty book.
    pub fn new() -> (r: OrderBook)
        ensures
            r.wf(),
            r.spec_bids() == Seq::<Order>::empty(),
            r.spec_asks() == Seq::<Order>::empty(),
    {
        OrderBook { bids: Vec::new(), asks: Vec::new() }
    }

    /// Rests `order` on its side, at its place by priority: after every order
    /// served no later than it. The order must be fresh, with a positive
    /// amount and nothing filled: checking that is the caller's part.
    pub fn add_order(&mut self, order: Order)
        requires
            old(self).wf(),
            order.is_fresh(),
        ensures
            final(self).wf(),
            (final(self).spec_bids(), final(self).spec_asks()) == sides_with(
                old(self).spec_bids(),
                old(self).spec_asks(),
                order,
            ),
    {
        match order.side {
            OrderSide::Borrow => insert_by_priority(OrderSide::Borrow, &mut self.bids, order),
            OrderSide::Lend => insert_by_priority(OrderSide::Lend, &mut self.asks, order),
        }
    }

    /// Whether the best orders of the two sides cross.
    fn can_match(&self) -> (r: bool)
        ensures
            r == crossable(self.spec_bids(), self.spec_asks()),
    {
        self.bids.len() > 0 && self.asks.len() > 0 && self.bids[0].interest_rate
            >= self.asks[0].interest_rate
    }

    /// Matches the best orders of the two sides for as long as they cross, and
    /// returns the trades made, in order.
    pub fn match_orders(&mut self) -> (trades: Vec<Trade>)
        requires
            old(self).wf(),
        ensures
            final(self).wf(),
            matched(
                old(self).spec_bids(),
                old(self).spec_asks(),
                trades@,
                final(self).spec_bids(),
                final(self).spec_asks(),
            ),
    {
        let ghost bids0 = self.bids@;
        let ghost asks0 = self.asks@;
        let mut trades: Vec<Trade> = Vec::new();
        loop
            invariant
                self.wf(),
                after_fills(bids0, asks0, trades@.len()) == (self.bids@, self.asks@),
                fills_recorded(bids0, asks0, trades@),
            ensures
                !crossable(self.bids@, self.asks@),
            decreases self.bids.len() + self.asks.len(),
        {
            if !self.can_match() {
                break;
            }
            let bid = self.bids[0];
            let ask = self.asks[0];
            let amount = if bid.remaining_amount <= ask.remaining_amount {
                bid.remaining_amount
            } else {
                ask.remaining_amount
            };
            let trade = Trade {
                id: fresh_id(),
                lend_order_id: ask.id,
                borrow_order_id: bid.id,
                amount,
                interest_rate: ask.interest_rate,
                timestamp: now_seconds(),
            };
            proof {
                lemma_record_fill(bids0, asks0, trades@, trade);
                lemma_fill_keeps_side(OrderSide::Borrow, self.bids@, amount);
                lemma_fill_keeps_side(OrderSide::Lend, self.asks@, amount);
            }
            trades.push(trade);
            fill_best(&mut self.bids, amount);
            fill_best(&mut self.asks, amount);
            assert(after_fills(bids0, asks0, trades@.len()) == (self.bids@, self.asks@));
        }
        trades
    }

    /// A book with the given sides, as a snapshot holds them; refused unless
    /// both are valid.
    pub fn from_sides(bids: Vec<Order>, asks: Vec<Order>) -> (r: Result<OrderBook, SoluxError>)
        ensures
            r is Ok <==> valid_sides(bids@, asks@),
            r matches Ok(b) ==> b.wf() && b.spec_bids() == bids@ && b.spec_asks() == asks@,
            r matches Err(e) ==> e is InvalidSnapshot,
    {
        if side_is_valid(OrderSide::Borrow, &bids) && side_is_valid(OrderSide::Lend, &asks) {
            Ok(OrderBook { bids, asks })
        } else {
            Err(SoluxError::InvalidSnapshot)
        }
    }

    /// Copies of both sides, best first, as a snapshot holds them.
    pub fn to_sides(&self) -> (r: (Vec<Order>, Vec<Order>))
        ensures
            r.0@ == self.spec_bids(),
            r.1@ == self.spec_asks(),
    {
        (copy_side(&self.bids), copy_side(&self.asks))
    }

    /// The borrow orders, best first.
    pub fn bids(&self) -> (r: &Vec<Order>)
        ensures
            r@ == self.spec_bids(),
    {
        &self.bids
    }

    /// The lend orders, best first.
    pub fn asks(&self) -> (r: &Vec<Order>)
        ensures
            r@ == self.spec_asks(),
    {
        &self.asks
    }
}

/// Snapshot round trip: the sides that `to_sides` copies out of a valid book
/// are valid sides, so `from_sides` accepts them and rebuilds a book with the
/// very same orders, in the same order, on both sides.
pub proof fn lemma_snapshot_round_trip(book: OrderBook, bids: Seq<Order>, asks: Seq<Order>)
    requires
        book.wf(),
        bids == book.spec_bids(),
        asks == book.spec_asks(),
    ensures
        valid_sides(bids, asks),
{
}

} // verus!
