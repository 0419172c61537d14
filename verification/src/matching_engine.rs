//! The matching engine: consumes intents one at a time, drives price-time
//! matching against the book, and answers each intent with one event.
//!
//! The engine exclusively owns its book, and one `match_order` call runs to
//! completion before the next is taken, so every matching decision is made
//! against a consistent snapshot and no two intents interleave their
//! mutations. Failures are events, never panics: a rejected intent leaves
//! the book exactly as it was.

use vstd::prelude::*;
use crate::events::{Events, RejectReason};
use crate::order::{Order, OrderData, OrderType, Side};
use crate::order_book::{Book, price_crosses, seq_has_id};

verus! {

/// Whether the incoming taker `rec` on `side` crosses the resting `counter`:
/// a market order crosses any counter-order, a limit order one whose price
/// is at least as good as its limit.
pub open spec fn crosses(side: Side, rec: OrderData, counter: OrderData) -> bool {
    rec.order_type == OrderType::MARKET || price_crosses(
        side,
        rec.price_level,
        counter.price_level,
    )
}

/// The size of one trade: the smaller of the two parties' open quantities.
pub open spec fn spec_trade_size(rec: OrderData, counter: OrderData) -> int {
    vstd::math::min(rec.remaining(), counter.remaining())
}

/// A party after a trade of size `t`: only its fill state moves.
pub open spec fn after_trade(o: OrderData, t: int) -> OrderData {
    OrderData { filled: (o.filled + t) as u64, ..o }
}

/// Whether every counterparty in a fill list ended completely filled.
pub open spec fn all_filled(fills: Seq<OrderData>) -> bool {
    forall|k: int| 0 <= k < fills.len() ==> (#[trigger] fills[k]).is_filled()
}

/// The outcome of matching the taker `rec` against the opposing side `opp`,
/// walked best-first: the opposing side left behind, the counterparties in
/// trade order (each a copy taken after its trade), and the taker's final
/// fill state. Matching stops when the taker is filled, the side is
/// exhausted, or the next counter-order fails the crossing test; a
/// counter-order left with open quantity stays resting at the front.
pub open spec fn match_spec(side: Side, opp: Seq<OrderData>, rec: OrderData) -> (
    Seq<OrderData>,
    Seq<OrderData>,
    OrderData,
)
    decreases opp.len(),
{
    if rec.is_filled() || opp.len() == 0 || !crosses(side, rec, opp[0]) {
        (opp, Seq::<OrderData>::empty(), rec)
    } else {
        let t = spec_trade_size(rec, opp[0]);
        let counter = after_trade(opp[0], t);
        let rec2 = after_trade(rec, t);
        if counter.is_filled() {
            let rest = match_spec(side, opp.drop_first(), rec2);
            (rest.0, seq![counter] + rest.1, rest.2)
        } else {
            (opp.update(0, counter), seq![counter], rec2)
        }
    }
}

/// What processing a new taker order on `side` must leave behind, taking
/// the book from `pre` to `post` and answering `r`: the opposing side as
/// matching left it, the taker's limit remainder (if any) resting on its own
/// side, and an event that classifies the outcome. A trade that leaves any
/// party partly open reports `PartiallyFilled`; only a trade that closes the
/// taker and every counterparty reports `Filled`; with no trade at all, a
/// limit order rests as `Accepted` and a market order is rejected for want
/// of liquidity. A market remainder is never inserted, and a rejection
/// leaves the book untouched.
pub open spec fn new_order_post(pre: Book, post: Book, side: Side, data: OrderData, r: Events) -> bool {
    if data.is_filled() {
        r == Events::Rejected(RejectReason::InvalidQuantity) && post == pre
    } else {
        let m = match_spec(side, pre.side_seq(side.spec_opposite()), data);
        post.side_seq(side.spec_opposite()) == m.0 && if m.1.len() == 0 {
            if data.order_type == OrderType::MARKET {
                r == Events::Rejected(RejectReason::NoLiquidity) && post == pre
            } else {
                (r matches Events::Accepted(a) && a == data) && (exists|i: int|
                    0 <= i <= pre.side_seq(side).len() && post.side_seq(side) == pre.side_seq(
                        side,
                    ).insert(i, data))
            }
        } else if m.2.is_filled() && all_filled(m.1) {
            (r matches Events::Filled(o, f) && o == m.2 && f@ == m.1) && post.side_seq(side)
                == pre.side_seq(side)
        } else {
            (r matches Events::PartiallyFilled(o, f) && o == m.2 && f@ == m.1) && if data.order_type
                == OrderType::LIMIT && !m.2.is_filled() {
                exists|i: int|
                    0 <= i <= pre.side_seq(side).len() && post.side_seq(side) == pre.side_seq(
                        side,
                    ).insert(i, m.2)
            } else {
                post.side_seq(side) == pre.side_seq(side)
            }
        }
    }
}

/// What a cancel of `prev_id` on `side` must do: remove exactly the
/// referenced record and report it, or change nothing and reject.
pub open spec fn cancel_post(pre: Book, post: Book, side: Side, prev_id: u64, r: Events) -> bool {
    if seq_has_id(pre.side_seq(side), prev_id) {
        (r matches Events::Cancelled(rec) && rec.id == prev_id && exists|i: int|
            0 <= i < pre.side_seq(side).len() && pre.side_seq(side)[i] == rec && post.side_seq(side)
                == pre.side_seq(side).remove(i)) && post.side_seq(side.spec_opposite())
            == pre.side_seq(side.spec_opposite())
    } else {
        r == Events::Rejected(RejectReason::NotFound) && post == pre
    }
}

/// What an update carrying the new record `order` must do: either both the
/// removal of the record with id `order.prev_id` and the insertion of
/// `order` happen, or — when the new record is invalid or the referenced
/// one absent — nothing does.
pub open spec fn update_post(pre: Book, post: Book, side: Side, order: OrderData, r: Events) -> bool {
    if order.is_filled() {
        r == Events::Rejected(RejectReason::InvalidQuantity) && post == pre
    } else if seq_has_id(pre.side_seq(side), order.prev_id) {
        (r == Events::Updated(order.prev_id, order)) && (exists|i: int, j: int|
            0 <= i < pre.side_seq(side).len() && pre.side_seq(side)[i].id == order.prev_id && 0 <= j
                <= pre.side_seq(side).len() - 1 && post.side_seq(side) == #[trigger] pre.side_seq(
                side,
            ).remove(i).insert(j, order)) && post.side_seq(
            side.spec_opposite(),
        ) == pre.side_seq(side.spec_opposite())
    } else {
        r == Events::Rejected(RejectReason::NotFound) && post == pre
    }
}

/// The engine: the sole owner and sole mutator of one order book.
pub struct MatchingEngine {
    pub book: Book,
}

impl MatchingEngine {
    /// The engine is well formed while its book is.
    pub open spec fn wf(self) -> bool {
        self.book.wf()
    }

    /// Builds an engine around an explicitly constructed book; the engine
    /// owns it from here on.
    pub fn new(book: Book) -> (r: MatchingEngine)
        requires
            book.wf(),
        ensures
            r.wf(),
            r.book == book,
    {
        MatchingEngine { book }
    }

    /// Decides the crossing rule: whether the incoming `rec` on `side` can
    /// trade against the resting `counter`.
    pub fn is_match(side: Side, rec: &OrderData, counter: &OrderData) -> (r: bool)
        ensures
            r == crosses(side, *rec, *counter),
    {
        match rec.order_type {
            OrderType::MARKET => true,
            OrderType::LIMIT => match side {
                Side::Buy => counter.price_level.le(&rec.price_level),
                Side::Sell => rec.price_level.le(&counter.price_level),
            },
        }
    }

    /// One trade between the incoming taker and a resting counter-order.
    ///
    /// The trade size is exactly the smaller of the two open quantities,
    /// both parties' fill states grow by exactly that size, neither party's
    /// total size changes, and at least one party ends completely filled.
    pub fn execute_trade(rec: &mut OrderData, counter: &mut OrderData) -> (t: u64)
        requires
            old(rec).wf(),
            old(counter).wf(),
            !old(rec).is_filled(),
            !old(counter).is_filled(),
        ensures
            t == spec_trade_size(*old(rec), *old(counter)),
            t > 0,
            *final(rec) == after_trade(*old(rec), t as int),
            *final(counter) == after_trade(*old(counter), t as int),
            final(rec).filled == old(rec).filled + t,
            final(counter).filled == old(counter).filled + t,
            final(rec).qty == old(rec).qty,
            final(counter).qty == old(counter).qty,
            final(rec).wf(),
            final(counter).wf(),
            final(rec).is_filled() || final(counter).is_filled(),
    {
        let rec_open = rec.qty - rec.filled;
        let counter_open = counter.qty - counter.filled;
        let t = if rec_open < counter_open {
            rec_open
        } else {
            counter_open
        };
        rec.filled = rec.filled + t;
        counter.filled = counter.filled + t;
        t
    }

    /// Processes a new taker order: walks the opposing side in price-time
    /// order, trading while the crossing rule holds, then rests a limit
    /// remainder or discards a market one.
    fn process_new(&mut self, side: Side, data: OrderData) -> (r: Events)
        requires
            old(self).wf(),
            data.wf(),
            !old(self).book.spec_contains_id(data.id),
        ensures
            final(self).wf(),
            new_order_post(old(self).book, final(self).book, side, data, r),
    {
        if data.filled == data.qty {
            return Events::Rejected(RejectReason::InvalidQuantity);
        }
        let ghost pre = self.book;
        let opp_side = side.opposite();
        let ghost m = match_spec(side, pre.side_seq(side.spec_opposite()), data);
        let mut rec = data;
        let mut fills: Vec<OrderData> = Vec::new();
        let mut all_full = true;
        loop
            invariant_except_break
                self.wf(),
                opp_side == side.spec_opposite(),
                self.book.side_seq(side) == pre.side_seq(side),
                rec.wf(),
                rec.id == data.id,
                rec.qty == data.qty,
                rec.price_level == data.price_level,
                rec.order_type == data.order_type,
                !self.book.spec_contains_id(data.id),
                all_full == all_filled(fills@),
                fills@.len() == 0 ==> self.book == pre && rec == data,
                ({
                    let ms = match_spec(side, self.book.side_seq(side.spec_opposite()), rec);
                    m.0 == ms.0 && m.1 == fills@ + ms.1 && m.2 == ms.2
                }),
            ensures
                self.wf(),
                opp_side == side.spec_opposite(),
                self.book.side_seq(side) == pre.side_seq(side),
                rec.wf(),
                rec.id == data.id,
                rec.qty == data.qty,
                rec.price_level == data.price_level,
                rec.order_type == data.order_type,
                !self.book.spec_contains_id(data.id),
                all_full == all_filled(fills@),
                fills@.len() == 0 ==> self.book == pre && rec == data,
                m.0 == self.book.side_seq(side.spec_opposite()),
                m.1 == fills@,
                m.2 == rec,
            decreases self.book.side_seq(side.spec_opposite()).len(), rec.qty - rec.filled,
        {
            if rec.filled == rec.qty {
                proof {
                    lemma_match_base(side, self.book.side_seq(side.spec_opposite()), rec, fills@, m);
                }
                break;
            }
            let best = self.book.best(opp_side);
            match best {
                None => {
                    proof {
                        lemma_match_base(
                            side,
                            self.book.side_seq(side.spec_opposite()),
                            rec,
                            fills@,
                            m,
                        );
                    }
                    break;
                },
                Some(counter_best) => {
                    if !Self::is_match(side, &rec, &counter_best) {
                        proof {
                            lemma_match_base(
                                side,
                                self.book.side_seq(side.spec_opposite()),
                                rec,
                                fills@,
                                m,
                            );
                        }
                        break;
                    }
                    let ghost opp_prev = self.book.side_seq(side.spec_opposite());
                    let ghost rec_prev = rec;
                    let ghost fills_prev = fills@;
                    let mut counter = counter_best;
                    let t = Self::execute_trade(&mut rec, &mut counter);
                    fills.push(counter);
                    proof {
                        assert(fills@ =~= fills_prev + seq![counter]);
                    }
                    if counter.filled < counter.qty {
                        all_full = false;
                        self.book.set_front(opp_side, counter);
                        proof {
                            let opp_now = self.book.side_seq(side.spec_opposite());
                            assert(opp_now == opp_prev.update(0, counter));
                            let ms_prev = match_spec(side, opp_prev, rec_prev);
                            assert(ms_prev == (
                                opp_prev.update(0, counter),
                                seq![counter],
                                rec,
                            ));
                            let ms_now = match_spec(side, opp_now, rec);
                            assert(rec.is_filled());
                            assert(ms_now == (opp_now, Seq::<OrderData>::empty(), rec));
                            assert(fills_prev + seq![counter] + Seq::<OrderData>::empty()
                                =~= fills_prev + seq![counter]);
                            assert(m.1 == fills_prev + (seq![counter]
                                + Seq::<OrderData>::empty()));
                            assert(fills_prev + (seq![counter] + Seq::<OrderData>::empty())
                                =~= fills@ + Seq::<OrderData>::empty());
                            assert(!all_filled(fills@)) by {
                                assert(fills@[fills@.len() - 1] == counter);
                                assert(!counter.is_filled());
                            }
                        }
                    } else {
                        let removed = self.book.remove_front(opp_side);
                        proof {
                            assert(removed == opp_prev[0]);
                            let opp_now = self.book.side_seq(side.spec_opposite());
                            assert(opp_now == opp_prev.drop_first());
                            let ms_prev = match_spec(side, opp_prev, rec_prev);
                            let ms_now = match_spec(side, opp_now, rec);
                            assert(ms_prev == (ms_now.0, seq![counter] + ms_now.1, ms_now.2));
                            assert(m.1 == fills_prev + (seq![counter] + ms_now.1));
                            assert(fills_prev + (seq![counter] + ms_now.1) =~= fills@
                                + ms_now.1);
                            assert(all_full == all_filled(fills@)) by {
                                if all_filled(fills_prev) {
                                    assert forall|k: int|
                                        0 <= k < fills@.len() implies (#[trigger] fills@[k]).is_filled() by {
                                        if k < fills_prev.len() {
                                            assert(fills@[k] == fills_prev[k]);
                                        } else {
                                            assert(fills@[k] == counter);
                                        }
                                    }
                                } else {
                                    let k = choose|k: int|
                                        0 <= k < fills_prev.len() && !(#[trigger] fills_prev[k]).is_filled();
                                    assert(fills@[k] == fills_prev[k]);
                                    assert(!(#[trigger] fills@[k]).is_filled());
                                }
                            }
                        }
                    }
                },
            }
        }
        if fills.len() == 0 {
            proof {
                assert(m.2 == data && m.0 == pre.side_seq(side.spec_opposite()));
            }
            match data.order_type {
                OrderType::MARKET => Events::Rejected(RejectReason::NoLiquidity),
                OrderType::LIMIT => {
                    self.book.add_order(side, data);
                    Events::Accepted(data)
                },
            }
        } else if rec.filled == rec.qty && all_full {
            Events::Filled(rec, fills)
        } else {
            if matches!(data.order_type, OrderType::LIMIT) && rec.filled < rec.qty {
                self.book.add_order(side, rec);
            }
            Events::PartiallyFilled(rec, fills)
        }
    }

    /// The engine's sole entry point: processes one intent to completion —
    /// matching for a new order, removal for a cancel, replace for an update
    /// — and answers it with exactly one event. A failing intent is answered
    /// with a rejection and leaves the book exactly as it was.
    pub fn match_order(&mut self, incoming: &Order) -> (r: Events)
        requires
            old(self).wf(),
            (match *incoming {
                Order::Buy(data) => data.wf() && !old(self).book.spec_contains_id(data.id),
                Order::Sell(data) => data.wf() && !old(self).book.spec_contains_id(data.id),
                Order::Cancel { .. } => true,
                Order::Update { order, .. } => order.wf() && !old(self).book.spec_contains_id(
                    order.id,
                ),
            }),
        ensures
            final(self).wf(),
            (match *incoming {
                Order::Buy(data) => new_order_post(
                    old(self).book,
                    final(self).book,
                    Side::Buy,
                    data,
                    r,
                ),
                Order::Sell(data) => new_order_post(
                    old(self).book,
                    final(self).book,
                    Side::Sell,
                    data,
                    r,
                ),
                Order::Cancel { side, prev_id } => cancel_post(
                    old(self).book,
                    final(self).book,
                    side,
                    prev_id,
                    r,
                ),
                Order::Update { side, order } => update_post(
                    old(self).book,
                    final(self).book,
                    side,
                    order,
                    r,
                ),
            }),
    {
        match incoming {
            Order::Buy(data) => self.process_new(Side::Buy, *data),
            Order::Sell(data) => self.process_new(Side::Sell, *data),
            Order::Cancel { side, prev_id } => {
                match self.book.cancel_order(*side, *prev_id) {
                    Some(rec) => Events::Cancelled(rec),
                    None => Events::Rejected(RejectReason::NotFound),
                }
            },
            Order::Update { side, order } => {
                if order.filled >= order.qty {
                    Events::Rejected(RejectReason::InvalidQuantity)
                } else {
                    match self.book.update_order(*side, *order) {
                        Some(_) => Events::Updated(order.prev_id, *order),
                        None => Events::Rejected(RejectReason::NotFound),
                    }
                }
            },
        }
    }
}

/// In the base case of the matching walk — taker filled, side exhausted, or
/// no crossing — the walk returns its arguments unchanged, so a partial
/// result that has consumed `fills` is the whole result.
proof fn lemma_match_base(
    side: Side,
    opp: Seq<OrderData>,
    rec: OrderData,
    fills: Seq<OrderData>,
    m: (Seq<OrderData>, Seq<OrderData>, OrderData),
)
    requires
        rec.is_filled() || opp.len() == 0 || !crosses(side, rec, opp[0]),
        m.0 == match_spec(side, opp, rec).0,
        m.1 == fills + match_spec(side, opp, rec).1,
        m.2 == match_spec(side, opp, rec).2,
    ensures
        m.0 == opp,
        m.1 == fills,
        m.2 == rec,
{
    assert(match_spec(side, opp, rec) == (opp, Seq::<OrderData>::empty(), rec));
    assert(fills + Seq::<OrderData>::empty() =~= fills);
}

} // verus!
