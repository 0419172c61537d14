//! The book: two price-time-ordered sides of resting orders.
//!
//! Each side is a vector sorted best-price-first — bids by price descending,
//! asks by price ascending — and, at an equal price, by ascending id, so the
//! earliest-submitted order has the highest time priority. A record rests
//! only while `filled < qty`, an id appears at most once over both sides,
//! and a fully traded record is removed at once, so no empty or exhausted
//! entry lingers as matchable.

use vstd::prelude::*;
use vstd::pervasive::VecAdditionalExecFns;
use crate::order::{OrderData, Side};
use crate::price_level::PriceLevel;

verus! {

/// Whether price `a` is strictly better than `b` from the maker's point of
/// view on `side`: a higher bid, or a lower ask.
pub open spec fn price_better(side: Side, a: PriceLevel, b: PriceLevel) -> bool {
    match side {
        Side::Buy => b.spec_lt(a),
        Side::Sell => a.spec_lt(b),
    }
}

/// Price-time priority between two resting records of one side: a strictly
/// better price wins, and at an equal price the smaller (earlier) id wins.
pub open spec fn rec_before(side: Side, a: OrderData, b: OrderData) -> bool {
    price_better(side, a.price_level, b.price_level)
        || (a.price_level == b.price_level && a.id < b.id)
}

/// One side is sorted when every earlier record has priority over every
/// later one.
pub open spec fn side_sorted(side: Side, s: Seq<OrderData>) -> bool {
    forall|i: int, j: int| 0 <= i < j < s.len() ==> rec_before(side, s[i], s[j])
}

/// Every record of one side is well formed and still has open quantity.
pub open spec fn side_recs_wf(s: Seq<OrderData>) -> bool {
    forall|i: int| 0 <= i < s.len() ==> ((#[trigger] s[i]).wf() && s[i].filled < s[i].qty)
}

/// No id occurs twice within one side.
pub open spec fn ids_distinct(s: Seq<OrderData>) -> bool {
    forall|i: int, j: int| 0 <= i < j < s.len() ==> (#[trigger] s[i]).id != (#[trigger] s[j]).id
}

/// No id occurs on both of two sides.
pub open spec fn ids_disjoint(s1: Seq<OrderData>, s2: Seq<OrderData>) -> bool {
    forall|i: int, j: int|
        0 <= i < s1.len() && 0 <= j < s2.len() ==> (#[trigger] s1[i]).id != (#[trigger] s2[j]).id
}

/// Whether some record of `s` carries the id `id`.
pub open spec fn seq_has_id(s: Seq<OrderData>, id: u64) -> bool {
    exists|i: int| 0 <= i < s.len() && (#[trigger] s[i]).id == id
}

/// Whether a counter-order priced at `counter_price` is at least as good as
/// `limit` for a taker on `taker` side: an ask at or under a buy's limit, a
/// bid at or over a sell's limit.
pub open spec fn price_crosses(taker: Side, limit: PriceLevel, counter_price: PriceLevel) -> bool {
    match taker {
        Side::Buy => counter_price.spec_le(limit),
        Side::Sell => limit.spec_le(counter_price),
    }
}

/// Price-time priority is transitive.
pub proof fn lemma_rec_before_trans(side: Side, a: OrderData, b: OrderData, c: OrderData)
    requires
        rec_before(side, a, b),
        rec_before(side, b, c),
    ensures
        rec_before(side, a, c),
{
}

/// Two records with distinct ids are always ordered one way or the other:
/// price-time priority is total over a side's records.
pub proof fn lemma_rec_before_total(side: Side, a: OrderData, b: OrderData)
    requires
        a.id != b.id,
    ensures
        rec_before(side, a, b) || rec_before(side, b, a),
{
}

/// Inserting a record adds exactly its id to the ids a side holds.
pub proof fn lemma_insert_has_id(s: Seq<OrderData>, i: int, r: OrderData, id: u64)
    requires
        0 <= i <= s.len(),
    ensures
        seq_has_id(s.insert(i, r), id) <==> (seq_has_id(s, id) || r.id == id),
{
    s.insert_ensures(i, r);
    let t = s.insert(i, r);
    if seq_has_id(s, id) {
        let k = choose|k: int| 0 <= k < s.len() && s[k].id == id;
        if k < i {
            assert(t[k].id == id);
        } else {
            assert(t[k + 1].id == id);
        }
    }
    if r.id == id {
        assert(t[i].id == id);
    }
    if seq_has_id(t, id) && !(r.id == id) {
        let k = choose|k: int| 0 <= k < t.len() && t[k].id == id;
        if k < i {
            assert(s[k].id == id);
        } else {
            assert(k != i);
            assert(s[k - 1].id == id);
        }
    }
}

/// Removing the record at `i` of a duplicate-free side removes exactly its id.
pub proof fn lemma_remove_has_id(s: Seq<OrderData>, i: int, id: u64)
    requires
        0 <= i < s.len(),
        ids_distinct(s),
    ensures
        seq_has_id(s.remove(i), id) <==> (seq_has_id(s, id) && s[i].id != id),
{
    s.remove_ensures(i);
    let t = s.remove(i);
    if seq_has_id(t, id) {
        let k = choose|k: int| 0 <= k < t.len() && t[k].id == id;
        if k < i {
            assert(s[k].id == id);
        } else {
            assert(s[k + 1].id == id);
        }
    }
    if seq_has_id(s, id) && s[i].id != id {
        let k = choose|k: int| 0 <= k < s.len() && s[k].id == id;
        if k < i {
            assert(t[k].id == id);
        } else {
            assert(t[k - 1].id == id);
        }
    }
}

/// Removal keeps a side sorted, well formed and duplicate-free.
pub proof fn lemma_remove_keeps_side(side: Side, s: Seq<OrderData>, i: int)
    requires
        0 <= i < s.len(),
        side_sorted(side, s),
        side_recs_wf(s),
        ids_distinct(s),
    ensures
        side_sorted(side, s.remove(i)),
        side_recs_wf(s.remove(i)),
        ids_distinct(s.remove(i)),
{
    s.remove_ensures(i);
}

/// Removal from either side keeps the two sides' ids disjoint.
pub proof fn lemma_remove_keeps_disjoint(s: Seq<OrderData>, other: Seq<OrderData>, i: int)
    requires
        0 <= i < s.len(),
        ids_disjoint(s, other),
    ensures
        ids_disjoint(s.remove(i), other),
{
    s.remove_ensures(i);
}

/// Id-disjointness of two sides does not depend on their order.
pub proof fn lemma_disjoint_sym(s1: Seq<OrderData>, s2: Seq<OrderData>)
    requires
        ids_disjoint(s1, s2),
    ensures
        ids_disjoint(s2, s1),
{
}

/// Inserting a record whose id the other side does not hold keeps the two
/// sides' ids disjoint.
pub proof fn lemma_insert_keeps_disjoint(
    s: Seq<OrderData>,
    other: Seq<OrderData>,
    i: int,
    r: OrderData,
)
    requires
        0 <= i <= s.len(),
        ids_disjoint(s, other),
        !seq_has_id(other, r.id),
    ensures
        ids_disjoint(s.insert(i, r), other),
{
    s.insert_ensures(i, r);
    let t = s.insert(i, r);
    assert forall|a: int, b: int|
        0 <= a < t.len() && 0 <= b < other.len() implies (#[trigger] t[a]).id != (#[trigger] other[b]).id by {
        if a < i {
            assert(t[a] == s[a]);
        } else if a == i {
            assert(t[a] == r);
            if r.id == other[b].id {
                assert(seq_has_id(other, r.id));
            }
        } else {
            assert(t[a] == s[a - 1]);
        }
    }
}

/// Replacing the front record of a side by one with the same id and price —
/// a partial fill of the best resting order — keeps the side sorted, well
/// formed, duplicate-free and disjoint from the other side, and leaves the
/// set of resting ids as it was.
pub proof fn lemma_update_front(
    side: Side,
    s: Seq<OrderData>,
    c: OrderData,
    other: Seq<OrderData>,
)
    requires
        s.len() > 0,
        c.id == s[0].id,
        c.price_level == s[0].price_level,
        c.wf(),
        c.filled < c.qty,
        side_sorted(side, s),
        side_recs_wf(s),
        ids_distinct(s),
        ids_disjoint(s, other),
    ensures
        side_sorted(side, s.update(0, c)),
        side_recs_wf(s.update(0, c)),
        ids_distinct(s.update(0, c)),
        ids_disjoint(s.update(0, c), other),
        forall|id2: u64| seq_has_id(s.update(0, c), id2) <==> seq_has_id(s, id2),
{
    let t = s.update(0, c);
    assert forall|a: int, b: int| 0 <= a < b < t.len() implies rec_before(side, t[a], t[b]) by {
        assert(rec_before(side, s[a], s[b]));
    }
    assert forall|id2: u64| seq_has_id(t, id2) <==> seq_has_id(s, id2) by {
        if seq_has_id(t, id2) {
            let k = choose|k: int| 0 <= k < t.len() && (#[trigger] t[k]).id == id2;
            assert(s[k].id == id2);
        }
        if seq_has_id(s, id2) {
            let k = choose|k: int| 0 <= k < s.len() && (#[trigger] s[k]).id == id2;
            assert(t[k].id == id2);
        }
    }
}

/// Decides price-time priority between two records of one side.
pub fn is_before(side: Side, a: &OrderData, b: &OrderData) -> (r: bool)
    ensures
        r == rec_before(side, *a, *b),
{
    let price_wins = match side {
        Side::Buy => b.price_level.lt(&a.price_level),
        Side::Sell => a.price_level.lt(&b.price_level),
    };
    price_wins || (a.price_level == b.price_level && a.id < b.id)
}

/// Inserts `order` into one sorted side at its price-time position: behind
/// every resting record with a better price or an equal price and an earlier
/// id, ahead of all the rest.
fn insert_sorted(side: Side, v: &mut Vec<OrderData>, order: OrderData)
    requires
        side_sorted(side, old(v)@),
        side_recs_wf(old(v)@),
        ids_distinct(old(v)@),
        !seq_has_id(old(v)@, order.id),
        order.wf(),
        order.filled < order.qty,
    ensures
        exists|i: int| 0 <= i <= old(v)@.len() && final(v)@ == old(v)@.insert(i, order),
        side_sorted(side, final(v)@),
        side_recs_wf(final(v)@),
        ids_distinct(final(v)@),
{
    let ghost s = old(v)@;
    let mut i: usize = 0;
    loop
        invariant_except_break
            i <= v.len(),
            v@ == s,
            forall|k: int| 0 <= k < i ==> rec_before(side, s[k], order),
        ensures
            i <= v.len(),
            v@ == s,
            forall|k: int| 0 <= k < i ==> rec_before(side, s[k], order),
            i == v.len() || !rec_before(side, s[i as int], order),
        decreases v.len() - i,
    {
        if i == v.len() {
            break;
        }
        if !is_before(side, &v[i], &order) {
            break;
        }
        i = i + 1;
    }
    let ghost ii = i as int;
    proof {
        assert forall|k: int| ii <= k < s.len() implies rec_before(side, order, s[k]) by {
            if s[ii].id == order.id {
                assert(seq_has_id(s, order.id));
            }
            lemma_rec_before_total(side, order, s[ii]);
            if k > ii {
                lemma_rec_before_trans(side, order, s[ii], s[k]);
            }
        }
    }
    v.insert(i, order);
    proof {
        s.insert_ensures(ii, order);
        let t = v@;
        assert(t == s.insert(ii, order));
        assert forall|a: int, b: int| 0 <= a < b < t.len() implies rec_before(side, t[a], t[b]) by {
            if b < ii {
            } else if b == ii {
                assert(t[a] == s[a] && t[b] == order);
            } else if a == ii {
                assert(t[a] == order && t[b] == s[b - 1]);
            } else if a < ii {
                assert(t[a] == s[a] && t[b] == s[b - 1]);
            } else {
                assert(t[a] == s[a - 1] && t[b] == s[b - 1]);
            }
        }
        assert forall|a: int, b: int| 0 <= a < b < t.len() implies t[a].id != t[b].id by {
            if b == ii {
                if s[a].id == order.id {
                    assert(seq_has_id(s, order.id));
                }
            } else if a == ii {
                if s[b - 1].id == order.id {
                    assert(seq_has_id(s, order.id));
                }
            }
        }
        assert forall|a: int| 0 <= a < t.len() implies (#[trigger] t[a]).wf() && t[a].filled
            < t[a].qty by {
            if a < ii {
                assert(t[a] == s[a]);
            } else if a > ii {
                assert(t[a] == s[a - 1]);
            }
        }
        assert(0 <= ii <= s.len() && t == s.insert(ii, order));
    }
}

/// Finds the position of the record carrying `id`, if one rests in `v`.
fn find_by_id(v: &Vec<OrderData>, id: u64) -> (r: Option<usize>)
    ensures
        match r {
            Some(i) => i < v@.len() && v@[i as int].id == id,
            None => !seq_has_id(v@, id),
        },
        (r is Some) <==> seq_has_id(v@, id),
{
    let mut i: usize = 0;
    loop
        invariant_except_break
            i <= v.len(),
            forall|k: int| 0 <= k < i ==> (#[trigger] v@[k]).id != id,
        ensures
            i <= v.len(),
            forall|k: int| 0 <= k < i ==> (#[trigger] v@[k]).id != id,
            i < v.len() ==> v@[i as int].id == id,
        decreases v.len() - i,
    {
        if i == v.len() {
            break;
        }
        if v[i].id == id {
            break;
        }
        i = i + 1;
    }
    if i < v.len() {
        proof {
            assert(seq_has_id(v@, id));
        }
        Some(i)
    } else {
        None
    }
}

/// The order book: the bid side and the ask side, each in price-time order.
#[derive(Debug, Clone, PartialEq)]
pub struct Book {
    pub bids: Vec<OrderData>,
    pub asks: Vec<OrderData>,
}

impl Book {
    /// The records resting on one side, best first.
    pub open spec fn side_seq(self, side: Side) -> Seq<OrderData> {
        match side {
            Side::Buy => self.bids@,
            Side::Sell => self.asks@,
        }
    }

    /// The book's invariant: both sides in strict price-time order, every
    /// resting record well formed with open quantity, and every id resting
    /// at most once over both sides.
    pub open spec fn wf(self) -> bool {
        &&& side_sorted(Side::Buy, self.bids@)
        &&& side_sorted(Side::Sell, self.asks@)
        &&& side_recs_wf(self.bids@)
        &&& side_recs_wf(self.asks@)
        &&& ids_distinct(self.bids@)
        &&& ids_distinct(self.asks@)
        &&& ids_disjoint(self.bids@, self.asks@)
    }

    /// Whether some record on either side carries `id`.
    pub open spec fn spec_contains_id(self, id: u64) -> bool {
        seq_has_id(self.bids@, id) || seq_has_id(self.asks@, id)
    }

    /// An empty book.
    pub fn new() -> (r: Book)
        ensures
            r.wf(),
            r.bids@.len() == 0,
            r.asks@.len() == 0,
    {
        Book { bids: Vec::new(), asks: Vec::new() }
    }

    /// Whether a record with `id` rests anywhere in the book.
    pub fn contains_id(&self, id: u64) -> (r: bool)
        ensures
            r == self.spec_contains_id(id),
    {
        if find_by_id(&self.bids, id).is_some() {
            true
        } else {
            find_by_id(&self.asks, id).is_some()
        }
    }

    /// Inserts a record into its side at its price-time position. The caller
    /// owes a record with open quantity and a fresh id; a violation is a
    /// caller error and is rejected before this point.
    pub fn add_order(&mut self, side: Side, order: OrderData)
        requires
            old(self).wf(),
            order.wf(),
            order.filled < order.qty,
            !old(self).spec_contains_id(order.id),
        ensures
            final(self).wf(),
            exists|i: int|
                0 <= i <= old(self).side_seq(side).len() && final(self).side_seq(side) == old(
                    self,
                ).side_seq(side).insert(i, order),
            final(self).side_seq(side.spec_opposite()) == old(self).side_seq(side.spec_opposite()),
            forall|id2: u64|
                final(self).spec_contains_id(id2) <==> (old(self).spec_contains_id(id2) || id2
                    == order.id),
    {
        match side {
            Side::Buy => {
                insert_sorted(Side::Buy, &mut self.bids, order);
                proof {
                    let i = choose|i: int|
                        0 <= i <= old(self).bids@.len() && self.bids@ == old(self).bids@.insert(
                            i,
                            order,
                        );
                    lemma_insert_keeps_disjoint(old(self).bids@, old(self).asks@, i, order);
                    assert(0 <= i <= old(self).side_seq(side).len() && self.side_seq(side) == old(
                        self,
                    ).side_seq(side).insert(i, order));
                    assert forall|id2: u64|
                        self.spec_contains_id(id2) <==> (old(self).spec_contains_id(id2) || id2
                            == order.id) by {
                        lemma_insert_has_id(old(self).bids@, i, order, id2);
                    }
                }
            },
            Side::Sell => {
                insert_sorted(Side::Sell, &mut self.asks, order);
                proof {
                    let i = choose|i: int|
                        0 <= i <= old(self).asks@.len() && self.asks@ == old(self).asks@.insert(
                            i,
                            order,
                        );
                    lemma_disjoint_sym(old(self).bids@, old(self).asks@);
                    lemma_insert_keeps_disjoint(old(self).asks@, old(self).bids@, i, order);
                    lemma_disjoint_sym(self.asks@, self.bids@);
                    assert(0 <= i <= old(self).side_seq(side).len() && self.side_seq(side) == old(
                        self,
                    ).side_seq(side).insert(i, order));
                    assert forall|id2: u64|
                        self.spec_contains_id(id2) <==> (old(self).spec_contains_id(id2) || id2
                            == order.id) by {
                        lemma_insert_has_id(old(self).asks@, i, order, id2);
                    }
                }
            },
        }
    }

    /// Removes and returns the record with `id` from one side. Absence is
    /// the common failure of cancel and of update's replace phase: the book
    /// is then left exactly as it was.
    pub fn cancel_order(&mut self, side: Side, id: u64) -> (r: Option<OrderData>)
        requires
            old(self).wf(),
        ensures
            final(self).wf(),
            (r is Some) <==> seq_has_id(old(self).side_seq(side), id),
            (r matches Some(rec) ==> rec.id == id && exists|i: int|
                0 <= i < old(self).side_seq(side).len() && old(self).side_seq(side)[i] == rec
                    && final(self).side_seq(side) == old(self).side_seq(side).remove(i)),
            r is Some ==> final(self).side_seq(side.spec_opposite()) == old(self).side_seq(
                side.spec_opposite(),
            ),
            r is None ==> *final(self) == *old(self),
            forall|id2: u64| final(self).spec_contains_id(id2) ==> old(self).spec_contains_id(id2),
            r is Some ==> !final(self).spec_contains_id(id),
    {
        match side {
            Side::Buy => {
                match find_by_id(&self.bids, id) {
                    Some(i) => {
                        let rec = self.bids.remove(i);
                        proof {
                            lemma_remove_keeps_side(Side::Buy, old(self).bids@, i as int);
                            lemma_remove_keeps_disjoint(old(self).bids@, old(self).asks@, i as int);
                            assert forall|id2: u64|
                                self.spec_contains_id(id2) implies old(self).spec_contains_id(
                                id2,
                            ) by {
                                lemma_remove_has_id(old(self).bids@, i as int, id2);
                            }
                            lemma_remove_has_id(old(self).bids@, i as int, id);
                            if seq_has_id(self.asks@, id) {
                                let k = choose|k: int|
                                    0 <= k < self.asks@.len() && (#[trigger] self.asks@[k]).id
                                        == id;
                                assert(old(self).bids@[i as int].id != old(self).asks@[k].id);
                            }
                            assert(0 <= (i as int) < old(self).side_seq(side).len() && old(
                                self,
                            ).side_seq(side)[i as int] == rec && self.side_seq(side) == old(
                                self,
                            ).side_seq(side).remove(i as int));
                        }
                        Some(rec)
                    },
                    None => None,
                }
            },
            Side::Sell => {
                match find_by_id(&self.asks, id) {
                    Some(i) => {
                        let rec = self.asks.remove(i);
                        proof {
                            lemma_remove_keeps_side(Side::Sell, old(self).asks@, i as int);
                            lemma_disjoint_sym(old(self).bids@, old(self).asks@);
                            lemma_remove_keeps_disjoint(old(self).asks@, old(self).bids@, i as int);
                            lemma_disjoint_sym(self.asks@, self.bids@);
                            assert forall|id2: u64|
                                self.spec_contains_id(id2) implies old(self).spec_contains_id(
                                id2,
                            ) by {
                                lemma_remove_has_id(old(self).asks@, i as int, id2);
                            }
                            lemma_remove_has_id(old(self).asks@, i as int, id);
                            if seq_has_id(self.bids@, id) {
                                let k = choose|k: int|
                                    0 <= k < self.bids@.len() && (#[trigger] self.bids@[k]).id
                                        == id;
                                assert(old(self).bids@[k].id != old(self).asks@[i as int].id);
                            }
                            assert(0 <= (i as int) < old(self).side_seq(side).len() && old(
                                self,
                            ).side_seq(side)[i as int] == rec && self.side_seq(side) == old(
                                self,
                            ).side_seq(side).remove(i as int));
                        }
                        Some(rec)
                    },
                    None => None,
                }
            },
        }
    }

    /// Replaces the record with id `order.prev_id` on `side` by `order`,
    /// which carries a fresh id, so the replacement joins the back of its
    /// new price level's time queue. Either both phases happen or, when the
    /// referenced record is absent, nothing does.
    pub fn update_order(&mut self, side: Side, order: OrderData) -> (r: Option<OrderData>)
        requires
            old(self).wf(),
            order.wf(),
            order.filled < order.qty,
            !old(self).spec_contains_id(order.id),
        ensures
            final(self).wf(),
            (r is Some) <==> seq_has_id(old(self).side_seq(side), order.prev_id),
            r is None ==> *final(self) == *old(self),
            (r matches Some(prev) ==> prev.id == order.prev_id && exists|i: int, j: int|
                0 <= i < old(self).side_seq(side).len() && old(self).side_seq(side)[i] == prev && 0
                    <= j <= old(self).side_seq(side).len() - 1 && final(self).side_seq(side) == old(
                    self,
                ).side_seq(side).remove(i).insert(j, order)),
            r is Some ==> final(self).side_seq(side.spec_opposite()) == old(self).side_seq(
                side.spec_opposite(),
            ),
    {
        let ghost pre = *old(self);
        match self.cancel_order(side, order.prev_id) {
            Some(prev) => {
                let ghost mid = *self;
                let ghost i = choose|i: int|
                    0 <= i < pre.side_seq(side).len() && pre.side_seq(side)[i] == prev
                        && mid.side_seq(side) == pre.side_seq(side).remove(i);
                self.add_order(side, order);
                proof {
                    let j = choose|j: int|
                        0 <= j <= mid.side_seq(side).len() && self.side_seq(side) == mid.side_seq(
                            side,
                        ).insert(j, order);
                    assert(0 <= i < pre.side_seq(side).len() && pre.side_seq(side)[i] == prev && 0
                        <= j <= pre.side_seq(side).len() - 1 && self.side_seq(side) == pre.side_seq(
                        side,
                    ).remove(i).insert(j, order));
                }
                Some(prev)
            },
            None => None,
        }
    }

    /// Removes the best (front) record of one side: what the engine does to
    /// a counter-order that a trade has completely filled.
    pub(crate) fn remove_front(&mut self, side: Side) -> (r: OrderData)
        requires
            old(self).wf(),
            old(self).side_seq(side).len() > 0,
        ensures
            final(self).wf(),
            r == old(self).side_seq(side)[0],
            final(self).side_seq(side) == old(self).side_seq(side).drop_first(),
            final(self).side_seq(side.spec_opposite()) == old(self).side_seq(side.spec_opposite()),
            forall|id2: u64| final(self).spec_contains_id(id2) ==> old(self).spec_contains_id(id2),
    {
        let r = match side {
            Side::Buy => self.bids.remove(0),
            Side::Sell => self.asks.remove(0),
        };
        proof {
            assert(old(self).side_seq(side).remove(0) =~= old(self).side_seq(side).drop_first());
            match side {
                Side::Buy => {
                    lemma_remove_keeps_side(Side::Buy, old(self).bids@, 0);
                    lemma_remove_keeps_disjoint(old(self).bids@, old(self).asks@, 0);
                    assert forall|id2: u64|
                        self.spec_contains_id(id2) implies old(self).spec_contains_id(id2) by {
                        lemma_remove_has_id(old(self).bids@, 0, id2);
                    }
                },
                Side::Sell => {
                    lemma_remove_keeps_side(Side::Sell, old(self).asks@, 0);
                    lemma_disjoint_sym(old(self).bids@, old(self).asks@);
                    lemma_remove_keeps_disjoint(old(self).asks@, old(self).bids@, 0);
                    lemma_disjoint_sym(self.asks@, self.bids@);
                    assert forall|id2: u64|
                        self.spec_contains_id(id2) implies old(self).spec_contains_id(id2) by {
                        lemma_remove_has_id(old(self).asks@, 0, id2);
                    }
                },
            }
        }
        r
    }

    /// Replaces the best (front) record of one side by its partially filled
    /// state: same id, same price, more of it filled, still open.
    pub(crate) fn set_front(&mut self, side: Side, c: OrderData)
        requires
            old(self).wf(),
            old(self).side_seq(side).len() > 0,
            c.id == old(self).side_seq(side)[0].id,
            c.price_level == old(self).side_seq(side)[0].price_level,
            c.wf(),
            c.filled < c.qty,
        ensures
            final(self).wf(),
            final(self).side_seq(side) == old(self).side_seq(side).update(0, c),
            final(self).side_seq(side.spec_opposite()) == old(self).side_seq(side.spec_opposite()),
            forall|id2: u64| final(self).spec_contains_id(id2) <==> old(self).spec_contains_id(id2),
    {
        match side {
            Side::Buy => self.bids.set(0, c),
            Side::Sell => self.asks.set(0, c),
        }
        proof {
            match side {
                Side::Buy => {
                    lemma_update_front(Side::Buy, old(self).bids@, c, old(self).asks@);
                },
                Side::Sell => {
                    lemma_disjoint_sym(old(self).bids@, old(self).asks@);
                    lemma_update_front(Side::Sell, old(self).asks@, c, old(self).bids@);
                    lemma_disjoint_sym(self.asks@, self.bids@);
                },
            }
        }
    }

    /// The highest-priority resting record of one side: the top of the book,
    /// handed out as a copy.
    pub fn best(&self, side: Side) -> (r: Option<OrderData>)
        ensures
            match r {
                Some(rec) => self.side_seq(side).len() > 0 && rec == self.side_seq(side)[0],
                None => self.side_seq(side).len() == 0,
            },
    {
        match side {
            Side::Buy => {
                if self.bids.len() > 0 {
                    Some(self.bids[0])
                } else {
                    None
                }
            },
            Side::Sell => {
                if self.asks.len() > 0 {
                    Some(self.asks[0])
                } else {
                    None
                }
            },
        }
    }

    /// The resting records a taker on `taker` side with limit `limit` could
    /// trade against, in price-time order: the longest prefix of the
    /// opposing side whose prices are at least as good as the limit. The
    /// walk stops at the first record that fails the crossing test.
    pub fn level_at_or_better(&self, taker: Side, limit: PriceLevel) -> (r: Vec<OrderData>)
        ensures
            r@.len() <= self.side_seq(taker.spec_opposite()).len(),
            r@ == self.side_seq(taker.spec_opposite()).subrange(0, r@.len() as int),
            forall|k: int|
                0 <= k < r@.len() ==> price_crosses(taker, limit, (#[trigger] r@[k]).price_level),
            r@.len() == self.side_seq(taker.spec_opposite()).len() || !price_crosses(
                taker,
                limit,
                self.side_seq(taker.spec_opposite())[r@.len() as int].price_level,
            ),
    {
        let opp: &Vec<OrderData> = match taker {
            Side::Buy => &self.asks,
            Side::Sell => &self.bids,
        };
        let mut r: Vec<OrderData> = Vec::new();
        let mut i: usize = 0;
        loop
            invariant_except_break
                i <= opp.len(),
                opp@ == self.side_seq(taker.spec_opposite()),
                r@.len() == i,
                r@ == opp@.subrange(0, i as int),
                forall|k: int|
                    0 <= k < i ==> price_crosses(taker, limit, (#[trigger] opp@[k]).price_level),
            ensures
                i <= opp.len(),
                opp@ == self.side_seq(taker.spec_opposite()),
                r@.len() == i,
                r@ == opp@.subrange(0, i as int),
                forall|k: int|
                    0 <= k < i ==> price_crosses(taker, limit, (#[trigger] opp@[k]).price_level),
                i == opp.len() || !price_crosses(taker, limit, opp@[i as int].price_level),
            decreases opp.len() - i,
        {
            if i == opp.len() {
                break;
            }
            let crosses_here = match taker {
                Side::Buy => opp[i].price_level.le(&limit),
                Side::Sell => limit.le(&opp[i].price_level),
            };
            if !crosses_here {
                break;
            }
            r.push(opp[i]);
            proof {
                assert(r@ =~= opp@.subrange(0, (i + 1) as int));
            }
            i = i + 1;
        }
        proof {
            assert forall|k: int|
                0 <= k < r@.len() implies price_crosses(
                taker,
                limit,
                (#[trigger] r@[k]).price_level,
            ) by {
                assert(r@[k] == opp@[k]);
            }
        }
        r
    }
}

} // verus!
