use vstd::prelude::*;

use crate::level::{LevelView, PriceLevel, level_wf};
use crate::order::{
    Order,
    after_fill,
    all_positive,
    fill_plan,
    lemma_fill,
    lemma_total_concat,
    lemma_total_push,
    lemma_total_single,
    lemma_total_take_step,
    min_of,
    total_size,
};

verus! {

/// The one way an incoming order can be refused.
#[derive(Clone, Copy, Debug, PartialEq, Eq, Structural)]
pub enum AddOrderErrors {
    /// A crossing ask for more than the bids at qualifying prices hold.
    InsufficientMatch,
}

/// What a book holds: both sides best level first, the cached best prices
/// and the trade log.
pub struct BookView {
    pub bids: Seq<LevelView>,
    pub asks: Seq<LevelView>,
    pub highest_bid: u16,
    pub lowest_ask: u16,
    pub trade_log: Seq<Order>,
}

pub open spec fn levels_view(levels: Seq<PriceLevel>) -> Seq<LevelView> {
    levels.map_values(|l: PriceLevel| l@)
}

/// Price of the best level of a side, or 0 when the side is empty.
pub open spec fn front_price(levels: Seq<LevelView>) -> u16 {
    if levels.len() == 0 {
        0
    } else {
        levels[0].price
    }
}

/// Price `a` ranks ahead of price `b` on the side: higher for bids, lower for
/// asks.
pub open spec fn better(a: u16, b: u16, bid_side: bool) -> bool {
    if bid_side {
        a > b
    } else {
        a < b
    }
}

/// The levels of a side are in strict price priority, one per price.
pub open spec fn side_sorted(levels: Seq<LevelView>, bid_side: bool) -> bool {
    forall|i: int, j: int|
        0 <= i < j < levels.len() ==> better(#[trigger] levels[i].price, #[trigger] levels[j].price, bid_side)
}

/// A level as it may rest in a book: consistent, non-empty, with positive
/// volume and no order of size 0.
pub open spec fn resting_level(l: LevelView) -> bool {
    &&& level_wf(l)
    &&& l.orders.len() > 0
    &&& l.volume > 0
    &&& all_positive(l.orders)
}

/// A well-formed side: sorted, and every level fit to rest.
pub open spec fn side_wf(levels: Seq<LevelView>, bid_side: bool) -> bool {
    &&& side_sorted(levels, bid_side)
    &&& forall|i: int| 0 <= i < levels.len() ==> resting_level(#[trigger] levels[i])
}

/// A well-formed book: both sides well-formed, and each cached best price is
/// the price of its side's front level, or 0 for an empty side.
pub open spec fn book_wf(b: BookView) -> bool {
    &&& side_wf(b.bids, true)
    &&& side_wf(b.asks, false)
    &&& b.highest_bid == front_price(b.bids)
    &&& b.lowest_ask == front_price(b.asks)
}

/// A new level holding `o` alone.
pub open spec fn single_level(o: Order) -> LevelView {
    LevelView { price: o.price, volume: o.size as u64, orders: seq![o] }
}

/// The level `l` with `o` queued at its back.
pub open spec fn append_order(l: LevelView, o: Order) -> LevelView {
    LevelView { price: l.price, volume: (l.volume + o.size) as u64, orders: l.orders.push(o) }
}

/// The side `levels` once the non-crossing order `o` rests on it: queued at
/// the back of the level at its price, or in a new level at its place in
/// price priority.
pub open spec fn insert_order(levels: Seq<LevelView>, o: Order, bid_side: bool) -> Seq<LevelView>
    decreases levels.len(),
{
    if levels.len() == 0 {
        seq![single_level(o)]
    } else if levels[0].price == o.price {
        seq![append_order(levels[0], o)] + levels.skip(1)
    } else if better(o.price, levels[0].price, bid_side) {
        seq![single_level(o)] + levels
    } else {
        seq![levels[0]] + insert_order(levels.skip(1), o, bid_side)
    }
}

/// The level at the price of `o`, if there is one, can take `o` without its
/// volume overflowing.
pub open spec fn room_for(levels: Seq<LevelView>, o: Order) -> bool {
    forall|i: int|
        0 <= i < levels.len() && #[trigger] levels[i].price == o.price ==> levels[i].volume + o.size
            <= u64::MAX
}

/// Number of levels that rank ahead of price `p`, counted from the front.
pub open spec fn insert_pos(levels: Seq<LevelView>, p: u16, bid_side: bool) -> int
    decreases levels.len(),
{
    if levels.len() == 0 || !better(levels[0].price, p, bid_side) {
        0
    } else {
        1 + insert_pos(levels.skip(1), p, bid_side)
    }
}

proof fn lemma_insert_pos(levels: Seq<LevelView>, p: u16, bid_side: bool)
    ensures
        0 <= insert_pos(levels, p, bid_side) <= levels.len(),
        forall|j: int|
            0 <= j < insert_pos(levels, p, bid_side) ==> better(
                #[trigger] levels[j].price,
                p,
                bid_side,
            ),
        insert_pos(levels, p, bid_side) < levels.len() ==> !better(
            levels[insert_pos(levels, p, bid_side)].price,
            p,
            bid_side,
        ),
    decreases levels.len(),
{
    if levels.len() > 0 && better(levels[0].price, p, bid_side) {
        let t = levels.skip(1);
        lemma_insert_pos(t, p, bid_side);
        assert forall|j: int| 0 <= j < insert_pos(levels, p, bid_side) implies better(
            #[trigger] levels[j].price,
            p,
            bid_side,
        ) by {
            if j > 0 {
                assert(levels[j] == t[j - 1]);
            }
        }
    }
}

/// Where the levels before position `i` rank ahead of `o` and the one at `i`
/// does not, `insert_order` appends to the level at `i` or puts a new level
/// there.
proof fn lemma_insert_at(levels: Seq<LevelView>, o: Order, bid_side: bool, i: int)
    requires
        0 <= i <= levels.len(),
        forall|j: int| 0 <= j < i ==> better(#[trigger] levels[j].price, o.price, bid_side),
        i < levels.len() ==> !better(levels[i].price, o.price, bid_side),
    ensures
        i < levels.len() && levels[i].price == o.price ==> insert_order(levels, o, bid_side)
            == levels.update(i, append_order(levels[i], o)),
        !(i < levels.len() && levels[i].price == o.price) ==> insert_order(levels, o, bid_side)
            == levels.insert(i, single_level(o)),
    decreases i,
{
    if i == 0 {
        if levels.len() == 0 {
            assert(levels.insert(0, single_level(o)) =~= seq![single_level(o)]);
        } else if levels[0].price == o.price {
            assert(levels.update(0, append_order(levels[0], o)) =~= seq![append_order(levels[0], o)]
                + levels.skip(1));
        } else {
            assert(levels.insert(0, single_level(o)) =~= seq![single_level(o)] + levels);
        }
    } else {
        let t = levels.skip(1);
        assert forall|j: int| 0 <= j < i - 1 implies better(#[trigger] t[j].price, o.price, bid_side) by {
            assert(t[j] == levels[j + 1]);
        }
        lemma_insert_at(t, o, bid_side, i - 1);
        assert(better(levels[0].price, o.price, bid_side));
        if i < levels.len() && levels[i].price == o.price {
            assert(seq![levels[0]] + t.update(i - 1, append_order(levels[i], o)) =~= levels.update(
                i,
                append_order(levels[i], o),
            ));
        } else {
            assert(seq![levels[0]] + t.insert(i - 1, single_level(o)) =~= levels.insert(
                i,
                single_level(o),
            ));
        }
    }
}

proof fn lemma_append_order_wf(l: LevelView, o: Order)
    requires
        resting_level(l),
        o.price == l.price,
        o.size > 0,
        l.volume + o.size <= u64::MAX,
    ensures
        resting_level(append_order(l, o)),
{
    let q = l.orders.push(o);
    assert forall|k: int| 0 <= k < q.len() implies #[trigger] q[k].size > 0 by {
        if k < q.len() - 1 {
            assert(q[k] == l.orders[k]);
        }
    }
    lemma_total_push(l.orders, o);
    let s = l.orders.push(o);
    assert forall|k: int| 0 <= k < s.len() implies #[trigger] s[k].price == l.price by {
        if k < s.len() - 1 {
            assert(s[k] == l.orders[k]);
        }
    }
}

/// Resting a non-crossing order keeps a side in strict price priority, one
/// level per price, whatever the order's price and size.
pub proof fn lemma_insert_keeps_side_sorted(levels: Seq<LevelView>, o: Order, bid_side: bool)
    requires
        side_sorted(levels, bid_side),
    ensures
        side_sorted(insert_order(levels, o, bid_side), bid_side),
{
    lemma_insert_pos(levels, o.price, bid_side);
    let i = insert_pos(levels, o.price, bid_side);
    lemma_insert_at(levels, o, bid_side, i);
    let r = insert_order(levels, o, bid_side);
    if i < levels.len() && levels[i].price == o.price {
        assert forall|a: int, b: int| 0 <= a < b < r.len() implies better(
            #[trigger] r[a].price,
            #[trigger] r[b].price,
            bid_side,
        ) by {
            assert(r[a].price == levels[a].price);
            assert(r[b].price == levels[b].price);
        }
    } else {
        assert forall|a: int, b: int| 0 <= a < b < r.len() implies better(
            #[trigger] r[a].price,
            #[trigger] r[b].price,
            bid_side,
        ) by {
            if b < i {
                assert(r[a] == levels[a] && r[b] == levels[b]);
            } else if b == i {
                assert(r[a] == levels[a]);
            } else if a == i {
                assert(r[b] == levels[b - 1]);
                if i < levels.len() {
                    assert(better(o.price, levels[i].price, bid_side));
                    if b - 1 > i {
                        assert(better(levels[i].price, levels[b - 1].price, bid_side));
                    }
                }
            } else if a < i {
                assert(r[a] == levels[a] && r[b] == levels[b - 1]);
            } else {
                assert(r[a] == levels[a - 1] && r[b] == levels[b - 1]);
            }
        }
    }
}

/// Resting a non-crossing order keeps a side well-formed: sorted, and each
/// level's cached volume equal to the total of its orders, which all carry
/// the level's price, with no level empty and no order of size 0. The order
/// has a positive size, and the level that takes it has room for that size
/// in its volume.
pub proof fn lemma_insert_keeps_side_wf(levels: Seq<LevelView>, o: Order, bid_side: bool)
    requires
        side_wf(levels, bid_side),
        room_for(levels, o),
        o.size > 0,
    ensures
        side_wf(insert_order(levels, o, bid_side), bid_side),
{
    lemma_insert_keeps_side_sorted(levels, o, bid_side);
    lemma_insert_pos(levels, o.price, bid_side);
    let i = insert_pos(levels, o.price, bid_side);
    lemma_insert_at(levels, o, bid_side, i);
    let r = insert_order(levels, o, bid_side);
    if i < levels.len() && levels[i].price == o.price {
        lemma_append_order_wf(levels[i], o);
        assert forall|k: int| 0 <= k < r.len() implies resting_level(#[trigger] r[k]) by {
            if k != i {
                assert(r[k] == levels[k]);
            }
        }
    } else {
        lemma_total_single(o);
        assert(resting_level(single_level(o)));
        assert forall|k: int| 0 <= k < r.len() implies resting_level(#[trigger] r[k]) by {
            if k < i {
                assert(r[k] == levels[k]);
            } else if k > i {
                assert(r[k] == levels[k - 1]);
            }
        }
    }
}

/// Volume resting at prices at which a bid may trade with an ask limited at
/// `p`: the levels from the front whose price is at least `p`.
pub open spec fn qualifying_volume(levels: Seq<LevelView>, p: u16) -> int
    decreases levels.len(),
{
    if levels.len() == 0 || levels[0].price < p {
        0
    } else {
        levels[0].volume + qualifying_volume(levels.skip(1), p)
    }
}

/// The records that filling `amount` from the side `levels` produces, level
/// by level from the front, each level in arrival order.
pub open spec fn match_records(levels: Seq<LevelView>, amount: int) -> Seq<Order>
    decreases levels.len(),
{
    if amount <= 0 || levels.len() == 0 {
        Seq::empty()
    } else {
        fill_plan(levels[0].orders, amount) + match_records(
            levels.skip(1),
            amount - min_of(amount, levels[0].volume as int),
        )
    }
}

/// The side `levels` once `amount` has been filled from it: drained levels
/// leave from the front, and the last level touched keeps what was not taken.
pub open spec fn match_levels(levels: Seq<LevelView>, amount: int) -> Seq<LevelView>
    decreases levels.len(),
{
    if amount <= 0 || levels.len() == 0 {
        levels
    } else if levels[0].volume <= amount {
        match_levels(levels.skip(1), amount - levels[0].volume)
    } else {
        seq![
            LevelView {
                price: levels[0].price,
                volume: (levels[0].volume - amount) as u64,
                orders: after_fill(levels[0].orders, amount),
            },
        ] + levels.skip(1)
    }
}

proof fn lemma_qualifying_volume_nonneg(levels: Seq<LevelView>, p: u16)
    ensures
        qualifying_volume(levels, p) >= 0,
    decreases levels.len(),
{
    if levels.len() > 0 {
        lemma_qualifying_volume_nonneg(levels.skip(1), p);
    }
}

/// Total volume resting on a side.
pub open spec fn side_volume(levels: Seq<LevelView>) -> int
    decreases levels.len(),
{
    if levels.len() == 0 {
        0
    } else {
        levels[0].volume + side_volume(levels.skip(1))
    }
}

/// An ask crosses when there are bids and its limit is at or below the best
/// bid.
pub open spec fn crosses_bids(b: BookView, o: Order) -> bool {
    b.bids.len() > 0 && o.price <= b.highest_bid
}

proof fn lemma_side_wf_tail(levels: Seq<LevelView>, bid_side: bool)
    requires
        side_wf(levels, bid_side),
        levels.len() > 0,
    ensures
        side_wf(levels.skip(1), bid_side),
{
    let t = levels.skip(1);
    assert forall|k: int| 0 <= k < t.len() implies resting_level(#[trigger] t[k]) by {
        assert(t[k] == levels[k + 1]);
    }
    assert forall|a: int, b: int| 0 <= a < b < t.len() implies better(
        #[trigger] t[a].price,
        #[trigger] t[b].price,
        bid_side,
    ) by {
        assert(t[a] == levels[a + 1] && t[b] == levels[b + 1]);
    }
}

/// A crossing fill that qualifying liquidity covers takes exactly `amount`
/// of volume off the side.
pub proof fn lemma_match_removes_exact_volume(levels: Seq<LevelView>, p: u16, amount: int)
    requires
        side_wf(levels, true),
        0 <= amount <= qualifying_volume(levels, p),
    ensures
        side_volume(match_levels(levels, amount)) == side_volume(levels) - amount,
    decreases levels.len(),
{
    if amount > 0 {
        let l = levels[0];
        let t = levels.skip(1);
        lemma_side_wf_tail(levels, true);
        if l.volume <= amount {
            lemma_match_removes_exact_volume(t, p, amount - l.volume);
        } else {
            let r = match_levels(levels, amount);
            assert(r.skip(1) =~= t);
        }
    }
}

/// A crossing fill that qualifying liquidity covers records exactly the
/// quantity asked for: the records sum to `amount`.
pub proof fn lemma_crossing_fill_is_exact(levels: Seq<LevelView>, p: u16, amount: int)
    requires
        side_wf(levels, true),
        0 <= amount <= qualifying_volume(levels, p),
    ensures
        total_size(match_records(levels, amount)) == amount,
    decreases levels.len(),
{
    if amount > 0 {
        let l = levels[0];
        let t = levels.skip(1);
        assert(level_wf(l));
        lemma_side_wf_tail(levels, true);
        lemma_fill(l.orders, amount);
        lemma_qualifying_volume_nonneg(t, p);
        let rest = amount - min_of(amount, l.volume as int);
        lemma_crossing_fill_is_exact(t, p, rest);
        lemma_total_concat(fill_plan(l.orders, amount), match_records(t, rest));
    } else {
        assert(total_size(Seq::<Order>::empty()) == 0);
    }
}

/// Total quantity of a list of fill records.
fn sum_sizes(records: &Vec<Order>) -> (r: u16)
    requires
        total_size(records@) <= u16::MAX,
    ensures
        r == total_size(records@),
{
    let mut sum: u16 = 0;
    let mut i: usize = 0;
    while i < records.len()
        invariant
            i <= records@.len(),
            sum == total_size(records@.take(i as int)),
            total_size(records@) <= u16::MAX,
        decreases records@.len() - i,
    {
        proof {
            lemma_total_take_step(records@, i as int);
        }
        sum = sum + records[i].size;
        i = i + 1;
    }
    proof {
        assert(records@.take(i as int) =~= records@);
    }
    sum
}

/// `a` ranks ahead of `b` on the side.
fn ranks_before(a: u16, b: u16, bid_side: bool) -> (r: bool)
    ensures
        r == better(a, b, bid_side),
{
    if bid_side {
        a > b
    } else {
        a < b
    }
}

/// Rests `order` on the side `side`: at the back of the level at its price,
/// or in a new level at its place in price priority.
fn insert_into_side(side: &mut Vec<PriceLevel>, order: Order, bid_side: bool)
    requires
        side_wf(levels_view(old(side)@), bid_side),
        room_for(levels_view(old(side)@), order),
        order.size > 0,
    ensures
        levels_view(final(side)@) == insert_order(levels_view(old(side)@), order, bid_side),
        side_wf(levels_view(final(side)@), bid_side),
{
    let ghost lv = levels_view(side@);
    let mut i: usize = 0;
    while i < side.len() && ranks_before(side[i].price(), order.price, bid_side)
        invariant
            i <= side@.len(),
            side@ == old(side)@,
            lv == levels_view(side@),
            forall|j: int| 0 <= j < i ==> better(#[trigger] lv[j].price, order.price, bid_side),
        decreases side@.len() - i,
    {
        i += 1;
    }
    proof {
        lemma_insert_at(lv, order, bid_side, i as int);
        lemma_insert_keeps_side_wf(lv, order, bid_side);
    }
    if i < side.len() && side[i].price() == order.price {
        side[i].add(order);
        proof {
            assert(levels_view(side@) =~= lv.update(i as int, append_order(lv[i as int], order)));
        }
    } else {
        side.insert(i, PriceLevel::new(order));
        proof {
            assert(levels_view(side@) =~= lv.insert(i as int, single_level(order)));
        }
    }
}

/// A limit order book: bids best (highest) first, asks best (lowest) first,
/// the cached best prices, and the log of every filled quantity.
pub struct Book {
    last_consumed_orders: Vec<Order>,
    highest_bid: u16,
    lowest_ask: u16,
    bid: Vec<PriceLevel>,
    ask: Vec<PriceLevel>,
}

impl View for Book {
    type V = BookView;

    closed spec fn view(&self) -> BookView {
        BookView {
            bids: levels_view(self.bid@),
            asks: levels_view(self.ask@),
            highest_bid: self.highest_bid,
            lowest_ask: self.lowest_ask,
            trade_log: self.last_consumed_orders@,
        }
    }
}

impl Book {
    pub open spec fn wf(&self) -> bool {
        book_wf(self@)
    }

    /// An empty book.
    pub fn new() -> (r: Book)
        ensures
            r.wf(),
            r@.bids.len() == 0,
            r@.asks.len() == 0,
            r@.trade_log.len() == 0,
    {
        let r = Book {
            highest_bid: 0,
            lowest_ask: 0,
            bid: Vec::new(),
            ask: Vec::new(),
            last_consumed_orders: Vec::new(),
        };
        proof {
            assert(r@.bids =~= Seq::<LevelView>::empty());
            assert(r@.asks =~= Seq::<LevelView>::empty());
        }
        r
    }

    pub fn ask_price_levels_count(&self) -> (r: usize)
        ensures
            r == self@.asks.len(),
    {
        self.ask.len()
    }

    pub fn bid_price_levels_count(&self) -> (r: usize)
        ensures
            r == self@.bids.len(),
    {
        self.bid.len()
    }

    /// The best bid price, 0 when there are no bids.
    pub fn highest_bid(&self) -> (r: u16)
        ensures
            r == self@.highest_bid,
    {
        self.highest_bid
    }

    /// The best ask price, 0 when there are no asks.
    pub fn lowest_ask(&self) -> (r: u16)
        ensures
            r == self@.lowest_ask,
    {
        self.lowest_ask
    }

    /// The bid levels, best first.
    pub fn bid_levels(&self) -> (r: &Vec<PriceLevel>)
        ensures
            levels_view(r@) == self@.bids,
    {
        &self.bid
    }

    /// The ask levels, best first.
    pub fn ask_levels(&self) -> (r: &Vec<PriceLevel>)
        ensures
            levels_view(r@) == self@.asks,
    {
        &self.ask
    }

    /// Every filled quantity since the book was made, in the order filled.
    pub fn last_consumed_orders(&self) -> (r: &Vec<Order>)
        ensures
            r@ == self@.trade_log,
    {
        &self.last_consumed_orders
    }

    /// Sets each cached best price to the price of its side's front level,
    /// or 0 for an empty side.
    pub fn update_best_values(&mut self)
        ensures
            final(self)@ == (BookView {
                highest_bid: front_price(old(self)@.bids),
                lowest_ask: front_price(old(self)@.asks),
                ..old(self)@
            }),
    {
        if self.bid.len() > 0 {
            self.highest_bid = self.bid[0].price();
        } else {
            self.highest_bid = 0;
        }
        if self.ask.len() > 0 {
            self.lowest_ask = self.ask[0].price();
        } else {
            self.lowest_ask = 0;
        }
    }

    /// Read-only probe: whether the bids at prices of at least the ask's
    /// limit hold its whole size. Walks the levels from the best bid and
    /// stops at the first one priced below the limit.
    pub fn can_match_ask(&self, order: &Order) -> (r: bool)
        requires
            self.wf(),
        ensures
            r == (qualifying_volume(self@.bids, order.price) >= order.size),
    {
        let ghost lv = self@.bids;
        let mut remaining: u16 = order.size;
        let mut i: usize = 0;
        proof {
            assert(lv.skip(0) =~= lv);
        }
        while remaining > 0 && i < self.bid.len()
            invariant
                i <= lv.len(),
                lv == levels_view(self.bid@),
                side_wf(lv, true),
                (qualifying_volume(lv, order.price) >= order.size) == (qualifying_volume(
                    lv.skip(i as int),
                    order.price,
                ) >= remaining),
            ensures
                remaining == 0 || qualifying_volume(lv.skip(i as int), order.price) == 0,
            decreases lv.len() - i,
        {
            let item = &self.bid[i];
            proof {
                assert(lv.skip(i as int)[0] == lv[i as int]);
            }
            if item.price() < order.price {
                break;
            }
            let records = item.queue().can_consume(remaining);
            proof {
                assert(level_wf(lv[i as int]));
                lemma_fill(lv[i as int].orders, remaining as int);
                lemma_qualifying_volume_nonneg(lv.skip(i + 1), order.price);
                assert(lv.skip(i as int).skip(1) =~= lv.skip(i + 1));
            }
            remaining -= sum_sizes(&records);
            i += 1;
        }
        proof {
            lemma_qualifying_volume_nonneg(lv.skip(i as int), order.price);
        }
        remaining == 0
    }

    /// Fills the ask `order` from the bids, best level first and each level
    /// in arrival order, logging one record per order touched; drained levels
    /// are removed and the best prices refreshed. The bids at prices of at
    /// least the ask's limit must hold its whole size (see `can_match_ask`):
    /// then exactly that size is logged and taken off the bid side.
    pub fn match_ask(&mut self, order: &Order)
        requires
            old(self).wf(),
            qualifying_volume(old(self)@.bids, order.price) >= order.size,
        ensures
            final(self).wf(),
            total_size(final(self)@.trade_log.skip(old(self)@.trade_log.len() as int)) == order.size,
            side_volume(final(self)@.bids) == side_volume(old(self)@.bids) - order.size,
            final(self)@.bids.len() > 0 ==> final(self)@.bids[0].volume > 0,
            final(self)@ == (BookView {
                bids: match_levels(old(self)@.bids, order.size as int),
                highest_bid: front_price(match_levels(old(self)@.bids, order.size as int)),
                trade_log: old(self)@.trade_log + match_records(old(self)@.bids, order.size as int),
                ..old(self)@
            }),
    {
        let ghost lv = self@.bids;
        let ghost log0 = self@.trade_log;
        proof {
            lemma_crossing_fill_is_exact(lv, order.price, order.size as int);
            lemma_match_removes_exact_volume(lv, order.price, order.size as int);
        }
        let mut remaining: u16 = order.size;
        let mut delete_lvls_count: usize = 0;
        let mut i: usize = 0;
        proof {
            assert(lv.skip(0) =~= lv);
            assert forall|j: int| 0 <= j < lv.len() implies (#[trigger] self.bid@[j])@ == lv[j]
                && resting_level(lv[j]) by {
                assert(lv[j] == self.bid@[j]@);
            }
        }
        while remaining > 0 && i < self.bid.len()
            invariant
                self.bid@.len() == lv.len(),
                i <= lv.len(),
                delete_lvls_count <= i,
                self.highest_bid == old(self).highest_bid,
                self.lowest_ask == old(self).lowest_ask,
                self.ask == old(self).ask,
                side_wf(lv, true),
                forall|j: int|
                    0 <= j < lv.len() ==> (#[trigger] self.bid@[j])@.price == lv[j].price
                        && level_wf(self.bid@[j]@),
                forall|j: int| i <= j < lv.len() ==> (#[trigger] self.bid@[j])@ == lv[j],
                forall|j: int| 0 <= j < delete_lvls_count ==> (#[trigger] self.bid@[j])@.volume == 0,
                forall|j: int|
                    delete_lvls_count <= j < lv.len() ==> resting_level((#[trigger] self.bid@[j])@),
                remaining > 0 ==> delete_lvls_count == i,
                delete_lvls_count < i ==> delete_lvls_count == i - 1 && remaining == 0,
                remaining > 0 ==> match_levels(lv, order.size as int) == match_levels(
                    lv.skip(i as int),
                    remaining as int,
                ),
                remaining == 0 ==> match_levels(lv, order.size as int) == levels_view(
                    self.bid@,
                ).skip(delete_lvls_count as int),
                log0 + match_records(lv, order.size as int) == self.last_consumed_orders@
                    + match_records(lv.skip(i as int), remaining as int),
            decreases lv.len() - i,
        {
            let ghost l = lv[i as int];
            let ghost rem0 = remaining;
            let ghost log_before = self.last_consumed_orders@;
            let ghost bids_before = self.bid@;
            proof {
                assert(lv.skip(i as int)[0] == l);
                assert(lv.skip(i as int).skip(1) =~= lv.skip(i + 1));
                assert(level_wf(l));
                lemma_fill(l.orders, rem0 as int);
            }
            let filled = self.bid[i].consume(remaining, &mut self.last_consumed_orders);
            remaining -= filled;
            proof {
                assert(self.bid@ == bids_before.update(i as int, self.bid@[i as int]));
                let f = fill_plan(l.orders, rem0 as int);
                let mr = match_records(lv.skip(i + 1), remaining as int);
                assert(log_before + f + mr =~= log_before + (f + mr));
            }
            if self.bid[i].volume() == 0 {
                delete_lvls_count += 1;
            }
            i += 1;
            proof {
                if remaining == 0 {
                    if l.volume <= rem0 {
                        assert(match_levels(lv.skip(i as int), 0) == lv.skip(i as int));
                        assert(levels_view(self.bid@).skip(delete_lvls_count as int) =~= lv.skip(
                            i as int,
                        ));
                    } else {
                        assert(after_fill(l.orders, rem0 as int).len() > 0) by {
                            if after_fill(l.orders, rem0 as int).len() == 0 {
                                assert(total_size(after_fill(l.orders, rem0 as int)) == 0);
                            }
                        }
                        assert(levels_view(self.bid@).skip(delete_lvls_count as int) =~= seq![
                            self.bid@[i - 1]@,
                        ] + lv.skip(i - 1).skip(1));
                    }
                }
            }
        }
        proof {
            if remaining > 0 {
                assert(lv.skip(i as int) =~= Seq::<LevelView>::empty());
                assert(levels_view(self.bid@).skip(delete_lvls_count as int) =~= Seq::<
                    LevelView,
                >::empty());
            }
            assert(match_records(lv.skip(i as int), remaining as int) =~= Seq::<Order>::empty());
            assert(self.last_consumed_orders@ + Seq::<Order>::empty() =~= self.last_consumed_orders@);
        }
        let ghost w = self.bid@;
        let mut k: usize = 0;
        while k < delete_lvls_count
            invariant
                k <= delete_lvls_count <= w.len(),
                self.bid@ == w.skip(k as int),
                self.highest_bid == old(self).highest_bid,
                self.lowest_ask == old(self).lowest_ask,
                self.ask == old(self).ask,
                self.last_consumed_orders@ == log0 + match_records(lv, order.size as int),
            decreases delete_lvls_count - k,
        {
            self.bid.remove(0);
            k += 1;
            proof {
                assert(w.skip(k - 1).remove(0) =~= w.skip(k as int));
            }
        }
        proof {
            let r = levels_view(self.bid@);
            assert(r =~= levels_view(w).skip(delete_lvls_count as int));
            assert forall|a: int, b: int| 0 <= a < b < r.len() implies better(
                #[trigger] r[a].price,
                #[trigger] r[b].price,
                true,
            ) by {
                assert(r[a] == w[a + delete_lvls_count]@);
                assert(r[b] == w[b + delete_lvls_count]@);
                assert(w[a + delete_lvls_count]@.price == lv[a + delete_lvls_count].price);
                assert(w[b + delete_lvls_count]@.price == lv[b + delete_lvls_count].price);
            }
            assert forall|a: int| 0 <= a < r.len() implies resting_level(#[trigger] r[a]) by {
                assert(r[a] == w[a + delete_lvls_count]@);
            }
        }
        self.update_best_values();
        proof {
            assert(self@.trade_log.skip(log0.len() as int) =~= match_records(lv, order.size as int));
        }
    }

    /// Submits an ask. When there are bids and the ask's limit is at or
    /// below the best bid, it crosses: if the bids at prices of at least its
    /// limit hold its whole size, it is filled from them (see `match_ask`)
    /// and does not rest; otherwise it is refused with `InsufficientMatch` and
    /// the book is left as it was. Any other ask, including every ask while
    /// there are no bids, rests on the ask side, unless its size is 0: then
    /// nothing rests and the book is left as it was.
    pub fn add_ask(&mut self, order: Order) -> (r: Result<(), AddOrderErrors>)
        requires
            old(self).wf(),
            !crosses_bids(old(self)@, order) ==> room_for(old(self)@.asks, order),
        ensures
            final(self).wf(),
            crosses_bids(old(self)@, order) && qualifying_volume(old(self)@.bids, order.price)
                >= order.size ==> {
                &&& r is Ok
                &&& final(self)@ == (BookView {
                    bids: match_levels(old(self)@.bids, order.size as int),
                    highest_bid: front_price(match_levels(old(self)@.bids, order.size as int)),
                    trade_log: old(self)@.trade_log + match_records(
                        old(self)@.bids,
                        order.size as int,
                    ),
                    ..old(self)@
                })
                &&& total_size(final(self)@.trade_log.skip(old(self)@.trade_log.len() as int))
                    == order.size
                &&& side_volume(final(self)@.bids) == side_volume(old(self)@.bids) - order.size
            },
            crosses_bids(old(self)@, order) && qualifying_volume(old(self)@.bids, order.price)
                < order.size ==> {
                &&& r == Err::<(), AddOrderErrors>(AddOrderErrors::InsufficientMatch)
                &&& *final(self) == *old(self)
            },
            !crosses_bids(old(self)@, order) && order.size == 0 ==> {
                &&& r is Ok
                &&& *final(self) == *old(self)
            },
            !crosses_bids(old(self)@, order) && order.size > 0 ==> {
                &&& r is Ok
                &&& final(self)@ == (BookView {
                    asks: insert_order(old(self)@.asks, order, false),
                    lowest_ask: front_price(insert_order(old(self)@.asks, order, false)),
                    ..old(self)@
                })
            },
    {
        if self.bid.len() > 0 && order.price <= self.highest_bid {
            if self.can_match_ask(&order) {
                self.match_ask(&order);
                return Ok(());
            } else {
                return Err(AddOrderErrors::InsufficientMatch);
            }
        }
        if order.size == 0 {
            return Ok(());
        }
        insert_into_side(&mut self.ask, order, false);
        self.update_best_values();
        Ok(())
    }

    /// Rests a bid on the book (bids never cross). A bid of size 0 has
    /// nothing to rest: the book is left as it was.
    pub fn add_bid(&mut self, order: Order)
        requires
            old(self).wf(),
            room_for(old(self)@.bids, order),
        ensures
            final(self).wf(),
            order.size == 0 ==> *final(self) == *old(self),
            order.size > 0 ==> final(self)@ == (BookView {
                bids: insert_order(old(self)@.bids, order, true),
                highest_bid: front_price(insert_order(old(self)@.bids, order, true)),
                ..old(self)@
            }),
    {
        if order.size == 0 {
            return;
        }
        insert_into_side(&mut self.bid, order, true);
        self.update_best_values();
    }
}

} // verus!
