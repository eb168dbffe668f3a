use vstd::prelude::*;

use crate::order::{
    Order,
    after_fill,
    all_at_price,
    fill_plan,
    lemma_fill,
    lemma_total_push,
    lemma_total_single,
    min_of,
    total_size,
};
use crate::queue::Queue;

verus! {

/// What a price level holds: its price, its cached volume and its orders in
/// arrival order.
pub struct LevelView {
    pub price: u16,
    pub volume: u64,
    pub orders: Seq<Order>,
}

/// The cached volume is the true total of the orders, and every order rests
/// at the level's price.
pub open spec fn level_wf(l: LevelView) -> bool {
    &&& l.volume == total_size(l.orders)
    &&& all_at_price(l.orders, l.price)
}

/// All the resting orders of one side at one price.
pub struct PriceLevel {
    price: u16,
    volume: u64,
    queue: Queue,
}

impl View for PriceLevel {
    type V = LevelView;

    closed spec fn view(&self) -> LevelView {
        LevelView { price: self.price, volume: self.volume, orders: self.queue@ }
    }
}

impl PriceLevel {
    pub open spec fn wf(&self) -> bool {
        level_wf(self@)
    }

    /// A level holding `order` alone, at its price.
    pub fn new(order: Order) -> (r: PriceLevel)
        ensures
            r@ == (LevelView { price: order.price, volume: order.size as u64, orders: seq![order] }),
            r.wf(),
    {
        proof {
            lemma_total_single(order);
        }
        PriceLevel { price: order.price, volume: order.size as u64, queue: Queue::new_with_order(order) }
    }

    pub fn price(&self) -> (r: u16)
        ensures
            r == self@.price,
    {
        self.price
    }

    pub fn volume(&self) -> (r: u64)
        ensures
            r == self@.volume,
    {
        self.volume
    }

    pub fn queue(&self) -> (r: &Queue)
        ensures
            r@ == self@.orders,
    {
        &self.queue
    }

    /// The volume recomputed from the orders by a full rescan; it always
    /// equals the cached `volume`.
    pub fn rescan_volume(&self) -> (r: u64)
        requires
            self.wf(),
        ensures
            r == self@.volume,
    {
        self.queue.total()
    }

    /// Puts `order`, which has the level's price, at the back of the level.
    pub fn add(&mut self, order: Order)
        requires
            old(self).wf(),
            order.price == old(self)@.price,
            old(self)@.volume + order.size <= u64::MAX,
        ensures
            final(self).wf(),
            final(self)@ == (LevelView {
                price: old(self)@.price,
                volume: (old(self)@.volume + order.size) as u64,
                orders: old(self)@.orders.push(order),
            }),
    {
        proof {
            lemma_total_push(self.queue@, order);
        }
        self.queue.add(order);
        self.volume = self.volume + order.size as u64;
        proof {
            let s = self.queue@;
            assert forall|i: int| 0 <= i < s.len() implies #[trigger] s[i].price == self.price by {
                if i < s.len() - 1 {
                    assert(s[i] == old(self)@.orders[i]);
                }
            }
        }
    }

    /// Fills up to `amount` from the level's queue in arrival order (see
    /// `Queue::consume`) and lowers the cached volume by what was filled.
    pub fn consume(&mut self, amount: u16, buf: &mut Vec<Order>) -> (r: u16)
        requires
            old(self).wf(),
        ensures
            final(self).wf(),
            r == min_of(amount as int, old(self)@.volume as int),
            final(self)@ == (LevelView {
                price: old(self)@.price,
                volume: (old(self)@.volume - r) as u64,
                orders: after_fill(old(self)@.orders, amount as int),
            }),
            final(buf)@ == old(buf)@ + fill_plan(old(self)@.orders, amount as int),
    {
        proof {
            lemma_fill(self.queue@, amount as int);
        }
        let consumed_volume = self.queue.consume(amount, buf);
        self.volume = self.volume - consumed_volume as u64;
        consumed_volume
    }
}

} // verus!
