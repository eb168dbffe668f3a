use std::collections::VecDeque;
use vstd::prelude::*;

use crate::order::{
    Order,
    after_fill,
    fill_plan,
    lemma_total_nonneg,
    lemma_total_take_step,
    min_of,
    total_size,
    with_size,
};

verus! {

/// The orders resting at one price, in arrival order; the front is filled first.
pub struct Queue {
    items: VecDeque<Order>,
}

impl View for Queue {
    type V = Seq<Order>;

    closed spec fn view(&self) -> Seq<Order> {
        self.items@
    }
}

impl Queue {
    pub fn new() -> (r: Queue)
        ensures
            r@ == Seq::<Order>::empty(),
    {
        Queue { items: VecDeque::new() }
    }

    pub fn new_with_order(order: Order) -> (r: Queue)
        ensures
            r@ == seq![order],
    {
        let mut items = VecDeque::new();
        items.push_back(order);
        proof {
            assert(items@ =~= seq![order]);
        }
        Queue { items }
    }

    /// Puts `order` at the back of the queue.
    pub fn add(&mut self, order: Order)
        ensures
            final(self)@ == old(self)@.push(order),
    {
        self.items.push_back(order);
    }

    /// Takes the front order out, if there is one.
    pub fn dequeue(&mut self) -> (r: Option<Order>)
        ensures
            old(self)@.len() == 0 ==> r is None && final(self)@ == old(self)@,
            old(self)@.len() > 0 ==> r == Some(old(self)@[0]) && final(self)@ == old(self)@.skip(1),
    {
        let r = self.items.pop_front();
        proof {
            if old(self)@.len() > 0 {
                assert(self@ =~= old(self)@.skip(1));
            }
        }
        r
    }

    /// The front order, if there is one.
    pub fn get(&self) -> (r: Option<&Order>)
        ensures
            self@.len() == 0 ==> r is None,
            self@.len() > 0 ==> r is Some && *r.unwrap() == self@[0],
    {
        if self.items.len() > 0 {
            Some(&self.items[0])
        } else {
            None
        }
    }

    pub fn len(&self) -> (r: usize)
        ensures
            r == self@.len(),
    {
        self.items.len()
    }

    /// The orders in arrival order.
    pub fn items(&self) -> (r: &VecDeque<Order>)
        ensures
            r@ == self@,
    {
        &self.items
    }

    /// Full rescan of the quantity resting in the queue.
    pub fn total(&self) -> (r: u64)
        requires
            total_size(self@) <= u64::MAX,
        ensures
            r == total_size(self@),
    {
        let mut sum: u64 = 0;
        let mut i: usize = 0;
        while i < self.items.len()
            invariant
                i <= self@.len(),
                sum == total_size(self@.take(i as int)),
                total_size(self@) <= u64::MAX,
            decreases self@.len() - i,
        {
            proof {
                lemma_total_take_step(self@, i as int);
            }
            sum = sum + self.items[i].size as u64;
            i = i + 1;
        }
        proof {
            assert(self@.take(i as int) =~= self@);
        }
        sum
    }

    /// Dry run of `consume`: the records that consuming `amount` would
    /// produce, without touching the queue.
    pub fn can_consume(&self, amount: u16) -> (r: Vec<Order>)
        ensures
            r@ == fill_plan(self@, amount as int),
    {
        let mut remaining: u16 = amount;
        let mut result: Vec<Order> = Vec::new();
        let mut i: usize = 0;
        proof {
            assert(self@.skip(0) =~= self@);
            assert(result@ + fill_plan(self@, amount as int) =~= fill_plan(self@, amount as int));
        }
        while remaining > 0 && i < self.items.len()
            invariant
                i <= self@.len(),
                result@ + fill_plan(self@.skip(i as int), remaining as int) == fill_plan(
                    self@,
                    amount as int,
                ),
            decreases self@.len() - i,
        {
            let next_item = self.items[i];
            proof {
                let t = self@.skip(i as int);
                assert(t[0] == next_item);
                assert(t.skip(1) =~= self@.skip(i + 1));
            }
            if next_item.size <= remaining {
                remaining -= next_item.size;
                let ghost before = result@;
                result.push(Order { id: next_item.id, price: next_item.price, size: next_item.size });
                proof {
                    let f = fill_plan(self@.skip(i + 1), remaining as int);
                    assert(before + (seq![next_item] + f) =~= result@ + f);
                }
            } else {
                let ghost before = result@;
                result.push(Order { id: next_item.id, price: next_item.price, size: remaining });
                proof {
                    assert(result@ =~= before + seq![with_size(next_item, remaining as int)]);
                    assert(fill_plan(self@.skip(i + 1), 0) =~= Seq::<Order>::empty());
                    assert(result@ + Seq::<Order>::empty() =~= result@);
                }
                remaining = 0;
            }
            i += 1;
        }
        proof {
            assert(fill_plan(self@.skip(i as int), remaining as int) =~= Seq::<Order>::empty());
            assert(result@ + Seq::<Order>::empty() =~= result@);
        }
        result
    }

    /// Fills up to `amount` from the front of the queue, in arrival order.
    /// Fully filled orders leave the queue; the last order touched keeps the
    /// quantity not taken. One record per contributing order, carrying the
    /// quantity filled from it, goes to the back of `buf`. Returns the
    /// quantity filled: `amount`, or less if the queue runs out.
    pub fn consume(&mut self, amount: u16, buf: &mut Vec<Order>) -> (r: u16)
        ensures
            final(self)@ == after_fill(old(self)@, amount as int),
            final(buf)@ == old(buf)@ + fill_plan(old(self)@, amount as int),
            r == min_of(amount as int, total_size(old(self)@)),
    {
        let mut remaining: u16 = amount;
        while remaining > 0 && self.items.len() > 0
            invariant
                remaining <= amount,
                after_fill(self@, remaining as int) == after_fill(old(self)@, amount as int),
                buf@ + fill_plan(self@, remaining as int) == old(buf)@ + fill_plan(
                    old(self)@,
                    amount as int,
                ),
                amount - remaining + min_of(remaining as int, total_size(self@)) == min_of(
                    amount as int,
                    total_size(old(self)@),
                ),
            decreases self@.len() + if remaining > 0 {
                1int
            } else {
                0int
            },
        {
            let ghost s = self@;
            let ghost before = buf@;
            let next_item = self.items[0];
            proof {
                lemma_total_nonneg(s.skip(1));
            }
            if next_item.size <= remaining {
                remaining -= next_item.size;
                let popped = self.dequeue();
                if let Some(order) = popped {
                    buf.push(order);
                }
                proof {
                    let f = fill_plan(s.skip(1), remaining as int);
                    assert(before + (seq![next_item] + f) =~= buf@ + f);
                }
            } else {
                let popped = self.dequeue();
                self.items.push_front(
                    Order { id: next_item.id, price: next_item.price, size: next_item.size - remaining },
                );
                buf.push(Order { id: next_item.id, price: next_item.price, size: remaining });
                proof {
                    assert(self@ =~= after_fill(s, remaining as int));
                    assert(buf@ =~= before + fill_plan(s, remaining as int));
                    assert(fill_plan(self@, 0) =~= Seq::<Order>::empty());
                    assert(buf@ + Seq::<Order>::empty() =~= buf@);
                    lemma_total_nonneg(self@);
                }
                remaining = 0;
            }
        }
        proof {
            lemma_total_nonneg(self@);
            assert(fill_plan(self@, remaining as int) =~= Seq::<Order>::empty());
            assert(buf@ + Seq::<Order>::empty() =~= buf@);
            if remaining > 0 {
                assert(total_size(self@) == 0);
            }
        }
        amount - remaining
    }
}

} // verus!
