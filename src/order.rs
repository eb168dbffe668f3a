use vstd::prelude::*;

verus! {

/// An order: its id and limit price are fixed, `size` is the quantity left.
#[derive(Clone, Copy, Debug, PartialEq, Eq, Structural)]
pub struct Order {
    pub id: u16,
    pub price: u16,
    pub size: u16,
}

impl Order {
    pub fn new(id: u16, price: u16, size: u16) -> (r: Order)
        ensures
            r == (Order { id, price, size }),
    {
        Order { id, price, size }
    }
}

/// The smaller of two integers.
pub open spec fn min_of(a: int, b: int) -> int {
    if a <= b {
        a
    } else {
        b
    }
}

/// Total quantity of a sequence of orders.
pub open spec fn total_size(s: Seq<Order>) -> int
    decreases s.len(),
{
    if s.len() == 0 {
        0
    } else {
        s[0].size + total_size(s.skip(1))
    }
}

/// Every order of `s` has price `p`.
pub open spec fn all_at_price(s: Seq<Order>, p: u16) -> bool {
    forall|i: int| 0 <= i < s.len() ==> #[trigger] s[i].price == p
}

/// No order of `s` has size 0.
pub open spec fn all_positive(s: Seq<Order>) -> bool {
    forall|i: int| 0 <= i < s.len() ==> #[trigger] s[i].size > 0
}

/// The order `o` with its quantity replaced by `size`.
pub open spec fn with_size(o: Order, size: int) -> Order {
    Order { id: o.id, price: o.price, size: size as u16 }
}

/// Greedy front-to-back allocation of `amount` over the queue `s`: one record
/// per contributing order, carrying the quantity taken from it.
pub open spec fn fill_plan(s: Seq<Order>, amount: int) -> Seq<Order>
    decreases s.len(),
{
    if amount <= 0 || s.len() == 0 {
        Seq::empty()
    } else if s[0].size <= amount {
        seq![s[0]] + fill_plan(s.skip(1), amount - s[0].size)
    } else {
        seq![with_size(s[0], amount)]
    }
}

/// The queue `s` once the allocation `fill_plan(s, amount)` has been taken
/// out of it: fully filled orders leave from the front, and the last one
/// touched keeps what was not taken.
pub open spec fn after_fill(s: Seq<Order>, amount: int) -> Seq<Order>
    decreases s.len(),
{
    if amount <= 0 || s.len() == 0 {
        s
    } else if s[0].size <= amount {
        after_fill(s.skip(1), amount - s[0].size)
    } else {
        seq![with_size(s[0], s[0].size - amount)] + s.skip(1)
    }
}

pub proof fn lemma_total_nonneg(s: Seq<Order>)
    ensures
        total_size(s) >= 0,
    decreases s.len(),
{
    if s.len() > 0 {
        lemma_total_nonneg(s.skip(1));
    }
}

/// The total of a concatenation is the sum of the totals.
pub proof fn lemma_total_concat(a: Seq<Order>, b: Seq<Order>)
    ensures
        total_size(a + b) == total_size(a) + total_size(b),
    decreases a.len(),
{
    if a.len() == 0 {
        assert(a + b =~= b);
    } else {
        lemma_total_concat(a.skip(1), b);
        assert((a + b).skip(1) =~= a.skip(1) + b);
    }
}

pub proof fn lemma_total_single(o: Order)
    ensures
        total_size(seq![o]) == o.size,
{
    assert(seq![o].skip(1) =~= Seq::<Order>::empty());
    assert(total_size(Seq::<Order>::empty()) == 0);
}

pub proof fn lemma_total_push(s: Seq<Order>, o: Order)
    ensures
        total_size(s.push(o)) == total_size(s) + o.size,
{
    lemma_total_concat(s, seq![o]);
    lemma_total_single(o);
    assert(s + seq![o] =~= s.push(o));
}

/// Summing a queue front to back: each step adds the next order's size and
/// stays within the queue's total.
pub proof fn lemma_total_take_step(s: Seq<Order>, i: int)
    requires
        0 <= i < s.len(),
    ensures
        total_size(s.take(i + 1)) == total_size(s.take(i)) + s[i].size,
        total_size(s.take(i + 1)) <= total_size(s),
{
    assert(s.take(i + 1) =~= s.take(i).push(s[i]));
    lemma_total_push(s.take(i), s[i]);
    assert(s =~= s.take(i + 1) + s.skip(i + 1));
    lemma_total_concat(s.take(i + 1), s.skip(i + 1));
    lemma_total_nonneg(s.skip(i + 1));
}

/// Filling `amount` from a queue takes exactly `min(amount, total)` out of it,
/// and keeps prices and the queue's price uniformity.
pub proof fn lemma_fill(s: Seq<Order>, amount: int)
    requires
        amount >= 0,
    ensures
        total_size(fill_plan(s, amount)) == min_of(amount, total_size(s)),
        total_size(after_fill(s, amount)) == total_size(s) - min_of(amount, total_size(s)),
        forall|p: u16| all_at_price(s, p) ==> all_at_price(#[trigger] after_fill(s, amount), p),
        forall|p: u16| all_at_price(s, p) ==> all_at_price(#[trigger] fill_plan(s, amount), p),
        all_positive(s) ==> all_positive(after_fill(s, amount)),
    decreases s.len(),
{
    lemma_total_nonneg(s);
    if amount == 0 || s.len() == 0 {
    } else if s[0].size <= amount {
        let t = s.skip(1);
        lemma_fill(t, amount - s[0].size);
        lemma_total_concat(seq![s[0]], fill_plan(t, amount - s[0].size));
        if all_positive(s) {
            assert forall|i: int| 0 <= i < t.len() implies #[trigger] t[i].size > 0 by {
                assert(t[i] == s[i + 1]);
            }
        }
        lemma_total_single(s[0]);
        assert forall|p: u16| all_at_price(s, p) implies all_at_price(
            #[trigger] fill_plan(s, amount),
            p,
        ) by {
            assert(all_at_price(t, p)) by {
                assert forall|i: int| 0 <= i < t.len() implies #[trigger] t[i].price == p by {
                    assert(t[i] == s[i + 1]);
                }
            }
        }
        assert forall|p: u16| all_at_price(s, p) implies all_at_price(
            #[trigger] after_fill(s, amount),
            p,
        ) by {
            assert(all_at_price(t, p)) by {
                assert forall|i: int| 0 <= i < t.len() implies #[trigger] t[i].price == p by {
                    assert(t[i] == s[i + 1]);
                }
            }
        }
    } else {
        let t = s.skip(1);
        let head = with_size(s[0], s[0].size - amount);
        lemma_total_nonneg(t);
        lemma_total_concat(seq![head], t);
        lemma_total_single(head);
        lemma_total_single(with_size(s[0], amount));
        if all_positive(s) {
            let r = after_fill(s, amount);
            assert forall|i: int| 0 <= i < r.len() implies #[trigger] r[i].size > 0 by {
                if i > 0 {
                    assert(r[i] == s[i]);
                }
            }
        }
        assert forall|p: u16| all_at_price(s, p) implies all_at_price(
            #[trigger] after_fill(s, amount),
            p,
        ) by {
            let r = after_fill(s, amount);
            assert forall|i: int| 0 <= i < r.len() implies #[trigger] r[i].price == p by {
                if i > 0 {
                    assert(r[i] == s[i]);
                }
            }
        }
    }
}

/// Filling is first in, first out: the records follow the queue from its
/// front, every record but the last takes its order whole, and what is left
/// is the queue without the orders taken whole, the first of them possibly
/// reduced.
pub proof fn lemma_fill_is_fifo(s: Seq<Order>, amount: int)
    requires
        amount >= 0,
    ensures
        fill_plan(s, amount).len() <= s.len(),
        forall|j: int|
            0 <= j < fill_plan(s, amount).len() ==> (#[trigger] fill_plan(s, amount)[j]).id == s[j].id
                && fill_plan(s, amount)[j].price == s[j].price,
        forall|j: int| 0 <= j < fill_plan(s, amount).len() - 1 ==> #[trigger] fill_plan(s, amount)[j] == s[j],
        after_fill(s, amount).len() <= s.len(),
        ({
            let rest = after_fill(s, amount);
            let k = s.len() - rest.len();
            &&& forall|j: int| 0 < j < rest.len() ==> #[trigger] rest[j] == s[j + k]
            &&& rest.len() > 0 ==> rest[0].id == s[k].id && rest[0].price == s[k].price
        }),
    decreases s.len(),
{
    if amount == 0 || s.len() == 0 {
    } else if s[0].size <= amount {
        let t = s.skip(1);
        lemma_fill_is_fifo(t, amount - s[0].size);
        let f = fill_plan(s, amount);
        let ft = fill_plan(t, amount - s[0].size);
        assert(f =~= seq![s[0]] + ft);
        assert forall|j: int| 0 <= j < f.len() implies (#[trigger] f[j]).id == s[j].id && f[j].price
            == s[j].price by {
            if j > 0 {
                assert(f[j] == ft[j - 1] && t[j - 1] == s[j]);
            }
        }
        assert forall|j: int| 0 <= j < f.len() - 1 implies #[trigger] f[j] == s[j] by {
            if j > 0 {
                assert(f[j] == ft[j - 1] && t[j - 1] == s[j]);
            }
        }
        let rest = after_fill(s, amount);
        let k = s.len() - rest.len();
        assert forall|j: int| 0 < j < rest.len() implies #[trigger] rest[j] == s[j + k] by {
            assert(t[j + k - 1] == s[j + k]);
        }
        if rest.len() > 0 {
            assert(t[k - 1] == s[k]);
        }
    } else {
        let rest = after_fill(s, amount);
        assert forall|j: int| 0 < j < rest.len() implies #[trigger] rest[j] == s[j + 0] by {
            assert(rest[j] == s.skip(1)[j - 1]);
        }
    }
}

} // verus!
