//! A store of timestamped prices that answers with the mean price of a
//! period.

use vstd::prelude::*;

pub mod request;
pub mod response;

verus! {

/// A moment, in seconds.
pub type Timestamp = i32;

/// A price, in pennies.
pub type Price = i32;

/// The sum of the prices whose timestamps lie in `mintime..=maxtime`.
pub open spec fn sum_in(entries: Seq<(i32, i32)>, mintime: i32, maxtime: i32) -> int
    decreases entries.len(),
{
    if entries.len() == 0 {
        0
    } else {
        sum_in(entries.drop_last(), mintime, maxtime) + if mintime <= entries.last().0 <= maxtime {
            entries.last().1 as int
        } else {
            0
        }
    }
}

/// The number of prices whose timestamps lie in `mintime..=maxtime`.
pub open spec fn count_in(entries: Seq<(i32, i32)>, mintime: i32, maxtime: i32) -> int
    decreases entries.len(),
{
    if entries.len() == 0 {
        0
    } else {
        count_in(entries.drop_last(), mintime, maxtime) + if mintime <= entries.last().0
            <= maxtime {
            1int
        } else {
            0
        }
    }
}

/// The quotient of `sum` by `count`, rounded towards zero.
pub open spec fn quotient(sum: int, count: int) -> int
    recommends
        count > 0,
{
    if sum >= 0 {
        sum / count
    } else {
        -((-sum) / count)
    }
}

/// The mean of the prices in `mintime..=maxtime`, rounded towards zero, and
/// 0 where there is none.
pub open spec fn mean_in(entries: Seq<(i32, i32)>, mintime: i32, maxtime: i32) -> int {
    if count_in(entries, mintime, maxtime) > 0 {
        quotient(sum_in(entries, mintime, maxtime), count_in(entries, mintime, maxtime))
    } else {
        0
    }
}

/// Whether no timestamp occurs twice.
pub open spec fn one_price_each(entries: Seq<(i32, i32)>) -> bool {
    forall|i: int, j: int|
        0 <= i < entries.len() && 0 <= j < entries.len() && i != j ==> entries[i].0
            != entries[j].0
}

/// The sum and the count of the prices of a period are bounded by the
/// number of entries.
pub proof fn lemma_sum_bounds(entries: Seq<(i32, i32)>, mintime: i32, maxtime: i32)
    ensures
        0 <= count_in(entries, mintime, maxtime) <= entries.len(),
        -2147483648 * count_in(entries, mintime, maxtime) <= sum_in(entries, mintime, maxtime)
            <= 2147483647 * count_in(entries, mintime, maxtime),
    decreases entries.len(),
{
    if entries.len() > 0 {
        lemma_sum_bounds(entries.drop_last(), mintime, maxtime);
    }
}

/// The mean of prices is a price: it lies between the least and the
/// greatest value that a price can have.
pub proof fn lemma_mean_is_a_price(entries: Seq<(i32, i32)>, mintime: i32, maxtime: i32)
    ensures
        -2147483648 <= mean_in(entries, mintime, maxtime) <= 2147483647,
{
    let count = count_in(entries, mintime, maxtime);
    let sum = sum_in(entries, mintime, maxtime);
    lemma_sum_bounds(entries, mintime, maxtime);
    if count > 0 {
        if sum >= 0 {
            assert(sum / count <= 2147483647) by (nonlinear_arith)
                requires
                    count > 0,
                    0 <= sum <= 2147483647 * count,
            ;
            assert(sum / count >= 0) by (nonlinear_arith)
                requires
                    count > 0,
                    0 <= sum,
            ;
        } else {
            assert((-sum) / count <= 2147483648) by (nonlinear_arith)
                requires
                    count > 0,
                    0 <= -sum <= 2147483648 * count,
            ;
            assert((-sum) / count >= 0) by (nonlinear_arith)
                requires
                    count > 0,
                    0 <= -sum,
            ;
        }
    }
}

/// The prices of one client: at most one for each timestamp.
#[derive(Debug)]
pub struct PriceStore {
    entries: Vec<(Timestamp, Price)>,
}

impl View for PriceStore {
    type V = Seq<(i32, i32)>;

    closed spec fn view(&self) -> Seq<(i32, i32)> {
        self.entries@
    }
}

impl PriceStore {
    /// The store's invariant: no timestamp has two prices.
    pub open spec fn well_formed(&self) -> bool {
        one_price_each(self@)
    }

    /// A store without prices.
    pub fn new() -> (store: Self)
        ensures
            store@ == Seq::<(i32, i32)>::empty(),
            store.well_formed(),
    {
        PriceStore { entries: Vec::new() }
    }

    /// Sets the price at `timestamp`: a timestamp that had a price has the
    /// new one instead, at its old place; one that had none is added.
    pub fn insert(&mut self, timestamp: Timestamp, price: Price)
        requires
            old(self).well_formed(),
        ensures
            final(self).well_formed(),
            (exists|i: int| 0 <= i < old(self)@.len() && old(self)@[i].0 == timestamp) ==> exists|
                i: int,
            |
                0 <= i < old(self)@.len() && old(self)@[i].0 == timestamp && final(self)@ == old(
                    self,
                )@.update(i, (timestamp, price)),
            (forall|i: int| 0 <= i < old(self)@.len() ==> old(self)@[i].0 != timestamp)
                ==> final(self)@ == old(self)@.push((timestamp, price)),
    {
        let mut i: usize = 0;
        while i < self.entries.len()
            invariant
                i <= self.entries@.len(),
                self.entries@ == old(self).entries@,
                one_price_each(self.entries@),
                forall|j: int| 0 <= j < i ==> self.entries@[j].0 != timestamp,
            decreases self.entries@.len() - i,
        {
            if self.entries[i].0 == timestamp {
                self.entries[i] = (timestamp, price);
                assert(self.entries@ == old(self).entries@.update(i as int, (timestamp, price)));
                return ;
            }
            i += 1;
        }
        self.entries.push((timestamp, price));
    }

    /// The mean of the prices whose timestamps lie in `mintime..=maxtime`,
    /// rounded towards zero; 0 where the period holds no price, and where
    /// it ends before it begins.
    pub fn mean(&self, mintime: Timestamp, maxtime: Timestamp) -> (mean: Price)
        ensures
            mean == mean_in(self@, mintime, maxtime),
    {
        let mut sum: i128 = 0;
        let mut count: i128 = 0;
        let mut i: usize = 0;
        assert(self.entries@.take(0) =~= Seq::<(i32, i32)>::empty());
        while i < self.entries.len()
            invariant
                i <= self.entries@.len(),
                sum == sum_in(self.entries@.take(i as int), mintime, maxtime),
                count == count_in(self.entries@.take(i as int), mintime, maxtime),
            decreases self.entries@.len() - i,
        {
            proof {
                lemma_sum_bounds(self.entries@.take(i as int), mintime, maxtime);
                assert(self.entries@.take(i + 1).drop_last() =~= self.entries@.take(i as int));
            }
            let (timestamp, price) = self.entries[i];
            if mintime <= timestamp && timestamp <= maxtime {
                sum = sum + (price as i128);
                count = count + 1;
            }
            i += 1;
        }
        proof {
            assert(self.entries@.take(i as int) =~= self.entries@);
            lemma_sum_bounds(self@, mintime, maxtime);
            lemma_mean_is_a_price(self@, mintime, maxtime);
        }
        if count > 0 {
            if sum >= 0 {
                (sum / count) as i32
            } else {
                (-((-sum) / count)) as i32
            }
        } else {
            0
        }
    }
}

} // verus!
