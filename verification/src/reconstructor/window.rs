//! The rolling window of trades of one exchange.

use crate::clock;
use crate::numeric::binary64;
use crate::numeric::binary64::Binary64;
use crate::numeric::laws;
use crate::numeric::order;
use crate::types::Trade;
use std::collections::VecDeque;
use vstd::arithmetic::power2::*;
use vstd::prelude::*;

verus! {

/// The trades of one exchange, oldest first.
pub struct TradeWindow {
    trades: VecDeque<Trade>,
}

/// What is left when the trades at the front that are older than a cutoff have gone.
pub open spec fn evicted(s: Seq<Trade>, cutoff: int) -> Seq<Trade>
    decreases s.len(),
{
    if s.len() > 0 && s[0].local_ts < cutoff {
        evicted(s.skip(1), cutoff)
    } else {
        s
    }
}

/// The window after a trade has come in.
pub open spec fn pushed(s: Seq<Trade>, trade: Trade, window_secs: int) -> Seq<Trade> {
    evicted(s, clock::monus(trade.local_ts as int, window_secs * 1000)).push(trade)
}

/// The first place at or behind `from` whose price is greater than that of a trade.
pub open spec fn insertion_place(s: Seq<Trade>, trade: Trade, from: int) -> int
    decreases s.len() - from,
{
    if 0 <= from < s.len() && !trade.price.less(s[from].price) {
        insertion_place(s, trade, from + 1)
    } else {
        from
    }
}

/// Trades in the order of their prices; of equal prices, in the order in which they came.
pub open spec fn by_price(s: Seq<Trade>) -> Seq<Trade>
    decreases s.len(),
{
    if s.len() == 0 {
        s
    } else {
        let rest = by_price(s.drop_last());
        rest.insert(insertion_place(rest, s.last(), 0), s.last())
    }
}

/// The sum of the sizes, added up from the left.
pub open spec fn total_size(s: Seq<Trade>) -> Binary64
    decreases s.len(),
{
    if s.len() == 0 {
        Binary64::make(true, 0)
    } else {
        total_size(s.drop_last()).sum(s.last().size)
    }
}

/// The volume of the first trades of a row, added up from the left.
pub open spec fn volume(s: Seq<Trade>, count: int) -> Binary64
    decreases count,
{
    if count <= 0 {
        Binary64::make(false, 0)
    } else {
        volume(s, count - 1).sum(s[count - 1].size)
    }
}

/// The price of the first trade from a place on with which the volume reaches a target; of the
/// last trade, where it never does.
pub open spec fn price_at_volume(s: Seq<Trade>, target: Binary64, from: int) -> Binary64
    decreases s.len() - from,
{
    if 0 <= from < s.len() {
        if target.at_most(volume(s, from + 1)) {
            s[from].price
        } else {
            price_at_volume(s, target, from + 1)
        }
    } else {
        s.last().price
    }
}

/// The volume-weighted median price: trades in the order of their prices, up to the one with which
/// half of the volume is reached.
pub open spec fn median_price(s: Seq<Trade>) -> Option<Binary64> {
    if s.len() == 0 {
        None
    } else {
        let sorted = by_price(s);
        Some(price_at_volume(sorted, total_size(sorted).quotient(Binary64::whole(2)), 0))
    }
}

/// Whether a window is out of date: it is empty, or its last trade is too old.
pub open spec fn stale(s: Seq<Trade>, now_ms: int, threshold_ms: int) -> bool {
    s.len() == 0 || clock::monus(now_ms, s.last().local_ts as int) > threshold_ms
}

/// A trade is put in before the first one of a higher price.
pub proof fn lemma_insertion_place(s: Seq<Trade>, trade: Trade, from: int)
    requires
        0 <= from <= s.len(),
    ensures
        from <= insertion_place(s, trade, from) <= s.len(),
        forall|i: int|
            from <= i < insertion_place(s, trade, from) ==> !trade.price.less(
                (#[trigger] s[i]).price,
            ),
        insertion_place(s, trade, from) < s.len() ==> trade.price.less(
            s[insertion_place(s, trade, from)].price,
        ),
    decreases s.len() - from,
{
    if from < s.len() && !trade.price.less(s[from].price) {
        lemma_insertion_place(s, trade, from + 1);
    }
}

impl View for TradeWindow {
    type V = Seq<Trade>;

    closed spec fn view(&self) -> Seq<Trade> {
        self.trades@
    }
}

impl TradeWindow {
    /// The empty window.
    pub fn new() -> (r: Self)
        ensures
            r@ == Seq::<Trade>::empty(),
    {
        TradeWindow { trades: VecDeque::new() }
    }

    /// Takes a trade in, and lets those go that have left the rolling window.
    pub fn push(&mut self, trade: Trade, window_secs: u64)
        requires
            window_secs * 1000 <= u64::MAX,
        ensures
            final(self)@ == pushed(old(self)@, trade, window_secs as int),
    {
        let window_ms: u64 = window_secs * 1000;
        let cutoff: u64 = if trade.local_ts >= window_ms {
            trade.local_ts - window_ms
        } else {
            0
        };
        while self.trades.len() > 0 && self.trades[0].local_ts < cutoff
            invariant
                evicted(self.trades@, cutoff as int) == evicted(old(self).trades@, cutoff as int),
            decreases self.trades@.len(),
        {
            proof {
                assert(self.trades@.skip(1) == self.trades@.subrange(
                    1,
                    self.trades@.len() as int,
                ));
            }
            self.trades.pop_front();
        }
        self.trades.push_back(trade);
    }

    /// The trades in the order of their prices.
    fn sorted(&self) -> (r: Vec<Trade>)
        ensures
            r@ == by_price(self@),
    {
        let mut r: Vec<Trade> = Vec::new();
        let mut i: usize = 0;
        proof {
            assert(self.trades@.take(0) == Seq::<Trade>::empty());
        }
        while i < self.trades.len()
            invariant
                i <= self.trades@.len(),
                r@ == by_price(self.trades@.take(i as int)),
            decreases self.trades@.len() - i,
        {
            let trade: Trade = self.trades[i];
            let mut place: usize = 0;
            while place < r.len() && !trade.price.lt(r[place].price)
                invariant
                    place <= r.len(),
                    insertion_place(r@, trade, 0) == insertion_place(r@, trade, place as int),
                decreases r.len() - place,
            {
                place = place + 1;
            }
            proof {
                assert(self.trades@.take(i + 1).drop_last() == self.trades@.take(i as int));
            }
            r.insert(place, trade);
            i = i + 1;
        }
        proof {
            assert(self.trades@.take(i as int) == self.trades@);
        }
        r
    }

    /// The volume-weighted median price of the window.
    pub fn vwmp(&self) -> (r: Option<Binary64>)
        ensures
            r == median_price(self@),
    {
        if self.trades.len() == 0 {
            return None;
        }
        let sorted: Vec<Trade> = self.sorted();
        proof {
            lemma_by_price_keeps(self@);
        }
        let mut total: Binary64 = Binary64::from_sign_and_magnitude(true, 0);
        let mut i: usize = 0;
        proof {
            assert(sorted@.take(0) == Seq::<Trade>::empty());
        }
        while i < sorted.len()
            invariant
                i <= sorted.len(),
                total == total_size(sorted@.take(i as int)),
            decreases sorted.len() - i,
        {
            proof {
                assert(sorted@.take(i + 1).drop_last() == sorted@.take(i as int));
            }
            total = total.add(sorted[i].size);
            i = i + 1;
        }
        proof {
            assert(sorted@.take(i as int) == sorted@);
        }
        let target: Binary64 = total.div(Binary64::from_u64(2));
        let mut cumulative: Binary64 = Binary64::from_sign_and_magnitude(false, 0);
        let mut j: usize = 0;
        while j < sorted.len()
            invariant
                j <= sorted.len(),
                sorted@ == by_price(self@),
                self@.len() > 0,
                target == total_size(sorted@).quotient(Binary64::whole(2)),
                cumulative == volume(sorted@, j as int),
                price_at_volume(sorted@, target, 0) == price_at_volume(sorted@, target, j as int),
            decreases sorted.len() - j,
        {
            let trade: Trade = sorted[j];
            cumulative = cumulative.add(trade.size);
            if target.le(cumulative) {
                return Some(trade.price);
            }
            j = j + 1;
        }
        Some(sorted[sorted.len() - 1].price)
    }

    /// The receipt time of the trade that came last.
    pub fn last_trade_ts(&self) -> (r: Option<u64>)
        ensures
            r == (if self@.len() == 0 {
                None::<u64>
            } else {
                Some(self@.last().local_ts)
            }),
    {
        let n: usize = self.trades.len();
        if n == 0 {
            None
        } else {
            Some(self.trades[n - 1].local_ts)
        }
    }

    /// Whether no trade has come, or none for longer than the threshold.
    pub fn is_stale(&self, now_ms: u64, threshold_ms: u64) -> (r: bool)
        ensures
            r == stale(self@, now_ms as int, threshold_ms as int),
    {
        match self.last_trade_ts() {
            None => true,
            Some(ts) => now_ms >= ts && now_ms - ts > threshold_ms,
        }
    }
}

impl Default for TradeWindow {
    fn default() -> (r: Self)
        ensures
            r@ == Seq::<Trade>::empty(),
    {
        TradeWindow::new()
    }
}

/// Whether no price of a row is a NaN.
pub open spec fn prices_ordered(s: Seq<Trade>) -> bool {
    forall|i: int| 0 <= i < s.len() ==> !(#[trigger] s[i]).price.nan()
}

/// Sorting by price keeps the trades.
pub proof fn lemma_by_price_keeps(s: Seq<Trade>)
    ensures
        by_price(s).to_multiset() == s.to_multiset(),
        by_price(s).len() == s.len(),
    decreases s.len(),
{
    broadcast use vstd::seq_lib::group_to_multiset_ensures;

    if s.len() > 0 {
        let rest = by_price(s.drop_last());
        lemma_by_price_keeps(s.drop_last());
        lemma_insertion_place(rest, s.last(), 0);
        vstd::seq_lib::to_multiset_insert(rest, insertion_place(rest, s.last(), 0), s.last());
        assert(s == s.drop_last().push(s.last()));
    }
}

/// Sorting by price puts no trade before one of a lower price, where no price is a NaN.
pub proof fn lemma_by_price_sorts(s: Seq<Trade>)
    requires
        prices_ordered(s),
    ensures
        prices_ordered(by_price(s)),
        forall|i: int, j: int|
            0 <= i < j < by_price(s).len() ==> (#[trigger] by_price(s)[i]).price.at_most(
                (#[trigger] by_price(s)[j]).price,
            ),
    decreases s.len(),
{
    if s.len() > 0 {
        let rest = by_price(s.drop_last());
        let last = s.last();
        let place = insertion_place(rest, last, 0);
        assert(prices_ordered(s.drop_last()));
        lemma_by_price_sorts(s.drop_last());
        lemma_insertion_place(rest, last, 0);
        let r = by_price(s);
        assert(!s[s.len() - 1].price.nan());
        assert forall|i: int| 0 <= i < r.len() implies !(#[trigger] r[i]).price.nan() by {
            if i < place {
                assert(r[i] == rest[i]);
            } else if i > place {
                assert(r[i] == rest[i - 1]);
            }
        }
        assert forall|i: int, j: int| 0 <= i < j < r.len() implies (
        #[trigger] r[i]).price.at_most((#[trigger] r[j]).price) by {
            if j < place {
                assert(r[i] == rest[i] && r[j] == rest[j]);
            } else if j == place {
                assert(r[i] == rest[i]);
                assert(!last.price.less(rest[i].price));
            } else if i < place {
                assert(r[i] == rest[i] && r[j] == rest[j - 1]);
            } else if i == place {
                assert(r[j] == rest[j - 1]);
                if place < j - 1 {
                    assert(rest[place].price.at_most(rest[j - 1].price));
                }
            } else {
                assert(r[i] == rest[i - 1] && r[j] == rest[j - 1]);
            }
        }
    }
}

/// The place of the price that `price_at_volume` gives.
proof fn lemma_price_at_volume(s: Seq<Trade>, target: Binary64, from: int) -> (at: int)
    requires
        0 <= from <= s.len(),
        s.len() > 0,
    ensures
        0 <= at < s.len(),
        price_at_volume(s, target, from) == s[at].price,
        target.at_most(volume(s, at + 1)) || at == s.len() - 1,
        forall|j: int| from <= j < at ==> !target.at_most(#[trigger] volume(s, j + 1)),
    decreases s.len() - from,
{
    if from < s.len() {
        if target.at_most(volume(s, from + 1)) {
            from
        } else {
            let at = lemma_price_at_volume(s, target, from + 1);
            assert forall|j: int| from <= j < at implies !target.at_most(
                #[trigger] volume(s, j + 1),
            ) by {
            }
            at
        }
    } else {
        s.len() - 1
    }
}

/// Whether half of the volume of a row is reached with a trade and not before; or with none, and
/// the trade is the last.
pub open spec fn reaches_half(s: Seq<Trade>, at: int) -> bool {
    let half = total_size(s).quotient(Binary64::whole(2));
    &&& 0 <= at < s.len()
    &&& half.at_most(volume(s, at + 1)) || at == s.len() - 1
    &&& forall|j: int| 0 <= j < at ==> !half.at_most(#[trigger] volume(s, j + 1))
}

/// The median of a window is the price of one of its trades: the one in the order of prices with
/// which half of the volume is reached for the first time, or the last where none reaches it.
pub proof fn lemma_median_is_a_price(s: Seq<Trade>)
    requires
        s.len() > 0,
    ensures
        median_price(s) is Some,
        exists|i: int| 0 <= i < s.len() && (#[trigger] s[i]).price == median_price(s)->0,
        exists|at: int|
            #[trigger] reaches_half(by_price(s), at) && by_price(s)[at].price == median_price(
                s,
            )->0,
{
    broadcast use vstd::seq_lib::group_to_multiset_ensures;

    let sorted = by_price(s);
    lemma_by_price_keeps(s);
    let half = total_size(sorted).quotient(Binary64::whole(2));
    let at = lemma_price_at_volume(sorted, half, 0);
    assert(reaches_half(sorted, at));
    assert(sorted.contains(sorted[at]));
    assert(s.to_multiset().count(sorted[at]) > 0);
    assert(s.contains(sorted[at]));
}

/// Whether every size of a row is more than zero.
pub open spec fn sizes_positive(s: Seq<Trade>) -> bool {
    forall|i: int| 0 <= i < s.len() ==> Binary64::whole(0).less((#[trigger] s[i]).size)
}

/// The volume grows with every trade.
proof fn lemma_volume_grows(s: Seq<Trade>, count: int)
    requires
        sizes_positive(s),
        0 <= count <= s.len(),
    ensures
        !volume(s, count).nan(),
        !volume(s, count).negative(),
        count > 0 ==> volume(s, count - 1).at_most(volume(s, count)),
    decreases count,
{
    if count > 0 {
        lemma_volume_grows(s, count - 1);
        let v = volume(s, count - 1);
        let size = s[count - 1].size;
        let zero = Binary64::whole(0);
        laws::lemma_whole_exact(0);
        binary64::lemma_small_units(0);
        order::lemma_own_key(zero);
        assert(zero.magnitude() == 0);
        assert(zero.less(size));
        if v.finite() {
            order::lemma_own_key(v);
            order::lemma_sum_key(v, zero);
            if size.finite() {
                order::lemma_own_key(size);
                order::lemma_sum_key(v, size);
            }
        }
        order::lemma_sum_monotone(v, zero, v, size);
    }
}

proof fn lemma_volume_chain(s: Seq<Trade>, from: int, to: int)
    requires
        sizes_positive(s),
        0 <= from <= to <= s.len(),
    ensures
        volume(s, from).at_most(volume(s, to)),
    decreases to - from,
{
    lemma_volume_grows(s, to);
    if from < to {
        lemma_volume_chain(s, from, to - 1);
    }
}

proof fn lemma_volume_prefix(s: Seq<Trade>, count: int)
    requires
        count < s.len(),
    ensures
        volume(s.drop_last(), count) == volume(s, count),
    decreases count,
{
    if count > 0 {
        lemma_volume_prefix(s, count - 1);
    }
}

/// The volume of a whole row is the sum of its sizes.
proof fn lemma_volume_is_total(s: Seq<Trade>)
    requires
        sizes_positive(s),
        s.len() > 0,
    ensures
        volume(s, s.len() as int) == total_size(s),
    decreases s.len(),
{
    let rest = s.drop_last();
    if s.len() > 1 {
        assert forall|i: int| 0 <= i < rest.len() implies Binary64::whole(0).less(
            (#[trigger] rest[i]).size,
        ) by {
            assert(rest[i] == s[i]);
        }
        lemma_volume_is_total(rest);
        lemma_volume_prefix(s, s.len() - 1);
    } else {
        let size = s[0].size;
        laws::lemma_whole_exact(0);
        binary64::lemma_small_units(0);
        order::lemma_own_key(Binary64::whole(0));
        assert(Binary64::whole(0).less(size));
        if size.finite() {
            order::lemma_own_key(size);
        }
        assert(volume(s, 0) == Binary64::make(false, 0));
        assert(total_size(rest) == Binary64::make(true, 0));
        assert(volume(s, 1) == volume(s, 0).sum(s[0].size));
    }
}

/// Half of a number that is not negative is no more than the number, and more than zero but for the
/// smallest one.
proof fn lemma_half(x: Binary64)
    requires
        !x.nan(),
        !x.negative(),
    ensures
        x.quotient(Binary64::whole(2)).at_most(x),
        x.magnitude() > 1 ==> Binary64::whole(0).less(x.quotient(Binary64::whole(2))),
{
    let two = Binary64::whole(2);
    let o = binary64::one();
    lemma_pow2_pos(1074);
    laws::lemma_whole_exact(0);
    laws::lemma_whole_exact(2);
    binary64::lemma_small_units(0);
    order::lemma_own_key(Binary64::whole(0));
    if x.finite() {
        order::lemma_own_key(x);
        order::lemma_quotient_key(x, two);
        let u = x.units();
        assert((u * o) * 1 <= u * (2 * o)) by (nonlinear_arith)
            requires
                0 <= u,
                0 < o,
        ;
        order::lemma_nearest_order(u * o, 2 * o, u, 1);
        if x.magnitude() > 1 {
            let least = Binary64::make(false, 1);
            binary64::lemma_small_units(1);
            binary64::lemma_small_units(2);
            if x.magnitude() > 2 {
                binary64::lemma_units_increase(2, x.magnitude());
            }
            order::lemma_own_key(least);
            assert(1 * (2 * o) <= (u * o) * 1) by (nonlinear_arith)
                requires
                    2 <= u,
                    0 < o,
            ;
            order::lemma_nearest_order(1, 1, u * o, 2 * o);
        }
    }
}

/// Whether the first trades of a row, as many as a place says, are those of a lower price, and the
/// first ones up to another place those of no higher price.
pub open spec fn split_at(s: Seq<Trade>, price: Binary64, below: int, upto: int) -> bool {
    &&& 0 <= below < upto <= s.len()
    &&& forall|i: int|
        0 <= i < s.len() ==> ((#[trigger] s[i]).price.less(price) <==> i < below)
    &&& forall|i: int|
        0 <= i < s.len() ==> ((#[trigger] s[i]).price.at_most(price) <==> i < upto)
}

/// The median halves the volume: the trades of a lower price have less than half of it, and those
/// of no higher price at least half. The volumes are added up in the order of prices, rounded after
/// each trade. It takes a volume that is more than the smallest number, which has no half.
pub proof fn lemma_median_halves_the_volume(s: Seq<Trade>) -> (places: (int, int))
    requires
        s.len() > 0,
        prices_ordered(s),
        sizes_positive(s),
        total_size(by_price(s)).magnitude() > 1,
    ensures
        ({
            let sorted = by_price(s);
            let half = total_size(sorted).quotient(Binary64::whole(2));
            &&& median_price(s) is Some
            &&& split_at(sorted, median_price(s)->0, places.0, places.1)
            &&& volume(sorted, places.0).less(half)
            &&& half.at_most(volume(sorted, places.1))
        }),
{
    broadcast use vstd::seq_lib::group_to_multiset_ensures;

    let sorted = by_price(s);
    let half = total_size(sorted).quotient(Binary64::whole(2));
    lemma_by_price_keeps(s);
    lemma_by_price_sorts(s);
    assert forall|i: int| 0 <= i < sorted.len() implies Binary64::whole(0).less(
        (#[trigger] sorted[i]).size,
    ) by {
        assert(sorted.contains(sorted[i]));
        assert(s.to_multiset().count(sorted[i]) > 0);
        assert(s.contains(sorted[i]));
    }
    let n = sorted.len() as int;
    lemma_volume_grows(sorted, n);
    lemma_volume_is_total(sorted);
    lemma_half(total_size(sorted));
    let at = lemma_price_at_volume(sorted, half, 0);
    let p = sorted[at].price;
    let below = lemma_first_not_below(sorted, p, at);
    let upto = lemma_first_above(sorted, p, at);
    if below > 0 {
        lemma_volume_grows(sorted, below);
        assert(!half.at_most(volume(sorted, (below - 1) + 1)));
    } else {
        laws::lemma_whole_exact(0);
        binary64::lemma_small_units(0);
        order::lemma_own_key(Binary64::whole(0));
    }
    lemma_volume_chain(sorted, at + 1, upto);
    (below, upto)
}

proof fn lemma_first_not_below(s: Seq<Trade>, price: Binary64, at: int) -> (below: int)
    requires
        prices_ordered(s),
        forall|i: int, j: int|
            0 <= i < j < s.len() ==> (#[trigger] s[i]).price.at_most((#[trigger] s[j]).price),
        0 <= at < s.len(),
        !s[at].price.less(price),
        !price.nan(),
    ensures
        0 <= below <= at,
        forall|i: int|
            0 <= i < s.len() ==> ((#[trigger] s[i]).price.less(price) <==> i < below),
    decreases at,
{
    if at > 0 && !s[at - 1].price.less(price) {
        lemma_first_not_below(s, price, at - 1)
    } else {
        assert forall|i: int| 0 <= i < s.len() implies ((#[trigger] s[i]).price.less(price) <==> i
            < at) by {
            if i < at - 1 {
                assert(s[i].price.at_most(s[at - 1].price));
            } else if i > at {
                assert(s[at].price.at_most(s[i].price));
            }
            assert(!s[at].price.nan());
            assert(!s[i].price.nan());
        }
        at
    }
}

proof fn lemma_first_above(s: Seq<Trade>, price: Binary64, at: int) -> (upto: int)
    requires
        prices_ordered(s),
        forall|i: int, j: int|
            0 <= i < j < s.len() ==> (#[trigger] s[i]).price.at_most((#[trigger] s[j]).price),
        0 <= at < s.len(),
        s[at].price.at_most(price),
    ensures
        at < upto <= s.len(),
        forall|i: int|
            0 <= i < s.len() ==> ((#[trigger] s[i]).price.at_most(price) <==> i < upto),
    decreases s.len() - at,
{
    if at + 1 < s.len() && s[at + 1].price.at_most(price) {
        lemma_first_above(s, price, at + 1)
    } else {
        assert forall|i: int| 0 <= i < s.len() implies ((#[trigger] s[i]).price.at_most(price)
            <==> i < at + 1) by {
            if i < at {
                assert(s[i].price.at_most(s[at].price));
            } else if i > at + 1 {
                assert(s[at + 1].price.at_most(s[i].price));
            }
            assert(!s[i].price.nan());
        }
        at + 1
    }
}

/// Whether no two trades of a row have the same price.
pub open spec fn prices_distinct(s: Seq<Trade>) -> bool {
    forall|i: int, j: int|
        0 <= i < j < s.len() ==> !(#[trigger] s[i]).price.same((#[trigger] s[j]).price)
}

/// The median does not depend on the order in which trades of different prices came. Trades of one
/// price are added up in the order in which they came, and a sum of rounded numbers may differ with
/// that order.
pub proof fn lemma_median_ignores_the_order(s: Seq<Trade>, t: Seq<Trade>)
    requires
        s.to_multiset() == t.to_multiset(),
        prices_ordered(s),
        prices_distinct(s),
    ensures
        median_price(s) == median_price(t),
{
    broadcast use vstd::seq_lib::group_to_multiset_ensures;

    lemma_by_price_keeps(s);
    lemma_by_price_keeps(t);
    assert(s.to_multiset().len() == s.len() && t.to_multiset().len() == t.len());
    assert forall|i: int| 0 <= i < t.len() implies !(#[trigger] t[i]).price.nan() by {
        assert(t.contains(t[i]));
        assert(s.to_multiset().count(t[i]) > 0);
        assert(s.contains(t[i]));
    }
    lemma_by_price_sorts(s);
    lemma_by_price_sorts(t);
    lemma_by_price_distinct(s);
    lemma_sorted_alike(by_price(s), by_price(t));
}

proof fn lemma_by_price_distinct(s: Seq<Trade>)
    requires
        prices_distinct(s),
    ensures
        prices_distinct(by_price(s)),
    decreases s.len(),
{
    broadcast use vstd::seq_lib::group_to_multiset_ensures;

    if s.len() > 0 {
        let first = s.drop_last();
        let rest = by_price(first);
        let last = s.last();
        let place = insertion_place(rest, last, 0);
        lemma_by_price_keeps(first);
        lemma_insertion_place(rest, last, 0);
        assert forall|i: int, j: int| 0 <= i < j < first.len() implies !(
        #[trigger] first[i]).price.same((#[trigger] first[j]).price) by {
            assert(first[i] == s[i] && first[j] == s[j]);
        }
        lemma_by_price_distinct(first);
        assert forall|i: int| 0 <= i < rest.len() implies !(#[trigger] rest[i]).price.same(
            last.price,
        ) by {
            assert(rest.contains(rest[i]));
            assert(first.to_multiset().count(rest[i]) > 0);
            let k = choose|k: int| 0 <= k < first.len() && first[k] == rest[i];
            assert(s[k] == rest[i] && s[s.len() - 1] == last);
        }
        let r = by_price(s);
        assert forall|i: int, j: int| 0 <= i < j < r.len() implies !(#[trigger] r[i]).price.same(
            (#[trigger] r[j]).price,
        ) by {
            let a = if i < place {
                i
            } else {
                i - 1
            };
            let b = if j < place {
                j
            } else {
                j - 1
            };
            if i != place {
                assert(r[i] == rest[a]);
            }
            if j != place {
                assert(r[j] == rest[b]);
            }
        }
    }
}

proof fn lemma_sorted_alike(a: Seq<Trade>, b: Seq<Trade>)
    requires
        a.to_multiset() == b.to_multiset(),
        prices_ordered(a),
        prices_ordered(b),
        prices_distinct(a),
        forall|i: int, j: int|
            0 <= i < j < a.len() ==> (#[trigger] a[i]).price.at_most((#[trigger] a[j]).price),
        forall|i: int, j: int|
            0 <= i < j < b.len() ==> (#[trigger] b[i]).price.at_most((#[trigger] b[j]).price),
    ensures
        a == b,
    decreases a.len(),
{
    broadcast use vstd::seq_lib::group_to_multiset_ensures;

    assert(a.to_multiset().len() == a.len() && b.to_multiset().len() == b.len());
    if a.len() > 0 {
        let n = a.len() - 1;
        let x = a[n];
        let y = b[n];
        assert(b.contains(y));
        assert(a.to_multiset().count(y) > 0);
        assert(a.contains(y));
        let i = choose|i: int| 0 <= i < a.len() && a[i] == y;
        assert(a.contains(x));
        assert(b.to_multiset().count(x) > 0);
        assert(b.contains(x));
        let j = choose|j: int| 0 <= j < b.len() && b[j] == x;
        assert(!a[i].price.nan() && !a[n].price.nan());
        if i < n {
            assert(a[i].price.at_most(a[n].price));
            if j < n {
                assert(b[j].price.at_most(b[n].price));
            }
            assert(a[i].price.same(a[n].price));
        }
        assert(x == y);
        let c = a.drop_last();
        let d = b.drop_last();
        assert(a == c.push(x));
        assert(b == d.push(x));
        assert(c.to_multiset() =~= a.to_multiset().remove(x));
        assert(d.to_multiset() =~= b.to_multiset().remove(x));
        lemma_sorted_alike(c, d);
    }
}

/// Where trades come in the order of their receipt, a push lets those go that are older than the
/// window and no others.
pub proof fn lemma_push_keeps_the_window(s: Seq<Trade>, trade: Trade, window_secs: int)
    requires
        0 <= window_secs,
        forall|i: int, j: int|
            0 <= i < j < s.len() ==> (#[trigger] s[i]).local_ts <= (#[trigger] s[j]).local_ts,
    ensures
        ({
            let cutoff = clock::monus(trade.local_ts as int, window_secs * 1000);
            let kept = pushed(s, trade, window_secs);
            &&& kept.len() > 0 && kept.last() == trade
            &&& forall|i: int|
                0 <= i < kept.len() - 1 ==> (#[trigger] kept[i]).local_ts >= cutoff
            &&& forall|i: int|
                0 <= i < s.len() && (#[trigger] s[i]).local_ts >= cutoff ==> kept.contains(s[i])
        }),
{
    let cutoff = clock::monus(trade.local_ts as int, window_secs * 1000);
    let gone = lemma_evicted(s, cutoff);
    let kept = pushed(s, trade, window_secs);
    assert forall|i: int| 0 <= i < kept.len() - 1 implies (#[trigger] kept[i]).local_ts
        >= cutoff by {
        assert(kept[i] == s[gone + i]);
        assert(s[gone].local_ts <= s[gone + i].local_ts);
    }
    assert forall|i: int| 0 <= i < s.len() && (#[trigger] s[i]).local_ts >= cutoff implies
        kept.contains(s[i]) by {
        assert(kept[i - gone] == s[i]);
    }
}

/// How many trades at the front go.
proof fn lemma_evicted(s: Seq<Trade>, cutoff: int) -> (gone: int)
    ensures
        0 <= gone <= s.len(),
        evicted(s, cutoff) == s.skip(gone),
        gone < s.len() ==> s[gone].local_ts >= cutoff,
        forall|i: int| 0 <= i < gone ==> (#[trigger] s[i]).local_ts < cutoff,
    decreases s.len(),
{
    if s.len() > 0 && s[0].local_ts < cutoff {
        let gone = lemma_evicted(s.skip(1), cutoff) + 1;
        assert(s.skip(1).skip(gone - 1) == s.skip(gone));
        assert forall|i: int| 0 <= i < gone implies (#[trigger] s[i]).local_ts < cutoff by {
            if i > 0 {
                assert(s.skip(1)[i - 1] == s[i]);
            }
        }
        gone
    } else {
        assert(s.skip(0) == s);
        0
    }
}

} // verus!
