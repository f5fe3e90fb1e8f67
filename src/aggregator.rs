//! Per-symbol price history and the statistics derived from it.

use crate::price::{decimal_add_of, decimal_div_count_of, Price};
use crate::symbol_table::{lemma_lookup_at, lookup, total_items, Rows, SymbolTable};
use crate::tick::MarketTick;
use tokio::time::Instant;
use vstd::prelude::*;
use vstd::string::StringExecFns;

verus! {

#[verifier::external_type_specification]
#[verifier::external_body]
pub struct ExInstant(Instant);

/// Summary figures for one symbol's price history.
#[derive(Debug)]
pub struct PriceStats {
    pub symbol: String,
    pub count: usize,
    pub min_price: Price,
    pub max_price: Price,
    pub avg_price: Price,
    /// Milliseconds since the aggregator was created.
    pub duration_millis: u128,
}

/// Statistics for every symbol with history, and the totals over all of them.
#[derive(Debug)]
pub struct AggregateSummary {
    pub symbols: Vec<PriceStats>,
    pub symbol_count: usize,
    pub total_ticks: u128,
    pub runtime_millis: u128,
}

/// Sum of `s` from zero, left to right, as `rust_decimal` adds; `None` once
/// an addition overflows.
pub open spec fn decimal_total(s: Seq<Price>) -> Option<Price>
    decreases s.len(),
{
    if s.len() == 0 {
        Some(Price { mantissa: 0, scale: 0 })
    } else {
        match decimal_total(s.drop_last()) {
            Some(t) => decimal_add_of(t, s.last()),
            None => None,
        }
    }
}

/// The decimal mean of a non-empty history.
pub open spec fn decimal_mean(s: Seq<Price>) -> Option<Price> {
    match decimal_total(s) {
        Some(t) => decimal_div_count_of(t, s.len() as int),
        None => None,
    }
}

/// `p` occurs in `s` and no element of `s` is below it.
pub open spec fn is_min_of(p: Price, s: Seq<Price>) -> bool {
    &&& s.contains(p)
    &&& forall|i: int| 0 <= i < s.len() ==> p.value_le(#[trigger] s[i])
}

/// `p` occurs in `s` and no element of `s` is above it.
pub open spec fn is_max_of(p: Price, s: Seq<Price>) -> bool {
    &&& s.contains(p)
    &&& forall|i: int| 0 <= i < s.len() ==> (#[trigger] s[i]).value_le(p)
}

/// `st` describes the history `h` of `symbol`.
pub open spec fn describes(st: PriceStats, symbol: Seq<char>, h: Seq<Price>) -> bool {
    &&& st.symbol@ == symbol
    &&& st.count == h.len()
    &&& is_min_of(st.min_price, h)
    &&& is_max_of(st.max_price, h)
    &&& decimal_mean(h) == Some(st.avg_price)
}

/// What statistics a history yields: none when it is empty or its sum or
/// mean overflows.
pub open spec fn stats_for(r: Option<PriceStats>, symbol: Seq<char>, h: Seq<Price>) -> bool {
    &&& (r is Some <==> h.len() > 0 && decimal_mean(h) is Some)
    &&& (r matches Some(st) ==> describes(st, symbol, h))
}

pub proof fn lemma_value_le_trans(a: Price, b: Price, c: Price)
    requires
        a.value_le(b),
        b.value_le(c),
    ensures
        a.value_le(c),
{
    let pa = crate::price::pow10(a.scale as nat);
    let pb = crate::price::pow10(b.scale as nat);
    let pc = crate::price::pow10(c.scale as nat);
    crate::price::lemma_pow10_positive(a.scale as nat);
    crate::price::lemma_pow10_positive(b.scale as nat);
    crate::price::lemma_pow10_positive(c.scale as nat);
    let (am, bm, cm) = (a.mantissa as int, b.mantissa as int, c.mantissa as int);
    assert(am * pb <= bm * pa);
    assert(bm * pc <= cm * pb);
    assert(am * pb * pc <= bm * pa * pc) by (nonlinear_arith)
        requires
            am * pb <= bm * pa,
            pc > 0,
    ;
    assert(bm * pc * pa <= cm * pb * pa) by (nonlinear_arith)
        requires
            bm * pc <= cm * pb,
            pa > 0,
    ;
    assert(am * pc * pb <= cm * pa * pb) by (nonlinear_arith)
        requires
            am * pb * pc <= bm * pa * pc,
            bm * pc * pa <= cm * pb * pa,
    ;
    assert(am * pc <= cm * pa) by (nonlinear_arith)
        requires
            am * pc * pb <= cm * pa * pb,
            pb > 0,
    ;
}

/// Accumulates the prices of ticks per symbol, in arrival order.
pub struct PriceAggregator {
    symbol_prices: SymbolTable<Price>,
    start_time: Instant,
}

impl View for PriceAggregator {
    type V = Rows<Price>;

    closed spec fn view(&self) -> Rows<Price> {
        self.symbol_prices@
    }
}

impl PriceAggregator {
    /// Every recorded price is representable.
    pub closed spec fn wf(&self) -> bool {
        &&& self.symbol_prices.wf()
        &&& forall|k: Seq<char>, j: int|
            0 <= j < lookup(self@, k).len() ==> (#[trigger] lookup(self@, k)[j]).wf()
    }

    /// The prices recorded for `symbol`, oldest first.
    pub open spec fn history(&self, symbol: Seq<char>) -> Seq<Price> {
        lookup(self@, symbol)
    }

    /// The instant the aggregator was created.
    pub closed spec fn started(&self) -> Instant {
        self.start_time
    }

    /// Number of ticks recorded over all symbols.
    pub open spec fn tick_total(&self) -> int {
        total_items(self@)
    }

    pub fn new() -> (r: PriceAggregator)
        ensures
            r.wf(),
            r@ == Seq::<(Seq<char>, Seq<Price>)>::empty(),
    {
        PriceAggregator { symbol_prices: SymbolTable::new(), start_time: instant_now() }
    }

    /// Appends the tick's price to its symbol's history.
    pub fn add_tick(&mut self, tick: MarketTick)
        requires
            old(self).wf(),
            tick.wf(),
        ensures
            final(self).wf(),
            final(self).history(tick.symbol@) == old(self).history(tick.symbol@).push(tick.price),
            forall|k: Seq<char>|
                k != tick.symbol@ ==> #[trigger] final(self).history(k) == old(self).history(k),
            final(self).tick_total() == old(self).tick_total() + 1,
            final(self).started() == old(self).started(),
            tick_added(*old(self), *final(self), tick.symbol@, tick.price),
    {
        let ghost sym = tick.symbol@;
        self.symbol_prices.push(tick.symbol, tick.price);
        proof {
            assert forall|k: Seq<char>, j: int|
                0 <= j < lookup(self@, k).len() implies (#[trigger] lookup(self@, k)[j]).wf() by {
                if k != sym {
                    assert(lookup(self@, k) == lookup(old(self)@, k));
                } else if j < lookup(old(self)@, k).len() {
                    assert(lookup(self@, k)[j] == lookup(old(self)@, k)[j]);
                }
            }
        }
    }

    /// Statistics of `symbol`'s history, with `elapsed_millis` as its duration.
    pub fn statistics_at(&self, symbol: &String, elapsed_millis: u128) -> (r: Option<PriceStats>)
        requires
            self.wf(),
        ensures
            stats_for(r, symbol@, self.history(symbol@)),
            r matches Some(st) ==> st.duration_millis == elapsed_millis,
    {
        let i = match self.symbol_prices.find(symbol) {
            Some(i) => i,
            None => {
                proof {
                    assert(self.history(symbol@) =~= Seq::<Price>::empty());
                }
                return None;
            },
        };
        let prices = self.symbol_prices.items_at(i);
        let ghost h = prices@;
        proof {
            lemma_lookup_at(self@, i as int);
            assert(h == self.history(symbol@));
            assert(h.len() > 0);
        }
        let mut min_price = prices[0];
        let mut max_price = prices[0];
        let mut total: Option<Price> = Some(Price::zero());
        let mut j: usize = 0;
        while j < prices.len()
            invariant
                h == prices@,
                h.len() > 0,
                j <= h.len(),
                forall|m: int| 0 <= m < h.len() ==> (#[trigger] h[m]).wf(),
                h.contains(min_price),
                h.contains(max_price),
                min_price.wf(),
                max_price.wf(),
                forall|m: int| 0 <= m < j ==> min_price.value_le(#[trigger] h[m]),
                forall|m: int| 0 <= m < j ==> (#[trigger] h[m]).value_le(max_price),
                total == decimal_total(h.take(j as int)),
                total matches Some(t) ==> t.wf(),
            decreases h.len() - j,
        {
            let p = prices[j];
            proof {
                assert(h[j as int] == p);
                assert(p.wf());
            }
            if p.less_than(min_price) {
                proof {
                    assert forall|m: int| 0 <= m < j + 1 implies p.value_le(#[trigger] h[m]) by {
                        if m < j {
                            lemma_value_le_trans(p, min_price, h[m]);
                        }
                    }
                }
                min_price = p;
            }
            if !p.less_than(max_price) {
                proof {
                    assert forall|m: int| 0 <= m < j + 1 implies (#[trigger] h[m]).value_le(p) by {
                        if m < j {
                            lemma_value_le_trans(h[m], max_price, p);
                        }
                    }
                }
                max_price = p;
            }
            proof {
                assert(h.take(j as int + 1).drop_last() =~= h.take(j as int));
            }
            total = match total {
                Some(t) => t.checked_add(p),
                None => None,
            };
            j += 1;
        }
        proof {
            assert(h.take(j as int) =~= h);
        }
        let sum = match total {
            Some(t) => t,
            None => {
                return None;
            },
        };
        let count = prices.len();
        match sum.checked_div_count(count) {
            Some(avg_price) => Some(
                PriceStats {
                    symbol: symbol.clone(),
                    count,
                    min_price,
                    max_price,
                    avg_price,
                    duration_millis: elapsed_millis,
                },
            ),
            None => None,
        }
    }

    /// Statistics of `symbol`'s history, timed from the aggregator's creation.
    pub fn get_statistics(&self, symbol: &str) -> (r: Option<PriceStats>)
        requires
            self.wf(),
        ensures
            stats_for(r, symbol@, self.history(symbol@)),
    {
        let elapsed = millis_since(&self.start_time);
        let owned = String::from_str(symbol);
        self.statistics_at(&owned, elapsed)
    }

    /// Number of ticks recorded over all symbols.
    pub fn total_ticks(&self) -> (r: u128)
        requires
            self.wf(),
        ensures
            r == self.tick_total(),
    {
        let mut acc: u128 = 0;
        let mut i: usize = 0;
        let n = self.symbol_prices.len();
        while i < n
            invariant
                n == self@.len(),
                i <= n,
                acc == total_items(self@.take(i as int)),
                acc <= i * (usize::MAX as int),
            decreases n - i,
        {
            let len = self.symbol_prices.items_at(i).len();
            proof {
                assert(self@.take(i as int + 1).drop_last() =~= self@.take(i as int));
                let m = usize::MAX as int;
                assert(acc + len <= (i + 1) * m) by (nonlinear_arith)
                    requires
                        acc <= i * m,
                        len <= m,
                ;
                assert((i + 1) * m <= m * m) by (nonlinear_arith)
                    requires
                        i < m,
                        m > 0,
                ;
                assert(m * m <= 0xFFFF_FFFF_FFFF_FFFF * 0xFFFF_FFFF_FFFF_FFFF) by (nonlinear_arith)
                    requires
                        0 < m <= 0xFFFF_FFFF_FFFF_FFFF,
                ;
            }
            acc = acc + len as u128;
            i += 1;
        }
        proof {
            assert(self@.take(n as int) =~= self@);
        }
        acc
    }

    /// Statistics of each symbol with history, each symbol once, with the
    /// totals.
    pub fn summary(&self) -> (r: AggregateSummary)
        requires
            self.wf(),
        ensures
            r.symbol_count == self@.len(),
            r.total_ticks == self.tick_total(),
            forall|a: int|
                0 <= a < r.symbols.len() ==> exists|i: int|
                    0 <= i < self@.len() && describes(
                        #[trigger] r.symbols@[a],
                        self@[i].0,
                        self.history(self@[i].0),
                    ),
            forall|i: int|
                0 <= i < self@.len() && #[trigger] decimal_mean(self@[i].1) is Some ==> exists|
                    a: int,
                |
                    0 <= a < r.symbols.len() && (#[trigger] r.symbols@[a]).symbol@ == self@[i].0,
            forall|a: int, b: int|
                0 <= a < b < r.symbols.len() ==> (#[trigger] r.symbols@[a]).symbol@ != (
                #[trigger] r.symbols@[b]).symbol@,
    {
        let elapsed = millis_since(&self.start_time);
        let n = self.symbol_prices.len();
        let mut symbols: Vec<PriceStats> = Vec::new();
        let ghost mut idx: Seq<int> = Seq::empty();
        let mut i: usize = 0;
        while i < n
            invariant
                self.wf(),
                idx.len() == symbols.len(),
                forall|a: int|
                    0 <= a < symbols.len() ==> 0 <= #[trigger] idx[a] < i && symbols@[a].symbol@
                        == self@[idx[a]].0,
                forall|a: int, b: int|
                    0 <= a < b < symbols.len() ==> (#[trigger] symbols@[a]).symbol@ != (
                    #[trigger] symbols@[b]).symbol@,
                n == self@.len(),
                i <= n,
                forall|a: int|
                    0 <= a < symbols.len() ==> exists|m: int|
                        0 <= m < i && describes(
                            #[trigger] symbols@[a],
                            self@[m].0,
                            self.history(self@[m].0),
                        ),
                forall|m: int|
                    0 <= m < i && #[trigger] decimal_mean(self@[m].1) is Some ==> exists|
                        a: int,
                    |
                        0 <= a < symbols.len() && (#[trigger] symbols@[a]).symbol@ == self@[m].0,
            decreases n - i,
        {
            let symbol = self.symbol_prices.symbol_at(i);
            let st = self.statistics_at(symbol, elapsed);
            proof {
                lemma_lookup_at(self@, i as int);
            }
            match st {
                Some(st) => {
                    let ghost old_symbols = symbols@;
                    let ghost prev_idx = idx;
                    symbols.push(st);
                    proof {
                        idx = idx.push(i as int);
                        let last = symbols.len() - 1;
                        assert(symbols@[last as int].symbol@ == self@[i as int].0);
                        assert forall|a: int|
                            0 <= a < symbols.len() implies 0 <= #[trigger] idx[a] < i + 1
                            && symbols@[a].symbol@ == self@[idx[a]].0 by {
                            if a < last {
                                assert(symbols@[a] == old_symbols[a]);
                                assert(idx[a] == prev_idx[a]);
                            }
                        }
                        assert forall|a: int, b: int|
                            0 <= a < b < symbols.len() implies (#[trigger] symbols@[a]).symbol@
                            != (#[trigger] symbols@[b]).symbol@ by {
                            assert(symbols@[a] == old_symbols[a]);
                            if b < last {
                                assert(symbols@[b] == old_symbols[b]);
                            } else {
                                assert(idx[a] == prev_idx[a]);
                                assert(idx[a] < i);
                            }
                        }
                        assert forall|a: int| 0 <= a < symbols.len() implies exists|m: int|
                            0 <= m < i + 1 && describes(
                                #[trigger] symbols@[a],
                                self@[m].0,
                                self.history(self@[m].0),
                            ) by {
                            if a < old_symbols.len() {
                                assert(symbols@[a] == old_symbols[a]);
                            } else {
                                assert(describes(
                                    symbols@[a],
                                    self@[i as int].0,
                                    self.history(self@[i as int].0),
                                ));
                            }
                        }
                        assert forall|m: int|
                            0 <= m < i + 1 && #[trigger] decimal_mean(self@[m].1) is Some implies exists|
                                a: int,
                            |
                                0 <= a < symbols.len() && (#[trigger] symbols@[a]).symbol@
                                    == self@[m].0 by {
                            if m < i {
                                let a = choose|a: int|
                                    0 <= a < old_symbols.len() && (#[trigger] old_symbols[a]).symbol@
                                        == self@[m].0;
                                assert(symbols@[a] == old_symbols[a]);
                            } else {
                                assert(symbols@[last as int].symbol@ == self@[m].0);
                            }
                        }
                    }
                },
                None => {},
            }
            i += 1;
        }
        let total_ticks = self.total_ticks();
        let r = AggregateSummary { symbols, symbol_count: n, total_ticks, runtime_millis: elapsed };
        assert(r.symbols@ == symbols@);
        r
    }
}

/// `after` is `before` with one tick of `symbol` at `price` recorded.
pub open spec fn tick_added(
    before: PriceAggregator,
    after: PriceAggregator,
    symbol: Seq<char>,
    price: Price,
) -> bool {
    &&& after.history(symbol) == before.history(symbol).push(price)
    &&& forall|k: Seq<char>| k != symbol ==> #[trigger] after.history(k) == before.history(k)
    &&& after.tick_total() == before.tick_total() + 1
    &&& after.started() == before.started()
}

/// The symbols of `ticks`, in order.
pub open spec fn symbols_of(ticks: Seq<MarketTick>) -> Seq<Seq<char>> {
    ticks.map_values(|t: MarketTick| t.symbol@)
}

/// However the ticks of a stream are shared out among competing workers, a
/// run of recordings, one per tick in whatever order they were taken, leaves
/// the total count grown by exactly the number of ticks, and each symbol's
/// count grown by exactly the number of its ticks.
pub proof fn lemma_every_tick_counted_once(states: Seq<PriceAggregator>, ticks: Seq<MarketTick>)
    requires
        states.len() == ticks.len() + 1,
        forall|i: int|
            0 <= i < ticks.len() ==> tick_added(
                #[trigger] states[i],
                states[i + 1],
                ticks[i].symbol@,
                ticks[i].price,
            ),
    ensures
        states.last().tick_total() == states[0].tick_total() + ticks.len(),
        forall|k: Seq<char>|
            #[trigger] states.last().history(k).len() == states[0].history(k).len()
                + symbols_of(ticks).to_multiset().count(k),
    decreases ticks.len(),
{
    broadcast use vstd::seq_lib::group_to_multiset_ensures;

    if ticks.len() == 0 {
        assert(symbols_of(ticks) =~= Seq::<Seq<char>>::empty());
        assert forall|k: Seq<char>|
            #[trigger] states.last().history(k).len() == states[0].history(k).len()
                + symbols_of(ticks).to_multiset().count(k) by {
            assert(symbols_of(ticks).to_multiset() =~= vstd::multiset::Multiset::empty());
        }
    } else {
        let n = ticks.len() - 1;
        assert forall|i: int| 0 <= i < ticks.drop_last().len() implies tick_added(
            #[trigger] states.drop_last()[i],
            states.drop_last()[i + 1],
            ticks.drop_last()[i].symbol@,
            ticks.drop_last()[i].price,
        ) by {
            assert(states.drop_last()[i] == states[i]);
            assert(states.drop_last()[i + 1] == states[i + 1]);
            assert(tick_added(states[i], states[i + 1], ticks[i].symbol@, ticks[i].price));
        }
        lemma_every_tick_counted_once(states.drop_last(), ticks.drop_last());
        assert(tick_added(states[n], states[n + 1], ticks[n].symbol@, ticks[n].price));
        assert(symbols_of(ticks) =~= symbols_of(ticks.drop_last()).push(ticks[n].symbol@));
        assert(states.drop_last().last() == states[n]);
        assert forall|k: Seq<char>|
            #[trigger] states.last().history(k).len() == states[0].history(k).len()
                + symbols_of(ticks).to_multiset().count(k) by {
            assert(states.drop_last()[0] == states[0]);
            assert(states.drop_last().last().history(k).len() == states[0].history(k).len()
                + symbols_of(ticks.drop_last()).to_multiset().count(k));
        }
    }
}

/// The fan-in result does not depend on how many workers shared the stream:
/// two runs from empty aggregators over ticks with the same symbols, in any
/// order, end with the same count for every symbol and the same total.
pub proof fn lemma_counts_independent_of_workers(
    states1: Seq<PriceAggregator>,
    ticks1: Seq<MarketTick>,
    states2: Seq<PriceAggregator>,
    ticks2: Seq<MarketTick>,
)
    requires
        states1.len() == ticks1.len() + 1,
        states2.len() == ticks2.len() + 1,
        forall|i: int|
            0 <= i < ticks1.len() ==> tick_added(
                #[trigger] states1[i],
                states1[i + 1],
                ticks1[i].symbol@,
                ticks1[i].price,
            ),
        forall|i: int|
            0 <= i < ticks2.len() ==> tick_added(
                #[trigger] states2[i],
                states2[i + 1],
                ticks2[i].symbol@,
                ticks2[i].price,
            ),
        states1[0]@ == Seq::<(Seq<char>, Seq<Price>)>::empty(),
        states2[0]@ == Seq::<(Seq<char>, Seq<Price>)>::empty(),
        symbols_of(ticks1).to_multiset() == symbols_of(ticks2).to_multiset(),
    ensures
        states1.last().tick_total() == states2.last().tick_total(),
        states1.last().tick_total() == ticks1.len(),
        forall|k: Seq<char>|
            #[trigger] states1.last().history(k).len() == states2.last().history(k).len(),
{
    broadcast use vstd::seq_lib::group_to_multiset_ensures;

    lemma_every_tick_counted_once(states1, ticks1);
    lemma_every_tick_counted_once(states2, ticks2);
    assert(total_items(states1[0]@) == 0);
    assert(total_items(states2[0]@) == 0);
    assert(symbols_of(ticks1).len() == ticks1.len());
    assert(symbols_of(ticks2).len() == ticks2.len());
    symbols_of(ticks1).to_multiset_ensures();
    symbols_of(ticks2).to_multiset_ensures();
    assert(ticks1.len() == ticks2.len());
    assert forall|k: Seq<char>|
        #[trigger] states1.last().history(k).len() == states2.last().history(k).len() by {
        assert(!crate::symbol_table::has_symbol(states1[0]@, k));
        assert(!crate::symbol_table::has_symbol(states2[0]@, k));
        assert(states1.last().history(k).len() == states1[0].history(k).len()
            + symbols_of(ticks1).to_multiset().count(k));
        assert(states2.last().history(k).len() == states2[0].history(k).len()
            + symbols_of(ticks2).to_multiset().count(k));
    }
}

/// Relies on `tokio::time::Instant::now`: the current instant.
#[verifier::external_body]
fn instant_now() -> (r: Instant) {
    Instant::now()
}

/// Relies on `tokio::time::Instant::elapsed` and `Duration::as_millis`: time
/// since `start`; nothing is promised of its value.
#[verifier::external_body]
fn millis_since(start: &Instant) -> (r: u128) {
    start.elapsed().as_millis()
}

} // verus!
