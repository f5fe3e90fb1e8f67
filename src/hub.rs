//! The state owned by the hub's event loop and the rules by which each event
//! changes it. The loop itself, which waits on channels, runs outside.

use crate::aggregator::{describes, decimal_mean, tick_added, PriceAggregator, PriceStats};
use crate::symbol_table::{
    kept, lemma_lookup_at, lemma_lookup_nonempty, lookup, Rows, SymbolTable,
};
use crate::tick::MarketTick;
use vstd::prelude::*;

verus! {

/// Phase of the hub; `ShuttingDown` is terminal.
#[derive(Clone, Copy, Debug, PartialEq, Eq, Structural)]
pub enum HubState {
    Running,
    ShuttingDown,
}

/// What the event loop observed on one iteration.
#[derive(Clone, Copy, Debug, PartialEq, Eq, Structural)]
pub enum LoopEvent {
    TickArrived,
    TickSourceClosed,
    CommandArrived,
    CommandSourceClosed,
    ShutdownCommand,
    ShutdownSignal,
}

/// What the event loop does next.
#[derive(Clone, Copy, Debug, PartialEq, Eq, Structural)]
pub enum LoopAction {
    /// Keep waiting for events.
    Continue,
    /// Notify every shutdown listener once, then leave the loop.
    NotifyAndStop,
    /// Leave the loop.
    Stop,
}

/// The transition of the event loop on one event.
pub open spec fn next_step(state: HubState, event: LoopEvent) -> (HubState, LoopAction) {
    match state {
        HubState::ShuttingDown => (HubState::ShuttingDown, LoopAction::Stop),
        HubState::Running => match event {
            LoopEvent::ShutdownCommand => (HubState::ShuttingDown, LoopAction::NotifyAndStop),
            LoopEvent::ShutdownSignal => (HubState::ShuttingDown, LoopAction::Stop),
            _ => (HubState::Running, LoopAction::Continue),
        },
    }
}

/// How many shutdown notifications a run of `events` from `state` sends.
pub open spec fn notifications(state: HubState, events: Seq<LoopEvent>) -> nat
    decreases events.len(),
{
    if events.len() == 0 {
        0
    } else {
        let (s, a) = next_step(state, events[0]);
        (if a == LoopAction::NotifyAndStop {
            1nat
        } else {
            0nat
        }) + notifications(s, events.drop_first())
    }
}

/// Once a shutdown is requested, the loop leaves on that same iteration, and
/// it leaves on every iteration after that.
pub proof fn lemma_shutdown_stops_loop(state: HubState, event: LoopEvent)
    ensures
        (event == LoopEvent::ShutdownCommand || event == LoopEvent::ShutdownSignal)
            ==> next_step(state, event).0 == HubState::ShuttingDown && next_step(state, event).1
            != LoopAction::Continue,
        state == HubState::ShuttingDown ==> next_step(state, event) == (
        HubState::ShuttingDown,
        LoopAction::Stop,
        ),
        state == HubState::Running && event == LoopEvent::ShutdownCommand ==> next_step(
            state,
            event,
        ).1 == LoopAction::NotifyAndStop,
{
}

/// Over any run of events, shutdown listeners are notified at most once, and
/// exactly once when a shutdown command reaches a running hub first.
pub proof fn lemma_single_notification(state: HubState, events: Seq<LoopEvent>)
    ensures
        notifications(state, events) <= 1,
        state == HubState::ShuttingDown ==> notifications(state, events) == 0,
        state == HubState::Running && events.len() > 0 && events[0] == LoopEvent::ShutdownCommand
            ==> notifications(state, events) == 1,
    decreases events.len(),
{
    if events.len() > 0 {
        let (s, a) = next_step(state, events[0]);
        lemma_single_notification(s, events.drop_first());
        if a == LoopAction::NotifyAndStop {
            assert(s == HubState::ShuttingDown);
        }
    }
}

/// A subscriber whose delivery succeeded stays subscribed, and when every
/// delivery of a tick succeeds the subscriber list is unchanged, so each
/// subscriber is offered every later tick of its symbol, in order.
pub proof fn lemma_delivered_stay<H>(items: Seq<H>, keep: Seq<bool>, i: int)
    requires
        keep.len() == items.len(),
        0 <= i < items.len(),
    ensures
        keep[i] ==> kept(items, keep).contains(items[i]),
        (forall|j: int| 0 <= j < keep.len() ==> #[trigger] keep[j]) ==> kept(items, keep) == items,
    decreases items.len(),
{
    let n = items.len() - 1;
    let (pi, pk) = (items.drop_last(), keep.drop_last());
    if i < n {
        lemma_delivered_stay(pi, pk, i);
        if keep[i] {
            assert(pi[i] == items[i]);
            let r = kept(pi, pk);
            let j = choose|j: int| 0 <= j < r.len() && r[j] == items[i];
            if keep.last() {
                assert(kept(items, keep)[j] == items[i]);
            }
        }
    } else {
        if keep[i] {
            assert(kept(items, keep).last() == items[i]);
        }
    }
    if forall|j: int| 0 <= j < keep.len() ==> #[trigger] keep[j] {
        lemma_all_kept(items, keep);
    }
}

proof fn lemma_all_kept<H>(items: Seq<H>, keep: Seq<bool>)
    requires
        keep.len() == items.len(),
        forall|j: int| 0 <= j < keep.len() ==> #[trigger] keep[j],
    ensures
        kept(items, keep) == items,
    decreases items.len(),
{
    if items.len() > 0 {
        let (pi, pk) = (items.drop_last(), keep.drop_last());
        assert forall|j: int| 0 <= j < pk.len() implies #[trigger] pk[j] by {
            assert(pk[j] == keep[j]);
        }
        lemma_all_kept(pi, pk);
        assert(keep[keep.len() - 1]);
        assert(pi.push(items.last()) =~= items);
    }
}

/// A subscriber whose delivery failed is gone after eviction, and no other
/// subscriber is lost with it.
pub proof fn lemma_failed_evicted<H>(items: Seq<H>, keep: Seq<bool>, i: int)
    requires
        keep.len() == items.len(),
        0 <= i < items.len(),
        !keep[i],
        items.no_duplicates(),
    ensures
        !kept(items, keep).contains(items[i]),
        forall|j: int| 0 <= j < items.len() && #[trigger] keep[j] ==> kept(items, keep).contains(
            items[j],
        ),
    decreases items.len(),
{
    let n = items.len() - 1;
    let (pi, pk) = (items.drop_last(), keep.drop_last());
    crate::symbol_table::lemma_kept_len_bound(pi, pk);
    if i < n {
        assert(pi[i] == items[i]);
        lemma_failed_evicted(pi, pk, i);
        if keep.last() {
            assert(items[n] != items[i]);
            assert(kept(items, keep) == kept(pi, pk).push(items[n]));
            if kept(items, keep).contains(items[i]) {
                let j = choose|j: int|
                    0 <= j < kept(items, keep).len() && kept(items, keep)[j] == items[i];
                if j < kept(pi, pk).len() {
                    assert(kept(pi, pk)[j] == items[i]);
                }
            }
        }
    } else {
        if pi.contains(items[i]) {
            let m = choose|m: int| 0 <= m < pi.len() && pi[m] == items[i];
            assert(items[m] == items[i]);
        }
    }
    assert forall|j: int| 0 <= j < items.len() && #[trigger] keep[j] implies kept(
        items,
        keep,
    ).contains(items[j]) by {
        lemma_delivered_stay(items, keep, j);
    }
}

/// `lists[i + 1]` is what a distribution pass leaves of `lists[i]`, keeping
/// the subscribers marked in `marks[i]`.
pub open spec fn distribution_run<H>(lists: Seq<Seq<H>>, marks: Seq<Seq<bool>>) -> bool {
    &&& lists.len() == marks.len() + 1
    &&& forall|i: int|
        0 <= i < marks.len() ==> (#[trigger] marks[i]).len() == lists[i].len() && lists[i + 1]
            == kept(lists[i], marks[i])
}

proof fn lemma_kept_no_duplicates<H>(items: Seq<H>, keep: Seq<bool>)
    requires
        items.no_duplicates(),
    ensures
        kept(items, keep).no_duplicates(),
    decreases items.len(),
{
    if items.len() > 0 && keep.len() > 0 {
        let (pi, pk) = (items.drop_last(), keep.drop_last());
        assert(pi.no_duplicates()) by {
            assert forall|a: int, b: int|
                0 <= a < pi.len() && 0 <= b < pi.len() && a != b implies pi[a] != pi[b] by {
                assert(pi[a] == items[a] && pi[b] == items[b]);
            }
        }
        lemma_kept_no_duplicates(pi, pk);
        crate::symbol_table::lemma_kept_len_bound(pi, pk);
        if keep.last() {
            let r = kept(pi, pk);
            let x = items.last();
            if r.contains(x) {
                assert(pi.contains(x));
                let m = choose|m: int| 0 <= m < pi.len() && pi[m] == x;
                assert(items[m] == items[items.len() - 1]);
            }
            assert forall|a: int, b: int|
                0 <= a < r.push(x).len() && 0 <= b < r.push(x).len() && a != b implies r.push(
                x,
            )[a] != r.push(x)[b] by {
                if a < r.len() && b < r.len() {
                    assert(r.push(x)[a] == r[a] && r.push(x)[b] == r[b]);
                } else if a < r.len() {
                    assert(r.push(x)[a] == r[a]);
                    assert(r.contains(r[a]));
                } else if b < r.len() {
                    assert(r.push(x)[b] == r[b]);
                    assert(r.contains(r[b]));
                }
            }
        }
    }
}

/// A subscriber whose deliveries all succeed stays listed through any number
/// of distribution passes, so it is offered every tick of its symbol, in the
/// order the passes run; when no handle is listed twice to begin with, none
/// is listed twice later, so it is offered each tick exactly once.
pub proof fn lemma_live_subscriber_offered_every_tick<H>(
    lists: Seq<Seq<H>>,
    marks: Seq<Seq<bool>>,
    h: H,
)
    requires
        distribution_run(lists, marks),
        lists[0].contains(h),
        forall|i: int, j: int|
            0 <= i < marks.len() && 0 <= j < lists[i].len() && lists[i][j] == h
                ==> #[trigger] marks[i][j],
    ensures
        forall|i: int| 0 <= i < lists.len() ==> (#[trigger] lists[i]).contains(h),
        lists[0].no_duplicates() ==> forall|i: int|
            0 <= i < lists.len() ==> (#[trigger] lists[i]).no_duplicates(),
    decreases marks.len(),
{
    if marks.len() > 0 {
        let n = marks.len() - 1;
        let (pl, pm) = (lists.drop_last(), marks.drop_last());
        assert forall|i: int| 0 <= i < pm.len() implies (#[trigger] pm[i]).len() == pl[i].len()
            && pl[i + 1] == kept(pl[i], pm[i]) by {
            assert(pm[i] == marks[i] && pl[i] == lists[i] && pl[i + 1] == lists[i + 1]);
        }
        assert forall|i: int, j: int|
            0 <= i < pm.len() && 0 <= j < pl[i].len() && pl[i][j] == h implies #[trigger] pm[i][j] by {
            assert(pm[i] == marks[i] && pl[i] == lists[i]);
            assert(marks[i][j]);
        }
        lemma_live_subscriber_offered_every_tick(pl, pm, h);
        assert(pl[n] == lists[n]);
        assert(lists[n].contains(h));
        let j = choose|j: int| 0 <= j < lists[n].len() && lists[n][j] == h;
        assert(marks[n][j]);
        lemma_delivered_stay(lists[n], marks[n], j);
        assert forall|i: int| 0 <= i < lists.len() implies (#[trigger] lists[i]).contains(h) by {
            if i <= n {
                assert(pl[i] == lists[i]);
            }
        }
        if lists[0].no_duplicates() {
            assert(pl[0] == lists[0]);
            lemma_kept_no_duplicates(lists[n], marks[n]);
            assert forall|i: int| 0 <= i < lists.len() implies (
            #[trigger] lists[i]).no_duplicates() by {
                if i <= n {
                    assert(pl[i] == lists[i]);
                }
            }
        }
    }
}

/// Once a subscriber is off the list (its one failed delivery evicted it),
/// no later distribution pass lists it again, so it is never offered another
/// tick.
pub proof fn lemma_evicted_never_offered_again<H>(lists: Seq<Seq<H>>, marks: Seq<Seq<bool>>, h: H)
    requires
        distribution_run(lists, marks),
        !lists[0].contains(h),
    ensures
        forall|i: int| 0 <= i < lists.len() ==> !(#[trigger] lists[i]).contains(h),
    decreases marks.len(),
{
    if marks.len() > 0 {
        let n = marks.len() - 1;
        let (pl, pm) = (lists.drop_last(), marks.drop_last());
        assert forall|i: int| 0 <= i < pm.len() implies (#[trigger] pm[i]).len() == pl[i].len()
            && pl[i + 1] == kept(pl[i], pm[i]) by {
            assert(pm[i] == marks[i] && pl[i] == lists[i] && pl[i + 1] == lists[i + 1]);
        }
        lemma_evicted_never_offered_again(pl, pm, h);
        assert(pl[n] == lists[n]);
        crate::symbol_table::lemma_kept_len_bound(lists[n], marks[n]);
        assert forall|i: int| 0 <= i < lists.len() implies !(#[trigger] lists[i]).contains(h) by {
            if i <= n {
                assert(pl[i] == lists[i]);
            }
        }
    }
}

/// After a symbol is unsubscribed, however many of its ticks are then
/// distributed (each pass offering the tick to the listed subscribers and
/// keeping those marked), none is offered to anyone.
pub proof fn lemma_silent_after_unsubscribe<H>(lists: Seq<Seq<H>>, marks: Seq<Seq<bool>>)
    requires
        lists.len() == marks.len() + 1,
        lists[0].len() == 0,
        forall|i: int| 0 <= i < marks.len() ==> lists[i + 1] == kept(#[trigger] lists[i], marks[i]),
    ensures
        forall|i: int| 0 <= i < lists.len() ==> (#[trigger] lists[i]).len() == 0,
    decreases marks.len(),
{
    if marks.len() > 0 {
        let (pl, pm) = (lists.drop_last(), marks.drop_last());
        assert forall|i: int| 0 <= i < pm.len() implies pl[i + 1] == kept(
            #[trigger] pl[i],
            pm[i],
        ) by {
            assert(pl[i] == lists[i] && pl[i + 1] == lists[i + 1] && pm[i] == marks[i]);
        }
        lemma_silent_after_unsubscribe(pl, pm);
        let n = marks.len() - 1;
        assert(pl[n] == lists[n]);
        assert(lists[n].len() == 0);
        assert(kept(lists[n], marks[n]) =~= Seq::<H>::empty());
        assert forall|i: int| 0 <= i < lists.len() implies (#[trigger] lists[i]).len() == 0 by {
            if i < n + 1 {
                assert(pl[i] == lists[i]);
            }
        }
    }
}

/// Subscriptions, aggregation and phase of one hub. `H` is the sending
/// half of a subscriber's channel.
pub struct HubCore<H> {
    subscribers: SymbolTable<H>,
    aggregator: PriceAggregator,
    state: HubState,
}

impl<H> HubCore<H> {
    /// Per symbol, the subscribers in order of subscription.
    pub closed spec fn subscriptions(&self) -> Rows<H> {
        self.subscribers@
    }

    /// The subscribers of `symbol`.
    pub open spec fn subscribers_of(&self, symbol: Seq<char>) -> Seq<H> {
        lookup(self.subscriptions(), symbol)
    }

    pub closed spec fn aggregate(&self) -> PriceAggregator {
        self.aggregator
    }

    pub closed spec fn phase(&self) -> HubState {
        self.state
    }

    pub closed spec fn wf(&self) -> bool {
        self.subscribers.wf() && self.aggregator.wf()
    }

    pub fn new() -> (r: HubCore<H>)
        ensures
            r.wf(),
            r.phase() == HubState::Running,
            r.subscriptions() == Seq::<(Seq<char>, Seq<H>)>::empty(),
            r.aggregate()@ == Seq::<(Seq<char>, Seq<crate::price::Price>)>::empty(),
    {
        HubCore {
            subscribers: SymbolTable::new(),
            aggregator: PriceAggregator::new(),
            state: HubState::Running,
        }
    }

    pub fn state(&self) -> (r: HubState)
        ensures
            r == self.phase(),
    {
        self.state
    }

    /// Applies one loop event to the phase and says what the loop does next.
    pub fn on_event(&mut self, event: LoopEvent) -> (r: LoopAction)
        requires
            old(self).wf(),
        ensures
            final(self).wf(),
            (final(self).phase(), r) == next_step(old(self).phase(), event),
            final(self).subscriptions() == old(self).subscriptions(),
            final(self).aggregate() == old(self).aggregate(),
    {
        match self.state {
            HubState::ShuttingDown => LoopAction::Stop,
            HubState::Running => match event {
                LoopEvent::ShutdownCommand => {
                    self.state = HubState::ShuttingDown;
                    LoopAction::NotifyAndStop
                },
                LoopEvent::ShutdownSignal => {
                    self.state = HubState::ShuttingDown;
                    LoopAction::Stop
                },
                _ => LoopAction::Continue,
            },
        }
    }

    /// Records the tick and returns how many subscribers it goes to.
    pub fn record_tick(&mut self, tick: MarketTick) -> (r: usize)
        requires
            old(self).wf(),
            tick.wf(),
        ensures
            final(self).wf(),
            tick_added(old(self).aggregate(), final(self).aggregate(), tick.symbol@, tick.price),
            final(self).subscriptions() == old(self).subscriptions(),
            final(self).phase() == old(self).phase(),
            r == old(self).subscribers_of(tick.symbol@).len(),
    {
        let count = match self.subscribers.find(&tick.symbol) {
            Some(i) => {
                proof {
                    lemma_lookup_at(self.subscribers@, i as int);
                }
                self.subscribers.items_at(i).len()
            },
            None => {
                proof {
                    lemma_lookup_nonempty(self.subscribers@, tick.symbol@);
                }
                0
            },
        };
        self.aggregator.add_tick(tick);
        count
    }

    /// The `i`-th subscriber of `symbol`.
    pub fn subscriber(&self, symbol: &String, i: usize) -> (r: &H)
        requires
            self.wf(),
            i < self.subscribers_of(symbol@).len(),
        ensures
            *r == self.subscribers_of(symbol@)[i as int],
    {
        proof {
            lemma_lookup_nonempty(self.subscribers@, symbol@);
        }
        let k = self.subscribers.find(symbol).unwrap();
        proof {
            lemma_lookup_at(self.subscribers@, k as int);
        }
        &self.subscribers.items_at(k)[i]
    }

    /// After a distribution pass, drops the subscribers of `symbol` whose
    /// delivery failed (`delivered[i]` unset), keeping the others in order.
    pub fn evict_failed(&mut self, symbol: &String, delivered: &Vec<bool>)
        requires
            old(self).wf(),
            delivered@.len() == old(self).subscribers_of(symbol@).len(),
        ensures
            final(self).wf(),
            final(self).subscribers_of(symbol@) == kept(
                old(self).subscribers_of(symbol@),
                delivered@,
            ),
            forall|k: Seq<char>|
                k != symbol@ ==> #[trigger] final(self).subscribers_of(k) == old(
                    self,
                ).subscribers_of(k),
            final(self).aggregate() == old(self).aggregate(),
            final(self).phase() == old(self).phase(),
    {
        self.subscribers.retain_marked(symbol, delivered);
    }

    /// Registers `handle` as the newest subscriber of `symbol`.
    pub fn subscribe(&mut self, symbol: String, handle: H)
        requires
            old(self).wf(),
        ensures
            final(self).wf(),
            final(self).subscribers_of(symbol@) == old(self).subscribers_of(symbol@).push(handle),
            forall|k: Seq<char>|
                k != symbol@ ==> #[trigger] final(self).subscribers_of(k) == old(
                    self,
                ).subscribers_of(k),
            final(self).aggregate() == old(self).aggregate(),
            final(self).phase() == old(self).phase(),
    {
        self.subscribers.push(symbol, handle);
    }

    /// Removes every subscriber of `symbol` and hands them back; `None` when
    /// it had none.
    pub fn unsubscribe(&mut self, symbol: &String) -> (r: Option<Vec<H>>)
        requires
            old(self).wf(),
        ensures
            final(self).wf(),
            r is Some <==> old(self).subscribers_of(symbol@).len() > 0,
            r matches Some(v) ==> v@ == old(self).subscribers_of(symbol@),
            final(self).subscribers_of(symbol@) == Seq::<H>::empty(),
            forall|k: Seq<char>|
                k != symbol@ ==> #[trigger] final(self).subscribers_of(k) == old(
                    self,
                ).subscribers_of(k),
            final(self).aggregate() == old(self).aggregate(),
            final(self).phase() == old(self).phase(),
    {
        proof {
            lemma_lookup_nonempty(self.subscribers@, symbol@);
        }
        self.subscribers.remove_symbol(symbol)
    }
    /// Statistics of every symbol that has at least one subscriber and a
    /// history, each symbol once.
    pub fn subscribed_stats(&self) -> (r: Vec<PriceStats>)
        requires
            self.wf(),
        ensures
            forall|a: int|
                0 <= a < r.len() ==> self.subscribers_of((#[trigger] r@[a]).symbol@).len() > 0,
            forall|a: int|
                0 <= a < r.len() ==> describes(
                    #[trigger] r@[a],
                    r@[a].symbol@,
                    self.aggregate().history(r@[a].symbol@),
                ),
            forall|i: int|
                0 <= i < self.subscriptions().len() && #[trigger] decimal_mean(
                    self.aggregate().history(self.subscriptions()[i].0),
                ) is Some && self.aggregate().history(self.subscriptions()[i].0).len() > 0
                    ==> exists|a: int|
                    0 <= a < r.len() && (#[trigger] r@[a]).symbol@ == self.subscriptions()[i].0,
            forall|a: int, b: int|
                0 <= a < b < r.len() ==> (#[trigger] r@[a]).symbol@ != (#[trigger] r@[b]).symbol@,
    {
        let n = self.subscribers.len();
        let mut out: Vec<PriceStats> = Vec::new();
        let ghost mut idx: Seq<int> = Seq::empty();
        let mut i: usize = 0;
        while i < n
            invariant
                self.wf(),
                idx.len() == out.len(),
                forall|a: int|
                    0 <= a < out.len() ==> 0 <= #[trigger] idx[a] < i && out@[a].symbol@
                        == self.subscriptions()[idx[a]].0,
                forall|a: int, b: int|
                    0 <= a < b < out.len() ==> (#[trigger] out@[a]).symbol@ != (
                    #[trigger] out@[b]).symbol@,
                n == self.subscriptions().len(),
                i <= n,
                forall|a: int|
                    0 <= a < out.len() ==> self.subscribers_of((#[trigger] out@[a]).symbol@).len()
                        > 0,
                forall|a: int|
                    0 <= a < out.len() ==> describes(
                        #[trigger] out@[a],
                        out@[a].symbol@,
                        self.aggregate().history(out@[a].symbol@),
                    ),
                forall|m: int|
                    0 <= m < i && #[trigger] decimal_mean(
                        self.aggregate().history(self.subscriptions()[m].0),
                    ) is Some && self.aggregate().history(self.subscriptions()[m].0).len() > 0
                        ==> exists|a: int|
                        0 <= a < out.len() && (#[trigger] out@[a]).symbol@
                            == self.subscriptions()[m].0,
            decreases n - i,
        {
            let symbol = self.subscribers.symbol_at(i);
            proof {
                lemma_lookup_at(self.subscribers@, i as int);
            }
            let st = self.aggregator.get_statistics(symbol.as_str());
            match st {
                Some(st) => {
                    let ghost prev = out@;
                    let ghost prev_idx = idx;
                    out.push(st);
                    proof {
                        idx = idx.push(i as int);
                        let last = prev.len() as int;
                        assert(out@[last].symbol@ == self.subscriptions()[i as int].0);
                        assert forall|a: int|
                            0 <= a < out.len() implies 0 <= #[trigger] idx[a] < i + 1
                            && out@[a].symbol@ == self.subscriptions()[idx[a]].0 by {
                            if a < last {
                                assert(out@[a] == prev[a]);
                                assert(idx[a] == prev_idx[a]);
                            }
                        }
                        assert forall|a: int, b: int|
                            0 <= a < b < out.len() implies (#[trigger] out@[a]).symbol@ != (
                            #[trigger] out@[b]).symbol@ by {
                            assert(out@[a] == prev[a]);
                            if b < last {
                                assert(out@[b] == prev[b]);
                            } else {
                                assert(idx[a] == prev_idx[a]);
                                assert(idx[a] < i);
                            }
                        }
                        assert forall|a: int|
                            0 <= a < out.len() implies self.subscribers_of(
                            (#[trigger] out@[a]).symbol@,
                        ).len() > 0 && describes(
                            out@[a],
                            out@[a].symbol@,
                            self.aggregate().history(out@[a].symbol@),
                        ) by {
                            if a < last {
                                assert(out@[a] == prev[a]);
                            }
                        }
                        assert forall|m: int|
                            0 <= m < i + 1 && #[trigger] decimal_mean(
                                self.aggregate().history(self.subscriptions()[m].0),
                            ) is Some && self.aggregate().history(self.subscriptions()[m].0).len()
                                > 0 implies exists|a: int|
                            0 <= a < out.len() && (#[trigger] out@[a]).symbol@
                                == self.subscriptions()[m].0 by {
                            if m < i {
                                let a = choose|a: int|
                                    0 <= a < prev.len() && (#[trigger] prev[a]).symbol@
                                        == self.subscriptions()[m].0;
                                assert(out@[a] == prev[a]);
                            } else {
                                assert(out@[last].symbol@ == self.subscriptions()[m].0);
                            }
                        }
                    }
                },
                None => {},
            }
            i += 1;
        }
        out
    }
}

} // verus!
