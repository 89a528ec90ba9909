//! The schedule of a turn's tick effects, and the order in which driving the
//! ticks applies them.
//!
//! What an effect does to its target is the caller's business: the schedule
//! holds a handle for it, and hands the handles back tick by tick.

use crate::session::TICKS_PER_TURN;
use vstd::multiset::Multiset;
use vstd::prelude::*;
use vstd::seq_lib::lemma_multiset_commutative;

verus! {

/// Handle of an effect that the caller owns.
pub type EffectId = u64;

/// An effect bound to a tick and to a target unit.
#[derive(Clone, Copy, Debug, PartialEq, Eq, Structural)]
pub struct SimEvent {
    /// The tick at which the effect is applied.
    pub tick: u32,
    /// Registry index of the unit that the effect is applied to.
    pub target: usize,
    /// The effect.
    pub effect: EffectId,
}

/// The events that are bound to `tick`.
pub open spec fn at_tick(tick: u32) -> spec_fn(SimEvent) -> bool {
    |e: SimEvent| e.tick == tick
}

/// The events that are bound to a tick below `n`.
pub open spec fn before_tick(n: nat) -> spec_fn(SimEvent) -> bool {
    |e: SimEvent| e.tick < n
}

/// What applying `tick` executes: the events bound to it, in the order in
/// which they were scheduled.
pub open spec fn due(events: Seq<SimEvent>, tick: u32) -> Seq<SimEvent> {
    events.filter(at_tick(tick))
}

/// What driving the ticks `0..n` in ascending order executes, in order.
pub open spec fn applied(events: Seq<SimEvent>, n: nat) -> Seq<SimEvent>
    decreases n,
{
    if n == 0 {
        Seq::empty()
    } else {
        applied(events, (n - 1) as nat) + due(events, (n - 1) as u32)
    }
}

/// The events below tick `t + 1` are those below `t` and those at `t`.
proof fn lemma_filter_split(events: Seq<SimEvent>, t: nat)
    requires
        t <= u32::MAX,
    ensures
        events.filter(before_tick(t + 1)).to_multiset() == events.filter(
            before_tick(t),
        ).to_multiset().add(events.filter(at_tick(t as u32)).to_multiset()),
    decreases events.len(),
{
    broadcast use vstd::multiset::group_multiset_axioms;

    let upto = before_tick(t + 1);
    let below = before_tick(t);
    let at = at_tick(t as u32);
    if events.len() == 0 {
        reveal(Seq::filter);
        assert(events.filter(upto) =~= Seq::<SimEvent>::empty());
        assert(events.filter(below) =~= Seq::<SimEvent>::empty());
        assert(events.filter(at) =~= Seq::<SimEvent>::empty());
        Seq::<SimEvent>::empty().to_multiset_ensures();
        vstd::multiset::lemma_multiset_empty_len(Seq::<SimEvent>::empty().to_multiset());
        assert(Seq::<SimEvent>::empty().to_multiset() =~= Multiset::<SimEvent>::empty());
        assert(Multiset::<SimEvent>::empty().add(Multiset::<SimEvent>::empty())
            =~= Multiset::<SimEvent>::empty());
    } else {
        let front = events.drop_last();
        let last = events.last();
        lemma_filter_split(front, t);
        assert(front.push(last) =~= events);
        front.lemma_filter_push(last, upto);
        front.lemma_filter_push(last, below);
        front.lemma_filter_push(last, at);
        front.filter(upto).to_multiset_ensures();
        front.filter(below).to_multiset_ensures();
        front.filter(at).to_multiset_ensures();
        let a = front.filter(upto).to_multiset();
        let b = front.filter(below).to_multiset();
        let c = front.filter(at).to_multiset();
        if last.tick < t {
            assert(a.insert(last) =~= b.insert(last).add(c));
        } else if last.tick == t {
            assert(a.insert(last) =~= b.add(c.insert(last)));
        }
    }
}

/// Ticks run one after the other. Driving the ticks `0..n` applies the
/// effects in ascending order of their ticks: every effect of tick `t` after
/// all effects of the ticks before `t` and before any effect of a later
/// tick. Every scheduled effect that is bound to a tick below `n` is applied
/// exactly once, and nothing else is.
pub proof fn theorem_tick_order(events: Seq<SimEvent>, n: nat)
    requires
        n <= u32::MAX + 1,
    ensures
        forall|a: int, b: int|
            0 <= a < b < applied(events, n).len() ==> (#[trigger] applied(events, n)[a]).tick
                <= (#[trigger] applied(events, n)[b]).tick,
        forall|a: int| 0 <= a < applied(events, n).len() ==> (#[trigger] applied(events, n)[a]).tick < n,
        applied(events, n).to_multiset() == events.filter(before_tick(n)).to_multiset(),
        forall|t: nat| t < n ==> #[trigger] applied(events, t + 1) == applied(events, t) + due(events, t as u32),
    decreases n,
{
    let order = applied(events, n);
    if n == 0 {
        events.lemma_all_neg_filter_empty(before_tick(0));
        assert(events.filter(before_tick(0)) =~= Seq::<SimEvent>::empty());
    } else {
        let t = (n - 1) as nat;
        let earlier = applied(events, t);
        let now = due(events, t as u32);
        theorem_tick_order(events, t);
        assert forall|i: int| 0 <= i < now.len() implies (#[trigger] now[i]).tick == t by {
            events.lemma_filter_pred(at_tick(t as u32), i);
        }
        assert forall|a: int, b: int| 0 <= a < b < order.len() implies (#[trigger] order[a]).tick
            <= (#[trigger] order[b]).tick by {
            if b < earlier.len() {
                assert(order[a] == earlier[a] && order[b] == earlier[b]);
            } else if a < earlier.len() {
                assert(order[a] == earlier[a]);
                assert(order[b] == now[b - earlier.len()]);
            } else {
                assert(order[a] == now[a - earlier.len()]);
                assert(order[b] == now[b - earlier.len()]);
            }
        }
        assert forall|a: int| 0 <= a < order.len() implies (#[trigger] order[a]).tick < n by {
            if a < earlier.len() {
                assert(order[a] == earlier[a]);
            } else {
                assert(order[a] == now[a - earlier.len()]);
            }
        }
        lemma_multiset_commutative(earlier, now);
        lemma_filter_split(events, t);
        assert(before_tick(t + 1) == before_tick(n));
    }
}

/// The tick effects that were scheduled for one turn.
pub struct SimEvents {
    events: Vec<SimEvent>,
}

impl View for SimEvents {
    type V = Seq<SimEvent>;

    closed spec fn view(&self) -> Seq<SimEvent> {
        self.events@
    }
}

impl SimEvents {
    /// An empty schedule.
    pub fn new() -> (s: SimEvents)
        ensures
            s@ == Seq::<SimEvent>::empty(),
    {
        SimEvents { events: Vec::new() }
    }

    /// Number of scheduled effects.
    pub fn len(&self) -> (n: usize)
        ensures
            n == self@.len(),
    {
        self.events.len()
    }

    /// Schedules `effect` for `tick`, against the unit at index `target`.
    pub fn add(&mut self, tick: u32, target: usize, effect: EffectId)
        ensures
            final(self)@ == old(self)@.push(SimEvent { tick, target, effect }),
    {
        self.events.push(SimEvent { tick, target, effect });
    }

    /// The effects to execute at `tick`: those scheduled for it, in the order
    /// in which they were scheduled.
    pub fn apply_tick(&self, tick: u32) -> (now: Vec<SimEvent>)
        ensures
            now@ == due(self@, tick),
    {
        let mut now: Vec<SimEvent> = Vec::new();
        let mut i: usize = 0;
        proof {
            self.events@.take(0).lemma_all_neg_filter_empty(at_tick(tick));
        }
        while i < self.events.len()
            invariant
                i <= self.events.len(),
                now@ == due(self.events@.take(i as int), tick),
            decreases self.events.len() - i,
        {
            let event = self.events[i];
            proof {
                assert(self.events@.take(i + 1) =~= self.events@.take(i as int).push(event));
                self.events@.take(i as int).lemma_filter_push(event, at_tick(tick));
            }
            if event.tick == tick {
                now.push(event);
            }
            i += 1;
        }
        proof {
            assert(self.events@.take(i as int) =~= self.events@);
        }
        now
    }

    /// Drives the ticks of one turn, in ascending order. The result holds the
    /// effects in the order in which they are to be executed.
    pub fn simulate(&self) -> (order: Vec<SimEvent>)
        ensures
            order@ == applied(self@, TICKS_PER_TURN as nat),
    {
        let mut order: Vec<SimEvent> = Vec::new();
        let mut tick: u32 = 0;
        while tick < TICKS_PER_TURN
            invariant
                tick <= TICKS_PER_TURN,
                order@ == applied(self@, tick as nat),
            decreases TICKS_PER_TURN - tick,
        {
            let mut now = self.apply_tick(tick);
            order.append(&mut now);
            tick += 1;
        }
        order
    }
}

} // verus!
