//! One match: the barrier that holds a turn back until every active
//! participant has submitted a plan, and the fixed order in which a resolved
//! turn is carried out.
//!
//! The session decides; its caller owns the transport and the combat
//! collaborators. Every transport event is handed to [`ServerBattleState::handle`],
//! which moves the session to its next state and answers with the action that
//! the caller has to perform.

use crate::identity::{ParticipantId, Unit};
use crate::registry::{
    lemma_owners_finite, lemma_owners_push, owners, owns_unit, roster_wf, unmanned_indices,
    UnitRegistry,
};
use std::collections::HashSet;
use vstd::prelude::*;
use vstd::set_lib::lemma_len_subset;

verus! {

/// Number of ticks that the simulation of one turn runs through.
pub const TICKS_PER_TURN: u32 = 100;

/// One piece of outside work in the resolution of a turn.
#[derive(Clone, Copy, Debug, PartialEq, Eq, Structural)]
pub enum TurnStep {
    /// Let the AI choose a plan for the unmanned unit at this index, with the
    /// other units as its opponents, and apply it to the unit's modules.
    RunAi(usize),
    /// Run the server-side preprocessing hook across all units.
    ServerPreprocess,
    /// Send one results packet, holding plans and results, to everyone in
    /// the audience.
    BroadcastResults,
    /// Run the before-simulation hook across all units, which schedules the
    /// turn's tick effects.
    BeforeSimulation,
    /// Execute every effect that is scheduled for this tick.
    ApplyTick(u32),
    /// Run the after-simulation hook across all units.
    AfterSimulation,
}

/// What the session's owner receives from the transport.
#[derive(Clone, Copy, Debug, PartialEq, Eq, Structural)]
pub enum SessionMsg {
    /// The participant's connection reached this session.
    Joined(ParticipantId),
    /// A packet that decoded as a plan submission.
    Plan(ParticipantId),
    /// A packet that did not decode.
    Malformed(ParticipantId),
    /// The participant's connection was lost.
    Disconnected(ParticipantId),
}

/// What the session's owner has to do in answer to one event.
#[derive(Debug)]
pub enum SessionAction {
    /// Nothing: the event is dropped.
    Ignore,
    /// Send the participant this snapshot of the unit list.
    SendRoster { to: ParticipantId, units: Vec<Unit> },
    /// Read the participant's plan into the modules of the unit at this
    /// index. The turn stays open.
    ReadPlan { from: ParticipantId, unit: usize },
    /// Read the participant's plan into the modules of the unit at this
    /// index; it was the last one missing, so carry out the steps in order.
    /// The results go to the audience: everyone who takes part in the
    /// session, acting or observing, each named once.
    ResolveTurn {
        from: ParticipantId,
        unit: usize,
        steps: Vec<TurnStep>,
        audience: Vec<ParticipantId>,
    },
}

/// The steps that let the AI plan for the units at `indices`, in that order.
pub open spec fn ai_steps(indices: Seq<usize>) -> Seq<TurnStep> {
    Seq::new(indices.len(), |i: int| TurnStep::RunAi(indices[i]))
}

/// The steps that drive the tick engine through ticks `0..n`, ascending.
pub open spec fn tick_steps(n: nat) -> Seq<TurnStep> {
    Seq::new(n, |t: int| TurnStep::ApplyTick(t as u32))
}

/// The order in which a resolved turn is carried out over `units`: AI plans
/// for the unmanned units in registry order, preprocessing, the broadcast,
/// the before-simulation hook, every tick in ascending order, and the
/// after-simulation hook.
pub open spec fn turn_script(units: Seq<Unit>) -> Seq<TurnStep> {
    ai_steps(unmanned_indices(units)) + seq![
        TurnStep::ServerPreprocess,
        TurnStep::BroadcastResults,
        TurnStep::BeforeSimulation,
    ] + tick_steps(TICKS_PER_TURN as nat) + seq![TurnStep::AfterSimulation]
}

/// The mathematical state of a session between two events.
pub struct SessionView {
    /// The unit registry, in order.
    pub units: Seq<Unit>,
    /// The participants that have to submit a plan this turn.
    pub active: Set<ParticipantId>,
    /// The participants that joined during the match and act from the next
    /// turn on.
    pub waiting: Set<ParticipantId>,
    /// The participants that have submitted a plan this turn.
    pub received: Set<ParticipantId>,
    /// Number of turns that were resolved.
    pub turn_number: nat,
}

impl SessionView {
    /// The state of a fresh session over `units`: everyone who owns a unit is
    /// active, and turn 0 is collecting plans.
    pub open spec fn initial(units: Seq<Unit>) -> SessionView {
        SessionView {
            units,
            active: owners(units),
            waiting: Set::empty(),
            received: Set::empty(),
            turn_number: 0,
        }
    }

    /// The session's invariant between two events.
    pub open spec fn wf(self) -> bool {
        &&& roster_wf(self.units)
        &&& self.active.finite()
        &&& self.waiting.finite()
        &&& self.received.subset_of(self.active)
        &&& self.active.disjoint(self.waiting)
        &&& self.active.union(self.waiting) =~= owners(self.units)
        &&& !self.begun() ==> self.waiting =~= Set::empty()
        &&& self.barrier_met() ==> self.active =~= Set::empty()
    }

    /// The match has begun: a plan was submitted, in this turn or in an
    /// earlier one.
    pub open spec fn begun(self) -> bool {
        self.turn_number > 0 || !(self.received =~= Set::empty())
    }

    /// `p` takes part in the session, acting or observing.
    pub open spec fn is_member(self, p: ParticipantId) -> bool {
        self.active.contains(p) || self.waiting.contains(p)
    }

    /// Everyone who takes part in the session, acting or observing.
    pub open spec fn members(self) -> Set<ParticipantId> {
        self.active.union(self.waiting)
    }

    /// Every active participant has submitted a plan for this turn.
    pub open spec fn barrier_met(self) -> bool {
        self.received =~= self.active
    }

    /// The plan of `p` is the last one that the barrier waits for.
    pub open spec fn resolves_on(self, p: ParticipantId) -> bool {
        self.active.contains(p) && self.received.insert(p) =~= self.active
    }

    /// The state after `p` joined. A member's state does not change. A new
    /// participant gets a unit; before the match has begun they become
    /// active, later they wait for the next turn.
    pub open spec fn join(self, p: ParticipantId) -> SessionView {
        if self.is_member(p) {
            self
        } else if !self.begun() {
            SessionView {
                units: self.units.push(Unit::of_participant(p)),
                active: self.active.insert(p),
                ..self
            }
        } else {
            SessionView {
                units: self.units.push(Unit::of_participant(p)),
                waiting: self.waiting.insert(p),
                ..self
            }
        }
    }

    /// The state at the start of the next turn: nobody has submitted, and
    /// everyone who waited is active.
    pub open spec fn end_turn(self) -> SessionView {
        SessionView {
            units: self.units,
            active: self.active.union(self.waiting),
            waiting: Set::empty(),
            received: Set::empty(),
            turn_number: self.turn_number + 1,
        }
    }

    /// The state after a plan of `p` arrived. A plan of someone who is not
    /// active is dropped. Otherwise `p` has submitted, and where that meets
    /// the barrier the turn ends.
    pub open spec fn submit(self, p: ParticipantId) -> SessionView {
        if !self.active.contains(p) {
            self
        } else if self.resolves_on(p) {
            self.end_turn()
        } else {
            SessionView { received: self.received.insert(p), ..self }
        }
    }

    /// The state after one transport event.
    pub open spec fn step(self, msg: SessionMsg) -> SessionView {
        match msg {
            SessionMsg::Joined(p) => self.join(p),
            SessionMsg::Plan(p) => self.submit(p),
            SessionMsg::Malformed(_) => self,
            SessionMsg::Disconnected(_) => self,
        }
    }
}

/// Two finite sets of equal size, one inside the other, are the same set.
proof fn lemma_subset_same_len<A>(x: Set<A>, y: Set<A>)
    requires
        y.finite(),
        x.subset_of(y),
        x.len() == y.len(),
    ensures
        x =~= y,
{
    if !(x =~= y) {
        let e = choose|e: A| y.contains(e) && !x.contains(e);
        assert(x.subset_of(y.remove(e)));
        lemma_len_subset(x, y.remove(e));
    }
}

/// Joining keeps the session's invariant.
pub proof fn lemma_join_wf(s: SessionView, p: ParticipantId)
    requires
        s.wf(),
    ensures
        s.join(p).wf(),
        s.is_member(p) <==> owns_unit(s.units, p),
{
    assert(owners(s.units).contains(p) <==> owns_unit(s.units, p));
    assert(s.active.union(s.waiting).contains(p) <==> s.is_member(p));
    if !s.is_member(p) {
        let unit = Unit::of_participant(p);
        lemma_owners_push(s.units, unit);
        let t = s.join(p);
        assert forall|j: int| 0 <= j < s.units.len() implies (#[trigger] s.units[j]).id
            != unit.id by {
            assert(s.units[j].well_formed());
        }
        assert(roster_wf(t.units));
        assert(!s.received.contains(p));
        assert(t.active.contains(p) || t.received =~= s.received);
        if t.barrier_met() {
            assert(s.begun());
            assert(s.barrier_met());
        }
    }
}

/// A plan keeps the session's invariant, whether or not it ends the turn.
pub proof fn lemma_submit_wf(s: SessionView, p: ParticipantId)
    requires
        s.wf(),
    ensures
        s.submit(p).wf(),
{
    if s.active.contains(p) {
        if s.resolves_on(p) {
            let t = s.end_turn();
            lemma_owners_finite(s.units);
            if t.barrier_met() {
                assert(t.active.contains(p));
            }
        } else {
            let t = s.submit(p);
            if t.barrier_met() {
                assert(false);
            }
        }
    }
}

/// Every event keeps the session's invariant. In particular the submitted
/// participants are always among the active ones, and nobody is active and
/// waiting at once.
pub proof fn theorem_step_keeps_invariant(s: SessionView, msg: SessionMsg)
    requires
        s.wf(),
    ensures
        s.step(msg).wf(),
        s.step(msg).received.subset_of(s.step(msg).active),
        s.step(msg).active.disjoint(s.step(msg).waiting),
        s.step(msg).turn_number >= s.turn_number,
{
    match msg {
        SessionMsg::Joined(p) => {
            lemma_join_wf(s, p);
        },
        SessionMsg::Plan(p) => {
            lemma_submit_wf(s, p);
        },
        SessionMsg::Malformed(_) => {},
        SessionMsg::Disconnected(_) => {},
    }
}

/// The barrier. A plan ends the turn exactly when it makes the submitted
/// participants equal to the active ones; until then it is recorded and the
/// turn stays open. A participant who submits again within the turn changes
/// nothing: neither who has submitted, nor how many.
pub proof fn theorem_barrier(s: SessionView, p: ParticipantId)
    requires
        s.wf(),
    ensures
        s.submit(p).turn_number == s.turn_number + 1 <==> s.active.contains(p)
            && s.received.insert(p) == s.active,
        s.submit(p).turn_number == s.turn_number + 1 ==> s.submit(p) == s.end_turn(),
        s.submit(p).turn_number != s.turn_number + 1 ==> {
            &&& s.submit(p).turn_number == s.turn_number
            &&& s.submit(p).active == s.active
            &&& s.submit(p).waiting == s.waiting
            &&& s.submit(p).received == if s.active.contains(p) {
                s.received.insert(p)
            } else {
                s.received
            }
        },
        s.received.contains(p) ==> s.submit(p) == s && s.submit(p).received.len()
            == s.received.len(),
{
    if s.received.contains(p) {
        assert(s.active.contains(p));
        assert(s.received.insert(p) =~= s.received);
        assert(!s.barrier_met());
        assert(s.submit(p) == s);
    }
}

/// Joining. Before any plan was submitted in turn 0, a new participant
/// becomes active for that turn. Later a new participant waits: they are not
/// active, the plans that the turn waits for are the same as before, and they
/// stay waiting for as long as the turn stays open. The event that ends the
/// turn makes them active.
pub proof fn theorem_join(s: SessionView, p: ParticipantId, next: SessionMsg)
    requires
        s.wf(),
        !s.is_member(p),
    ensures
        !s.begun() ==> s.join(p).active == s.active.insert(p) && !s.join(p).waiting.contains(p)
            && s.join(p).turn_number == 0,
        s.begun() ==> {
            let joined = s.join(p);
            let after = joined.step(next);
            &&& joined.waiting == s.waiting.insert(p)
            &&& joined.active == s.active
            &&& joined.received == s.received
            &&& !joined.active.contains(p)
            &&& after.turn_number == joined.turn_number ==> after.waiting.contains(p)
                && !after.active.contains(p)
            &&& after.turn_number == joined.turn_number + 1 ==> after.active.contains(p)
                && !after.waiting.contains(p)
            &&& joined.end_turn().active.contains(p)
        },
{
    lemma_join_wf(s, p);
    let joined = s.join(p);
    if s.begun() {
        match next {
            SessionMsg::Joined(q) => {
                lemma_join_wf(joined, q);
            },
            SessionMsg::Plan(q) => {
                lemma_submit_wf(joined, q);
            },
            SessionMsg::Malformed(_) => {},
            SessionMsg::Disconnected(_) => {},
        }
    }
}

/// Waiting participants become active at a turn boundary and at no other
/// time: an event that leaves the turn open keeps everyone who waits waiting
/// and everyone who is active active, and the event that ends the turn makes
/// all of them active.
pub proof fn theorem_waiting_until_turn_ends(s: SessionView, msg: SessionMsg)
    requires
        s.wf(),
    ensures
        s.step(msg).turn_number == s.turn_number ==> {
            &&& s.waiting.subset_of(s.step(msg).waiting)
            &&& s.active.subset_of(s.step(msg).active)
            &&& s.received.subset_of(s.step(msg).received)
        },
        s.step(msg).turn_number != s.turn_number ==> {
            &&& s.step(msg).turn_number == s.turn_number + 1
            &&& s.step(msg).active == s.active.union(s.waiting)
            &&& s.step(msg).waiting == Set::<ParticipantId>::empty()
            &&& s.step(msg).received == Set::<ParticipantId>::empty()
            &&& s.step(msg).units == s.units
        },
{
}

/// The order of a resolved turn. The AI plans for every unmanned unit, in
/// registry order; then preprocessing runs, once; then the results are
/// broadcast; then the before-simulation hook runs; then tick `t` is applied
/// right after tick `t - 1` and right before tick `t + 1`, for every `t` from
/// 0 up to the number of ticks of a turn; the after-simulation hook is last.
pub proof fn theorem_turn_order(units: Seq<Unit>)
    ensures
        ({
            let script = turn_script(units);
            let unmanned = unmanned_indices(units);
            let n = unmanned.len() as int;
            &&& script.len() == n + 3 + TICKS_PER_TURN + 1
            &&& forall|i: int| 0 <= i < n ==> #[trigger] script[i] == TurnStep::RunAi(unmanned[i])
            &&& script[n] == TurnStep::ServerPreprocess
            &&& script[n + 1] == TurnStep::BroadcastResults
            &&& script[n + 2] == TurnStep::BeforeSimulation
            &&& forall|t: int|
                0 <= t < TICKS_PER_TURN ==> #[trigger] script[n + 3 + t] == TurnStep::ApplyTick(
                    t as u32,
                )
            &&& script[n + 3 + TICKS_PER_TURN] == TurnStep::AfterSimulation
        }),
{
    let script = turn_script(units);
    let unmanned = unmanned_indices(units);
    let n = unmanned.len() as int;
    let head = ai_steps(unmanned) + seq![
        TurnStep::ServerPreprocess,
        TurnStep::BroadcastResults,
        TurnStep::BeforeSimulation,
    ];
    assert(head.len() == n + 3);
    assert forall|t: int| 0 <= t < TICKS_PER_TURN implies #[trigger] script[n + 3 + t]
        == TurnStep::ApplyTick(t as u32) by {
        assert(script[n + 3 + t] == tick_steps(TICKS_PER_TURN as nat)[t]);
    }
}

/// Adds every element of `src` to `dst`.
fn union_into(dst: &mut HashSet<ParticipantId>, src: &HashSet<ParticipantId>)
    ensures
        final(dst)@ == old(dst)@.union(src@),
{
    broadcast use vstd::std_specs::hash::group_hash_axioms;

    let ghost start = dst@;
    for k in it: src.iter()
        invariant
            it.seq().unref().to_set() == src@,
            dst@ == start.union(it.seq().take(it.index() as int).unref().to_set()),
            it.index() == it.seq().len() ==> dst@ == start.union(src@),
    {
        dst.insert(*k);
        proof {
            let seen = it.seq().take(it.index() as int).unref();
            let next = it.seq().take(it.index() + 1).unref();
            assert(next =~= seen.push(*k));
            assert forall|x: ParticipantId|
                next.to_set().contains(x) <==> seen.to_set().insert(*k).contains(x) by {
                if next.contains(x) {
                    let j = choose|j: int| 0 <= j < next.len() && next[j] == x;
                    if j < seen.len() {
                        assert(seen[j] == x);
                    }
                }
                if seen.contains(x) {
                    let j = choose|j: int| 0 <= j < seen.len() && seen[j] == x;
                    assert(next[j] == x);
                }
                if x == *k {
                    assert(next[seen.len() as int] == x);
                }
            }
            assert(next.to_set() =~= seen.to_set().insert(*k));
            assert(it.index() + 1 == it.seq().len() ==> it.seq().take(it.index() + 1)
                =~= it.seq());
        }
    }
}

/// The elements of `set`, each once, in no particular order.
fn members_of(set: &HashSet<ParticipantId>) -> (r: Vec<ParticipantId>)
    ensures
        r@.to_set() == set@,
        r@.no_duplicates(),
{
    broadcast use vstd::std_specs::hash::group_hash_axioms;

    let mut r: Vec<ParticipantId> = Vec::new();
    for k in it: set.iter()
        invariant
            it.seq().unref().to_set() == set@,
            it.seq().len() == set@.len(),
            r@ == it.seq().take(it.index() as int).unref(),
            it.index() == it.seq().len() ==> r@.to_set() == set@ && r@.len() == set@.len(),
    {
        r.push(*k);
        proof {
            assert(r@ =~= it.seq().take(it.index() + 1).unref());
            assert(it.index() + 1 == it.seq().len() ==> it.seq().take(it.index() + 1)
                =~= it.seq());
        }
    }
    proof {
        r@.lemma_no_dup_set_cardinality();
    }
    r
}

/// The server's state of one match.
pub struct ServerBattleState {
    context: UnitRegistry,
    received_plans: HashSet<ParticipantId>,
    clients_waiting: HashSet<ParticipantId>,
    clients_active: HashSet<ParticipantId>,
    turn_number: u32,
}

impl View for ServerBattleState {
    type V = SessionView;

    closed spec fn view(&self) -> SessionView {
        SessionView {
            units: self.context@,
            active: self.clients_active@,
            waiting: self.clients_waiting@,
            received: self.received_plans@,
            turn_number: self.turn_number as nat,
        }
    }
}

impl ServerBattleState {
    /// The session's invariant: see [`SessionView::wf`].
    pub open spec fn wf(&self) -> bool {
        self@.wf() && self@.turn_number <= u32::MAX
    }

    /// A session over the given registry. Everyone who owns a unit is active,
    /// and turn 0 is collecting plans.
    pub fn new(context: UnitRegistry) -> (s: ServerBattleState)
        requires
            context.wf(),
        ensures
            s.wf(),
            s@ == SessionView::initial(context@),
    {
        broadcast use vstd::std_specs::hash::group_hash_axioms;

        let mut active: HashSet<ParticipantId> = HashSet::new();
        let n = context.len();
        let mut i: usize = 0;
        while i < n
            invariant
                i <= n,
                n == context@.len(),
                active@ == owners(context@.take(i as int)),
            decreases n - i,
        {
            proof {
                lemma_owners_push(context@.take(i as int), context@[i as int]);
                assert(context@.take(i + 1) =~= context@.take(i as int).push(context@[i as int]));
            }
            match context.get(i) {
                Some(unit) => {
                    match unit.client {
                        Some(p) => {
                            active.insert(p);
                        },
                        None => {},
                    }
                },
                None => {},
            }
            i += 1;
        }
        proof {
            assert(context@.take(i as int) =~= context@);
            assert(owners(Seq::<Unit>::empty()) =~= Set::<ParticipantId>::empty());
        }
        let s = ServerBattleState {
            context,
            received_plans: HashSet::new(),
            clients_waiting: HashSet::new(),
            clients_active: active,
            turn_number: 0,
        };
        proof {
            lemma_owners_finite(s@.units);
        }
        s
    }

    /// Number of turns that were resolved.
    pub fn turn_number(&self) -> (n: u32)
        ensures
            n == self@.turn_number,
    {
        self.turn_number
    }

    /// Whether `p` has to submit a plan this turn.
    pub fn is_active(&self, p: ParticipantId) -> (b: bool)
        ensures
            b == self@.active.contains(p),
    {
        broadcast use vstd::std_specs::hash::group_hash_axioms;

        self.clients_active.contains(&p)
    }

    /// Whether `p` joined during the match and acts from the next turn on.
    pub fn is_waiting(&self, p: ParticipantId) -> (b: bool)
        ensures
            b == self@.waiting.contains(p),
    {
        broadcast use vstd::std_specs::hash::group_hash_axioms;

        self.clients_waiting.contains(&p)
    }

    /// Whether `p` has submitted a plan this turn.
    pub fn has_submitted(&self, p: ParticipantId) -> (b: bool)
        ensures
            b == self@.received.contains(p),
    {
        broadcast use vstd::std_specs::hash::group_hash_axioms;

        self.received_plans.contains(&p)
    }

    /// Number of participants that have to submit a plan this turn.
    pub fn active_count(&self) -> (n: usize)
        ensures
            n == self@.active.len(),
    {
        broadcast use vstd::std_specs::hash::group_hash_axioms;

        self.clients_active.len()
    }

    /// Number of participants that act from the next turn on.
    pub fn waiting_count(&self) -> (n: usize)
        ensures
            n == self@.waiting.len(),
    {
        broadcast use vstd::std_specs::hash::group_hash_axioms;

        self.clients_waiting.len()
    }

    /// Number of participants that have submitted a plan this turn.
    pub fn received_count(&self) -> (n: usize)
        ensures
            n == self@.received.len(),
    {
        broadcast use vstd::std_specs::hash::group_hash_axioms;

        self.received_plans.len()
    }

    /// A copy of the unit list, in registry order.
    pub fn roster(&self) -> (r: Vec<Unit>)
        ensures
            r@ == self@.units,
    {
        self.context.snapshot()
    }

    /// The index of the unit that participant `p` owns.
    pub fn unit_of(&self, p: ParticipantId) -> (r: Option<usize>)
        ensures
            match r {
                Some(i) => i < self@.units.len() && self@.units[i as int].client == Some(p)
                    && forall|j: int| 0 <= j < i ==> (#[trigger] self@.units[j]).client != Some(p),
                None => !owns_unit(self@.units, p),
            },
    {
        self.context.index_of(p)
    }

    /// The order in which a turn of this session is carried out once its
    /// barrier is met.
    pub fn turn_steps(&self) -> (steps: Vec<TurnStep>)
        ensures
            steps@ == turn_script(self@.units),
    {
        let unmanned = self.context.unmanned();
        let mut steps: Vec<TurnStep> = Vec::new();
        let mut i: usize = 0;
        while i < unmanned.len()
            invariant
                i <= unmanned.len(),
                steps@ == ai_steps(unmanned@.take(i as int)),
            decreases unmanned.len() - i,
        {
            steps.push(TurnStep::RunAi(unmanned[i]));
            proof {
                assert(steps@ =~= ai_steps(unmanned@.take(i + 1)));
            }
            i += 1;
        }
        proof {
            assert(unmanned@.take(i as int) =~= unmanned@);
        }
        steps.push(TurnStep::ServerPreprocess);
        steps.push(TurnStep::BroadcastResults);
        steps.push(TurnStep::BeforeSimulation);
        let ghost head = steps@;
        let mut tick: u32 = 0;
        while tick < TICKS_PER_TURN
            invariant
                tick <= TICKS_PER_TURN,
                steps@ == head + tick_steps(tick as nat),
            decreases TICKS_PER_TURN - tick,
        {
            steps.push(TurnStep::ApplyTick(tick));
            proof {
                assert(steps@ =~= head + tick_steps((tick + 1) as nat));
            }
            tick += 1;
        }
        steps.push(TurnStep::AfterSimulation);
        proof {
            assert(steps@ =~= turn_script(self@.units));
        }
        steps
    }

    /// A participant's connection reached the session. A new participant
    /// gets a unit, and becomes active before the match has begun or waits
    /// for the next turn later on. The result is the snapshot of the unit
    /// list that is sent to the participant.
    pub fn on_join(&mut self, p: ParticipantId) -> (roster: Vec<Unit>)
        requires
            old(self).wf(),
        ensures
            final(self).wf(),
            final(self)@ == old(self)@.join(p),
            roster@ == final(self)@.units,
    {
        broadcast use vstd::std_specs::hash::group_hash_axioms;

        proof {
            lemma_join_wf(self@, p);
        }
        let member = self.clients_active.contains(&p) || self.clients_waiting.contains(&p);
        if !member {
            self.context.add_participant_unit(p);
            if self.turn_number == 0 && self.received_plans.is_empty() {
                self.clients_active.insert(p);
            } else {
                self.clients_waiting.insert(p);
            }
        }
        self.context.snapshot()
    }

    /// A plan of participant `p` arrived. A plan of someone who is not active
    /// is dropped. Otherwise `p` has submitted; a repeated submission within
    /// the turn replaces the earlier one. The turn is resolved exactly when
    /// this plan makes the submitted participants equal to the active ones.
    pub fn on_plan(&mut self, p: ParticipantId) -> (action: SessionAction)
        requires
            old(self).wf(),
            old(self)@.turn_number < u32::MAX,
        ensures
            final(self).wf(),
            final(self)@ == old(self)@.submit(p),
            match action {
                SessionAction::Ignore => !old(self)@.active.contains(p),
                SessionAction::ReadPlan { from, unit } => {
                    &&& from == p
                    &&& old(self)@.active.contains(p)
                    &&& !old(self)@.resolves_on(p)
                    &&& unit < old(self)@.units.len()
                    &&& old(self)@.units[unit as int].client == Some(p)
                },
                SessionAction::ResolveTurn { from, unit, steps, audience } => {
                    &&& from == p
                    &&& old(self)@.resolves_on(p)
                    &&& unit < old(self)@.units.len()
                    &&& old(self)@.units[unit as int].client == Some(p)
                    &&& steps@ == turn_script(old(self)@.units)
                    &&& audience@.to_set() == old(self)@.members()
                    &&& audience@.no_duplicates()
                },
                SessionAction::SendRoster { .. } => false,
            },
    {
        broadcast use vstd::std_specs::hash::group_hash_axioms;

        proof {
            lemma_submit_wf(self@, p);
        }
        if !self.clients_active.contains(&p) {
            return SessionAction::Ignore;
        }
        let unit = match self.context.index_of(p) {
            Some(i) => i,
            None => {
                proof {
                    assert(self@.active.union(self@.waiting).contains(p));
                    assert(owners(self@.units).contains(p));
                }
                return SessionAction::Ignore;
            },
        };
        self.received_plans.insert(p);
        proof {
            lemma_len_subset(self.received_plans@, self.clients_active@);
            if self.received_plans@.len() == self.clients_active@.len() {
                lemma_subset_same_len(self.received_plans@, self.clients_active@);
            }
        }
        if self.received_plans.len() == self.clients_active.len() {
            let steps = self.turn_steps();
            self.received_plans.clear();
            self.turn_number += 1;
            union_into(&mut self.clients_active, &self.clients_waiting);
            self.clients_waiting.clear();
            let audience = members_of(&self.clients_active);
            SessionAction::ResolveTurn { from: p, unit, steps, audience }
        } else {
            SessionAction::ReadPlan { from: p, unit }
        }
    }

    /// Takes one transport event: moves the session to its next state and
    /// says what its owner has to do. A packet that did not decode and a lost
    /// connection change nothing; in particular a turn still waits for the
    /// plan of an active participant that went away.
    pub fn handle(&mut self, msg: SessionMsg) -> (action: SessionAction)
        requires
            old(self).wf(),
            old(self)@.turn_number < u32::MAX,
        ensures
            final(self).wf(),
            final(self)@ == old(self)@.step(msg),
            match msg {
                SessionMsg::Joined(p) => action matches SessionAction::SendRoster { to, units }
                    && to == p && units@ == final(self)@.units,
                SessionMsg::Plan(p) => match action {
                    SessionAction::Ignore => !old(self)@.active.contains(p),
                    SessionAction::ReadPlan { from, unit } => {
                        &&& from == p
                        &&& old(self)@.active.contains(p)
                        &&& !old(self)@.resolves_on(p)
                        &&& unit < old(self)@.units.len()
                        &&& old(self)@.units[unit as int].client == Some(p)
                    },
                    SessionAction::ResolveTurn { from, unit, steps, audience } => {
                        &&& from == p
                        &&& old(self)@.resolves_on(p)
                        &&& unit < old(self)@.units.len()
                        &&& old(self)@.units[unit as int].client == Some(p)
                        &&& steps@ == turn_script(old(self)@.units)
                        &&& audience@.to_set() == old(self)@.members()
                        &&& audience@.no_duplicates()
                    },
                    SessionAction::SendRoster { .. } => false,
                },
                SessionMsg::Malformed(_) => action is Ignore,
                SessionMsg::Disconnected(_) => action is Ignore,
            },
    {
        match msg {
            SessionMsg::Joined(p) => {
                let units = self.on_join(p);
                SessionAction::SendRoster { to: p, units }
            },
            SessionMsg::Plan(p) => self.on_plan(p),
            SessionMsg::Malformed(_) => SessionAction::Ignore,
            SessionMsg::Disconnected(_) => SessionAction::Ignore,
        }
    }
}

} // verus!
