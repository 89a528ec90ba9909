//! The matchmaking scheduler: turns the lobby's stream of events into
//! sessions, each populated according to the battle mode that its
//! participants asked for.
//!
//! The scheduler decides; its caller owns the lobby's transport. Every event
//! is handed to [`BattleScheduler::handle`], which answers with the action to
//! perform: for a new session, the participants whose connections move to the
//! session's own transport slot, and the session to run.

use crate::identity::{ParticipantId, Unit};
use crate::registry::{
    lemma_owners_push, owners, owns_unit, roster_of, roster_wf, units_for, UnitRegistry,
};
use crate::session::{ServerBattleState, SessionView};
use std::collections::HashMap;
use vstd::arithmetic::div_mod::{
    lemma_div_pos_is_pos, lemma_fundamental_div_mod, lemma_fundamental_div_mod_converse,
    lemma_mod_pos_bound,
};
use vstd::prelude::*;

verus! {

/// The kind of battle that a participant asks for.
#[derive(Clone, Copy, Debug, PartialEq, Eq, Structural)]
pub enum BattleMode {
    /// A battle among exactly `party_size` participants.
    FreeForAll { party_size: u8 },
    /// A battle of one participant against a unit played by the AI.
    AIMatch,
}

/// What the scheduler's owner receives from the lobby's transport.
#[derive(Clone, Copy, Debug, PartialEq, Eq, Structural)]
pub enum LobbyMsg {
    /// The participant connected to the lobby.
    Joined(ParticipantId),
    /// A packet that decoded as the participant's request for a battle mode.
    ModeRequest(ParticipantId, BattleMode),
    /// A packet that did not decode as a battle mode.
    Malformed(ParticipantId),
    /// The participant's connection was lost.
    Disconnected(ParticipantId),
}

/// What the scheduler's owner has to do in answer to one event.
pub enum LobbyAction {
    /// Nothing.
    Ignore,
    /// Nothing yet: the participant waits for their party to fill.
    Wait,
    /// Drop the participant's connection.
    DropConnection(ParticipantId),
    /// Move the connections of `participants` to a new transport slot and run
    /// `session` on it, in an execution context of its own.
    Launch { participants: Vec<ParticipantId>, session: ServerBattleState },
}

/// The waiting pool: for each party size, the participants that wait for a
/// battle of that size, in order of arrival.
pub type Pool = Map<u8, Seq<ParticipantId>>;

/// `p` waits in one of the pool's buckets.
pub open spec fn is_waiting(pool: Pool, p: ParticipantId) -> bool {
    exists|k: u8| (#[trigger] pool[k]).contains(p)
}

/// The pool's invariant: it has a bucket for every party size, nobody waits
/// twice, and no bucket of a party size from 1 up has reached that size.
pub open spec fn pool_wf(pool: Pool) -> bool {
    &&& forall|k: u8| pool.contains_key(k)
    &&& forall|k: u8| (#[trigger] pool[k]).no_duplicates()
    &&& forall|j: u8, k: u8, p: ParticipantId|
        #![trigger pool[j].contains(p), pool[k].contains(p)]
        pool[j].contains(p) && pool[k].contains(p) ==> j == k
    &&& forall|k: u8| k >= 1 ==> (#[trigger] pool[k]).len() < k
}

/// The pool in which nobody waits.
pub open spec fn empty_pool() -> Pool {
    Map::new(|k: u8| true, |k: u8| Seq::<ParticipantId>::empty())
}

/// The pool without `p`.
pub open spec fn after_leave(pool: Pool, p: ParticipantId) -> Pool {
    Map::new(|k: u8| true, |k: u8| pool[k].remove_value(p))
}

/// A request of `p` for a battle of `k` fills the bucket that holds `bucket`.
pub open spec fn bucket_launches(bucket: Seq<ParticipantId>, p: ParticipantId, k: u8) -> bool {
    bucket.remove_value(p).len() + 1 == k
}

/// The party that a request of `p` completes: those who waited, in order of
/// arrival, and `p`.
pub open spec fn bucket_party(bucket: Seq<ParticipantId>, p: ParticipantId) -> Seq<ParticipantId> {
    bucket.remove_value(p).push(p)
}

/// The bucket of party size `k` after a request of `p` for that size: `p` is
/// appended, and a bucket that thereby reaches `k` is drained as a whole.
pub open spec fn bucket_step(bucket: Seq<ParticipantId>, p: ParticipantId, k: u8) -> Seq<
    ParticipantId,
> {
    if bucket_launches(bucket, p, k) {
        Seq::empty()
    } else {
        bucket_party(bucket, p)
    }
}

/// The pool after `p` asked for `mode`. A participant's latest request
/// counts: they leave the bucket in which they waited, if any. A request for
/// a battle against the AI is served at once, so nothing else changes. A
/// request for a free-for-all of `k` changes the bucket of `k` alone.
pub open spec fn after_request(pool: Pool, p: ParticipantId, mode: BattleMode) -> Pool {
    match mode {
        BattleMode::AIMatch => after_leave(pool, p),
        BattleMode::FreeForAll { party_size } => after_leave(pool, p).insert(
            party_size,
            bucket_step(pool[party_size], p, party_size),
        ),
    }
}

/// The pool after one event of the lobby.
pub open spec fn pool_step(pool: Pool, msg: LobbyMsg) -> Pool {
    match msg {
        LobbyMsg::Joined(_) => pool,
        LobbyMsg::ModeRequest(p, mode) => after_request(pool, p, mode),
        LobbyMsg::Malformed(p) => after_leave(pool, p),
        LobbyMsg::Disconnected(p) => after_leave(pool, p),
    }
}

/// The units of a battle of `p` against the AI: the participant's own, and
/// the unmanned one paired with it.
pub open spec fn ai_roster(p: ParticipantId) -> Seq<Unit> {
    seq![Unit::of_participant(p), Unit::of_ai(p)]
}

/// Removing a value from a sequence that does not hold it changes nothing.
pub proof fn lemma_remove_value_absent(s: Seq<ParticipantId>, p: ParticipantId)
    requires
        !s.contains(p),
    ensures
        s.remove_value(p) == s,
{
    s.index_of_first_ensures(p);
}

/// In a sequence without duplicates, removing the value at index `i` removes
/// that value altogether and keeps the rest in order.
pub proof fn lemma_remove_value_at(s: Seq<ParticipantId>, p: ParticipantId, i: int)
    requires
        s.no_duplicates(),
        0 <= i < s.len(),
        s[i] == p,
    ensures
        s.remove_value(p) == s.remove(i),
        s.remove(i).no_duplicates(),
        !s.remove(i).contains(p),
        forall|q: ParticipantId| q != p ==> (s.remove(i).contains(q) <==> s.contains(q)),
{
    s.index_of_first_ensures(p);
    let r = s.remove(i);
    assert(s.contains(p));
    assert forall|a: int, b: int| 0 <= a < r.len() && 0 <= b < r.len() && a != b implies r[a]
        != r[b] by {
        let a0 = if a < i { a } else { a + 1 };
        let b0 = if b < i { b } else { b + 1 };
        assert(r[a] == s[a0] && r[b] == s[b0]);
    }
    if r.contains(p) {
        let a = choose|a: int| 0 <= a < r.len() && r[a] == p;
        let a0 = if a < i { a } else { a + 1 };
        assert(r[a] == s[a0]);
    }
    assert forall|q: ParticipantId| q != p implies (r.contains(q) <==> s.contains(q)) by {
        if r.contains(q) {
            let a = choose|a: int| 0 <= a < r.len() && r[a] == q;
            let a0 = if a < i { a } else { a + 1 };
            assert(s[a0] == q);
        }
        if s.contains(q) {
            let a = choose|a: int| 0 <= a < s.len() && s[a] == q;
            let a1 = if a < i { a } else { a - 1 };
            assert(r[a1] == q);
        }
    }
}

/// What holds of a bucket without duplicates once `p` has left it.
pub proof fn lemma_bucket_without(s: Seq<ParticipantId>, p: ParticipantId)
    requires
        s.no_duplicates(),
    ensures
        s.remove_value(p).no_duplicates(),
        !s.remove_value(p).contains(p),
        s.remove_value(p).len() <= s.len(),
        forall|q: ParticipantId| q != p ==> (s.remove_value(p).contains(q) <==> s.contains(q)),
{
    s.index_of_first_ensures(p);
    match s.index_of_first(p) {
        Some(i) => {
            lemma_remove_value_at(s, p, i);
        },
        None => {},
    }
}

/// Leaving keeps the pool's invariant, and who left waits nowhere.
pub proof fn lemma_after_leave_wf(pool: Pool, p: ParticipantId)
    requires
        pool_wf(pool),
    ensures
        pool_wf(after_leave(pool, p)),
        !is_waiting(after_leave(pool, p), p),
        !is_waiting(pool, p) ==> after_leave(pool, p) == pool,
{
    let out = after_leave(pool, p);
    assert forall|k: u8| (#[trigger] out[k]).no_duplicates() && !out[k].contains(p) && out[k].len()
        <= pool[k].len() by {
        lemma_bucket_without(pool[k], p);
    }
    assert forall|j: u8, k: u8, q: ParticipantId|
        #![trigger out[j].contains(q), out[k].contains(q)]
        out[j].contains(q) && out[k].contains(q) implies j == k by {
        lemma_bucket_without(pool[j], p);
        lemma_bucket_without(pool[k], p);
        assert(pool[j].contains(q) && pool[k].contains(q));
    }
    if !is_waiting(pool, p) {
        assert forall|k: u8| #[trigger] out[k] == pool[k] by {
            lemma_remove_value_absent(pool[k], p);
        }
        assert(out =~= pool);
    }
}

/// A request keeps the pool's invariant; whoever asked for a battle against
/// the AI waits nowhere afterwards.
pub proof fn lemma_after_request_wf(pool: Pool, p: ParticipantId, mode: BattleMode)
    requires
        pool_wf(pool),
    ensures
        pool_wf(after_request(pool, p, mode)),
        mode is AIMatch ==> !is_waiting(after_request(pool, p, mode), p),
{
    lemma_after_leave_wf(pool, p);
    let base = after_leave(pool, p);
    match mode {
        BattleMode::AIMatch => {},
        BattleMode::FreeForAll { party_size } => {
            let k = party_size;
            let out = after_request(pool, p, mode);
            let b = bucket_step(pool[k], p, k);
            assert(out[k] == b);
            assert(base[k] == pool[k].remove_value(p));
            assert forall|j: u8| j != k implies #[trigger] out[j] == base[j] by {}
            assert forall|j: u8| j != k implies !(#[trigger] base[j]).contains(p) by {}
            if !bucket_launches(pool[k], p, k) {
                assert(b == base[k].push(p));
                assert forall|q: ParticipantId| b.contains(q) <==> (base[k].contains(q) || q
                    == p) by {
                    if b.contains(q) {
                        let a = choose|a: int| 0 <= a < b.len() && b[a] == q;
                        if a < base[k].len() {
                            assert(base[k][a] == q);
                        }
                    }
                    if base[k].contains(q) {
                        let a = choose|a: int| 0 <= a < base[k].len() && base[k][a] == q;
                        assert(b[a] == q);
                    }
                    if q == p {
                        assert(b[base[k].len() as int] == p);
                    }
                }
                assert(b.no_duplicates()) by {
                    assert forall|x: int, y: int|
                        0 <= x < b.len() && 0 <= y < b.len() && x != y implies b[x] != b[y] by {
                        if x < base[k].len() && y < base[k].len() {
                            assert(base[k][x] != base[k][y]);
                        } else if x < base[k].len() {
                            assert(base[k].contains(base[k][x]));
                        } else if y < base[k].len() {
                            assert(base[k].contains(base[k][y]));
                        }
                    }
                }
            } else {
                assert(b =~= Seq::<ParticipantId>::empty());
            }
            assert forall|j: u8| (#[trigger] out[j]).no_duplicates() by {
                if j != k {
                    assert(out[j] == base[j]);
                }
            }
            assert forall|i: u8, j: u8, q: ParticipantId|
                #![trigger out[i].contains(q), out[j].contains(q)]
                out[i].contains(q) && out[j].contains(q) implies i == j by {
                if i != j {
                    if i == k {
                        assert(out[j] == base[j]);
                        assert(base[k].contains(q) || q == p);
                        assert(base[j].contains(q));
                    } else if j == k {
                        assert(out[i] == base[i]);
                        assert(base[k].contains(q) || q == p);
                        assert(base[i].contains(q));
                    } else {
                        assert(out[i] == base[i] && out[j] == base[j]);
                    }
                }
            }
            assert forall|j: u8| j >= 1 implies (#[trigger] out[j]).len() < j by {
                if j != k {
                    assert(out[j] == base[j]);
                }
            }
        },
    }
}

/// The participants of a roster that was made for `clients` are `clients`,
/// and a roster made for participants who are all different holds one unit
/// for each, in their order.
pub proof fn lemma_roster_of(clients: Seq<ParticipantId>)
    ensures
        roster_wf(roster_of(clients)),
        owners(roster_of(clients)) == clients.to_set(),
        forall|i: int| 0 <= i < roster_of(clients).len() ==> !(#[trigger] roster_of(
            clients,
        )[i]).is_unmanned(),
        clients.no_duplicates() ==> roster_of(clients) == units_for(clients),
    decreases clients.len(),
{
    let roster = roster_of(clients);
    if clients.len() == 0 {
        assert(owners(roster) =~= clients.to_set());
        assert(roster =~= units_for(clients));
    } else {
        let front = clients.drop_last();
        let last = clients.last();
        let rest = roster_of(front);
        lemma_roster_of(front);
        assert(owners(rest).contains(last) <==> owns_unit(rest, last));
        assert forall|q: ParticipantId|
            clients.to_set().contains(q) <==> front.to_set().insert(last).contains(q) by {
            if clients.contains(q) {
                let i = choose|i: int| 0 <= i < clients.len() && clients[i] == q;
                if i < front.len() {
                    assert(front[i] == q);
                }
            }
            if front.contains(q) {
                let i = choose|i: int| 0 <= i < front.len() && front[i] == q;
                assert(clients[i] == q);
            }
            if q == last {
                assert(clients[clients.len() - 1] == q);
            }
        }
        assert(clients.to_set() =~= front.to_set().insert(last));
        if owns_unit(rest, last) {
            assert(owners(roster) =~= clients.to_set());
            if clients.no_duplicates() {
                assert(front.contains(last));
                let i = choose|i: int| 0 <= i < front.len() && front[i] == last;
                assert(clients[i] == clients[clients.len() - 1]);
            }
        } else {
            let unit = Unit::of_participant(last);
            lemma_owners_push(rest, unit);
            assert forall|j: int| 0 <= j < rest.len() implies (#[trigger] rest[j]).id
                != unit.id by {
                assert(rest[j].well_formed());
                assert(!rest[j].is_unmanned());
                assert(rest[j].client != Some(last));
            }
            if clients.no_duplicates() {
                assert(front.no_duplicates()) by {
                    assert forall|x: int, y: int|
                        0 <= x < front.len() && 0 <= y < front.len() && x != y implies front[x]
                        != front[y] by {
                        assert(clients[x] != clients[y]);
                    }
                }
                assert(units_for(front) =~= units_for(clients).drop_last());
                assert(roster =~= units_for(clients));
            }
        }
    }
}

/// Starts a battle of `client_id` against the AI: a session over the
/// participant's unit and the unmanned unit paired with it.
pub fn schedule_ai(client_id: ParticipantId) -> (session: ServerBattleState)
    ensures
        session.wf(),
        session@ == SessionView::initial(ai_roster(client_id)),
        session@.active == set![client_id],
{
    let mut ships = UnitRegistry::new();
    ships.add_participant_unit(client_id);
    proof {
        assert(!crate::registry::has_id(ships@, crate::identity::ai_unit_id_spec(client_id))) by {
            if crate::registry::has_id(ships@, crate::identity::ai_unit_id_spec(client_id)) {
                let i = choose|i: int|
                    0 <= i < ships@.len() && (#[trigger] ships@[i]).id
                        == crate::identity::ai_unit_id_spec(client_id);
                assert(ships@[i].well_formed());
            }
        }
    }
    ships.add_ai_unit(client_id);
    proof {
        assert(ships@ =~= ai_roster(client_id));
        let one = Seq::<Unit>::empty().push(Unit::of_participant(client_id));
        lemma_owners_push(Seq::<Unit>::empty(), Unit::of_participant(client_id));
        lemma_owners_push(one, Unit::of_ai(client_id));
        assert(owners(Seq::<Unit>::empty()) =~= Set::<ParticipantId>::empty());
        assert(one.push(Unit::of_ai(client_id)) =~= ai_roster(client_id));
        assert(owners(ai_roster(client_id)) =~= set![client_id]);
    }
    ServerBattleState::new(ships)
}

/// Starts a free-for-all among `clients`: a session over one unit for each
/// of them, in their order.
pub fn schedule_ffa(clients: &Vec<ParticipantId>) -> (session: ServerBattleState)
    ensures
        session.wf(),
        session@ == SessionView::initial(roster_of(clients@)),
        session@.active == clients@.to_set(),
        clients@.no_duplicates() ==> session@.units == units_for(clients@),
{
    let mut ships = UnitRegistry::new();
    let mut i: usize = 0;
    while i < clients.len()
        invariant
            i <= clients.len(),
            ships.wf(),
            ships@ == roster_of(clients@.take(i as int)),
        decreases clients.len() - i,
    {
        proof {
            assert(clients@.take(i + 1).drop_last() =~= clients@.take(i as int));
        }
        ships.add_participant_unit(clients[i]);
        i += 1;
    }
    proof {
        assert(clients@.take(i as int) =~= clients@);
        lemma_roster_of(clients@);
    }
    ServerBattleState::new(ships)
}

/// The matchmaking scheduler of one lobby.
pub struct BattleScheduler {
    ffa_waiting: HashMap<u8, Vec<ParticipantId>>,
}

impl View for BattleScheduler {
    type V = Pool;

    closed spec fn view(&self) -> Pool {
        Map::new(
            |k: u8| true,
            |k: u8|
                if self.ffa_waiting@.contains_key(k) {
                    self.ffa_waiting@[k]@
                } else {
                    Seq::empty()
                },
        )
    }
}

impl BattleScheduler {
    /// The scheduler's invariant: see [`pool_wf`].
    pub open spec fn wf(&self) -> bool {
        pool_wf(self@)
    }

    /// A scheduler in whose lobby nobody waits.
    pub fn new() -> (s: BattleScheduler)
        ensures
            s.wf(),
            s@ == empty_pool(),
    {
        let s = BattleScheduler { ffa_waiting: HashMap::new() };
        proof {
            assert(s@ =~= empty_pool());
        }
        s
    }

    /// The participants that wait for a battle of `party_size`, in order of
    /// arrival.
    pub fn waiting_for(&self, party_size: u8) -> (r: Vec<ParticipantId>)
        ensures
            r@ == self@[party_size],
    {
        broadcast use vstd::std_specs::hash::group_hash_axioms;

        let mut r: Vec<ParticipantId> = Vec::new();
        match self.ffa_waiting.get(&party_size) {
            Some(bucket) => {
                let mut i: usize = 0;
                while i < bucket.len()
                    invariant
                        i <= bucket.len(),
                        r@ == bucket@.take(i as int),
                    decreases bucket.len() - i,
                {
                    r.push(bucket[i]);
                    proof {
                        assert(bucket@.take(i + 1) =~= bucket@.take(i as int).push(bucket@[i as int]));
                    }
                    i += 1;
                }
                proof {
                    assert(bucket@.take(i as int) =~= bucket@);
                }
            },
            None => {},
        }
        r
    }

    /// The position of `p` in the bucket of `k`.
    fn position_in(&self, k: u8, p: ParticipantId) -> (r: Option<usize>)
        ensures
            match r {
                Some(i) => {
                    &&& i < self@[k].len()
                    &&& self@[k][i as int] == p
                    &&& self.ffa_waiting@.contains_key(k)
                },
                None => !self@[k].contains(p),
            },
    {
        broadcast use vstd::std_specs::hash::group_hash_axioms;

        match self.ffa_waiting.get(&k) {
            Some(bucket) => {
                let mut i: usize = 0;
                while i < bucket.len()
                    invariant
                        i <= bucket.len(),
                        self.ffa_waiting@.contains_key(k),
                        self@[k] == bucket@,
                        forall|j: int| 0 <= j < i ==> bucket@[j] != p,
                    decreases bucket.len() - i,
                {
                    if bucket[i] == p {
                        return Some(i);
                    }
                    i += 1;
                }
                None
            },
            None => None,
        }
    }

    /// The party size for which `p` waits.
    pub fn waiting_in(&self, p: ParticipantId) -> (r: Option<u8>)
        ensures
            match r {
                Some(k) => self@[k].contains(p),
                None => !is_waiting(self@, p),
            },
    {
        let mut k: u8 = 0;
        loop
            invariant
                forall|j: u8| j < k ==> !(#[trigger] self@[j]).contains(p),
            decreases 255 - k,
        {
            match self.position_in(k, p) {
                Some(_) => {
                    return Some(k);
                },
                None => {},
            }
            if k == 255 {
                return None;
            }
            k += 1;
        }
    }

    /// Takes `p` out of the bucket in which they wait, if any.
    fn remove_waiting(&mut self, p: ParticipantId) -> (found: bool)
        requires
            old(self).wf(),
        ensures
            final(self).wf(),
            final(self)@ == after_leave(old(self)@, p),
            found == is_waiting(old(self)@, p),
    {
        broadcast use vstd::std_specs::hash::group_hash_axioms;

        proof {
            lemma_after_leave_wf(self@, p);
        }
        let mut k: u8 = 0;
        loop
            invariant
                *self == *old(self),
                self.wf(),
                pool_wf(after_leave(self@, p)),
                !is_waiting(self@, p) ==> after_leave(self@, p) == self@,
                forall|j: u8| j < k ==> !(#[trigger] self@[j]).contains(p),
            decreases 255 - k,
        {
            match self.position_in(k, p) {
                Some(i) => {
                    let ghost before = self@;
                    match self.ffa_waiting.remove(&k) {
                        Some(bucket) => {
                            let mut bucket = bucket;
                            bucket.remove(i);
                            self.ffa_waiting.insert(k, bucket);
                        },
                        None => {},
                    }
                    proof {
                        lemma_remove_value_at(before[k], p, i as int);
                        assert(before[k].contains(p));
                        assert forall|j: u8| #[trigger] self@[j] == after_leave(before, p)[j] by {
                            if j != k {
                                assert(self@[j] == before[j]);
                                assert(!before[j].contains(p));
                                lemma_remove_value_absent(before[j], p);
                            }
                        }
                        assert(self@ =~= after_leave(before, p));
                    }
                    return true;
                },
                None => {},
            }
            if k == 255 {
                return false;
            }
            k += 1;
        }
    }

    /// The participant connected to the lobby. They have not asked for a
    /// battle mode yet: nothing changes.
    pub fn on_join(&self, participant: ParticipantId) -> (action: LobbyAction)
        ensures
            action is Ignore,
    {
        LobbyAction::Ignore
    }

    /// The participant's connection was lost: they leave the bucket in which
    /// they waited. The result says whether they waited.
    pub fn on_disconnect(&mut self, participant: ParticipantId) -> (waited: bool)
        requires
            old(self).wf(),
        ensures
            final(self).wf(),
            final(self)@ == after_leave(old(self)@, participant),
            waited == is_waiting(old(self)@, participant),
    {
        self.remove_waiting(participant)
    }

    /// The participant asked for a battle mode. Their latest request counts:
    /// if they wait in a bucket, they leave it first. A battle against the AI
    /// starts at once. For a free-for-all the participant is appended to the
    /// bucket of their party size; when that makes the bucket as long as the
    /// party size, the whole bucket is drained into a new session, else the
    /// participant waits.
    pub fn on_mode_request(&mut self, participant: ParticipantId, mode: BattleMode) -> (action:
        LobbyAction)
        requires
            old(self).wf(),
        ensures
            final(self).wf(),
            final(self)@ == after_request(old(self)@, participant, mode),
            match mode {
                BattleMode::AIMatch => {
                    &&& action matches LobbyAction::Launch { participants, session }
                    &&& participants@ == seq![participant]
                    &&& session.wf()
                    &&& session@ == SessionView::initial(ai_roster(participant))
                    &&& session@.active == set![participant]
                },
                BattleMode::FreeForAll { party_size } => if bucket_launches(
                    old(self)@[party_size],
                    participant,
                    party_size,
                ) {
                    &&& action matches LobbyAction::Launch { participants, session }
                    &&& participants@ == bucket_party(old(self)@[party_size], participant)
                    &&& participants@.no_duplicates()
                    &&& session.wf()
                    &&& session@ == SessionView::initial(units_for(participants@))
                    &&& session@.active == participants@.to_set()
                } else {
                    action is Wait
                },
            },
    {
        broadcast use vstd::std_specs::hash::group_hash_axioms;

        proof {
            lemma_after_request_wf(self@, participant, mode);
            lemma_after_leave_wf(self@, participant);
        }
        self.remove_waiting(participant);
        match mode {
            BattleMode::AIMatch => {
                let mut participants: Vec<ParticipantId> = Vec::new();
                participants.push(participant);
                let session = schedule_ai(participant);
                proof {
                    assert(participants@ =~= seq![participant]);
                }
                LobbyAction::Launch { participants, session }
            },
            BattleMode::FreeForAll { party_size } => {
                let ghost base = self@;
                let mut bucket = match self.ffa_waiting.remove(&party_size) {
                    Some(bucket) => bucket,
                    None => Vec::new(),
                };
                proof {
                    assert(bucket@ == base[party_size]);
                    assert(self@ =~= base.insert(party_size, Seq::empty()));
                }
                bucket.push(participant);
                if bucket.len() == party_size as usize {
                    let session = schedule_ffa(&bucket);
                    proof {
                        assert(self@ =~= after_request(old(self)@, participant, mode));
                        lemma_party_distinct(base[party_size], participant);
                        lemma_roster_of(bucket@);
                    }
                    LobbyAction::Launch { participants: bucket, session }
                } else {
                    self.ffa_waiting.insert(party_size, bucket);
                    proof {
                        assert(self@ =~= after_request(old(self)@, participant, mode));
                    }
                    LobbyAction::Wait
                }
            },
        }
    }

    /// Takes one event of the lobby: moves the scheduler to its next state
    /// and says what its owner has to do. A packet that does not decode as a
    /// battle mode costs its sender the connection, and nobody else anything.
    pub fn handle(&mut self, msg: LobbyMsg) -> (action: LobbyAction)
        requires
            old(self).wf(),
        ensures
            final(self).wf(),
            final(self)@ == pool_step(old(self)@, msg),
            match msg {
                LobbyMsg::Joined(_) => action is Ignore,
                LobbyMsg::Disconnected(_) => action is Ignore,
                LobbyMsg::Malformed(p) => action == LobbyAction::DropConnection(p),
                LobbyMsg::ModeRequest(p, BattleMode::AIMatch) => {
                    &&& action matches LobbyAction::Launch { participants, session }
                    &&& participants@ == seq![p]
                    &&& session.wf()
                    &&& session@ == SessionView::initial(ai_roster(p))
                    &&& session@.active == set![p]
                },
                LobbyMsg::ModeRequest(p, BattleMode::FreeForAll { party_size }) => if bucket_launches(
                    old(self)@[party_size],
                    p,
                    party_size,
                ) {
                    &&& action matches LobbyAction::Launch { participants, session }
                    &&& participants@ == bucket_party(old(self)@[party_size], p)
                    &&& participants@.no_duplicates()
                    &&& session.wf()
                    &&& session@ == SessionView::initial(units_for(participants@))
                    &&& session@.active == participants@.to_set()
                } else {
                    action is Wait
                },
            },
    {
        match msg {
            LobbyMsg::Joined(p) => self.on_join(p),
            LobbyMsg::ModeRequest(p, mode) => self.on_mode_request(p, mode),
            LobbyMsg::Malformed(p) => {
                self.remove_waiting(p);
                LobbyAction::DropConnection(p)
            },
            LobbyMsg::Disconnected(p) => {
                self.on_disconnect(p);
                LobbyAction::Ignore
            },
        }
    }
}

/// A party is made of participants who are all different, provided those who
/// waited were.
pub proof fn lemma_party_distinct(bucket: Seq<ParticipantId>, p: ParticipantId)
    requires
        bucket.no_duplicates(),
        !bucket.contains(p),
    ensures
        bucket.push(p).no_duplicates(),
{
    let b = bucket.push(p);
    assert forall|x: int, y: int| 0 <= x < b.len() && 0 <= y < b.len() && x != y implies b[x]
        != b[y] by {
        if x < bucket.len() && y < bucket.len() {
            assert(bucket[x] != bucket[y]);
        } else if x < bucket.len() {
            assert(bucket.contains(bucket[x]));
        } else if y < bucket.len() {
            assert(bucket.contains(bucket[y]));
        }
    }
}

/// The bucket of party size `k` after the requests of `reqs`, each for a
/// free-for-all of `k`, reached an empty bucket in this order.
pub open spec fn bucket_after(reqs: Seq<ParticipantId>, k: u8) -> Seq<ParticipantId>
    decreases reqs.len(),
{
    if reqs.len() == 0 {
        Seq::empty()
    } else {
        bucket_step(bucket_after(reqs.drop_last(), k), reqs.last(), k)
    }
}

/// The parties that were launched while the requests of `reqs`, each for a
/// free-for-all of `k`, reached an empty bucket in this order.
pub open spec fn parties_after(reqs: Seq<ParticipantId>, k: u8) -> Seq<Seq<ParticipantId>>
    decreases reqs.len(),
{
    if reqs.len() == 0 {
        Seq::empty()
    } else {
        let before = bucket_after(reqs.drop_last(), k);
        let earlier = parties_after(reqs.drop_last(), k);
        if bucket_launches(before, reqs.last(), k) {
            earlier.push(bucket_party(before, reqs.last()))
        } else {
            earlier
        }
    }
}

/// Free-for-all matchmaking is first come, first served. When participants
/// who are all different ask for a free-for-all of `k`, one after the other,
/// a party is launched at every `k`-th request and at no other. The parties
/// are the successive runs of `k` requesters, in order of arrival, and who is
/// left over waits in the bucket. Right after a launch the bucket is empty.
pub proof fn theorem_free_for_all_parties(reqs: Seq<ParticipantId>, k: u8)
    requires
        reqs.no_duplicates(),
        k >= 1,
    ensures
        parties_after(reqs, k).len() == reqs.len() / (k as nat),
        forall|j: int|
            0 <= j < parties_after(reqs, k).len() ==> #[trigger] parties_after(reqs, k)[j]
                == reqs.subrange(j * k, j * k + k),
        bucket_after(reqs, k) == reqs.subrange(
            reqs.len() - reqs.len() % (k as nat),
            reqs.len() as int,
        ),
        reqs.len() > 0 ==> (bucket_launches(bucket_after(reqs.drop_last(), k), reqs.last(), k)
            <==> reqs.len() % (k as nat) == 0),
        reqs.len() > 0 && reqs.len() % (k as nat) == 0 ==> bucket_after(reqs, k)
            == Seq::<ParticipantId>::empty(),
    decreases reqs.len(),
{
    let n = reqs.len() as int;
    let d = k as int;
    if n == 0 {
        lemma_fundamental_div_mod_converse(0, d, 0, 0);
        assert(bucket_after(reqs, k) =~= reqs.subrange(0, 0));
    } else {
        let front = reqs.drop_last();
        let last = reqs.last();
        let m = n - 1;
        assert(front.no_duplicates()) by {
            assert forall|x: int, y: int|
                0 <= x < front.len() && 0 <= y < front.len() && x != y implies front[x]
                != front[y] by {
                assert(reqs[x] != reqs[y]);
            }
        }
        theorem_free_for_all_parties(front, k);
        let q = m / d;
        let r = m % d;
        lemma_fundamental_div_mod(m, d);
        lemma_mod_pos_bound(m, d);
        lemma_div_pos_is_pos(m, d);
        assert(m == q * d + r) by (nonlinear_arith)
            requires
                m == d * q + r,
        ;
        let before = bucket_after(front, k);
        assert(before == front.subrange(m - r, m));
        assert(!before.contains(last)) by {
            if before.contains(last) {
                let i = choose|i: int| 0 <= i < before.len() && before[i] == last;
                assert(reqs[m - r + i] == reqs[n - 1]);
            }
        }
        lemma_remove_value_absent(before, last);
        let earlier = parties_after(front, k);
        if r + 1 == d {
            assert(n == (q + 1) * d + 0) by (nonlinear_arith)
                requires
                    n == q * d + r + 1,
                    r + 1 == d,
            ;
            lemma_fundamental_div_mod_converse(n, d, q + 1, 0);
            assert(before.push(last) =~= reqs.subrange(q * d, q * d + d));
            assert(bucket_after(reqs, k) =~= reqs.subrange(n - 0, n));
            assert(parties_after(reqs, k) == earlier.push(before.push(last)));
        } else {
            lemma_fundamental_div_mod_converse(n, d, q, r + 1);
            assert(before.push(last) =~= reqs.subrange(n - (r + 1), n));
            assert(parties_after(reqs, k) == earlier);
        }
        let parties = parties_after(reqs, k);
        assert forall|j: int| 0 <= j < parties.len() implies #[trigger] parties[j]
            == reqs.subrange(j * k, j * k + k) by {
            if j < q {
                assert(parties[j] == earlier[j]);
                assert(0 <= j * d && j * d + d <= q * d) by (nonlinear_arith)
                    requires
                        0 <= j < q,
                        d >= 1,
                ;
                assert(front.subrange(j * d, j * d + d) =~= reqs.subrange(j * d, j * d + d));
            }
        }
    }
}

/// A free-for-all of nobody is never launched: whoever asks for one waits.
pub proof fn theorem_party_of_zero(reqs: Seq<ParticipantId>)
    requires
        reqs.no_duplicates(),
    ensures
        parties_after(reqs, 0) == Seq::<Seq<ParticipantId>>::empty(),
        bucket_after(reqs, 0) == reqs,
    decreases reqs.len(),
{
    if reqs.len() > 0 {
        let front = reqs.drop_last();
        assert(front.no_duplicates()) by {
            assert forall|x: int, y: int|
                0 <= x < front.len() && 0 <= y < front.len() && x != y implies front[x]
                != front[y] by {
                assert(reqs[x] != reqs[y]);
            }
        }
        theorem_party_of_zero(front);
        assert(!front.contains(reqs.last())) by {
            if front.contains(reqs.last()) {
                let i = choose|i: int| 0 <= i < front.len() && front[i] == reqs.last();
                assert(reqs[i] == reqs[reqs.len() - 1]);
            }
        }
        lemma_remove_value_absent(front, reqs.last());
        assert(front.push(reqs.last()) =~= reqs);
    } else {
        assert(bucket_after(reqs, 0) =~= reqs);
    }
}

/// A battle against the AI is served at once, whoever asks and whatever the
/// pool holds: the session has the participant's unit and one unmanned unit,
/// the participant is its one active member, and afterwards they wait in no
/// bucket. Nobody else's place in the pool changes.
pub proof fn theorem_ai_match(pool: Pool, p: ParticipantId)
    requires
        pool_wf(pool),
    ensures
        roster_wf(ai_roster(p)),
        ai_roster(p).len() == 2,
        ai_roster(p)[0].client == Some(p),
        ai_roster(p)[1].is_unmanned(),
        ai_roster(p)[0].id != ai_roster(p)[1].id,
        SessionView::initial(ai_roster(p)).wf(),
        SessionView::initial(ai_roster(p)).active == set![p],
        !is_waiting(after_request(pool, p, BattleMode::AIMatch), p),
        forall|k: u8, q: ParticipantId|
            q != p ==> (#[trigger] after_request(pool, p, BattleMode::AIMatch)[k].contains(q)
                <==> pool[k].contains(q)),
{
    let roster = ai_roster(p);
    let one = Seq::<Unit>::empty().push(Unit::of_participant(p));
    lemma_owners_push(Seq::<Unit>::empty(), Unit::of_participant(p));
    lemma_owners_push(one, Unit::of_ai(p));
    assert(owners(Seq::<Unit>::empty()) =~= Set::<ParticipantId>::empty());
    assert(one.push(Unit::of_ai(p)) =~= roster);
    assert(owners(roster) =~= set![p]);
    lemma_after_leave_wf(pool, p);
    assert forall|k: u8, q: ParticipantId| q != p implies (#[trigger] after_request(
        pool,
        p,
        BattleMode::AIMatch,
    )[k].contains(q) <==> pool[k].contains(q)) by {
        lemma_bucket_without(pool[k], p);
    }
}

/// Requests for different party sizes do not interact: a request for a
/// free-for-all of `k` leaves every other bucket as it was, but for the
/// requester leaving the bucket in which they waited.
pub proof fn theorem_party_sizes_independent(pool: Pool, p: ParticipantId, k: u8, j: u8)
    requires
        pool_wf(pool),
        j != k,
    ensures
        after_request(pool, p, BattleMode::FreeForAll { party_size: k })[j]
            == pool[j].remove_value(p),
        !pool[j].contains(p) ==> after_request(pool, p, BattleMode::FreeForAll { party_size: k })[j]
            == pool[j],
{
    if !pool[j].contains(p) {
        lemma_remove_value_absent(pool[j], p);
    }
}

} // verus!
