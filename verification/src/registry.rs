//! The ordered collection of combat units that one match owns.
//!
//! Units are held by stable index: collaborators are handed an index and read
//! the unit through the registry.

use crate::identity::{ai_unit_id, participant_unit_id, ParticipantId, Unit, UnitId};
use vstd::prelude::*;

verus! {

/// Participant `p` owns one of `units`.
pub open spec fn owns_unit(units: Seq<Unit>, p: ParticipantId) -> bool {
    exists|i: int| 0 <= i < units.len() && (#[trigger] units[i]).client == Some(p)
}

/// One of `units` carries the identity `id`.
pub open spec fn has_id(units: Seq<Unit>, id: UnitId) -> bool {
    exists|i: int| 0 <= i < units.len() && (#[trigger] units[i]).id == id
}

/// The participants that own one of `units`.
pub open spec fn owners(units: Seq<Unit>) -> Set<ParticipantId> {
    Set::new(|p: ParticipantId| owns_unit(units, p))
}

/// Every unit's identity agrees with its owner, and no identity occurs twice.
pub open spec fn roster_wf(units: Seq<Unit>) -> bool {
    &&& forall|i: int| 0 <= i < units.len() ==> (#[trigger] units[i]).well_formed()
    &&& forall|i: int, j: int|
        0 <= i < j < units.len() ==> (#[trigger] units[i]).id != (#[trigger] units[j]).id
}

/// The indices of the unmanned units, in increasing order.
pub open spec fn unmanned_indices(units: Seq<Unit>) -> Seq<usize>
    decreases units.len(),
{
    if units.len() == 0 {
        Seq::empty()
    } else {
        let rest = unmanned_indices(units.drop_last());
        if units.last().is_unmanned() {
            rest.push((units.len() - 1) as usize)
        } else {
            rest
        }
    }
}

/// The roster that results from giving each of `clients`, in order, a unit of
/// their own; a participant named twice gets one unit.
pub open spec fn roster_of(clients: Seq<ParticipantId>) -> Seq<Unit>
    decreases clients.len(),
{
    if clients.len() == 0 {
        Seq::empty()
    } else {
        let rest = roster_of(clients.drop_last());
        if owns_unit(rest, clients.last()) {
            rest
        } else {
            rest.push(Unit::of_participant(clients.last()))
        }
    }
}

/// One unit for each of `clients`, in their order.
pub open spec fn units_for(clients: Seq<ParticipantId>) -> Seq<Unit> {
    Seq::new(clients.len(), |i: int| Unit::of_participant(clients[i]))
}

/// The owners of a roster are finitely many.
pub proof fn lemma_owners_finite(units: Seq<Unit>)
    ensures
        owners(units).finite(),
        owners(units).len() <= units.len(),
    decreases units.len(),
{
    if units.len() == 0 {
        assert(owners(units) =~= Set::<ParticipantId>::empty());
    } else {
        let front = units.drop_last();
        lemma_owners_finite(front);
        match units.last().client {
            Some(p) => {
                assert forall|q: ParticipantId|
                    owners(units).contains(q) <==> owners(front).insert(p).contains(q) by {
                    if owns_unit(units, q) {
                        let i = choose|i: int|
                            0 <= i < units.len() && (#[trigger] units[i]).client == Some(q);
                        if i < units.len() - 1 {
                            assert(front[i].client == Some(q));
                        }
                    }
                    if owns_unit(front, q) {
                        let i = choose|i: int|
                            0 <= i < front.len() && (#[trigger] front[i]).client == Some(q);
                        assert(units[i].client == Some(q));
                    }
                    if q == p {
                        assert(units[units.len() - 1].client == Some(q));
                    }
                }
                assert(owners(units) =~= owners(front).insert(p));
            },
            None => {
                assert forall|q: ParticipantId|
                    owners(units).contains(q) <==> owners(front).contains(q) by {
                    if owns_unit(units, q) {
                        let i = choose|i: int|
                            0 <= i < units.len() && (#[trigger] units[i]).client == Some(q);
                        assert(front[i].client == Some(q));
                    }
                    if owns_unit(front, q) {
                        let i = choose|i: int|
                            0 <= i < front.len() && (#[trigger] front[i]).client == Some(q);
                        assert(units[i].client == Some(q));
                    }
                }
                assert(owners(units) =~= owners(front));
            },
        }
    }
}

/// Adding a participant's unit adds that participant to the owners.
pub proof fn lemma_owners_push(units: Seq<Unit>, u: Unit)
    ensures
        owners(units.push(u)) == match u.client {
            Some(p) => owners(units).insert(p),
            None => owners(units),
        },
{
    let more = units.push(u);
    assert forall|q: ParticipantId| owns_unit(more, q) <==> (owns_unit(units, q) || u.client == Some(
        q,
    )) by {
        if owns_unit(more, q) {
            let i = choose|i: int| 0 <= i < more.len() && (#[trigger] more[i]).client == Some(q);
            if i < units.len() {
                assert(units[i].client == Some(q));
            }
        }
        if owns_unit(units, q) {
            let i = choose|i: int| 0 <= i < units.len() && (#[trigger] units[i]).client == Some(q);
            assert(more[i].client == Some(q));
        }
        if u.client == Some(q) {
            assert(more[units.len() as int].client == Some(q));
        }
    }
    match u.client {
        Some(p) => {
            assert(owners(more) =~= owners(units).insert(p));
        },
        None => {
            assert(owners(more) =~= owners(units));
        },
    }
}

/// The unmanned indices are exactly the positions of the unmanned units,
/// each once, in increasing order.
pub proof fn lemma_unmanned_indices(units: Seq<Unit>)
    requires
        units.len() <= usize::MAX,
    ensures
        forall|a: int|
            0 <= a < unmanned_indices(units).len() ==> {
                &&& (#[trigger] unmanned_indices(units)[a]) < units.len()
                &&& units[unmanned_indices(units)[a] as int].is_unmanned()
            },
        forall|a: int, b: int|
            0 <= a < b < unmanned_indices(units).len() ==> (#[trigger] unmanned_indices(units)[a])
                < (#[trigger] unmanned_indices(units)[b]),
        forall|i: int|
            0 <= i < units.len() && (#[trigger] units[i]).is_unmanned() ==> unmanned_indices(
                units,
            ).contains(i as usize),
        unmanned_indices(units).len() <= units.len(),
    decreases units.len(),
{
    let found = unmanned_indices(units);
    if units.len() > 0 {
        let front = units.drop_last();
        let rest = unmanned_indices(front);
        lemma_unmanned_indices(front);
        assert forall|a: int| 0 <= a < rest.len() implies units[(#[trigger] rest[a]) as int]
            == front[rest[a] as int] by {}
        assert forall|i: int| 0 <= i < units.len() && (#[trigger] units[i]).is_unmanned() implies found.contains(
            i as usize,
        ) by {
            if i < front.len() {
                assert(front[i].is_unmanned());
                let a = choose|a: int| 0 <= a < rest.len() && rest[a] == i as usize;
                assert(found[a] == i as usize);
            } else {
                assert(found[found.len() - 1] == i as usize);
            }
        }
    }
}

/// The unit registry of one match.
pub struct UnitRegistry {
    units: Vec<Unit>,
}

impl View for UnitRegistry {
    type V = Seq<Unit>;

    closed spec fn view(&self) -> Seq<Unit> {
        self.units@
    }
}

impl UnitRegistry {
    /// The registry's invariant: see `roster_wf`.
    pub open spec fn wf(&self) -> bool {
        roster_wf(self@)
    }

    /// The empty registry.
    pub fn new() -> (r: UnitRegistry)
        ensures
            r@ == Seq::<Unit>::empty(),
            r.wf(),
    {
        UnitRegistry { units: Vec::new() }
    }

    /// Number of units.
    pub fn len(&self) -> (n: usize)
        ensures
            n == self@.len(),
    {
        self.units.len()
    }

    /// The unit at index `i`, if there is one.
    pub fn get(&self, i: usize) -> (u: Option<Unit>)
        ensures
            u == if i < self@.len() {
                Some(self@[i as int])
            } else {
                None::<Unit>
            },
    {
        if i < self.units.len() {
            Some(self.units[i])
        } else {
            None
        }
    }

    /// The index of the unit that participant `p` owns.
    pub fn index_of(&self, p: ParticipantId) -> (r: Option<usize>)
        ensures
            match r {
                Some(i) => i < self@.len() && self@[i as int].client == Some(p) && forall|j: int|
                    0 <= j < i ==> (#[trigger] self@[j]).client != Some(p),
                None => !owns_unit(self@, p),
            },
    {
        let mut i: usize = 0;
        while i < self.units.len()
            invariant
                i <= self.units.len(),
                forall|j: int| 0 <= j < i ==> (#[trigger] self.units@[j]).client != Some(p),
            decreases self.units.len() - i,
        {
            match self.units[i].client {
                Some(q) => {
                    if q == p {
                        return Some(i);
                    }
                },
                None => {},
            }
            i += 1;
        }
        None
    }

    /// Whether one of the units carries the identity `id`.
    pub fn contains_id(&self, id: UnitId) -> (r: bool)
        ensures
            r == has_id(self@, id),
    {
        let mut i: usize = 0;
        while i < self.units.len()
            invariant
                i <= self.units.len(),
                forall|j: int| 0 <= j < i ==> (#[trigger] self.units@[j]).id != id,
            decreases self.units.len() - i,
        {
            if self.units[i].id == id {
                return true;
            }
            i += 1;
        }
        false
    }

    /// Gives participant `p` a unit of their own, at the end of the registry,
    /// unless they own one already.
    pub fn add_participant_unit(&mut self, p: ParticipantId) -> (added: bool)
        requires
            old(self).wf(),
        ensures
            final(self).wf(),
            added == !owns_unit(old(self)@, p),
            final(self)@ == if added {
                old(self)@.push(Unit::of_participant(p))
            } else {
                old(self)@
            },
    {
        match self.index_of(p) {
            Some(_) => false,
            None => {
                let unit = Unit { id: participant_unit_id(p), client: Some(p) };
                proof {
                    assert forall|j: int| 0 <= j < self@.len() implies (#[trigger] self@[j]).id
                        != unit.id by {
                        assert(self@[j].well_formed());
                    }
                }
                self.units.push(unit);
                true
            },
        }
    }

    /// Adds the unmanned unit paired with participant `p`, at the end of the
    /// registry, unless it is there already.
    pub fn add_ai_unit(&mut self, p: ParticipantId) -> (added: bool)
        requires
            old(self).wf(),
        ensures
            final(self).wf(),
            added == !has_id(old(self)@, ai_unit_id(p)),
            final(self)@ == if added {
                old(self)@.push(Unit::of_ai(p))
            } else {
                old(self)@
            },
    {
        let id = ai_unit_id(p);
        if self.contains_id(id) {
            false
        } else {
            self.units.push(Unit { id, client: None });
            true
        }
    }

    /// The indices of the unmanned units, in increasing order.
    pub fn unmanned(&self) -> (r: Vec<usize>)
        ensures
            r@ == unmanned_indices(self@),
    {
        let mut r: Vec<usize> = Vec::new();
        let mut i: usize = 0;
        while i < self.units.len()
            invariant
                i <= self.units.len(),
                r@ == unmanned_indices(self.units@.take(i as int)),
            decreases self.units.len() - i,
        {
            proof {
                let next = self.units@.take(i + 1);
                assert(next.drop_last() =~= self.units@.take(i as int));
                assert(next.last() == self.units@[i as int]);
            }
            if self.units[i].client.is_none() {
                r.push(i);
            }
            i += 1;
        }
        proof {
            assert(self.units@.take(i as int) =~= self.units@);
        }
        r
    }

    /// A copy of the unit list, in registry order.
    pub fn snapshot(&self) -> (r: Vec<Unit>)
        ensures
            r@ == self@,
    {
        let mut r: Vec<Unit> = Vec::new();
        let mut i: usize = 0;
        while i < self.units.len()
            invariant
                i <= self.units.len(),
                r@ == self.units@.take(i as int),
            decreases self.units.len() - i,
        {
            r.push(self.units[i]);
            proof {
                assert(self.units@.take(i + 1) =~= self.units@.take(i as int).push(
                    self.units@[i as int],
                ));
            }
            i += 1;
        }
        proof {
            assert(self.units@.take(i as int) =~= self.units@);
        }
        r
    }
}

} // verus!
