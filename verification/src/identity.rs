//! Identities of participants and of the combat units that stand for them.

use vstd::prelude::*;

verus! {

/// A connected client. Unique for the lifetime of its connection.
pub type ParticipantId = u32;

/// A combat unit inside one match.
pub type UnitId = u64;

/// First identity of the range reserved for AI-owned units. Every identity
/// derived from a participant lies strictly below it.
pub const AI_UNIT_BASE: u64 = 0x1_0000_0000;

/// Identity of the unit that participant `p` owns.
pub open spec fn participant_unit_id_spec(p: ParticipantId) -> UnitId {
    p as u64
}

/// Identity of the AI-owned unit that is paired with participant `p`.
pub open spec fn ai_unit_id_spec(p: ParticipantId) -> UnitId {
    (AI_UNIT_BASE + p) as u64
}

/// Identity of the unit that participant `p` owns.
#[verifier::when_used_as_spec(participant_unit_id_spec)]
pub fn participant_unit_id(p: ParticipantId) -> (id: UnitId)
    ensures
        id == participant_unit_id_spec(p),
        id < AI_UNIT_BASE,
{
    p as u64
}

/// Identity of the AI-owned unit that is paired with participant `p`.
#[verifier::when_used_as_spec(ai_unit_id_spec)]
pub fn ai_unit_id(p: ParticipantId) -> (id: UnitId)
    ensures
        id == ai_unit_id_spec(p),
        id == AI_UNIT_BASE + p,
        id >= AI_UNIT_BASE,
{
    AI_UNIT_BASE + (p as u64)
}

/// A combat unit of one match: owned by a participant, or unmanned and played
/// by the AI.
#[derive(Clone, Copy, Debug, PartialEq, Eq, Structural)]
pub struct Unit {
    pub id: UnitId,
    pub client: Option<ParticipantId>,
}

impl Unit {
    /// The unit that participant `p` owns.
    pub open spec fn of_participant(p: ParticipantId) -> Unit {
        Unit { id: participant_unit_id_spec(p), client: Some(p) }
    }

    /// The unmanned unit paired with participant `p`.
    pub open spec fn of_ai(p: ParticipantId) -> Unit {
        Unit { id: ai_unit_id_spec(p), client: None }
    }

    /// A unit's identity agrees with its owner: a participant's unit carries
    /// the identity derived from that participant, an unmanned unit one of
    /// the reserved range.
    pub open spec fn well_formed(self) -> bool {
        match self.client {
            Some(p) => self.id == participant_unit_id_spec(p),
            None => self.id >= AI_UNIT_BASE,
        }
    }

    pub open spec fn is_unmanned(self) -> bool {
        self.client is None
    }
}

/// No identity of an AI-owned unit is the identity of a participant's unit,
/// and each derivation gives different identities to different participants.
pub proof fn lemma_unit_ids_disjoint(p: ParticipantId, q: ParticipantId)
    ensures
        ai_unit_id_spec(p) != participant_unit_id_spec(q),
        participant_unit_id_spec(p) == participant_unit_id_spec(q) <==> p == q,
        ai_unit_id_spec(p) == ai_unit_id_spec(q) <==> p == q,
{
}

} // verus!
