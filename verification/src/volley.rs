//! The timing of a missile volley: when each projectile of a volley strikes,
//! and how hard a moving target is to hit.

use crate::tick::{EffectId, SimEvent, SimEvents};
use rand::rngs::ThreadRng;
use rand::RngExt;
use vstd::prelude::*;

verus! {

/// The generator of random numbers that `rand` keeps for each thread.
#[verifier::external_type_specification]
#[verifier::external_body]
pub struct ExThreadRng(rand::rngs::ThreadRng);

/// `rand::rng` hands out the thread's generator. Nothing is claimed of it.
/// It takes no argument; the crate documents one panic, where the operating
/// system gives no seed for the generator.
pub assume_specification[ rand::rng ]() -> (generator: rand::rngs::ThreadRng);

/// `RngExt::random_ratio`: a draw that comes out true with a chance of
/// `numerator` in `denominator`. Of the outcome only the two certain cases
/// are claimed, as the crate documents them: a chance of `denominator` in
/// `denominator` always comes out true, a chance of zero never. The crate
/// panics on a denominator of zero and on a numerator above the denominator;
/// both are excluded here.
#[verifier::external_body]
fn random_ratio(generator: &mut ThreadRng, numerator: u32, denominator: u32) -> (outcome: bool)
    requires
        denominator > 0,
        numerator <= denominator,
    ensures
        numerator == denominator ==> outcome,
        numerator == 0 ==> !outcome,
{
    generator.random_ratio(numerator, denominator)
}

/// Ticks between the launches of two successive projectiles of a volley.
pub const VOLLEY_SPACING: u32 = 10;

/// Ticks from the launch of a projectile to its impact.
pub const IMPACT_DELAY: u32 = 40;

/// Thrust beyond this level makes a target no harder to hit.
pub const MAX_EVASION: u8 = 5;

/// The chance of a hit is counted in parts of this many.
pub const CHANCE_PARTS: u32 = 20;

/// Parts of the chance of a hit that each step of evasion takes away: 3 in
/// 20, which is 15 in 100.
pub const PARTS_PER_EVASION_STEP: u32 = 3;

/// The tick at which the projectile at position `i` of a volley strikes.
pub open spec fn impact_tick(i: nat) -> nat {
    i * VOLLEY_SPACING as nat + IMPACT_DELAY as nat
}

/// The events that a volley schedules: one for each projectile that hits, at
/// that projectile's impact tick, in the order of the projectiles.
pub open spec fn volley_events(hits: Seq<bool>, target: usize, effect: EffectId) -> Seq<SimEvent>
    decreases hits.len(),
{
    if hits.len() == 0 {
        Seq::empty()
    } else {
        let rest = volley_events(hits.drop_last(), target, effect);
        if hits.last() {
            rest.push(
                SimEvent { tick: impact_tick((hits.len() - 1) as nat) as u32, target, effect },
            )
        } else {
            rest
        }
    }
}

/// The events of a volley strike one target with one effect, each at the
/// impact tick of a projectile that hits, later projectiles later; and every
/// projectile that hits has its event.
pub proof fn lemma_volley_events(hits: Seq<bool>, target: usize, effect: EffectId)
    requires
        hits.len() == 0 || impact_tick((hits.len() - 1) as nat) <= u32::MAX,
    ensures
        volley_events(hits, target, effect).len() <= hits.len(),
        forall|a: int|
            0 <= a < volley_events(hits, target, effect).len() ==> {
                let e = #[trigger] volley_events(hits, target, effect)[a];
                &&& e.target == target
                &&& e.effect == effect
                &&& exists|i: int| 0 <= i < hits.len() && hits[i] && e.tick == impact_tick(i as nat)
            },
        forall|a: int, b: int|
            0 <= a < b < volley_events(hits, target, effect).len() ==> (#[trigger] volley_events(
                hits,
                target,
                effect,
            )[a]).tick < (#[trigger] volley_events(hits, target, effect)[b]).tick,
        forall|i: int|
            0 <= i < hits.len() && #[trigger] hits[i] ==> volley_events(
                hits,
                target,
                effect,
            ).contains(SimEvent { tick: impact_tick(i as nat) as u32, target, effect }),
    decreases hits.len(),
{
    let events = volley_events(hits, target, effect);
    if hits.len() > 0 {
        let front = hits.drop_last();
        let rest = volley_events(front, target, effect);
        let n = (hits.len() - 1) as nat;
        lemma_volley_events(front, target, effect);
        assert forall|a: int| 0 <= a < rest.len() implies (#[trigger] rest[a]).tick < impact_tick(
            n,
        ) by {
            let i = choose|i: int|
                0 <= i < front.len() && front[i] && rest[a].tick == impact_tick(i as nat);
        }
        assert forall|a: int| 0 <= a < events.len() implies {
            let e = #[trigger] events[a];
            &&& e.target == target
            &&& e.effect == effect
            &&& exists|i: int| 0 <= i < hits.len() && hits[i] && e.tick == impact_tick(i as nat)
        } by {
            if a < rest.len() {
                let i = choose|i: int|
                    0 <= i < front.len() && front[i] && rest[a].tick == impact_tick(i as nat);
                assert(hits[i]);
            } else {
                assert(hits[n as int]);
            }
        }
        assert forall|i: int| 0 <= i < hits.len() && #[trigger] hits[i] implies events.contains(
            SimEvent { tick: impact_tick(i as nat) as u32, target, effect },
        ) by {
            let e = SimEvent { tick: impact_tick(i as nat) as u32, target, effect };
            if i < front.len() {
                assert(front[i]);
                let a = choose|a: int| 0 <= a < rest.len() && rest[a] == e;
                assert(events[a] == e);
            } else {
                assert(events[events.len() - 1] == e);
            }
        }
    }
}

/// How much the target's thrust lowers the chance of a hit, in steps: the
/// thrust, capped.
pub fn evasion_steps(thrust: u8) -> (steps: u8)
    ensures
        steps == if thrust <= MAX_EVASION {
            thrust
        } else {
            MAX_EVASION
        },
{
    if thrust <= MAX_EVASION {
        thrust
    } else {
        MAX_EVASION
    }
}

/// The chance that a projectile hits a target of the given thrust, as a
/// numerator in [`CHANCE_PARTS`]: certain against a target at rest, and lower
/// by 15 in 100 for each step of evasion.
pub fn hit_chance(thrust: u8) -> (numerator: u32)
    ensures
        numerator == CHANCE_PARTS - PARTS_PER_EVASION_STEP * (if thrust <= MAX_EVASION {
            thrust
        } else {
            MAX_EVASION
        }),
        0 < numerator <= CHANCE_PARTS,
{
    let steps: u32 = evasion_steps(thrust) as u32;
    CHANCE_PARTS - PARTS_PER_EVASION_STEP * steps
}

/// Decides for every projectile of a volley whether it hits, by one draw
/// each against the chance that the target's thrust leaves. Without a target
/// nothing is decided, and `hits` stays as it is.
pub fn server_preprocess(hits: &mut Vec<bool>, target_thrust: Option<u8>)
    ensures
        final(hits)@.len() == old(hits)@.len(),
        target_thrust is None ==> final(hits)@ == old(hits)@,
        target_thrust == Some(0u8) ==> forall|i: int|
            0 <= i < final(hits)@.len() ==> #[trigger] final(hits)@[i],
{
    match target_thrust {
        Some(thrust) => {
            let numerator = hit_chance(thrust);
            let mut generator = rand::rng();
            let n = hits.len();
            let mut i: usize = 0;
            while i < n
                invariant
                    i <= n,
                    n == hits@.len(),
                    0 < numerator <= CHANCE_PARTS,
                    thrust == 0 ==> numerator == CHANCE_PARTS,
                    thrust == 0 ==> forall|j: int| 0 <= j < i ==> #[trigger] hits@[j],
                decreases n - i,
            {
                let hit = random_ratio(&mut generator, numerator, CHANCE_PARTS);
                hits.set(i, hit);
                i += 1;
            }
        },
        None => {},
    }
}

/// Schedules the impacts of a volley against the unit at index `target`:
/// `effect` at the impact tick of every projectile that hits. `hits` says of
/// each projectile of the volley, in firing order, whether it hits.
pub fn schedule_volley(events: &mut SimEvents, hits: &Vec<bool>, target: usize, effect: EffectId)
    requires
        hits@.len() == 0 || impact_tick((hits@.len() - 1) as nat) <= u32::MAX,
    ensures
        final(events)@ == old(events)@ + volley_events(hits@, target, effect),
{
    let mut i: usize = 0;
    proof {
        assert(old(events)@ + Seq::<SimEvent>::empty() =~= old(events)@);
    }
    while i < hits.len()
        invariant
            i <= hits.len(),
            hits@.len() == 0 || impact_tick((hits@.len() - 1) as nat) <= u32::MAX,
            events@ == old(events)@ + volley_events(hits@.take(i as int), target, effect),
        decreases hits.len() - i,
    {
        proof {
            assert(hits@.take(i + 1).drop_last() =~= hits@.take(i as int));
            assert(impact_tick(i as nat) <= impact_tick((hits@.len() - 1) as nat)) by (nonlinear_arith)
                requires
                    i <= hits@.len() - 1,
            ;
        }
        let start = (i as u32) * VOLLEY_SPACING;
        let hit_tick = start + IMPACT_DELAY;
        if hits[i] {
            events.add(hit_tick, target, effect);
            proof {
                let so_far = volley_events(hits@.take(i as int), target, effect);
                let event = SimEvent { tick: hit_tick, target, effect };
                assert((old(events)@ + so_far).push(event) =~= old(events)@ + so_far.push(event));
            }
        }
        i += 1;
    }
    proof {
        assert(hits@.take(i as int) =~= hits@);
    }
}

} // verus!
