//! Contact: a mob touching the player. One touch counts per frame; it is
//! dodged or it hurts, and thorns may answer it.

use crate::damage::{
    ceil_percent, contact_damage, damage_curve, lemma_percent_fits, saturate, thorns_damage,
};
use crate::entity::Entity;
use crate::events::{Direction, DodgeEvent, HitEvent, HitSource, InvincibilityTimer};
use crate::overlap::{both_orderings, intersection_pairs};
use crate::world::{is_sole, sole, ComponentsView, Filter, World};
use rand::Rng;
use vstd::prelude::*;

verus! {

/// What became of the frame's touch.
#[derive(Clone, Copy, Debug, PartialEq, Eq, Structural)]
pub enum ContactOutcome {
    /// No mob touched the player.
    Clear,
    /// The player dodged and is immune for a while.
    Dodged { dodge: DodgeEvent, timer: InvincibilityTimer },
    /// The player was hit; `thorns` is what the mob got back.
    Hit { hit: HitEvent, thorns: Option<HitEvent> },
}

/// The hits of `outcome`, in the order dealt.
pub open spec fn contact_hits(outcome: ContactOutcome) -> Seq<HitEvent> {
    match outcome {
        ContactOutcome::Hit { hit, thorns: Some(back) } => seq![hit, back],
        ContactOutcome::Hit { hit, thorns: None } => seq![hit],
        _ => Seq::empty(),
    }
}

impl ContactOutcome {
    /// The hits to hand on, in the order dealt.
    pub fn hits(&self) -> (hits: Vec<HitEvent>)
        ensures
            hits@ == contact_hits(*self),
    {
        let mut hits: Vec<HitEvent> = Vec::new();
        match self {
            ContactOutcome::Hit { hit, thorns } => {
                hits.push(*hit);
                match thorns {
                    Some(back) => {
                        hits.push(*back);
                    },
                    None => {},
                }
            },
            _ => {},
        }
        assert(hits@ =~= contact_hits(*self));
        hits
    }
}

/// Whether a touch of `e` hurts: a mob, not a player, with a position and
/// an attack.
pub open spec fn hurtful(world: Map<Entity, ComponentsView>, e: Entity) -> bool {
    &&& world.dom().contains(e)
    &&& world[e].mob
    &&& !world[e].player
    &&& world[e].has_position
    &&& world[e].attack is Some
}

/// The mob of the first ordered pair in which `body` comes first and a
/// hurtful mob second.
pub open spec fn first_touch(
    world: Map<Entity, ComponentsView>,
    body: Entity,
    pairs: Seq<(Entity, Entity)>,
) -> Option<Entity>
    decreases pairs.len(),
{
    if pairs.len() == 0 {
        None
    } else if pairs[0].0 == body && hurtful(world, pairs[0].1) {
        Some(pairs[0].1)
    } else {
        first_touch(world, body, pairs.drop_first())
    }
}

/// The touch that counts this frame: the player's body and the first mob
/// that the overlaps, each taken both ways round, show touching it.
pub open spec fn touching(world: Map<Entity, ComponentsView>, pairs: Seq<(Entity, Entity)>) -> Option<
    (Entity, Entity),
> {
    match sole(world, Filter::Body) {
        Some(body) => match first_touch(world, body, both_orderings(pairs)) {
            Some(mob) => Some((body, mob)),
            None => None,
        },
        None => None,
    }
}

/// The chances in a hundred that the player dodges a touch.
pub open spec fn dodge_chance(world: Map<Entity, ComponentsView>) -> int {
    match sole(world, Filter::Body) {
        Some(body) => if world[body].dodge->0 < 0 {
            0
        } else {
            world[body].dodge->0 as int
        },
        None => 0,
    }
}

/// What a touch of `mob` on `body` comes to when the dodge roll came out
/// as `rolled`. A body that is immune does not dodge and deals no thorns.
/// Both hits push along the line from the mob to the body.
pub open spec fn touch(
    world: Map<Entity, ComponentsView>,
    body: Entity,
    mob: Entity,
    rolled: bool,
) -> ContactOutcome {
    let immune = world[body].invincibility_timer;
    let direction = Direction::Between { from: mob, to: body };
    let attack = world[mob].attack->0;
    if rolled && !immune {
        ContactOutcome::Dodged {
            dodge: DodgeEvent { entity: body },
            timer: InvincibilityTimer {
                entity: body,
                millis: world[body].invincibility_cooldown->0,
            },
        }
    } else {
        ContactOutcome::Hit {
            hit: HitEvent {
                target: body,
                damage: saturate(damage_curve(attack as int, world[body].defence->0 as int)) as i32,
                direction,
                source: HitSource::Contact,
            },
            thorns: if world[body].thorns->0 > 0 && !immune {
                Some(
                    HitEvent {
                        target: mob,
                        damage: saturate(
                            ceil_percent(attack as int, world[body].thorns->0 as int),
                        ) as i32,
                        direction,
                        source: HitSource::Contact,
                    },
                )
            } else {
                None
            },
        }
    }
}

/// One frame of contact, the dodge roll having come out as `rolled`.
pub open spec fn contact(
    world: Map<Entity, ComponentsView>,
    pairs: Seq<(Entity, Entity)>,
    rolled: bool,
) -> ContactOutcome {
    match touching(world, pairs) {
        Some((body, mob)) => touch(world, body, mob, rolled),
        None => ContactOutcome::Clear,
    }
}

proof fn lemma_first_touch(
    world: Map<Entity, ComponentsView>,
    body: Entity,
    pairs: Seq<(Entity, Entity)>,
)
    ensures
        first_touch(world, body, pairs) matches Some(mob) ==> hurtful(world, mob),
    decreases pairs.len(),
{
    if pairs.len() > 0 {
        lemma_first_touch(world, body, pairs.drop_first());
    }
}

/// However many mobs overlap the player, a frame deals at most one hit to
/// a player, and that one first.
pub proof fn lemma_one_hit_on_player(
    world: Map<Entity, ComponentsView>,
    pairs: Seq<(Entity, Entity)>,
    rolled: bool,
)
    ensures
        ({
            let hits = contact_hits(contact(world, pairs, rolled));
            &&& hits.len() <= 2
            &&& forall|i: int|
                0 <= i < hits.len() && world.dom().contains((#[trigger] hits[i]).target)
                    && world[hits[i].target].player ==> i == 0
        }),
{
    match sole(world, Filter::Body) {
        Some(body) => {
            lemma_first_touch(world, body, both_orderings(pairs));
        },
        None => {},
    }
}

/// A touch is dodged exactly when the roll succeeds and the body is not
/// immune already.
pub proof fn lemma_dodge_follows_roll(
    world: Map<Entity, ComponentsView>,
    pairs: Seq<(Entity, Entity)>,
    rolled: bool,
)
    ensures
        contact(world, pairs, rolled) is Dodged <==> rolled && (touching(world, pairs) matches Some(
            t,
        ) && !world[t.0].invincibility_timer),
{
}

/// When the player is hit, thorns answer exactly when the body has thorns
/// and is not immune. The mob then takes the thorns' share of its own
/// attack, rounded up, pushed the same way as the player; a share of at
/// most a hundred percent is dealt in full.
pub proof fn lemma_thorns_answer(
    world: Map<Entity, ComponentsView>,
    pairs: Seq<(Entity, Entity)>,
    rolled: bool,
)
    requires
        contact(world, pairs, rolled) is Hit,
    ensures
        ({
            let (body, mob) = touching(world, pairs)->0;
            let thorns = world[body].thorns->0;
            let attack = world[mob].attack->0;
            let hit = contact(world, pairs, rolled)->hit;
            let back = contact(world, pairs, rolled)->thorns;
            &&& back is Some <==> thorns > 0 && !world[body].invincibility_timer
            &&& back matches Some(b) ==> b.target == mob && b.direction == hit.direction
                && b.damage == saturate(ceil_percent(attack as int, thorns as int))
            &&& back matches Some(b) ==> (thorns <= 100 ==> b.damage == ceil_percent(
                attack as int,
                thorns as int,
            ))
        }),
{
    let (body, mob) = touching(world, pairs)->0;
    if 0 <= world[body].thorns->0 <= 100 {
        lemma_percent_fits(world[mob].attack->0 as int, world[body].thorns->0 as int);
    }
}

/// `rand::Rng::gen_ratio` on the generator that `rand::thread_rng` hands
/// out: true with `numerator` chances in `denominator`. Believed of it, not
/// proved: no chance never comes true, and all chances always do. Nothing is
/// said of what lies between. It is not called with a zero denominator or a
/// numerator above the denominator, on which it panics.
#[verifier::external_body]
fn roll(numerator: u32, denominator: u32) -> (success: bool)
    requires
        0 < denominator,
        numerator <= denominator,
    ensures
        numerator == 0 ==> !success,
        numerator == denominator ==> success,
{
    rand::thread_rng().gen_ratio(numerator, denominator)
}

fn is_hurtful(world: &World, e: Entity) -> (yes: bool)
    ensures
        yes == hurtful(world@, e),
{
    match world.get(e) {
        Some(c) => c.mob && !c.player && c.has_position && c.attack.is_some(),
        None => false,
    }
}

/// Finds the touch that counts this frame: the player's body and the mob.
pub fn find_touch(world: &World, overlaps: &Vec<(Entity, Entity)>) -> (found: Option<
    (Entity, Entity),
>)
    ensures
        found == touching(world@, overlaps@),
        found matches Some((body, mob)) ==> is_sole(world@, Filter::Body, body) && hurtful(
            world@,
            mob,
        ),
{
    let body = match world.sole(Filter::Body) {
        Some(body) => body,
        None => {
            return None;
        },
    };
    let ordered = intersection_pairs(overlaps);
    proof {
        assert(ordered@.skip(0) =~= ordered@);
    }
    let mut i: usize = 0;
    while i < ordered.len()
        invariant
            i <= ordered@.len(),
            ordered@ == both_orderings(overlaps@),
            sole(world@, Filter::Body) == Some(body),
            is_sole(world@, Filter::Body, body),
            first_touch(world@, body, ordered@) == first_touch(
                world@,
                body,
                ordered@.skip(i as int),
            ),
        decreases ordered@.len() - i,
    {
        let pair = ordered[i];
        proof {
            assert(ordered@.skip(i as int)[0] == pair);
            assert(ordered@.skip(i as int).drop_first() =~= ordered@.skip(i + 1));
        }
        if pair.0 == body && is_hurtful(world, pair.1) {
            return Some((body, pair.1));
        }
        i += 1;
    }
    None
}

fn resolve_touch(world: &World, body: Entity, mob: Entity, rolled: bool) -> (out: ContactOutcome)
    requires
        is_sole(world@, Filter::Body, body),
        hurtful(world@, mob),
    ensures
        out == touch(world@, body, mob, rolled),
{
    let (immune, defence, thorns, millis) = match world.get(body) {
        Some(c) => match (c.defence, c.thorns, c.invincibility_cooldown) {
            (Some(defence), Some(thorns), Some(millis)) => (
                c.invincibility_timer,
                defence,
                thorns,
                millis,
            ),
            _ => {
                return ContactOutcome::Clear;
            },
        },
        None => {
            return ContactOutcome::Clear;
        },
    };
    let attack: i32 = match world.get(mob) {
        Some(c) => match c.attack {
            Some(attack) => attack,
            None => {
                return ContactOutcome::Clear;
            },
        },
        None => {
            return ContactOutcome::Clear;
        },
    };
    if rolled && !immune {
        return ContactOutcome::Dodged {
            dodge: DodgeEvent { entity: body },
            timer: InvincibilityTimer { entity: body, millis },
        };
    }
    let direction = Direction::Between { from: mob, to: body };
    ContactOutcome::Hit {
        hit: HitEvent {
            target: body,
            damage: contact_damage(attack, defence),
            direction,
            source: HitSource::Contact,
        },
        thorns: if thorns > 0 && !immune {
            Some(
                HitEvent {
                    target: mob,
                    damage: thorns_damage(attack, thorns),
                    direction,
                    source: HitSource::Contact,
                },
            )
        } else {
            None
        },
    }
}

/// Resolves the frame's touch for a dodge roll that came out as `rolled`.
/// `overlaps` are the pairs that intersect the player now.
pub fn resolve_contact(world: &World, overlaps: &Vec<(Entity, Entity)>, rolled: bool) -> (out:
    ContactOutcome)
    ensures
        out == contact(world@, overlaps@, rolled),
{
    match find_touch(world, overlaps) {
        Some((body, mob)) => resolve_touch(world, body, mob, rolled),
        None => ContactOutcome::Clear,
    }
}

/// The chances in a hundred that the player dodges a touch: its dodge, and
/// none where the dodge is below zero or the world does not hold exactly
/// one body to touch.
pub fn dodge_chances(world: &World) -> (chances: u32)
    ensures
        chances == dodge_chance(world@),
{
    let dodge: i32 = match world.sole(Filter::Body) {
        Some(body) => match world.get(body) {
            Some(c) => match c.dodge {
                Some(dodge) => dodge,
                None => 0,
            },
            None => 0,
        },
        None => 0,
    };
    if dodge < 0 {
        0
    } else {
        dodge as u32
    }
}

/// Resolves the frame's touch, rolling for the dodge where there is one to
/// roll for, with the chances that `dodge_chances` gives. `overlaps` are the
/// pairs that intersect the player now. The player's dodge is a percentage:
/// above a hundred there is nothing to roll. A player without a chance never
/// dodges; one with a hundred in a hundred dodges whenever it is not immune
/// already.
pub fn check_mob_to_player_collisions(world: &World, overlaps: &Vec<(Entity, Entity)>) -> (out:
    ContactOutcome)
    requires
        dodge_chance(world@) <= 100,
    ensures
        out == contact(world@, overlaps@, true) || out == contact(world@, overlaps@, false),
        dodge_chance(world@) == 0 ==> out == contact(world@, overlaps@, false),
        dodge_chance(world@) == 100 ==> out == contact(world@, overlaps@, true),
{
    match find_touch(world, overlaps) {
        Some((body, mob)) => {
            let rolled = roll(dodge_chances(world), 100);
            resolve_touch(world, body, mob, rolled)
        },
        None => ContactOutcome::Clear,
    }
}

} // verus!
