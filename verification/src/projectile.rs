//! Projectiles: the player's against mobs and the world, the mobs' against
//! the player and the world. A projectile hits a target once.

use crate::damage::lifesteal_heal;
use crate::entity::{contains, lemma_record, Entity};
use crate::events::{Direction, HitEvent, HitSource, ModifyHealthEvent, Projectile};
use crate::overlap::{both_orderings, started, started_events, CollisionEvent};
use crate::world::{
    can_hit, heal_of, lifesteal_of, sole, with_hit, ComponentsView, Filter, PlayerFrame, World,
};
use vstd::prelude::*;

verus! {

/// A projectile meeting a target that it may hit, before the projectile's
/// own record is asked.
#[derive(Clone, Copy, Debug, PartialEq, Eq, Structural)]
pub struct Strike {
    pub projectile: Entity,
    pub kind: Projectile,
    pub target: Entity,
    pub damage: i32,
    /// The health the hit gives back to whoever shot.
    pub heal: Option<ModifyHealthEvent>,
    /// Whether the projectile stays in the world after the hit.
    pub persists: bool,
}

/// Whether `e` is a projectile in flight, shot by a mob (`hostile`) or by
/// the player.
pub open spec fn in_flight(world: Map<Entity, ComponentsView>, e: Entity, hostile: bool) -> bool {
    &&& world.dom().contains(e)
    &&& world[e].hit_entities is Some
    &&& world[e].projectile is Some
    &&& (world[e].enemy_projectile is Some) == hostile
}

/// The projectile that the colliding shape `collider` belongs to: the
/// entity it is attached to where it is attached to one, else itself.
pub open spec fn projectile_of(
    world: Map<Entity, ComponentsView>,
    collider: Entity,
    hostile: bool,
) -> Option<Entity> {
    if world.dom().contains(collider) && world[collider].parent is Some {
        if in_flight(world, world[collider].parent->0, hostile) {
            world[collider].parent
        } else {
            None
        }
    } else if in_flight(world, collider, hostile) {
        Some(collider)
    } else {
        None
    }
}

/// What a projectile of the player may hit: anything but pickups, main-hand
/// weapons and other projectiles.
pub open spec fn fair_game(world: Map<Entity, ComponentsView>, target: Entity) -> bool {
    &&& world.dom().contains(target)
    &&& !world[target].item_stack
    &&& !world[target].main_hand
    &&& world[target].projectile is None
}

/// What a projectile of a mob may hit: the player and world objects, no
/// projectiles.
pub open spec fn exposed(world: Map<Entity, ComponentsView>, target: Entity) -> bool {
    &&& world.dom().contains(target)
    &&& (world[target].player || world[target].world_object is Some)
    &&& world[target].projectile is None
}

/// The strike, if any, of a projectile of the player in the ordered pair
/// `pair`. The player and what is attached to it are never struck; a world
/// object gives no health back.
pub open spec fn strike_on_mob(
    world: Map<Entity, ComponentsView>,
    frame: PlayerFrame,
    pair: (Entity, Entity),
) -> Option<Strike> {
    match (projectile_of(world, pair.0, false), sole(world, Filter::Wielder)) {
        (Some(projectile), Some(player)) => {
            let target = pair.1;
            if target == player || world[player].children->0.contains(target) || !fair_game(
                world,
                target,
            ) {
                None
            } else {
                Some(
                    Strike {
                        projectile,
                        kind: world[projectile].projectile->0,
                        target,
                        damage: frame.damage,
                        heal: if lifesteal_of(world, player) > 0 && world[target].world_object
                            is None {
                            Some(heal_of(world, player, frame.damage))
                        } else {
                            None
                        },
                        persists: world[projectile].done_animation,
                    },
                )
            }
        },
        _ => None,
    }
}

/// Whether `owner` is a mob that can attack.
pub open spec fn armed_mob(world: Map<Entity, ComponentsView>, owner: Entity) -> bool {
    world.dom().contains(owner) && world[owner].mob && world[owner].attack is Some
}

/// The strike, if any, of a projectile of a mob in the ordered pair `pair`.
/// The mob that shot is never struck by its own projectile.
pub open spec fn strike_on_player(world: Map<Entity, ComponentsView>, pair: (Entity, Entity)) -> Option<
    Strike,
> {
    match projectile_of(world, pair.0, true) {
        Some(projectile) => {
            let owner = world[projectile].enemy_projectile->0;
            let target = pair.1;
            if !armed_mob(world, owner) || target == owner || !exposed(world, target) {
                None
            } else {
                Some(
                    Strike {
                        projectile,
                        kind: world[projectile].projectile->0,
                        target,
                        damage: world[owner].attack->0,
                        heal: None,
                        persists: world[projectile].done_animation,
                    },
                )
            }
        },
        None => None,
    }
}

/// What a projectile pass has done so far.
pub struct VolleyState {
    /// The world, with the hits the projectiles have recorded.
    pub world: Map<Entity, ComponentsView>,
    pub hits: Seq<HitEvent>,
    pub heals: Seq<ModifyHealthEvent>,
    /// The projectiles to take out of the world, one entry for each hit of
    /// a projectile that does not persist.
    pub despawns: Seq<Entity>,
}

/// What a projectile pass hands on.
#[derive(Debug)]
pub struct ProjectileOutcome {
    pub hits: Vec<HitEvent>,
    pub heals: Vec<ModifyHealthEvent>,
    pub despawns: Vec<Entity>,
}

/// The hit that `strike` deals: it pushes along the projectile's flight.
pub open spec fn strike_hit(strike: Strike) -> HitEvent {
    HitEvent {
        target: strike.target,
        damage: strike.damage,
        direction: Direction::Flight { projectile: strike.projectile },
        source: HitSource::Projectile(strike.kind),
    }
}

/// One candidate, taken after `state`: a strike lands unless its projectile
/// has hit that target before.
pub open spec fn land(state: VolleyState, candidate: Option<Strike>) -> VolleyState {
    match candidate {
        Some(strike) => if can_hit(state.world, strike.projectile, strike.target) {
            VolleyState {
                world: with_hit(state.world, strike.projectile, strike.target),
                hits: state.hits.push(strike_hit(strike)),
                heals: match strike.heal {
                    Some(heal) => state.heals.push(heal),
                    None => state.heals,
                },
                despawns: if strike.persists {
                    state.despawns
                } else {
                    state.despawns.push(strike.projectile)
                },
            }
        } else {
            state
        },
        None => state,
    }
}

/// The candidates `candidates`, taken in order after `start`.
pub open spec fn volley(start: VolleyState, candidates: Seq<Option<Strike>>) -> VolleyState
    decreases candidates.len(),
{
    if candidates.len() == 0 {
        start
    } else {
        land(volley(start, candidates.drop_last()), candidates.last())
    }
}

/// A pass over `world` that has done nothing yet.
pub open spec fn volley_start(world: Map<Entity, ComponentsView>) -> VolleyState {
    VolleyState { world, hits: Seq::empty(), heals: Seq::empty(), despawns: Seq::empty() }
}

/// One frame of the player's projectiles: each contact that began is tried
/// both ways round against the world as the frame found it.
pub open spec fn projectile_mob_pass(
    world: Map<Entity, ComponentsView>,
    frame: PlayerFrame,
    events: Seq<CollisionEvent>,
) -> VolleyState {
    let pairs = both_orderings(started(events));
    volley(
        volley_start(world),
        Seq::new(pairs.len(), |i: int| strike_on_mob(world, frame, pairs[i])),
    )
}

/// One frame of the mobs' projectiles: each contact that began is tried
/// both ways round against the world as the frame found it.
pub open spec fn projectile_player_pass(
    world: Map<Entity, ComponentsView>,
    events: Seq<CollisionEvent>,
) -> VolleyState {
    let pairs = both_orderings(started(events));
    volley(volley_start(world), Seq::new(pairs.len(), |i: int| strike_on_player(world, pairs[i])))
}

/// Whether the hit lists of `after` continue those of `before`: the same
/// entities keep one, and what a list held it still holds, in place.
pub open spec fn lists_grown(
    before: Map<Entity, ComponentsView>,
    after: Map<Entity, ComponentsView>,
) -> bool {
    &&& after.dom() == before.dom()
    &&& forall|e: Entity|
        before.dom().contains(e) ==> ((#[trigger] after[e]).hit_entities is Some)
            == (before[e].hit_entities is Some)
    &&& forall|e: Entity|
        before.dom().contains(e) && (#[trigger] before[e]).hit_entities is Some
            ==> before[e].hit_entities->0.is_prefix_of(after[e].hit_entities->0)
}

/// Whether `hit` was dealt by `projectile` to a target that the projectile
/// had not recorded in `before` and has recorded in `after`.
pub open spec fn newly_recorded(
    before: Map<Entity, ComponentsView>,
    after: Map<Entity, ComponentsView>,
    hit: HitEvent,
) -> bool {
    &&& hit.direction is Flight
    &&& before.dom().contains(hit.direction->projectile)
    &&& before[hit.direction->projectile].hit_entities is Some
    &&& !before[hit.direction->projectile].hit_entities->0.contains(hit.target)
    &&& after[hit.direction->projectile].hit_entities->0.contains(hit.target)
}

/// Whether `state` can come after a pass began on `before`: every hit list
/// continues what it was, each hit was dealt to a target new to its
/// projectile, and no projectile dealt two hits to one target.
pub open spec fn volley_consistent(before: Map<Entity, ComponentsView>, state: VolleyState) -> bool {
    &&& lists_grown(before, state.world)
    &&& forall|k: int|
        0 <= k < state.hits.len() ==> newly_recorded(before, state.world, #[trigger] state.hits[k])
    &&& forall|k: int, l: int|
        0 <= k < l < state.hits.len() && (#[trigger] state.hits[k]).direction == (
        #[trigger] state.hits[l]).direction ==> state.hits[k].target != state.hits[l].target
}

proof fn lemma_land(
    before: Map<Entity, ComponentsView>,
    state: VolleyState,
    candidate: Option<Strike>,
)
    requires
        volley_consistent(before, state),
    ensures
        volley_consistent(before, land(state, candidate)),
{
    let next = land(state, candidate);
    if next != state {
        let strike = candidate->0;
        let p = strike.projectile;
        let t = strike.target;
        let list = state.world[p].hit_entities->0;
        assert(can_hit(state.world, p, t));
        assert(before.dom().contains(p));
        assert(state.world[p].hit_entities is Some);
        assert(before[p].hit_entities is Some);
        assert(next.world[p].hit_entities->0 == list.push(t));
        assert(next.world.dom() =~= before.dom());
        assert(!before[p].hit_entities->0.contains(t)) by {
            let old_list = before[p].hit_entities->0;
            if old_list.contains(t) {
                let k = choose|k: int| 0 <= k < old_list.len() && old_list[k] == t;
                assert(list[k] == t);
            }
        }
        assert forall|e: Entity| before.dom().contains(e) implies ((
        #[trigger] next.world[e]).hit_entities is Some) == (before[e].hit_entities is Some) by {
            if e != p {
                assert(next.world[e] == state.world[e]);
            }
        }
        assert forall|e: Entity|
            before.dom().contains(e) && (#[trigger] before[e]).hit_entities
                is Some implies before[e].hit_entities->0.is_prefix_of(
            next.world[e].hit_entities->0,
        ) by {
            if e != p {
                assert(next.world[e] == state.world[e]);
            } else {
                assert(before[e].hit_entities->0.is_prefix_of(list));
            }
        }
        assert forall|k: int| 0 <= k < next.hits.len() implies newly_recorded(
            before,
            next.world,
            #[trigger] next.hits[k],
        ) by {
            if k < state.hits.len() {
                let hit = state.hits[k];
                assert(next.hits[k] == hit);
                assert(newly_recorded(before, state.world, hit));
                let q = hit.direction->projectile;
                if q == p {
                    let j = choose|j: int| 0 <= j < list.len() && list[j] == hit.target;
                    assert(list.push(t)[j] == hit.target);
                } else {
                    assert(next.world[q] == state.world[q]);
                }
            } else {
                assert(list.push(t)[list.len() as int] == t);
            }
        }
        assert forall|k: int, l: int|
            0 <= k < l < next.hits.len() && (#[trigger] next.hits[k]).direction == (
            #[trigger] next.hits[l]).direction implies next.hits[k].target
            != next.hits[l].target by {
            if l < state.hits.len() {
                assert(next.hits[k] == state.hits[k]);
                assert(next.hits[l] == state.hits[l]);
            } else {
                let hit = state.hits[k];
                assert(next.hits[k] == hit);
                assert(newly_recorded(before, state.world, hit));
                assert(list.contains(hit.target));
            }
        }
    }
}

/// In one pass no projectile hits a target that it had recorded before,
/// nor one target twice; it records every target it hits, and no hit list
/// loses a target.
pub proof fn lemma_volley_hits_once(
    world: Map<Entity, ComponentsView>,
    candidates: Seq<Option<Strike>>,
)
    ensures
        volley_consistent(world, volley(volley_start(world), candidates)),
    decreases candidates.len(),
{
    if candidates.len() > 0 {
        lemma_volley_hits_once(world, candidates.drop_last());
        lemma_land(world, volley(volley_start(world), candidates.drop_last()), candidates.last());
    }
}

/// Both kinds of pass are such a pass: in one frame no projectile, the
/// player's or a mob's, hits a target that it had recorded before, nor one
/// target twice.
pub proof fn lemma_passes_hit_once(
    world: Map<Entity, ComponentsView>,
    frame: PlayerFrame,
    events: Seq<CollisionEvent>,
)
    ensures
        volley_consistent(world, projectile_mob_pass(world, frame, events)),
        volley_consistent(world, projectile_player_pass(world, events)),
{
    let pairs = both_orderings(started(events));
    lemma_volley_hits_once(
        world,
        Seq::new(pairs.len(), |i: int| strike_on_mob(world, frame, pairs[i])),
    );
    lemma_volley_hits_once(world, Seq::new(pairs.len(), |i: int| strike_on_player(world, pairs[i])));
}

/// Whether `projectile` keeps a hit list in `world` that holds each of its
/// targets once.
pub open spec fn list_distinct(world: Map<Entity, ComponentsView>, projectile: Entity) -> bool {
    &&& world.dom().contains(projectile)
    &&& world[projectile].hit_entities is Some
    &&& world[projectile].hit_entities->0.no_duplicates()
}

proof fn lemma_list_stays_distinct(
    world: Map<Entity, ComponentsView>,
    candidates: Seq<Option<Strike>>,
    projectile: Entity,
)
    requires
        list_distinct(world, projectile),
    ensures
        list_distinct(volley(volley_start(world), candidates).world, projectile),
    decreases candidates.len(),
{
    if candidates.len() > 0 {
        lemma_list_stays_distinct(world, candidates.drop_last(), projectile);
        let state = volley(volley_start(world), candidates.drop_last());
        let next = land(state, candidates.last());
        if next != state {
            let strike = candidates.last()->0;
            if strike.projectile == projectile {
                lemma_record(state.world[projectile].hit_entities->0, strike.target);
            } else {
                assert(next.world[projectile] == state.world[projectile]);
            }
        }
    }
}

/// A projectile whose hit list holds each target once hits each target at
/// most once in its life: after a pass the list still holds each target
/// once and begins as it did, every hit of the projectile in the pass went
/// to a target that its list lacked before and holds now, and no two of
/// them to the same target.
pub proof fn lemma_projectile_hits_once(
    world: Map<Entity, ComponentsView>,
    candidates: Seq<Option<Strike>>,
    projectile: Entity,
)
    requires
        world.dom().contains(projectile),
        world[projectile].hit_entities is Some,
        world[projectile].hit_entities->0.no_duplicates(),
    ensures
        ({
            let out = volley(volley_start(world), candidates);
            let flight = Direction::Flight { projectile };
            &&& list_distinct(out.world, projectile)
            &&& world[projectile].hit_entities->0.is_prefix_of(
                out.world[projectile].hit_entities->0,
            )
            &&& forall|k: int|
                0 <= k < out.hits.len() && (#[trigger] out.hits[k]).direction == flight
                    ==> out.world[projectile].hit_entities->0.contains(out.hits[k].target)
                    && !world[projectile].hit_entities->0.contains(out.hits[k].target)
            &&& forall|k: int, l: int|
                0 <= k < l < out.hits.len() && (#[trigger] out.hits[k]).direction == flight && (
                #[trigger] out.hits[l]).direction == flight ==> out.hits[k].target
                    != out.hits[l].target
        }),
{
    lemma_list_stays_distinct(world, candidates, projectile);
    lemma_volley_hits_once(world, candidates);
    let out = volley(volley_start(world), candidates);
    let flight = Direction::Flight { projectile };
    assert(world[projectile].hit_entities is Some);
    assert forall|k: int|
        0 <= k < out.hits.len() && (#[trigger] out.hits[k]).direction
            == flight implies out.world[projectile].hit_entities->0.contains(out.hits[k].target)
        && !world[projectile].hit_entities->0.contains(out.hits[k].target) by {
        assert(newly_recorded(world, out.world, out.hits[k]));
    }
}

/// Whether the hit lists of `later` take up those of `earlier`: where an
/// entity keeps a hit list in both, the later one begins with the earlier.
pub open spec fn lists_kept(
    earlier: Map<Entity, ComponentsView>,
    later: Map<Entity, ComponentsView>,
) -> bool {
    forall|e: Entity|
        earlier.dom().contains(e) && (#[trigger] earlier[e]).hit_entities is Some
            && later.dom().contains(e) && later[e].hit_entities is Some
            ==> earlier[e].hit_entities->0.is_prefix_of(later[e].hit_entities->0)
}

/// Over two passes in the life of a projectile no projectile hits the same
/// target in both, whatever else has changed in the world between them, as
/// long as the projectiles have kept their hit lists.
pub proof fn lemma_flight_hits_once(
    world: Map<Entity, ComponentsView>,
    candidates: Seq<Option<Strike>>,
    next_world: Map<Entity, ComponentsView>,
    next_candidates: Seq<Option<Strike>>,
)
    requires
        lists_kept(volley(volley_start(world), candidates).world, next_world),
    ensures
        ({
            let first = volley(volley_start(world), candidates);
            let second = volley(volley_start(next_world), next_candidates);
            forall|k: int, l: int|
                0 <= k < first.hits.len() && 0 <= l < second.hits.len() && (
                #[trigger] first.hits[k]).direction == (#[trigger] second.hits[l]).direction
                    ==> first.hits[k].target != second.hits[l].target
        }),
{
    lemma_volley_hits_once(world, candidates);
    let first = volley(volley_start(world), candidates);
    lemma_volley_hits_once(next_world, next_candidates);
    let second = volley(volley_start(next_world), next_candidates);
    assert forall|k: int, l: int|
        0 <= k < first.hits.len() && 0 <= l < second.hits.len() && (
        #[trigger] first.hits[k]).direction == (
        #[trigger] second.hits[l]).direction implies first.hits[k].target
        != second.hits[l].target by {
        assert(newly_recorded(world, first.world, first.hits[k]));
        assert(newly_recorded(next_world, second.world, second.hits[l]));
        let p = first.hits[k].direction->projectile;
        let t = first.hits[k].target;
        let earlier = first.world[p].hit_entities->0;
        let later = next_world[p].hit_entities->0;
        assert(first.world.dom().contains(p) && first.world[p].hit_entities is Some);
        assert(earlier.is_prefix_of(later));
        if second.hits[l].target == t {
            let i = choose|i: int| 0 <= i < earlier.len() && earlier[i] == t;
            assert(later[i] == t);
        }
    }
}

fn flying(world: &World, e: Entity, hostile: bool) -> (yes: bool)
    ensures
        yes == in_flight(world@, e, hostile),
{
    match world.get(e) {
        Some(c) => c.projectile_state.is_some() && c.projectile.is_some()
            && c.enemy_projectile.is_some() == hostile,
        None => false,
    }
}

fn find_projectile(world: &World, collider: Entity, hostile: bool) -> (found: Option<Entity>)
    ensures
        found == projectile_of(world@, collider, hostile),
{
    let parent = match world.get(collider) {
        Some(c) => c.parent,
        None => None,
    };
    match parent {
        Some(p) => if flying(world, p, hostile) {
            Some(p)
        } else {
            None
        },
        None => if flying(world, collider, hostile) {
            Some(collider)
        } else {
            None
        },
    }
}

/// Decides whether the ordered pair `pair` is a projectile of the player
/// meeting something it may hit.
pub fn find_strike_on_mob(world: &World, frame: &PlayerFrame, pair: (Entity, Entity)) -> (found:
    Option<Strike>)
    ensures
        found == strike_on_mob(world@, *frame, pair),
{
    strike_by(world, frame, world.sole(Filter::Wielder), pair)
}

fn strike_by(
    world: &World,
    frame: &PlayerFrame,
    wielder: Option<Entity>,
    pair: (Entity, Entity),
) -> (found: Option<Strike>)
    requires
        wielder == sole(world@, Filter::Wielder),
    ensures
        found == strike_on_mob(world@, *frame, pair),
{
    let projectile = match find_projectile(world, pair.0, false) {
        Some(p) => p,
        None => {
            return None;
        },
    };
    let player = match wielder {
        Some(e) => e,
        None => {
            return None;
        },
    };
    let target = pair.1;
    let (attached, lifesteal): (bool, i32) = match world.get(player) {
        Some(c) => (
            match &c.children {
                Some(children) => contains(children, target),
                None => false,
            },
            match c.lifesteal {
                Some(l) => l,
                None => 0,
            },
        ),
        None => (false, 0),
    };
    if target == player || attached {
        return None;
    }
    let (fair, terrain) = match world.get(target) {
        Some(c) => (!c.item_stack && !c.main_hand && c.projectile.is_none(), c.world_object.is_some()),
        None => (false, false),
    };
    if !fair {
        return None;
    }
    match world.get(projectile) {
        Some(c) => match c.projectile {
            Some(kind) => Some(
                Strike {
                    projectile,
                    kind,
                    target,
                    damage: frame.damage,
                    heal: if lifesteal > 0 && !terrain {
                        Some(ModifyHealthEvent { delta: lifesteal_heal(frame.damage, lifesteal) })
                    } else {
                        None
                    },
                    persists: c.done_animation,
                },
            ),
            None => None,
        },
        None => None,
    }
}

/// Decides whether the ordered pair `pair` is a projectile of a mob meeting
/// something it may hit.
pub fn find_strike_on_player(world: &World, pair: (Entity, Entity)) -> (found: Option<Strike>)
    ensures
        found == strike_on_player(world@, pair),
{
    let projectile = match find_projectile(world, pair.0, true) {
        Some(p) => p,
        None => {
            return None;
        },
    };
    let target = pair.1;
    let (owner, kind, persists) = match world.get(projectile) {
        Some(c) => match (c.enemy_projectile, c.projectile) {
            (Some(owner), Some(kind)) => (owner, kind, c.done_animation),
            _ => {
                return None;
            },
        },
        None => {
            return None;
        },
    };
    let attack: i32 = match world.get(owner) {
        Some(c) => match c.attack {
            Some(a) => if c.mob {
                a
            } else {
                return None;
            },
            None => {
                return None;
            },
        },
        None => {
            return None;
        },
    };
    if target == owner {
        return None;
    }
    let open = match world.get(target) {
        Some(c) => (c.player || c.world_object.is_some()) && c.projectile.is_none(),
        None => false,
    };
    if !open {
        return None;
    }
    Some(Strike { projectile, kind, target, damage: attack, heal: None, persists })
}

/// Lands `candidates` in order: each strike whose target is new to its
/// projectile is recorded there and dealt.
pub fn land_strikes(world: &mut World, candidates: &Vec<Option<Strike>>) -> (out: ProjectileOutcome)
    ensures
        final(world)@ == volley(volley_start(old(world)@), candidates@).world,
        out.hits@ == volley(volley_start(old(world)@), candidates@).hits,
        out.heals@ == volley(volley_start(old(world)@), candidates@).heals,
        out.despawns@ == volley(volley_start(old(world)@), candidates@).despawns,
{
    let mut out = ProjectileOutcome { hits: Vec::new(), heals: Vec::new(), despawns: Vec::new() };
    let ghost start = volley_start(world@);
    let mut i: usize = 0;
    while i < candidates.len()
        invariant
            i <= candidates@.len(),
            volley(start, candidates@.take(i as int)) == (VolleyState {
                world: world@,
                hits: out.hits@,
                heals: out.heals@,
                despawns: out.despawns@,
            }),
        decreases candidates@.len() - i,
    {
        proof {
            assert(candidates@.take(i + 1).drop_last() == candidates@.take(i as int));
            assert(candidates@.take(i + 1).last() == candidates@[i as int]);
        }
        match candidates[i] {
            Some(strike) => {
                if world.record_hit(strike.projectile, strike.target) {
                    match strike.heal {
                        Some(heal) => {
                            out.heals.push(heal);
                        },
                        None => {},
                    }
                    out.hits.push(
                        HitEvent {
                            target: strike.target,
                            damage: strike.damage,
                            direction: Direction::Flight { projectile: strike.projectile },
                            source: HitSource::Projectile(strike.kind),
                        },
                    );
                    if !strike.persists {
                        out.despawns.push(strike.projectile);
                    }
                }
            },
            None => {},
        }
        i += 1;
    }
    proof {
        assert(candidates@.take(candidates@.len() as int) == candidates@);
    }
    out
}

/// Resolves the player's projectiles for one frame. `collisions` are the
/// contact changes of the frame; the hits are recorded on the projectiles
/// in `world`.
pub fn check_projectile_hit_mob_collisions(
    world: &mut World,
    frame: &PlayerFrame,
    collisions: &Vec<CollisionEvent>,
) -> (out: ProjectileOutcome)
    ensures
        final(world)@ == projectile_mob_pass(old(world)@, *frame, collisions@).world,
        out.hits@ == projectile_mob_pass(old(world)@, *frame, collisions@).hits,
        out.heals@ == projectile_mob_pass(old(world)@, *frame, collisions@).heals,
        out.despawns@ == projectile_mob_pass(old(world)@, *frame, collisions@).despawns,
{
    let pairs = started_events(collisions);
    let wielder = world.sole(Filter::Wielder);
    let mut candidates: Vec<Option<Strike>> = Vec::new();
    let mut i: usize = 0;
    while i < pairs.len()
        invariant
            i <= pairs@.len(),
            wielder == sole(world@, Filter::Wielder),
            candidates@.len() == i,
            forall|k: int|
                0 <= k < i ==> #[trigger] candidates@[k] == strike_on_mob(
                    world@,
                    *frame,
                    pairs@[k],
                ),
        decreases pairs@.len() - i,
    {
        candidates.push(strike_by(world, frame, wielder, pairs[i]));
        i += 1;
    }
    proof {
        assert(candidates@ =~= Seq::new(
            pairs@.len(),
            |k: int| strike_on_mob(world@, *frame, pairs@[k]),
        ));
    }
    land_strikes(world, &candidates)
}

/// Resolves the mobs' projectiles for one frame. `collisions` are the
/// contact changes of the frame; the hits are recorded on the projectiles
/// in `world`.
pub fn check_projectile_hit_player_collisions(
    world: &mut World,
    collisions: &Vec<CollisionEvent>,
) -> (out: ProjectileOutcome)
    ensures
        final(world)@ == projectile_player_pass(old(world)@, collisions@).world,
        out.hits@ == projectile_player_pass(old(world)@, collisions@).hits,
        out.heals@ == projectile_player_pass(old(world)@, collisions@).heals,
        out.despawns@ == projectile_player_pass(old(world)@, collisions@).despawns,
{
    let pairs = started_events(collisions);
    let mut candidates: Vec<Option<Strike>> = Vec::new();
    let mut i: usize = 0;
    while i < pairs.len()
        invariant
            i <= pairs@.len(),
            candidates@.len() == i,
            forall|k: int|
                0 <= k < i ==> #[trigger] candidates@[k] == strike_on_player(world@, pairs@[k]),
        decreases pairs@.len() - i,
    {
        candidates.push(find_strike_on_player(world, pairs[i]));
        i += 1;
    }
    proof {
        assert(candidates@ =~= Seq::new(
            pairs@.len(),
            |k: int| strike_on_player(world@, pairs@[k]),
        ));
    }
    land_strikes(world, &candidates)
}

} // verus!
