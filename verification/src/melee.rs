//! Melee: the main-hand weapon against whatever it overlaps while the
//! player attacks. A swing hits a target once.

use crate::damage::lifesteal_heal;
use crate::entity::{lemma_record, Entity, HitDedupSet};
use crate::events::{
    targets_of, Direction, DurabilityRequest, HitEvent, HitSource, ModifyHealthEvent,
};
use crate::world::{
    heal_of, is_sole, lifesteal_of, sole, ComponentsView, Filter, PlayerFrame, World,
};
use vstd::prelude::*;

verus! {

/// What a melee pass has done so far.
pub struct MeleeState {
    /// The targets of the swing, in the order hit.
    pub tracker: Seq<Entity>,
    pub hits: Seq<HitEvent>,
    pub heals: Seq<ModifyHealthEvent>,
    pub durability: Seq<DurabilityRequest>,
    /// Whether the pass met a target without a position and gave up.
    pub aborted: bool,
}

/// What a melee pass hands on.
#[derive(Debug)]
pub struct MeleeOutcome {
    pub hits: Vec<HitEvent>,
    pub heals: Vec<ModifyHealthEvent>,
    pub durability: Vec<DurabilityRequest>,
    /// Whether the pass met a target without a position and gave up.
    pub aborted: bool,
}

/// The other side of an overlap with `weapon`, unless that is the wielder.
pub open spec fn melee_target(weapon: Entity, wielder: Entity, pair: (Entity, Entity)) -> Option<
    Entity,
> {
    if pair.0 == weapon && pair.1 != wielder {
        Some(pair.1)
    } else if pair.1 == weapon && pair.0 != wielder {
        Some(pair.0)
    } else {
        None
    }
}

/// Whether a weapon passes through `target`: item stacks and world objects
/// take no melee damage.
pub open spec fn shielded(world: Map<Entity, ComponentsView>, target: Entity) -> bool {
    world.dom().contains(target) && (world[target].item_stack || world[target].world_object
        is Some)
}

/// Whether `target` is a mob with a position.
pub open spec fn placed_mob(world: Map<Entity, ComponentsView>, target: Entity) -> bool {
    world.dom().contains(target) && world[target].mob && world[target].has_position
}

/// The hit of `weapon` on `target`: it pushes along the line from the target
/// to the weapon.
pub open spec fn melee_hit(
    world: Map<Entity, ComponentsView>,
    frame: PlayerFrame,
    weapon: Entity,
    target: Entity,
) -> HitEvent {
    HitEvent {
        target,
        damage: frame.damage,
        direction: Direction::Between { from: target, to: weapon },
        source: HitSource::Melee(world[weapon].world_object->0),
    }
}

/// One overlap pair, taken after `state`.
pub open spec fn melee_step(
    world: Map<Entity, ComponentsView>,
    frame: PlayerFrame,
    weapon: Entity,
    state: MeleeState,
    pair: (Entity, Entity),
) -> MeleeState {
    if state.aborted {
        state
    } else {
        match melee_target(weapon, world[weapon].parent->0, pair) {
            None => state,
            Some(target) => if shielded(world, target) || state.tracker.contains(target) {
                state
            } else {
                let spent = MeleeState {
                    tracker: state.tracker.push(target),
                    durability: if frame.holds_item {
                        state.durability.push(DurabilityRequest { delta: -1i32 })
                    } else {
                        state.durability
                    },
                    ..state
                };
                if !placed_mob(world, target) {
                    MeleeState { aborted: true, ..spent }
                } else {
                    MeleeState {
                        heals: if lifesteal_of(world, frame.entity) > 0 {
                            spent.heals.push(heal_of(world, frame.entity, frame.damage))
                        } else {
                            spent.heals
                        },
                        hits: spent.hits.push(melee_hit(world, frame, weapon, target)),
                        ..spent
                    }
                }
            },
        }
    }
}

/// The overlap pairs `pairs`, taken in order after `start`.
pub open spec fn melee_run(
    world: Map<Entity, ComponentsView>,
    frame: PlayerFrame,
    weapon: Entity,
    start: MeleeState,
    pairs: Seq<(Entity, Entity)>,
) -> MeleeState
    decreases pairs.len(),
{
    if pairs.len() == 0 {
        start
    } else {
        melee_step(
            world,
            frame,
            weapon,
            melee_run(world, frame, weapon, start, pairs.drop_last()),
            pairs.last(),
        )
    }
}

/// A pass that has done nothing yet, in a swing that has hit `tracker`.
pub open spec fn melee_start(tracker: Seq<Entity>) -> MeleeState {
    MeleeState {
        tracker,
        hits: Seq::empty(),
        heals: Seq::empty(),
        durability: Seq::empty(),
        aborted: false,
    }
}

/// One frame of melee. While the player does not attack, the swing's record
/// is wiped and nothing is hit. While it attacks and the world holds exactly
/// one weapon in the main hand, the overlap pairs are taken in order.
pub open spec fn melee_pass(
    world: Map<Entity, ComponentsView>,
    frame: PlayerFrame,
    tracker: Seq<Entity>,
    pairs: Seq<(Entity, Entity)>,
) -> MeleeState {
    if !frame.state.is_attacking {
        melee_start(Seq::empty())
    } else {
        match sole(world, Filter::Weapon) {
            Some(weapon) => melee_run(world, frame, weapon, melee_start(tracker), pairs),
            None => melee_start(tracker),
        }
    }
}

/// Whether `state` can come after a swing had hit `before`: the record holds
/// no target twice and still begins with `before`, and each hit was dealt to
/// a target that the record holds now and did not hold then, no two hits to
/// the same one.
pub open spec fn swing_consistent(before: Seq<Entity>, state: MeleeState) -> bool {
    &&& state.tracker.no_duplicates()
    &&& before.is_prefix_of(state.tracker)
    &&& targets_of(state.hits).no_duplicates()
    &&& forall|k: int|
        0 <= k < state.hits.len() ==> state.tracker.contains((#[trigger] state.hits[k]).target)
            && !before.contains(state.hits[k].target)
}

proof fn lemma_melee_step(
    world: Map<Entity, ComponentsView>,
    frame: PlayerFrame,
    weapon: Entity,
    before: Seq<Entity>,
    state: MeleeState,
    pair: (Entity, Entity),
)
    requires
        swing_consistent(before, state),
    ensures
        swing_consistent(before, melee_step(world, frame, weapon, state, pair)),
{
    let next = melee_step(world, frame, weapon, state, pair);
    if next.tracker != state.tracker {
        let target = melee_target(weapon, world[weapon].parent->0, pair)->0;
        assert(next.tracker == state.tracker.push(target));
        assert(!state.tracker.contains(target));
        lemma_record(state.tracker, target);
        assert(!before.contains(target)) by {
            if before.contains(target) {
                let k = choose|k: int| 0 <= k < before.len() && before[k] == target;
                assert(state.tracker[k] == target);
            }
        }
        assert forall|k: int| 0 <= k < next.hits.len() implies next.tracker.contains(
            (#[trigger] next.hits[k]).target,
        ) && !before.contains(next.hits[k].target) by {
            if k < state.hits.len() {
                assert(next.hits[k] == state.hits[k]);
            }
        }
        assert forall|k: int, l: int|
            0 <= k < next.hits.len() && 0 <= l < next.hits.len() && k != l implies targets_of(
            next.hits,
        )[k] != targets_of(next.hits)[l] by {
            if k < state.hits.len() && l < state.hits.len() {
                assert(targets_of(state.hits)[k] != targets_of(state.hits)[l]);
            } else if k < state.hits.len() {
                assert(state.tracker.contains(state.hits[k].target));
            } else if l < state.hits.len() {
                assert(state.tracker.contains(state.hits[l].target));
            }
        }
    }
}

proof fn lemma_melee_run(
    world: Map<Entity, ComponentsView>,
    frame: PlayerFrame,
    weapon: Entity,
    before: Seq<Entity>,
    pairs: Seq<(Entity, Entity)>,
)
    requires
        before.no_duplicates(),
    ensures
        swing_consistent(before, melee_run(world, frame, weapon, melee_start(before), pairs)),
    decreases pairs.len(),
{
    if pairs.len() > 0 {
        lemma_melee_run(world, frame, weapon, before, pairs.drop_last());
        lemma_melee_step(
            world,
            frame,
            weapon,
            before,
            melee_run(world, frame, weapon, melee_start(before), pairs.drop_last()),
            pairs.last(),
        );
    }
}

/// A pass never hits a target that the swing has hit before, nor one target
/// twice, and it records every target it hits. While the player attacks,
/// what the swing had recorded stays recorded.
pub proof fn lemma_melee_pass_hits_once(
    world: Map<Entity, ComponentsView>,
    frame: PlayerFrame,
    tracker: Seq<Entity>,
    pairs: Seq<(Entity, Entity)>,
)
    requires
        tracker.no_duplicates(),
    ensures
        ({
            let out = melee_pass(world, frame, tracker, pairs);
            &&& out.tracker.no_duplicates()
            &&& targets_of(out.hits).no_duplicates()
            &&& forall|k: int|
                0 <= k < out.hits.len() ==> out.tracker.contains((#[trigger] out.hits[k]).target)
                    && !tracker.contains(out.hits[k].target)
            &&& frame.state.is_attacking ==> tracker.is_prefix_of(out.tracker)
        }),
{
    if frame.state.is_attacking {
        match sole(world, Filter::Weapon) {
            Some(weapon) => {
                lemma_melee_run(world, frame, weapon, tracker, pairs);
            },
            None => {},
        }
    }
}

/// Over two frames of one swing, no target is hit in both: the second pass
/// starts from the record that the first one left.
pub proof fn lemma_melee_swing_hits_once(
    world: Map<Entity, ComponentsView>,
    frame: PlayerFrame,
    tracker: Seq<Entity>,
    pairs: Seq<(Entity, Entity)>,
    next_world: Map<Entity, ComponentsView>,
    next_frame: PlayerFrame,
    next_pairs: Seq<(Entity, Entity)>,
)
    requires
        tracker.no_duplicates(),
    ensures
        ({
            let first = melee_pass(world, frame, tracker, pairs);
            let second = melee_pass(next_world, next_frame, first.tracker, next_pairs);
            forall|k: int, l: int|
                0 <= k < first.hits.len() && 0 <= l < second.hits.len() ==> (
                #[trigger] first.hits[k]).target != (#[trigger] second.hits[l]).target
        }),
{
    lemma_melee_pass_hits_once(world, frame, tracker, pairs);
    let first = melee_pass(world, frame, tracker, pairs);
    lemma_melee_pass_hits_once(next_world, next_frame, first.tracker, next_pairs);
}

/// Resolves the overlaps of the main-hand weapon for one frame. `tracker` is
/// the record of the current swing; `overlaps` are all pairs that intersect
/// now.
pub fn check_melee_hit_collisions(
    world: &World,
    frame: &PlayerFrame,
    overlaps: &Vec<(Entity, Entity)>,
    tracker: &mut HitDedupSet,
) -> (out: MeleeOutcome)
    ensures
        final(tracker)@ == melee_pass(world@, *frame, old(tracker)@, overlaps@).tracker,
        out.hits@ == melee_pass(world@, *frame, old(tracker)@, overlaps@).hits,
        out.heals@ == melee_pass(world@, *frame, old(tracker)@, overlaps@).heals,
        out.durability@ == melee_pass(world@, *frame, old(tracker)@, overlaps@).durability,
        out.aborted == melee_pass(world@, *frame, old(tracker)@, overlaps@).aborted,
{
    let mut out = MeleeOutcome {
        hits: Vec::new(),
        heals: Vec::new(),
        durability: Vec::new(),
        aborted: false,
    };
    if !frame.state.is_attacking {
        tracker.clear();
        return out;
    }
    let weapon = match world.sole(Filter::Weapon) {
        Some(weapon) => weapon,
        None => {
            return out;
        },
    };
    let (wielder, kind) = match world.get(weapon) {
        Some(c) => match (c.parent, c.world_object) {
            (Some(wielder), Some(kind)) => (wielder, kind),
            _ => {
                return out;
            },
        },
        None => {
            return out;
        },
    };
    let lifesteal: i32 = match world.get(frame.entity) {
        Some(c) => match c.lifesteal {
            Some(l) => l,
            None => 0,
        },
        None => 0,
    };
    let ghost start = melee_start(tracker@);
    let mut i: usize = 0;
    while i < overlaps.len()
        invariant
            i <= overlaps@.len(),
            is_sole(world@, Filter::Weapon, weapon),
            wielder == world@[weapon].parent->0,
            kind == world@[weapon].world_object->0,
            lifesteal == lifesteal_of(world@, frame.entity),
            melee_run(world@, *frame, weapon, start, overlaps@.take(i as int)) == (MeleeState {
                tracker: tracker@,
                hits: out.hits@,
                heals: out.heals@,
                durability: out.durability@,
                aborted: out.aborted,
            }),
        decreases overlaps@.len() - i,
    {
        let pair = overlaps[i];
        proof {
            assert(overlaps@.take(i + 1).drop_last() == overlaps@.take(i as int));
            assert(overlaps@.take(i + 1).last() == pair);
        }
        i += 1;
        if out.aborted {
            continue;
        }
        let target = if pair.0 == weapon && pair.1 != wielder {
            pair.1
        } else if pair.1 == weapon && pair.0 != wielder {
            pair.0
        } else {
            continue;
        };
        let (is_shielded, is_placed_mob) = match world.get(target) {
            Some(c) => (c.item_stack || c.world_object.is_some(), c.mob && c.has_position),
            None => (false, false),
        };
        if is_shielded || tracker.contains(target) {
            continue;
        }
        if frame.holds_item {
            out.durability.push(DurabilityRequest { delta: -1 });
        }
        tracker.insert(target);
        if !is_placed_mob {
            out.aborted = true;
            continue;
        }
        if lifesteal > 0 {
            out.heals.push(ModifyHealthEvent { delta: lifesteal_heal(frame.damage, lifesteal) });
        }
        out.hits.push(
            HitEvent {
                target,
                damage: frame.damage,
                direction: Direction::Between { from: target, to: weapon },
                source: HitSource::Melee(kind),
            },
        );
    }
    proof {
        assert(overlaps@.take(overlaps@.len() as int) == overlaps@);
    }
    out
}

} // verus!
