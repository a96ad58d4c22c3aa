use combat_collisions::entity::Entity;
use combat_collisions::pickup::{check_item_drop_collisions, Capacity, PickupAction};
use combat_collisions::world::{AttackState, Components, PlayerFrame, World};

const PLAYER: Entity = Entity { id: 1 };
const HELMET: Entity = Entity { id: 3 };
const SWORD: Entity = Entity { id: 2 };
const MOB: Entity = Entity { id: 10 };
const STICK: Entity = Entity { id: 21 };
const STONE: Entity = Entity { id: 22 };
const FLINT: Entity = Entity { id: 23 };

const FULL: Capacity = Capacity { first_empty_slot: None, slot_with_space: None };
const EMPTY_SLOT: Capacity = Capacity { first_empty_slot: Some(4), slot_with_space: None };
const STACK_SPACE: Capacity = Capacity { first_empty_slot: None, slot_with_space: Some(0) };

fn meadow() -> World {
    let mut world = World::new();
    world.insert(PLAYER, Components { player: true, has_position: true, ..Components::empty() });
    world.insert(MOB, Components { mob: true, has_position: true, ..Components::empty() });
    for item in [STICK, STONE, FLINT] {
        world.insert(item, Components { item_stack: true, ..Components::empty() });
    }
    world.insert(
        HELMET,
        Components { item_stack: true, equipment: true, ..Components::empty() },
    );
    world.insert(
        SWORD,
        Components { item_stack: true, main_hand: true, ..Components::empty() },
    );
    world
}

fn walking(is_moving: bool) -> PlayerFrame {
    PlayerFrame {
        entity: PLAYER,
        state: AttackState { is_attacking: false, is_moving },
        damage: 0,
        holds_item: false,
    }
}

fn all_items() -> Vec<(Entity, Entity)> {
    vec![(PLAYER, STICK), (STONE, PLAYER), (PLAYER, MOB), (PLAYER, HELMET), (SWORD, PLAYER), (PLAYER, FLINT)]
}

#[test]
fn pickup_collects_what_the_player_walks_over() {
    let mut pass = check_item_drop_collisions(&meadow(), &walking(true), &all_items());
    assert_eq!(pass.pending(), Some(STICK));
    assert_eq!(pass.answer(EMPTY_SLOT), PickupAction::Collect(STICK));
    assert_eq!(pass.pending(), Some(STONE));
    assert_eq!(pass.answer(STACK_SPACE), PickupAction::Collect(STONE));
    assert_eq!(pass.pending(), Some(FLINT));
    assert_eq!(pass.answer(EMPTY_SLOT), PickupAction::Collect(FLINT));
    assert_eq!(pass.pending(), None);
    assert_eq!(pass.answer(EMPTY_SLOT), PickupAction::Done);
    assert_eq!(pass.answer(FULL), PickupAction::Done);
}

#[test]
fn pickup_with_a_full_inventory_collects_nothing() {
    let mut pass = check_item_drop_collisions(&meadow(), &walking(true), &all_items());
    assert_eq!(pass.answer(FULL), PickupAction::Abort);
    assert_eq!(pass.pending(), None);
    assert_eq!(pass.answer(EMPTY_SLOT), PickupAction::Done);
    let mut pass = check_item_drop_collisions(&meadow(), &walking(true), &all_items());
    assert!(pass.replay(&vec![FULL, FULL, FULL]).is_empty());
    assert_eq!(pass.pending(), None);
}

#[test]
fn pickup_stops_for_the_frame_at_the_first_stack_without_room() {
    let mut pass = check_item_drop_collisions(&meadow(), &walking(true), &all_items());
    assert_eq!(pass.replay(&vec![EMPTY_SLOT, FULL, EMPTY_SLOT]), vec![STICK]);
    assert_eq!(pass.pending(), None);
}

#[test]
fn pickup_replay_takes_an_answer_for_each_item() {
    let mut pass = check_item_drop_collisions(&meadow(), &walking(true), &all_items());
    assert_eq!(pass.replay(&vec![STACK_SPACE, EMPTY_SLOT]), vec![STICK, STONE]);
    assert_eq!(pass.pending(), Some(FLINT));
    assert_eq!(pass.replay(&vec![EMPTY_SLOT, EMPTY_SLOT, EMPTY_SLOT]), vec![FLINT]);
    assert!(pass.replay(&vec![]).is_empty());
}

#[test]
fn pickup_rests_while_the_player_stands_still() {
    let mut pass = check_item_drop_collisions(&meadow(), &walking(false), &all_items());
    assert_eq!(pass.pending(), None);
    assert_eq!(pass.answer(EMPTY_SLOT), PickupAction::Done);
}

#[test]
fn pickup_leaves_worn_and_held_items() {
    let mut pass = check_item_drop_collisions(
        &meadow(),
        &walking(true),
        &vec![(PLAYER, HELMET), (PLAYER, SWORD), (PLAYER, MOB), (PLAYER, Entity { id: 99 })],
    );
    assert_eq!(pass.pending(), None);
    assert!(pass.replay(&vec![EMPTY_SLOT]).is_empty());
}

#[test]
fn pickup_needs_the_player_in_the_pair() {
    let pass = check_item_drop_collisions(
        &meadow(),
        &walking(true),
        &vec![(MOB, STICK), (STONE, FLINT)],
    );
    assert_eq!(pass.pending(), None);
}

#[test]
fn pickup_needs_exactly_one_player() {
    let mut world = meadow();
    world.insert(Entity { id: 5 }, Components { player: true, ..Components::empty() });
    let pass = check_item_drop_collisions(&world, &walking(true), &all_items());
    assert_eq!(pass.pending(), None);
}
