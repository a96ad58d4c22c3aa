use combat_collisions::entity::{Entity, HitDedupSet};
use combat_collisions::events::{
    Direction, HitEvent, HitSource, ModifyHealthEvent, Projectile, WorldObject,
};
use combat_collisions::overlap::CollisionEvent;
use combat_collisions::projectile::{
    check_projectile_hit_mob_collisions, check_projectile_hit_player_collisions,
    find_strike_on_mob, find_strike_on_player, land_strikes, Strike,
};
use combat_collisions::world::{
    AttackState, Components, Filter, PlayerFrame, ProjectileState, World,
};

const PLAYER: Entity = Entity { id: 1 };
const SWORD: Entity = Entity { id: 2 };
const MOB_A: Entity = Entity { id: 10 };
const MOB_B: Entity = Entity { id: 11 };
const ROCK: Entity = Entity { id: 20 };
const DROP: Entity = Entity { id: 21 };
const ARROW: Entity = Entity { id: 40 };
const ARROW_SHAPE: Entity = Entity { id: 41 };
const ORB: Entity = Entity { id: 42 };
const SPIT: Entity = Entity { id: 50 };
const SPIT_SHAPE: Entity = Entity { id: 51 };

fn flying(kind: u32) -> Components {
    Components {
        has_position: true,
        projectile: Some(Projectile { kind }),
        projectile_state: Some(ProjectileState { hit_entities: HitDedupSet::new() }),
        ..Components::empty()
    }
}

fn range(lifesteal: Option<i32>) -> World {
    let mut world = World::new();
    world.insert(
        PLAYER,
        Components {
            player: true,
            has_position: true,
            children: Some(vec![SWORD]),
            lifesteal,
            ..Components::empty()
        },
    );
    world.insert(
        SWORD,
        Components {
            main_hand: true,
            parent: Some(PLAYER),
            has_position: true,
            world_object: Some(WorldObject { kind: 77 }),
            ..Components::empty()
        },
    );
    world.insert(
        MOB_A,
        Components { mob: true, has_position: true, attack: Some(7), ..Components::empty() },
    );
    world.insert(
        MOB_B,
        Components { mob: true, has_position: true, attack: Some(9), ..Components::empty() },
    );
    world.insert(
        ROCK,
        Components {
            has_position: true,
            world_object: Some(WorldObject { kind: 5 }),
            ..Components::empty()
        },
    );
    world.insert(DROP, Components { item_stack: true, has_position: true, ..Components::empty() });
    world.insert(ARROW, flying(1));
    world.insert(ARROW_SHAPE, Components { parent: Some(ARROW), ..Components::empty() });
    world.insert(ORB, Components { done_animation: true, ..flying(2) });
    world.insert(SPIT, Components { enemy_projectile: Some(MOB_A), ..flying(3) });
    world.insert(SPIT_SHAPE, Components { parent: Some(SPIT), ..Components::empty() });
    world
}

fn frame(damage: i32) -> PlayerFrame {
    PlayerFrame {
        entity: PLAYER,
        state: AttackState { is_attacking: false, is_moving: false },
        damage,
        holds_item: false,
    }
}

fn shot(projectile: Entity, kind: u32, target: Entity, damage: i32) -> HitEvent {
    HitEvent {
        target,
        damage,
        direction: Direction::Flight { projectile },
        source: HitSource::Projectile(Projectile { kind }),
    }
}

fn hits_of(world: &World, projectile: Entity) -> Vec<Entity> {
    let set = &world.get(projectile).unwrap().projectile_state.as_ref().unwrap().hit_entities;
    (0..set.len()).map(|i| set.get(i).unwrap()).collect()
}

#[test]
fn projectile_hits_a_mob_and_leaves_the_world() {
    let mut world = range(None);
    let out = check_projectile_hit_mob_collisions(
        &mut world,
        &frame(12),
        &vec![CollisionEvent::Started(ARROW, MOB_A)],
    );
    assert_eq!(out.hits, vec![shot(ARROW, 1, MOB_A, 12)]);
    assert_eq!(out.despawns, vec![ARROW]);
    assert!(out.heals.is_empty());
    assert_eq!(hits_of(&world, ARROW), vec![MOB_A]);
}

#[test]
fn projectile_is_found_whichever_side_it_is_on() {
    let mut world = range(None);
    let out = check_projectile_hit_mob_collisions(
        &mut world,
        &frame(12),
        &vec![CollisionEvent::Started(MOB_A, ARROW)],
    );
    assert_eq!(out.hits, vec![shot(ARROW, 1, MOB_A, 12)]);
}

#[test]
fn projectile_is_found_through_its_collision_shape() {
    let mut world = range(None);
    let out = check_projectile_hit_mob_collisions(
        &mut world,
        &frame(12),
        &vec![CollisionEvent::Started(MOB_B, ARROW_SHAPE)],
    );
    assert_eq!(out.hits, vec![shot(ARROW, 1, MOB_B, 12)]);
    assert_eq!(hits_of(&world, ARROW), vec![MOB_B]);
}

#[test]
fn projectile_hits_each_target_once_in_its_life() {
    let mut world = range(None);
    let events = vec![
        CollisionEvent::Started(ORB, MOB_A),
        CollisionEvent::Started(MOB_A, ORB),
        CollisionEvent::Started(ORB, MOB_B),
    ];
    let out = check_projectile_hit_mob_collisions(&mut world, &frame(5), &events);
    assert_eq!(out.hits, vec![shot(ORB, 2, MOB_A, 5), shot(ORB, 2, MOB_B, 5)]);
    assert_eq!(hits_of(&world, ORB), vec![MOB_A, MOB_B]);
    let out = check_projectile_hit_mob_collisions(&mut world, &frame(5), &events);
    assert!(out.hits.is_empty());
    assert_eq!(hits_of(&world, ORB), vec![MOB_A, MOB_B]);
}

#[test]
fn two_projectiles_may_hit_the_same_target() {
    let mut world = range(None);
    let out = check_projectile_hit_mob_collisions(
        &mut world,
        &frame(5),
        &vec![CollisionEvent::Started(ORB, MOB_A), CollisionEvent::Started(ARROW, MOB_A)],
    );
    assert_eq!(out.hits, vec![shot(ORB, 2, MOB_A, 5), shot(ARROW, 1, MOB_A, 5)]);
}

#[test]
fn projectile_that_plays_out_stays_in_the_world() {
    let mut world = range(None);
    let out = check_projectile_hit_mob_collisions(
        &mut world,
        &frame(5),
        &vec![CollisionEvent::Started(ORB, MOB_A)],
    );
    assert_eq!(out.hits.len(), 1);
    assert!(out.despawns.is_empty());
}

#[test]
fn projectile_ignores_contacts_that_end() {
    let mut world = range(None);
    let out = check_projectile_hit_mob_collisions(
        &mut world,
        &frame(5),
        &vec![CollisionEvent::Stopped(ARROW, MOB_A)],
    );
    assert!(out.hits.is_empty());
    assert!(hits_of(&world, ARROW).is_empty());
}

#[test]
fn projectile_spares_the_player_and_what_is_attached_to_it() {
    let mut world = range(None);
    let out = check_projectile_hit_mob_collisions(
        &mut world,
        &frame(5),
        &vec![
            CollisionEvent::Started(ARROW, PLAYER),
            CollisionEvent::Started(ARROW, SWORD),
            CollisionEvent::Started(ARROW, DROP),
            CollisionEvent::Started(ARROW, ORB),
            CollisionEvent::Started(ARROW, Entity { id: 999 }),
        ],
    );
    assert!(out.hits.is_empty());
    assert!(out.despawns.is_empty());
    assert!(hits_of(&world, ARROW).is_empty());
}

#[test]
fn projectile_of_the_player_does_not_wait_for_mobs_only() {
    let mut world = range(Some(50));
    let out = check_projectile_hit_mob_collisions(
        &mut world,
        &frame(9),
        &vec![CollisionEvent::Started(ARROW, ROCK), CollisionEvent::Started(ORB, MOB_A)],
    );
    assert_eq!(out.hits, vec![shot(ARROW, 1, ROCK, 9), shot(ORB, 2, MOB_A, 9)]);
    assert_eq!(out.heals, vec![ModifyHealthEvent { delta: 4 }]);
}

#[test]
fn projectile_needs_one_player_with_attachments() {
    let mut world = range(None);
    world.insert(PLAYER, Components { player: true, has_position: true, ..Components::empty() });
    assert_eq!(world.sole(Filter::Wielder), None);
    let out = check_projectile_hit_mob_collisions(
        &mut world,
        &frame(9),
        &vec![CollisionEvent::Started(ARROW, MOB_A)],
    );
    assert!(out.hits.is_empty());
}

#[test]
fn projectile_of_a_mob_is_not_the_players() {
    let mut world = range(None);
    let out = check_projectile_hit_mob_collisions(
        &mut world,
        &frame(9),
        &vec![CollisionEvent::Started(SPIT, MOB_B)],
    );
    assert!(out.hits.is_empty());
    let out = check_projectile_hit_player_collisions(
        &mut world,
        &vec![CollisionEvent::Started(ARROW, PLAYER)],
    );
    assert!(out.hits.is_empty());
}

#[test]
fn enemy_projectile_hits_the_player_with_its_owners_attack() {
    let mut world = range(Some(50));
    let out = check_projectile_hit_player_collisions(
        &mut world,
        &vec![CollisionEvent::Started(PLAYER, SPIT_SHAPE)],
    );
    assert_eq!(out.hits, vec![shot(SPIT, 3, PLAYER, 7)]);
    assert!(out.heals.is_empty());
    assert_eq!(out.despawns, vec![SPIT]);
    assert_eq!(hits_of(&world, SPIT), vec![PLAYER]);
}

#[test]
fn enemy_projectile_spares_its_owner() {
    let mut world = range(None);
    world.insert(
        MOB_A,
        Components {
            mob: true,
            has_position: true,
            attack: Some(7),
            world_object: Some(WorldObject { kind: 6 }),
            ..Components::empty()
        },
    );
    let out = check_projectile_hit_player_collisions(
        &mut world,
        &vec![CollisionEvent::Started(SPIT, MOB_A), CollisionEvent::Started(MOB_A, SPIT_SHAPE)],
    );
    assert!(out.hits.is_empty());
    assert!(out.despawns.is_empty());
    assert!(hits_of(&world, SPIT).is_empty());
}

#[test]
fn enemy_projectile_hits_world_objects_but_no_other_mob() {
    let mut world = range(None);
    let out = check_projectile_hit_player_collisions(
        &mut world,
        &vec![
            CollisionEvent::Started(SPIT, MOB_B),
            CollisionEvent::Started(SPIT, DROP),
            CollisionEvent::Started(SPIT, ARROW),
            CollisionEvent::Started(SPIT, ROCK),
            CollisionEvent::Started(SPIT, ROCK),
            CollisionEvent::Started(SPIT, PLAYER),
        ],
    );
    assert_eq!(out.hits, vec![shot(SPIT, 3, ROCK, 7), shot(SPIT, 3, PLAYER, 7)]);
    assert_eq!(out.despawns, vec![SPIT, SPIT]);
}

#[test]
fn enemy_projectile_without_a_living_owner_does_nothing() {
    let mut world = range(None);
    world.insert(SPIT, Components { enemy_projectile: Some(Entity { id: 777 }), ..flying(3) });
    let out = check_projectile_hit_player_collisions(
        &mut world,
        &vec![CollisionEvent::Started(SPIT, PLAYER)],
    );
    assert!(out.hits.is_empty());
    world.insert(SPIT, Components { enemy_projectile: Some(ROCK), ..flying(3) });
    let out = check_projectile_hit_player_collisions(
        &mut world,
        &vec![CollisionEvent::Started(SPIT, PLAYER)],
    );
    assert!(out.hits.is_empty());
}

#[test]
fn find_strike_names_what_the_hit_will_be() {
    let world = range(Some(30));
    assert_eq!(
        find_strike_on_mob(&world, &frame(10), (ARROW_SHAPE, MOB_A)),
        Some(Strike {
            projectile: ARROW,
            kind: Projectile { kind: 1 },
            target: MOB_A,
            damage: 10,
            heal: Some(ModifyHealthEvent { delta: 3 }),
            persists: false,
        })
    );
    assert_eq!(find_strike_on_mob(&world, &frame(10), (MOB_A, ARROW)), None);
    assert_eq!(
        find_strike_on_player(&world, (SPIT, PLAYER)),
        Some(Strike {
            projectile: SPIT,
            kind: Projectile { kind: 3 },
            target: PLAYER,
            damage: 7,
            heal: None,
            persists: false,
        })
    );
    assert_eq!(find_strike_on_player(&world, (SPIT, MOB_A)), None);
}

#[test]
fn land_strikes_asks_the_projectiles_record() {
    let mut world = range(None);
    let strike = Strike {
        projectile: ORB,
        kind: Projectile { kind: 2 },
        target: MOB_A,
        damage: 4,
        heal: Some(ModifyHealthEvent { delta: 1 }),
        persists: true,
    };
    let out = land_strikes(&mut world, &vec![Some(strike), None, Some(strike)]);
    assert_eq!(out.hits, vec![shot(ORB, 2, MOB_A, 4)]);
    assert_eq!(out.heals, vec![ModifyHealthEvent { delta: 1 }]);
    assert!(out.despawns.is_empty());
    let stray = Strike { projectile: MOB_B, ..strike };
    let out = land_strikes(&mut world, &vec![Some(stray)]);
    assert!(out.hits.is_empty());
}
