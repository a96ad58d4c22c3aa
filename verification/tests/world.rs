use combat_collisions::entity::{contains, Entity, HitDedupSet};
use combat_collisions::overlap::{intersection_pairs, started_events, CollisionEvent};
use combat_collisions::world::{Components, Filter, ProjectileState, World};

fn e(id: u64) -> Entity {
    Entity { id }
}

#[test]
fn contains_finds_what_is_there() {
    let list = vec![e(3), e(1), e(4)];
    assert!(contains(&list, e(1)));
    assert!(contains(&list, e(4)));
    assert!(!contains(&list, e(2)));
    assert!(!contains(&Vec::new(), e(2)));
}

#[test]
fn dedup_set_keeps_each_target_once_in_order() {
    let mut set = HitDedupSet::new();
    assert_eq!(set.len(), 0);
    assert!(set.insert(e(5)));
    assert!(set.insert(e(2)));
    assert!(!set.insert(e(5)));
    assert_eq!(set.len(), 2);
    assert_eq!(set.get(0), Some(e(5)));
    assert_eq!(set.get(1), Some(e(2)));
    assert_eq!(set.get(2), None);
    assert!(set.contains(e(2)));
    assert!(!set.contains(e(9)));
}

#[test]
fn dedup_set_clear_forgets_everything() {
    let mut set = HitDedupSet::new();
    set.insert(e(5));
    set.insert(e(6));
    set.clear();
    assert_eq!(set.len(), 0);
    assert!(!set.contains(e(5)));
    assert!(set.insert(e(5)));
}

#[test]
fn world_insert_and_get() {
    let mut world = World::new();
    assert!(!world.contains(e(1)));
    assert!(world.get(e(1)).is_none());
    world.insert(e(1), Components { mob: true, attack: Some(4), ..Components::empty() });
    world.insert(e(2), Components { player: true, ..Components::empty() });
    assert!(world.contains(e(1)));
    assert!(world.get(e(1)).unwrap().mob);
    assert_eq!(world.get(e(1)).unwrap().attack, Some(4));
    assert!(world.get(e(2)).unwrap().player);
    assert!(world.get(e(3)).is_none());
}

#[test]
fn world_insert_replaces_what_the_entity_carried() {
    let mut world = World::new();
    world.insert(e(1), Components { mob: true, attack: Some(4), ..Components::empty() });
    world.insert(e(1), Components { item_stack: true, ..Components::empty() });
    let c = world.get(e(1)).unwrap();
    assert!(!c.mob);
    assert!(c.item_stack);
    assert_eq!(c.attack, None);
}

#[test]
fn empty_components_carry_nothing() {
    let c = Components::empty();
    assert!(c.parent.is_none() && c.children.is_none() && c.world_object.is_none());
    assert!(c.projectile.is_none() && c.projectile_state.is_none());
    assert!(c.enemy_projectile.is_none() && c.attack.is_none() && c.defence.is_none());
    assert!(c.dodge.is_none() && c.thorns.is_none() && c.lifesteal.is_none());
    assert!(c.invincibility_cooldown.is_none());
    assert!(!c.has_position && !c.player && !c.mob && !c.item_stack && !c.equipment);
    assert!(!c.main_hand && !c.hit_marker && !c.done_animation && !c.invincibility_timer);
}

#[test]
fn sole_wants_exactly_one() {
    let mut world = World::new();
    assert_eq!(world.sole(Filter::Player), None);
    world.insert(e(1), Components { mob: true, ..Components::empty() });
    assert_eq!(world.sole(Filter::Player), None);
    world.insert(e(2), Components { player: true, ..Components::empty() });
    assert_eq!(world.sole(Filter::Player), Some(e(2)));
    world.insert(e(3), Components { player: true, ..Components::empty() });
    assert_eq!(world.sole(Filter::Player), None);
}

#[test]
fn filters_ask_for_their_components() {
    let plain = Components { player: true, ..Components::empty() };
    assert!(Filter::Player.test(&plain));
    assert!(!Filter::Wielder.test(&plain));
    assert!(!Filter::Body.test(&plain));
    let wielder = Components { player: true, children: Some(vec![]), ..Components::empty() };
    assert!(Filter::Wielder.test(&wielder));
    let body = Components {
        player: true,
        has_position: true,
        thorns: Some(0),
        defence: Some(0),
        dodge: Some(0),
        invincibility_cooldown: Some(0),
        ..Components::empty()
    };
    assert!(Filter::Body.test(&body));
    assert!(!Filter::Body.test(&Components { dodge: None, ..body }));
    let weapon = Components {
        main_hand: true,
        parent: Some(e(1)),
        has_position: true,
        world_object: Some(combat_collisions::events::WorldObject { kind: 1 }),
        ..Components::empty()
    };
    assert!(Filter::Weapon.test(&weapon));
    assert!(!Filter::Weapon.test(&Components { hit_marker: true, ..weapon }));
}

#[test]
fn record_hit_needs_a_projectile_state() {
    let mut world = World::new();
    world.insert(e(1), Components { mob: true, ..Components::empty() });
    world.insert(
        e(2),
        Components {
            projectile_state: Some(ProjectileState { hit_entities: HitDedupSet::new() }),
            ..Components::empty()
        },
    );
    assert!(!world.record_hit(e(1), e(9)));
    assert!(!world.record_hit(e(7), e(9)));
    assert!(world.record_hit(e(2), e(9)));
    assert!(!world.record_hit(e(2), e(9)));
    assert!(world.record_hit(e(2), e(8)));
    let state = world.get(e(2)).unwrap().projectile_state.as_ref().unwrap();
    assert_eq!(state.hit_entities.len(), 2);
    assert_eq!(state.hit_entities.get(0), Some(e(9)));
    assert_eq!(state.hit_entities.get(1), Some(e(8)));
}

#[test]
fn intersection_pairs_come_both_ways_round() {
    let ordered = intersection_pairs(&vec![(e(1), e(2)), (e(3), e(4))]);
    assert_eq!(ordered, vec![(e(1), e(2)), (e(2), e(1)), (e(3), e(4)), (e(4), e(3))]);
    assert!(intersection_pairs(&Vec::new()).is_empty());
}

#[test]
fn started_events_leave_out_what_stopped() {
    let events = vec![
        CollisionEvent::Started(e(1), e(2)),
        CollisionEvent::Stopped(e(5), e(6)),
        CollisionEvent::Started(e(3), e(4)),
    ];
    assert_eq!(
        started_events(&events),
        vec![(e(1), e(2)), (e(2), e(1)), (e(3), e(4)), (e(4), e(3))]
    );
    assert!(started_events(&vec![CollisionEvent::Stopped(e(1), e(2))]).is_empty());
}
