//! A snapshot of the entities a pass may meet, each with the components it
//! carries, and the queries the resolvers put to it.

use crate::damage::{floor_percent, saturate};
use crate::entity::{record, Entity, HitDedupSet};
use crate::events::{ModifyHealthEvent, Projectile, WorldObject};
use vstd::prelude::*;

verus! {

/// What the player is doing this frame.
#[derive(Clone, Copy, Debug, PartialEq, Eq, Structural)]
pub struct AttackState {
    pub is_attacking: bool,
    pub is_moving: bool,
}

/// What the game knows of its player this frame, besides the components.
#[derive(Clone, Copy, Debug, PartialEq, Eq, Structural)]
pub struct PlayerFrame {
    /// The entity the game holds to be its player.
    pub entity: Entity,
    pub state: AttackState,
    /// The damage of one hit by the player, all modifiers counted.
    pub damage: i32,
    /// Whether the active hotbar slot holds an item.
    pub holds_item: bool,
}

/// What a projectile remembers of its flight: the targets it has hit. Its
/// direction stays where positions are kept; a hit names the projectile.
#[derive(Debug)]
pub struct ProjectileState {
    pub hit_entities: HitDedupSet,
}

/// The components of one entity. A flag is true, an option is `Some`, where
/// the entity carries the component.
#[derive(Debug)]
pub struct Components {
    /// The entity this one is attached to.
    pub parent: Option<Entity>,
    /// The entities attached to this one.
    pub children: Option<Vec<Entity>>,
    /// Whether the entity has a place in space.
    pub has_position: bool,
    pub player: bool,
    pub mob: bool,
    pub item_stack: bool,
    pub equipment: bool,
    pub main_hand: bool,
    pub hit_marker: bool,
    /// Whether the entity plays a closing animation before it leaves.
    pub done_animation: bool,
    /// Whether the entity is immune to contact damage right now.
    pub invincibility_timer: bool,
    pub world_object: Option<WorldObject>,
    pub projectile: Option<Projectile>,
    pub projectile_state: Option<ProjectileState>,
    /// For a projectile shot by a mob: that mob.
    pub enemy_projectile: Option<Entity>,
    pub attack: Option<i32>,
    pub defence: Option<i32>,
    /// Percent chance to dodge a touch.
    pub dodge: Option<i32>,
    /// Percent of a touch's attack dealt back.
    pub thorns: Option<i32>,
    /// Percent of dealt damage gained as health.
    pub lifesteal: Option<i32>,
    /// Milliseconds of immunity after a dodge.
    pub invincibility_cooldown: Option<u64>,
}

/// The mathematical content of [`Components`].
pub struct ComponentsView {
    pub parent: Option<Entity>,
    pub children: Option<Seq<Entity>>,
    pub has_position: bool,
    pub player: bool,
    pub mob: bool,
    pub item_stack: bool,
    pub equipment: bool,
    pub main_hand: bool,
    pub hit_marker: bool,
    pub done_animation: bool,
    pub invincibility_timer: bool,
    pub world_object: Option<WorldObject>,
    pub projectile: Option<Projectile>,
    /// The hit list of the projectile state, where there is one.
    pub hit_entities: Option<Seq<Entity>>,
    pub enemy_projectile: Option<Entity>,
    pub attack: Option<i32>,
    pub defence: Option<i32>,
    pub dodge: Option<i32>,
    pub thorns: Option<i32>,
    pub lifesteal: Option<i32>,
    pub invincibility_cooldown: Option<u64>,
}

impl View for Components {
    type V = ComponentsView;

    open spec fn view(&self) -> ComponentsView {
        ComponentsView {
            parent: self.parent,
            children: match self.children {
                Some(c) => Some(c@),
                None => None,
            },
            has_position: self.has_position,
            player: self.player,
            mob: self.mob,
            item_stack: self.item_stack,
            equipment: self.equipment,
            main_hand: self.main_hand,
            hit_marker: self.hit_marker,
            done_animation: self.done_animation,
            invincibility_timer: self.invincibility_timer,
            world_object: self.world_object,
            projectile: self.projectile,
            hit_entities: match self.projectile_state {
                Some(s) => Some(s.hit_entities@),
                None => None,
            },
            enemy_projectile: self.enemy_projectile,
            attack: self.attack,
            defence: self.defence,
            dodge: self.dodge,
            thorns: self.thorns,
            lifesteal: self.lifesteal,
            invincibility_cooldown: self.invincibility_cooldown,
        }
    }
}

/// An entity that carries nothing.
pub open spec fn bare() -> ComponentsView {
    ComponentsView {
        parent: None,
        children: None,
        has_position: false,
        player: false,
        mob: false,
        item_stack: false,
        equipment: false,
        main_hand: false,
        hit_marker: false,
        done_animation: false,
        invincibility_timer: false,
        world_object: None,
        projectile: None,
        hit_entities: None,
        enemy_projectile: None,
        attack: None,
        defence: None,
        dodge: None,
        thorns: None,
        lifesteal: None,
        invincibility_cooldown: None,
    }
}

impl Components {
    /// The components of an entity that carries nothing.
    pub fn empty() -> (c: Self)
        ensures
            c@ == bare(),
    {
        Components {
            parent: None,
            children: None,
            has_position: false,
            player: false,
            mob: false,
            item_stack: false,
            equipment: false,
            main_hand: false,
            hit_marker: false,
            done_animation: false,
            invincibility_timer: false,
            world_object: None,
            projectile: None,
            projectile_state: None,
            enemy_projectile: None,
            attack: None,
            defence: None,
            dodge: None,
            thorns: None,
            lifesteal: None,
            invincibility_cooldown: None,
        }
    }
}

/// The entities that a pass asks for by what they carry.
#[derive(Clone, Copy, Debug, PartialEq, Eq, Structural)]
pub enum Filter {
    /// The weapon in the main hand, while no hit marker is on it: it has a
    /// wielder, a position and a kind.
    Weapon,
    /// The player, with the entities attached to it.
    Wielder,
    /// The player as a body that can be touched: placed in space, with
    /// thorns, defence, dodge and an invincibility cooldown.
    Body,
    /// The player.
    Player,
}

impl Filter {
    /// Whether an entity with components `c` is one this filter asks for.
    pub open spec fn admits(self, c: ComponentsView) -> bool {
        match self {
            Filter::Weapon => c.main_hand && !c.hit_marker && c.parent is Some && c.has_position
                && c.world_object is Some,
            Filter::Wielder => c.player && c.children is Some,
            Filter::Body => c.player && c.has_position && c.thorns is Some && c.defence is Some
                && c.dodge is Some && c.invincibility_cooldown is Some,
            Filter::Player => c.player,
        }
    }

    /// Tests `c` against this filter.
    pub fn test(self, c: &Components) -> (admitted: bool)
        ensures
            admitted == self.admits(c@),
    {
        match self {
            Filter::Weapon => c.main_hand && !c.hit_marker && c.parent.is_some() && c.has_position
                && c.world_object.is_some(),
            Filter::Wielder => c.player && c.children.is_some(),
            Filter::Body => c.player && c.has_position && c.thorns.is_some()
                && c.defence.is_some() && c.dodge.is_some()
                && c.invincibility_cooldown.is_some(),
            Filter::Player => c.player,
        }
    }
}

/// Whether `e` is the one entity of `world` that `filter` admits.
pub open spec fn is_sole(world: Map<Entity, ComponentsView>, filter: Filter, e: Entity) -> bool {
    &&& world.dom().contains(e)
    &&& filter.admits(world[e])
    &&& forall|o: Entity| world.dom().contains(o) && filter.admits(#[trigger] world[o]) ==> o == e
}

/// The entity that `filter` admits, where it admits exactly one.
pub open spec fn sole(world: Map<Entity, ComponentsView>, filter: Filter) -> Option<Entity> {
    if exists|e: Entity| is_sole(world, filter, e) {
        Some(choose|e: Entity| is_sole(world, filter, e))
    } else {
        None
    }
}

/// The world after the projectile `projectile` has recorded a hit on
/// `target`. Nothing changes where `projectile` has no projectile state.
pub open spec fn with_hit(
    world: Map<Entity, ComponentsView>,
    projectile: Entity,
    target: Entity,
) -> Map<Entity, ComponentsView> {
    if world.dom().contains(projectile) && world[projectile].hit_entities is Some {
        world.insert(
            projectile,
            ComponentsView {
                hit_entities: Some(record(world[projectile].hit_entities->0, target)),
                ..world[projectile]
            },
        )
    } else {
        world
    }
}

/// The lifesteal percentage of `player`; zero where it has none.
pub open spec fn lifesteal_of(world: Map<Entity, ComponentsView>, player: Entity) -> int {
    if world.dom().contains(player) && world[player].lifesteal is Some {
        world[player].lifesteal->0 as int
    } else {
        0
    }
}

/// The health that a hit of `damage` gives back to `player`.
pub open spec fn heal_of(
    world: Map<Entity, ComponentsView>,
    player: Entity,
    damage: i32,
) -> ModifyHealthEvent {
    ModifyHealthEvent {
        delta: saturate(floor_percent(damage as int, lifesteal_of(world, player))) as i32,
    }
}

/// Whether the projectile `projectile` keeps a hit list that lacks `target`.
pub open spec fn can_hit(
    world: Map<Entity, ComponentsView>,
    projectile: Entity,
    target: Entity,
) -> bool {
    &&& world.dom().contains(projectile)
    &&& world[projectile].hit_entities is Some
    &&& !world[projectile].hit_entities->0.contains(target)
}

struct Record {
    entity: Entity,
    components: Components,
}

spec fn holds(records: Seq<Record>, e: Entity) -> bool {
    exists|i: int| 0 <= i < records.len() && (#[trigger] records[i]).entity == e
}

spec fn slot(records: Seq<Record>, e: Entity) -> int {
    choose|i: int| 0 <= i < records.len() && (#[trigger] records[i]).entity == e
}

spec fn distinct(records: Seq<Record>) -> bool {
    forall|i: int, j: int|
        0 <= i < j < records.len() ==> (#[trigger] records[i]).entity != (
        #[trigger] records[j]).entity
}

spec fn table(records: Seq<Record>) -> Map<Entity, ComponentsView> {
    Map::new(|e: Entity| holds(records, e), |e: Entity| records[slot(records, e)].components@)
}

proof fn lemma_slot(records: Seq<Record>, i: int)
    requires
        distinct(records),
        0 <= i < records.len(),
    ensures
        holds(records, records[i].entity),
        slot(records, records[i].entity) == i,
        table(records).dom().contains(records[i].entity),
        table(records)[records[i].entity] == records[i].components@,
{
    let e = records[i].entity;
    assert(holds(records, e));
    let j = slot(records, e);
    assert(0 <= j < records.len() && records[j].entity == e);
    if j < i {
        assert(records[j].entity != records[i].entity);
    }
    if i < j {
        assert(records[i].entity != records[j].entity);
    }
}

proof fn lemma_absent(records: Seq<Record>, e: Entity)
    requires
        forall|i: int| 0 <= i < records.len() ==> (#[trigger] records[i]).entity != e,
    ensures
        !table(records).dom().contains(e),
{
}

proof fn lemma_present(records: Seq<Record>, e: Entity) -> (i: int)
    requires
        distinct(records),
        table(records).dom().contains(e),
    ensures
        0 <= i < records.len(),
        records[i].entity == e,
        table(records)[e] == records[i].components@,
{
    assert(holds(records, e));
    let i = slot(records, e);
    lemma_slot(records, i);
    i
}

/// The entities of one frame. Each entity occurs once.
pub struct World {
    records: Vec<Record>,
}

impl View for World {
    type V = Map<Entity, ComponentsView>;

    closed spec fn view(&self) -> Map<Entity, ComponentsView> {
        table(self.records@)
    }
}

impl World {
    #[verifier::type_invariant]
    closed spec fn unique(&self) -> bool {
        distinct(self.records@)
    }

    /// A world without entities.
    pub fn new() -> (world: Self)
        ensures
            world@ == Map::<Entity, ComponentsView>::empty(),
    {
        let world = World { records: Vec::new() };
        assert(world@ =~= Map::<Entity, ComponentsView>::empty());
        world
    }

    fn index_of(&self, entity: Entity) -> (found: Option<usize>)
        ensures
            match found {
                Some(i) => i < self.records@.len() && self.records@[i as int].entity == entity,
                None => forall|j: int|
                    0 <= j < self.records@.len() ==> (#[trigger] self.records@[j]).entity
                        != entity,
            },
    {
        let mut i: usize = 0;
        while i < self.records.len()
            invariant
                i <= self.records@.len(),
                forall|j: int| 0 <= j < i ==> (#[trigger] self.records@[j]).entity != entity,
            decreases self.records@.len() - i,
        {
            if self.records[i].entity == entity {
                return Some(i);
            }
            i += 1;
        }
        None
    }

    /// Whether `entity` is in the world.
    pub fn contains(&self, entity: Entity) -> (found: bool)
        ensures
            found == self@.dom().contains(entity),
    {
        proof {
            use_type_invariant(self);
        }
        match self.index_of(entity) {
            Some(i) => {
                proof {
                    lemma_slot(self.records@, i as int);
                }
                true
            },
            None => {
                proof {
                    lemma_absent(self.records@, entity);
                }
                false
            },
        }
    }

    /// The components of `entity`, if it is in the world.
    pub fn get(&self, entity: Entity) -> (found: Option<&Components>)
        ensures
            match found {
                Some(c) => self@.dom().contains(entity) && c@ == self@[entity],
                None => !self@.dom().contains(entity),
            },
    {
        proof {
            use_type_invariant(self);
        }
        match self.index_of(entity) {
            Some(i) => {
                proof {
                    lemma_slot(self.records@, i as int);
                }
                Some(&self.records[i].components)
            },
            None => {
                proof {
                    lemma_absent(self.records@, entity);
                }
                None
            },
        }
    }

    /// Puts `entity` into the world with `components`, in place of what it
    /// carried before if it was there.
    pub fn insert(&mut self, entity: Entity, components: Components)
        ensures
            final(self)@ == old(self)@.insert(entity, components@),
    {
        proof {
            use_type_invariant(&*self);
        }
        let found = self.index_of(entity);
        let ghost before = self.records@;
        let ghost added = components@;
        let mut records = Vec::new();
        std::mem::swap(&mut records, &mut self.records);
        match found {
            Some(i) => {
                records[i].components = components;
            },
            None => {
                records.push(Record { entity, components });
            },
        }
        proof {
            let after = records@;
            assert(distinct(after));
            assert forall|e: Entity| holds(after, e) <==> (holds(before, e) || e == entity) by {
                if holds(after, e) {
                    let k = slot(after, e);
                    if k < before.len() {
                        assert(before[k].entity == e);
                    }
                }
                if holds(before, e) {
                    let k = slot(before, e);
                    assert(after[k].entity == e);
                }
                if e == entity {
                    match found {
                        Some(i) => {
                            assert(after[i as int].entity == e);
                        },
                        None => {
                            assert(after[before.len() as int].entity == e);
                        },
                    }
                }
            }
            assert forall|e: Entity| holds(after, e) implies #[trigger] table(after)[e]
                == table(before).insert(entity, added)[e] by {
                let k = slot(after, e);
                lemma_slot(after, k);
                if e != entity {
                    assert(before[k].entity == e);
                    lemma_slot(before, k);
                }
            }
            assert(table(after) =~= table(before).insert(entity, added));
        }
        self.records = records;
    }

    /// The entity that `filter` admits, where it admits exactly one.
    pub fn sole(&self, filter: Filter) -> (found: Option<Entity>)
        ensures
            found == sole(self@, filter),
            found matches Some(e) ==> is_sole(self@, filter, e),
    {
        proof {
            use_type_invariant(self);
        }
        let mut first: Option<usize> = None;
        let mut many = false;
        let mut i: usize = 0;
        while i < self.records.len()
            invariant
                i <= self.records@.len(),
                first is None ==> !many && forall|j: int|
                    0 <= j < i ==> !filter.admits((#[trigger] self.records@[j]).components@),
                first matches Some(k) ==> k < i && filter.admits(self.records@[k as int].components@),
                first matches Some(k) ==> !many ==> forall|j: int|
                    0 <= j < i && j != k ==> !filter.admits(
                        (#[trigger] self.records@[j]).components@,
                    ),
                first matches Some(k) ==> many ==> exists|j: int|
                    0 <= j < i && j != k && filter.admits(
                        (#[trigger] self.records@[j]).components@,
                    ),
            decreases self.records@.len() - i,
        {
            if filter.test(&self.records[i].components) {
                if first.is_some() {
                    many = true;
                } else {
                    first = Some(i);
                }
            }
            i += 1;
        }
        let ghost records = self.records@;
        match first {
            Some(k) => {
                if many {
                    proof {
                        let j = choose|j: int|
                            0 <= j < records.len() && j != k && filter.admits(
                                (#[trigger] records[j]).components@,
                            );
                        lemma_slot(records, k as int);
                        lemma_slot(records, j);
                        assert(records[j].entity != records[k as int].entity);
                        assert forall|e: Entity| !is_sole(self@, filter, e) by {
                            if is_sole(self@, filter, e) {
                                assert(filter.admits(self@[records[j].entity]));
                                assert(filter.admits(self@[records[k as int].entity]));
                            }
                        }
                    }
                    None
                } else {
                    let e = self.records[k].entity;
                    proof {
                        lemma_slot(records, k as int);
                        assert forall|o: Entity|
                            self@.dom().contains(o) && filter.admits(#[trigger] self@[o]) implies o
                            == e by {
                            let j = lemma_present(records, o);
                        }
                        assert(is_sole(self@, filter, e));
                        let c = choose|c: Entity| is_sole(self@, filter, c);
                        assert(filter.admits(self@[e]));
                        assert(c == e);
                    }
                    Some(e)
                }
            },
            None => {
                proof {
                    assert forall|e: Entity| !is_sole(self@, filter, e) by {
                        if is_sole(self@, filter, e) {
                            let j = lemma_present(records, e);
                        }
                    }
                }
                None
            },
        }
    }

    /// Records on the projectile `projectile` that it has hit `target`;
    /// says whether `target` was new to it.
    pub fn record_hit(&mut self, projectile: Entity, target: Entity) -> (fresh: bool)
        ensures
            final(self)@ == with_hit(old(self)@, projectile, target),
            fresh == can_hit(old(self)@, projectile, target),
            !fresh ==> final(self)@ == old(self)@,
    {
        proof {
            use_type_invariant(&*self);
        }
        let found = self.index_of(projectile);
        let ghost before = self.records@;
        match found {
            Some(i) => {
                proof {
                    lemma_slot(before, i as int);
                }
                let mut records = Vec::new();
                std::mem::swap(&mut records, &mut self.records);
                let fresh = match &mut records[i].components.projectile_state {
                    Some(state) => state.hit_entities.insert(target),
                    None => false,
                };
                proof {
                    let after = records@;
                    assert(distinct(after));
                    assert forall|e: Entity| holds(after, e) <==> holds(before, e) by {
                        if holds(after, e) {
                            let k = slot(after, e);
                            assert(before[k].entity == e);
                        }
                        if holds(before, e) {
                            let k = slot(before, e);
                            assert(after[k].entity == e);
                        }
                    }
                    assert forall|e: Entity| holds(after, e) implies #[trigger] table(after)[e]
                        == with_hit(table(before), projectile, target)[e] by {
                        let k = slot(after, e);
                        lemma_slot(after, k);
                        assert(before[k].entity == e);
                        lemma_slot(before, k);
                    }
                    assert(table(after) =~= with_hit(table(before), projectile, target));
                    if !fresh {
                        assert(table(after) =~= table(before));
                    }
                }
                self.records = records;
                fresh
            },
            None => {
                proof {
                    lemma_absent(before, projectile);
                }
                false
            },
        }
    }
}

} // verus!
