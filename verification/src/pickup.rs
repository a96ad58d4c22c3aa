//! Pickup: a moving player collects the item stacks it overlaps, for as
//! long as the inventory has room. The inventory is asked from outside,
//! one stack at a time.

use crate::entity::Entity;
use crate::overlap::{both_orderings, intersection_pairs};
use crate::world::{sole, ComponentsView, Filter, PlayerFrame, World};
use vstd::prelude::*;

verus! {

/// What the inventory answers when asked about one stack.
#[derive(Clone, Copy, Debug, PartialEq, Eq, Structural)]
pub struct Capacity {
    /// The first slot that holds nothing.
    pub first_empty_slot: Option<usize>,
    /// A slot that holds the same kind of item and is not full.
    pub slot_with_space: Option<usize>,
}

/// Whether the inventory can take the stack it was asked about.
pub open spec fn has_room(capacity: Capacity) -> bool {
    capacity.first_empty_slot is Some || capacity.slot_with_space is Some
}

/// What to do about the stack the inventory was asked about.
#[derive(Clone, Copy, Debug, PartialEq, Eq, Structural)]
pub enum PickupAction {
    /// Put the stack of this item into the inventory, take the item off the
    /// drop registry and out of the world.
    Collect(Entity),
    /// The inventory is full: nothing more is collected this frame.
    Abort,
    /// No stack was waiting.
    Done,
}

/// Whether `e` can be picked up: an item stack that is neither worn nor
/// held.
pub open spec fn collectable(world: Map<Entity, ComponentsView>, e: Entity) -> bool {
    &&& world.dom().contains(e)
    &&& world[e].item_stack
    &&& !world[e].main_hand
    &&& !world[e].equipment
}

/// The items that `player` overlaps, one for each ordered pair in which the
/// player comes first and something collectable second.
pub open spec fn picks(
    world: Map<Entity, ComponentsView>,
    player: Entity,
    pairs: Seq<(Entity, Entity)>,
) -> Seq<Entity>
    decreases pairs.len(),
{
    if pairs.len() == 0 {
        Seq::empty()
    } else if pairs.last().0 == player && collectable(world, pairs.last().1) {
        picks(world, player, pairs.drop_last()).push(pairs.last().1)
    } else {
        picks(world, player, pairs.drop_last())
    }
}

/// The items to try this frame, in order: none while the player stands
/// still or the world does not hold exactly one player.
pub open spec fn pickup_candidates(
    world: Map<Entity, ComponentsView>,
    frame: PlayerFrame,
    pairs: Seq<(Entity, Entity)>,
) -> Seq<Entity> {
    if !frame.state.is_moving {
        Seq::empty()
    } else {
        match sole(world, Filter::Player) {
            Some(player) => picks(world, player, both_orderings(pairs)),
            None => Seq::empty(),
        }
    }
}

/// One answer of the inventory, taken while `pending` wait: the first of
/// them is collected if there is room; if there is none, the pass is over
/// for all of them.
pub open spec fn pickup_step(pending: Seq<Entity>, capacity: Capacity) -> (Seq<Entity>, PickupAction) {
    if pending.len() == 0 {
        (pending, PickupAction::Done)
    } else if has_room(capacity) {
        (pending.drop_first(), PickupAction::Collect(pending[0]))
    } else {
        (Seq::empty(), PickupAction::Abort)
    }
}

/// The items collected when the inventory gives `answers`, one for each
/// item tried, while `pending` wait.
pub open spec fn collected(pending: Seq<Entity>, answers: Seq<Capacity>) -> Seq<Entity>
    decreases answers.len(),
{
    if answers.len() == 0 {
        Seq::empty()
    } else {
        match pickup_step(pending, answers[0]).1 {
            PickupAction::Collect(item) => seq![item] + collected(
                pickup_step(pending, answers[0]).0,
                answers.drop_first(),
            ),
            _ => Seq::empty(),
        }
    }
}

/// An inventory without an empty slot and without a stack that has space
/// collects nothing, whatever overlaps the player.
pub proof fn lemma_full_inventory_collects_nothing(pending: Seq<Entity>, answers: Seq<Capacity>)
    requires
        forall|i: int| 0 <= i < answers.len() ==> !has_room(#[trigger] answers[i]),
    ensures
        collected(pending, answers) == Seq::<Entity>::empty(),
{
}

/// What is collected are the first of the waiting items, in order, and
/// each of them was given room.
pub proof fn lemma_collected_in_order(pending: Seq<Entity>, answers: Seq<Capacity>)
    ensures
        collected(pending, answers).is_prefix_of(pending),
        collected(pending, answers).len() <= answers.len(),
        forall|i: int|
            0 <= i < collected(pending, answers).len() ==> has_room(#[trigger] answers[i]),
    decreases answers.len(),
{
    if answers.len() > 0 && pending.len() > 0 && has_room(answers[0]) {
        let rest = collected(pending.drop_first(), answers.drop_first());
        lemma_collected_in_order(pending.drop_first(), answers.drop_first());
        let all = collected(pending, answers);
        assert(all == seq![pending[0]] + rest);
        assert forall|i: int| 0 <= i < all.len() implies all[i] == pending[i] by {
            if i > 0 {
                assert(all[i] == rest[i - 1]);
                assert(rest[i - 1] == pending.drop_first()[i - 1]);
            }
        }
        assert forall|i: int| 0 <= i < all.len() implies has_room(#[trigger] answers[i]) by {
            if i > 0 {
                assert(answers[i] == answers.drop_first()[i - 1]);
            }
        }
    }
}

/// A pickup pass under way: the items still to be tried.
#[derive(Debug)]
pub struct PickupPass {
    items: Vec<Entity>,
    next: usize,
}

impl View for PickupPass {
    type V = Seq<Entity>;

    closed spec fn view(&self) -> Seq<Entity> {
        self.items@.skip(self.next as int)
    }
}

impl PickupPass {
    #[verifier::type_invariant]
    closed spec fn in_bounds(&self) -> bool {
        self.next <= self.items@.len()
    }

    /// The item about whose stack the inventory is to be asked next, if one
    /// is waiting.
    pub fn pending(&self) -> (item: Option<Entity>)
        ensures
            item == if self@.len() > 0 {
                Some(self@[0])
            } else {
                None
            },
    {
        proof {
            use_type_invariant(self);
        }
        if self.next < self.items.len() {
            Some(self.items[self.next])
        } else {
            None
        }
    }

    /// Takes the inventory's answer about the stack of the pending item and
    /// says what to do. Without room nothing is collected, now or later in
    /// the pass.
    pub fn answer(&mut self, capacity: Capacity) -> (action: PickupAction)
        ensures
            (final(self)@, action) == pickup_step(old(self)@, capacity),
            !has_room(capacity) ==> !(action is Collect) && final(self)@.len() == 0,
    {
        proof {
            use_type_invariant(&*self);
        }
        if self.next >= self.items.len() {
            PickupAction::Done
        } else if capacity.first_empty_slot.is_some() || capacity.slot_with_space.is_some() {
            let item = self.items[self.next];
            proof {
                assert(self.items@.skip(self.next as int).drop_first() =~= self.items@.skip(
                    self.next + 1,
                ));
            }
            self.next = self.next + 1;
            PickupAction::Collect(item)
        } else {
            self.next = self.items.len();
            proof {
                assert(self.items@.skip(self.next as int) =~= Seq::<Entity>::empty());
            }
            PickupAction::Abort
        }
    }

    /// Runs the rest of the pass on answers given beforehand, one for each
    /// item tried, and returns the items collected.
    pub fn replay(&mut self, answers: &Vec<Capacity>) -> (items: Vec<Entity>)
        ensures
            items@ == collected(old(self)@, answers@),
    {
        let mut items: Vec<Entity> = Vec::new();
        let ghost waiting = self@;
        proof {
            assert(answers@.skip(0) =~= answers@);
            assert(items@ + collected(waiting, answers@) =~= collected(waiting, answers@));
        }
        let mut i: usize = 0;
        while i < answers.len()
            invariant
                i <= answers@.len(),
                waiting == old(self)@,
                collected(waiting, answers@) == items@ + collected(self@, answers@.skip(i as int)),
            decreases answers@.len() - i,
        {
            proof {
                assert(answers@.skip(i as int)[0] == answers@[i as int]);
                assert(answers@.skip(i as int).drop_first() =~= answers@.skip(i + 1));
            }
            match self.answer(answers[i]) {
                PickupAction::Collect(item) => {
                    proof {
                        let rest = collected(self@, answers@.skip(i + 1));
                        assert(items@ + (seq![item] + rest) =~= items@.push(item) + rest);
                    }
                    items.push(item);
                },
                _ => {
                    proof {
                        assert(items@ + Seq::<Entity>::empty() =~= items@);
                    }
                    return items;
                },
            }
            i += 1;
        }
        proof {
            assert(answers@.skip(answers@.len() as int) =~= Seq::<Capacity>::empty());
            assert(items@ + Seq::<Entity>::empty() =~= items@);
        }
        items
    }
}

fn is_collectable(world: &World, e: Entity) -> (yes: bool)
    ensures
        yes == collectable(world@, e),
{
    match world.get(e) {
        Some(c) => c.item_stack && !c.main_hand && !c.equipment,
        None => false,
    }
}

/// Begins the pickup pass of one frame: finds the items that the player
/// overlaps. `overlaps` are the pairs that intersect the player now. The
/// caller then asks the inventory about each pending item in turn and does
/// what the pass answers.
pub fn check_item_drop_collisions(
    world: &World,
    frame: &PlayerFrame,
    overlaps: &Vec<(Entity, Entity)>,
) -> (pass: PickupPass)
    ensures
        pass@ == pickup_candidates(world@, *frame, overlaps@),
{
    let mut items: Vec<Entity> = Vec::new();
    if frame.state.is_moving {
        match world.sole(Filter::Player) {
            Some(player) => {
                let ordered = intersection_pairs(overlaps);
                let mut i: usize = 0;
                while i < ordered.len()
                    invariant
                        i <= ordered@.len(),
                        items@ == picks(world@, player, ordered@.take(i as int)),
                    decreases ordered@.len() - i,
                {
                    let pair = ordered[i];
                    proof {
                        assert(ordered@.take(i + 1).drop_last() =~= ordered@.take(i as int));
                        assert(ordered@.take(i + 1).last() == pair);
                    }
                    if pair.0 == player && is_collectable(world, pair.1) {
                        items.push(pair.1);
                    }
                    i += 1;
                }
                proof {
                    assert(ordered@.take(ordered@.len() as int) =~= ordered@);
                }
            },
            None => {},
        }
    }
    let pass = PickupPass { items, next: 0 };
    proof {
        assert(pass.items@.skip(0) =~= pass.items@);
    }
    pass
}

} // verus!
