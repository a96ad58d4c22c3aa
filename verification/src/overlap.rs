//! The overlap feed: what the physics layer reports, put into the one form
//! the resolvers read.

use crate::entity::Entity;
use vstd::prelude::*;

verus! {

/// A change of contact between two entities.
#[derive(Clone, Copy, Debug, PartialEq, Eq, Structural)]
pub enum CollisionEvent {
    /// The two began to overlap.
    Started(Entity, Entity),
    /// The two overlap no longer.
    Stopped(Entity, Entity),
}

/// `pair` with its sides exchanged.
pub open spec fn flipped(pair: (Entity, Entity)) -> (Entity, Entity) {
    (pair.1, pair.0)
}

/// Each pair of `pairs` as reported, followed by the same pair with its
/// sides exchanged.
pub open spec fn both_orderings(pairs: Seq<(Entity, Entity)>) -> Seq<(Entity, Entity)> {
    Seq::new(
        2 * pairs.len(),
        |i: int|
            if i % 2 == 0 {
                pairs[i / 2]
            } else {
                flipped(pairs[i / 2])
            },
    )
}

/// The pairs that began to overlap, in the order of `events`.
pub open spec fn started(events: Seq<CollisionEvent>) -> Seq<(Entity, Entity)>
    decreases events.len(),
{
    if events.len() == 0 {
        Seq::empty()
    } else {
        match events.last() {
            CollisionEvent::Started(a, b) => started(events.drop_last()).push((a, b)),
            CollisionEvent::Stopped(_, _) => started(events.drop_last()),
        }
    }
}

/// Presents every pair in both orderings, so that a resolver may take the
/// first side for its own.
pub fn intersection_pairs(pairs: &Vec<(Entity, Entity)>) -> (ordered: Vec<(Entity, Entity)>)
    ensures
        ordered@ == both_orderings(pairs@),
{
    let mut ordered: Vec<(Entity, Entity)> = Vec::new();
    let mut i: usize = 0;
    while i < pairs.len()
        invariant
            i <= pairs@.len(),
            ordered@.len() == 2 * i,
            forall|k: int| 0 <= k < 2 * i ==> #[trigger] ordered@[k] == both_orderings(pairs@)[k],
        decreases pairs@.len() - i,
    {
        let pair = pairs[i];
        ordered.push(pair);
        ordered.push((pair.1, pair.0));
        i += 1;
    }
    assert(ordered@ =~= both_orderings(pairs@));
    ordered
}

/// Presents every pair that began to overlap in both orderings; an event
/// that ends a contact gives nothing.
pub fn started_events(events: &Vec<CollisionEvent>) -> (ordered: Vec<(Entity, Entity)>)
    ensures
        ordered@ == both_orderings(started(events@)),
{
    let mut begun: Vec<(Entity, Entity)> = Vec::new();
    let mut i: usize = 0;
    while i < events.len()
        invariant
            i <= events@.len(),
            begun@ == started(events@.take(i as int)),
        decreases events@.len() - i,
    {
        proof {
            assert(events@.take(i + 1).drop_last() == events@.take(i as int));
        }
        match events[i] {
            CollisionEvent::Started(a, b) => {
                begun.push((a, b));
            },
            CollisionEvent::Stopped(_, _) => {},
        }
        i += 1;
    }
    proof {
        assert(events@.take(events@.len() as int) == events@);
    }
    intersection_pairs(&begun)
}

/// Every pair of the feed is presented twice, once each way round, and
/// nothing else is presented.
pub proof fn lemma_both_orderings(pairs: Seq<(Entity, Entity)>, k: int)
    requires
        0 <= k < pairs.len(),
    ensures
        both_orderings(pairs).len() == 2 * pairs.len(),
        both_orderings(pairs)[2 * k] == pairs[k],
        both_orderings(pairs)[2 * k + 1] == flipped(pairs[k]),
{
}

} // verus!
