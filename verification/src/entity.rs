//! Entity handles and the per-activation record of targets already hit.

use vstd::prelude::*;

verus! {

/// An opaque handle into world state. Two handles name the same entity
/// exactly when their `id`s are equal.
#[derive(Clone, Copy, Debug, PartialEq, Eq, Structural)]
pub struct Entity {
    pub id: u64,
}

/// Whether `target` occurs anywhere in `entities`.
pub fn contains(entities: &Vec<Entity>, target: Entity) -> (found: bool)
    ensures
        found == entities@.contains(target),
{
    let mut i: usize = 0;
    while i < entities.len()
        invariant
            i <= entities.len(),
            forall|j: int| 0 <= j < i ==> entities@[j] != target,
        decreases entities.len() - i,
    {
        if entities[i] == target {
            return true;
        }
        i += 1;
    }
    false
}

/// The targets one swing or one projectile has already hit, in the order in
/// which they were hit. No target is ever recorded twice.
#[derive(Debug)]
pub struct HitDedupSet {
    targets: Vec<Entity>,
}

impl View for HitDedupSet {
    type V = Seq<Entity>;

    closed spec fn view(&self) -> Seq<Entity> {
        self.targets@
    }
}

impl HitDedupSet {
    #[verifier::type_invariant]
    closed spec fn distinct(&self) -> bool {
        self.targets@.no_duplicates()
    }

    /// A set for an activation that has hit nothing yet.
    pub fn new() -> (set: Self)
        ensures
            set@ == Seq::<Entity>::empty(),
    {
        HitDedupSet { targets: Vec::new() }
    }

    /// How many targets have been hit. Each of them is recorded once.
    pub fn len(&self) -> (n: usize)
        ensures
            n == self@.len(),
            self@.no_duplicates(),
    {
        proof {
            use_type_invariant(self);
        }
        self.targets.len()
    }

    /// Whether `target` has been hit in this activation.
    pub fn contains(&self, target: Entity) -> (found: bool)
        ensures
            found == self@.contains(target),
    {
        contains(&self.targets, target)
    }

    /// The target recorded at `index`, counting from the first one hit.
    pub fn get(&self, index: usize) -> (target: Option<Entity>)
        ensures
            target == if index < self@.len() {
                Some(self@[index as int])
            } else {
                None
            },
    {
        if index < self.targets.len() {
            Some(self.targets[index])
        } else {
            None
        }
    }

    /// Records `target` unless it is there already; says whether it was new.
    pub fn insert(&mut self, target: Entity) -> (fresh: bool)
        ensures
            fresh == !old(self)@.contains(target),
            final(self)@ == record(old(self)@, target),
            final(self)@.no_duplicates(),
    {
        proof {
            use_type_invariant(&*self);
            lemma_record(self@, target);
        }
        if contains(&self.targets, target) {
            false
        } else {
            let mut targets = Vec::new();
            std::mem::swap(&mut targets, &mut self.targets);
            targets.push(target);
            self.targets = targets;
            true
        }
    }

    /// Forgets every target: the next activation starts clean.
    pub fn clear(&mut self)
        ensures
            final(self)@ == Seq::<Entity>::empty(),
    {
        self.targets = Vec::new();
    }
}

/// The hit list after `target` has been recorded in `hits`.
pub open spec fn record(hits: Seq<Entity>, target: Entity) -> Seq<Entity> {
    if hits.contains(target) {
        hits
    } else {
        hits.push(target)
    }
}

/// Recording a target keeps a duplicate-free list duplicate-free, keeps what
/// was there in place, and leaves the target recorded.
pub proof fn lemma_record(hits: Seq<Entity>, target: Entity)
    requires
        hits.no_duplicates(),
    ensures
        record(hits, target).no_duplicates(),
        record(hits, target).contains(target),
        hits.is_prefix_of(record(hits, target)),
        forall|e: Entity| record(hits, target).contains(e) <==> hits.contains(e) || e == target,
{
    let after = record(hits, target);
    if !hits.contains(target) {
        assert(after[hits.len() as int] == target);
        assert forall|e: Entity| after.contains(e) implies hits.contains(e) || e == target by {
            let i = choose|i: int| 0 <= i < after.len() && after[i] == e;
            if i < hits.len() {
                assert(hits[i] == e);
            }
        }
        assert forall|e: Entity| hits.contains(e) implies after.contains(e) by {
            let i = choose|i: int| 0 <= i < hits.len() && hits[i] == e;
            assert(after[i] == e);
        }
    }
}

} // verus!
