//! The relation graph of a world: the registry of kinds, the two indexes, and the hooks that are
//! due.

use vstd::prelude::*;
use std::collections::HashSet;
use crate::entity::{AllocState, Entity, EntityAllocator, alive};
use crate::pairs::precedes;
use crate::relation_index::{
    RelationPair, SubjectIndex, TargetIndex, copied, dropped, first_pair, has_pair_of_kind,
    is_target, joined, listed_before, lists, lists_targets, place_of, placed,
};
use crate::relations::{
    HookEvent, Kind, KindInfo, MAX_ANCESTOR_WALK, RelationKind, RelationRegistry, index_with_kind,
    kind_index, kind_of, with_kind,
};

verus! {

broadcast use vstd::std_specs::hash::group_hash_axioms;

/// State of a relation graph.
pub struct GraphState {
    /// The registered kinds.
    pub kinds: Seq<KindInfo>,
    /// The relations of each subject index.
    pub pairs: Map<u32, Set<RelationPair>>,
    /// The subjects of each kind and target index, in sibling order.
    pub siblings: Map<(u32, u32), Seq<Entity>>,
    /// The hooks that are due.
    pub hooks: Seq<HookEvent>,
}

/// Whether relations of the kind form a hierarchy, in which no cycle may arise.
pub open spec fn hierarchical(s: GraphState, kind_idx: u32) -> bool {
    kind_idx < s.kinds.len() && (s.kinds[kind_idx as int].exclusive
        || s.kinds[kind_idx as int].cascade)
}

/// Whether a subject has at most one target of the kind.
pub open spec fn is_exclusive(s: GraphState, kind_idx: u32) -> bool {
    kind_idx < s.kinds.len() && s.kinds[kind_idx as int].exclusive
}

/// Whether an entity with index `from` has a relation of the kind to one with index `to`.
pub open spec fn steps_to(
    pairs: Map<u32, Set<RelationPair>>,
    kind_idx: u32,
    from: u32,
    to: u32,
) -> bool {
    exists|p: RelationPair|
        #[trigger] pairs[from].contains(p) && p.kind_idx == kind_idx && p.target.index == to
}

/// Whether `path` goes from index to index along relations of the kind.
pub open spec fn is_path(
    pairs: Map<u32, Set<RelationPair>>,
    kind_idx: u32,
    path: Seq<u32>,
) -> bool {
    forall|i: int, j: int|
        0 <= i && j == i + 1 && j < path.len() ==> steps_to(
            pairs,
            kind_idx,
            #[trigger] path[i],
            #[trigger] path[j],
        )
}

/// Whether `path` goes from `from` to `to` in `steps` steps.
pub open spec fn leads(
    pairs: Map<u32, Set<RelationPair>>,
    kind_idx: u32,
    from: u32,
    to: u32,
    steps: nat,
    path: Seq<u32>,
) -> bool {
    &&& path.len() == steps + 1
    &&& path[0] == from
    &&& path.last() == to
    &&& is_path(pairs, kind_idx, path)
}

/// Whether an entity with index `to` is an ancestor of one with index `from`, `steps` relations of
/// the kind away.
pub open spec fn is_ancestor(
    pairs: Map<u32, Set<RelationPair>>,
    kind_idx: u32,
    from: u32,
    to: u32,
    steps: nat,
) -> bool {
    exists|path: Seq<u32>| leads(pairs, kind_idx, from, to, steps, path)
}

/// The walk from `cur` to its ancestors through all targets of the kind: whether it meets `goal`,
/// or does not end within `left` steps.
pub open spec fn walk_blocks(
    pairs: Map<u32, Set<RelationPair>>,
    kind_idx: u32,
    cur: u32,
    goal: u32,
    left: nat,
) -> bool {
    ||| exists|n: nat| 0 < n <= left + 1 && #[trigger] is_ancestor(pairs, kind_idx, cur, goal, n)
    ||| exists|i: u32| #[trigger] is_ancestor(pairs, kind_idx, cur, i, left + 1)
}

/// One more step.
proof fn lemma_ancestor_step(
    pairs: Map<u32, Set<RelationPair>>,
    kind_idx: u32,
    from: u32,
    mid: u32,
    to: u32,
    n: nat,
)
    requires
        is_ancestor(pairs, kind_idx, from, mid, n),
        steps_to(pairs, kind_idx, mid, to),
    ensures
        is_ancestor(pairs, kind_idx, from, to, n + 1),
{
    let path = choose|path: Seq<u32>| leads(pairs, kind_idx, from, mid, n, path);
    let longer = path.push(to);
    assert forall|i: int, j: int| 0 <= i && j == i + 1 && j < longer.len() implies steps_to(
        pairs,
        kind_idx,
        #[trigger] longer[i],
        #[trigger] longer[j],
    ) by {
        if j < path.len() {
            assert(steps_to(pairs, kind_idx, path[i], path[j]));
        }
    }
    assert(leads(pairs, kind_idx, from, to, n + 1, longer));
}

/// The last step.
proof fn lemma_ancestor_last(
    pairs: Map<u32, Set<RelationPair>>,
    kind_idx: u32,
    from: u32,
    to: u32,
    n: nat,
) -> (mid: u32)
    requires
        n > 0,
        is_ancestor(pairs, kind_idx, from, to, n),
    ensures
        is_ancestor(pairs, kind_idx, from, mid, (n - 1) as nat),
        steps_to(pairs, kind_idx, mid, to),
{
    let path = choose|path: Seq<u32>| leads(pairs, kind_idx, from, to, n, path);
    let shorter = path.drop_last();
    assert forall|i: int, j: int| 0 <= i && j == i + 1 && j < shorter.len() implies steps_to(
        pairs,
        kind_idx,
        #[trigger] shorter[i],
        #[trigger] shorter[j],
    ) by {
        assert(steps_to(pairs, kind_idx, path[i], path[j]));
    }
    assert(steps_to(pairs, kind_idx, path[n - 1], path[n as int]));
    assert(leads(pairs, kind_idx, from, shorter.last(), (n - 1) as nat, shorter));
    shorter.last()
}

/// An ancestor further away has one at every distance before it.
proof fn lemma_ancestor_before(
    pairs: Map<u32, Set<RelationPair>>,
    kind_idx: u32,
    from: u32,
    to: u32,
    n: nat,
    m: nat,
) -> (mid: u32)
    requires
        m <= n,
        is_ancestor(pairs, kind_idx, from, to, n),
    ensures
        is_ancestor(pairs, kind_idx, from, mid, m),
    decreases n,
{
    if m == n {
        to
    } else {
        let mid = lemma_ancestor_last(pairs, kind_idx, from, to, n);
        lemma_ancestor_before(pairs, kind_idx, from, mid, (n - 1) as nat, m)
    }
}

/// Whether a relation is turned down because it would close a cycle.
pub open spec fn closes_cycle(
    s: GraphState,
    subject: Entity,
    kind_idx: u32,
    target: Entity,
) -> bool {
    &&& hierarchical(s, kind_idx)
    &&& is_target(s.siblings, subject.index)
    &&& walk_blocks(s.pairs, kind_idx, target.index, subject.index, MAX_ANCESTOR_WALK as nat)
}

/// The state with more hooks due.
pub open spec fn with_hooks(s: GraphState, more: Seq<HookEvent>) -> GraphState {
    GraphState { hooks: s.hooks + more, ..s }
}

/// The siblings with `subject` added: at the end, or at a position.
pub open spec fn with_sibling(s: Seq<Entity>, subject: Entity, position: Option<usize>) -> Seq<
    Entity,
> {
    match position {
        None => s.push(subject),
        Some(i) => placed(s, subject, i as nat),
    }
}

/// The state with the relation added, unless it is there already.
pub open spec fn edge_added(
    s: GraphState,
    subject: Entity,
    pair: RelationPair,
    position: Option<usize>,
) -> GraphState {
    if s.pairs[subject.index].contains(pair) {
        s
    } else {
        let key = (pair.kind_idx, pair.target.index);
        GraphState {
            pairs: s.pairs.insert(subject.index, s.pairs[subject.index].insert(pair)),
            siblings: s.siblings.insert(key, with_sibling(s.siblings[key], subject, position)),
            hooks: if pair.kind_idx < s.kinds.len() && s.kinds[pair.kind_idx as int].on_add is Some {
                s.hooks.push(
                    HookEvent::RelationAdded {
                        kind_idx: pair.kind_idx,
                        subject,
                        target: pair.target,
                    },
                )
            } else {
                s.hooks
            },
            ..s
        }
    }
}

/// The state with the relation removed, if it was there.
pub open spec fn edge_removed(s: GraphState, subject: Entity, pair: RelationPair) -> GraphState {
    if s.pairs[subject.index].contains(pair) {
        let key = (pair.kind_idx, pair.target.index);
        GraphState {
            pairs: s.pairs.insert(subject.index, s.pairs[subject.index].remove(pair)),
            siblings: s.siblings.insert(key, dropped(s.siblings[key], subject)),
            hooks: if pair.kind_idx < s.kinds.len() && s.kinds[pair.kind_idx as int].on_remove is Some {
                s.hooks.push(
                    HookEvent::RelationRemoved {
                        kind_idx: pair.kind_idx,
                        subject,
                        target: pair.target,
                    },
                )
            } else {
                s.hooks
            },
            ..s
        }
    } else {
        s
    }
}

/// The state after a relation was asked for. Nothing happens where either entity is dead, where
/// they share an index, where the relation would close a cycle, or where an exclusive kind has
/// this target already. An exclusive kind drops the target it had.
pub open spec fn after_add(
    s: GraphState,
    entities: AllocState,
    subject: Entity,
    kind_idx: u32,
    target: Entity,
    position: Option<usize>,
) -> GraphState {
    let pair = RelationPair { kind_idx, target };
    if !alive(entities, subject) || !alive(entities, target) || subject.index == target.index {
        s
    } else if closes_cycle(s, subject, kind_idx, target) {
        s
    } else if is_exclusive(s, kind_idx) {
        match first_pair(s.pairs[subject.index], kind_idx) {
            Some(old) => if old.target == target {
                s
            } else {
                edge_added(edge_removed(s, subject, old), subject, pair, position)
            },
            None => edge_added(s, subject, pair, position),
        }
    } else {
        edge_added(s, subject, pair, position)
    }
}

/// Why a relation is turned down.
#[derive(Clone, Copy, PartialEq, Eq, Debug, Structural)]
pub enum Refusal {
    /// One of the two entities is dead.
    Dead,
    /// An entity would be related to itself.
    Itself,
    /// The relation would close a cycle of a hierarchy, or the chain of ancestors is too long to
    /// tell.
    Cycle,
}

/// Why a relation is turned down, if it is.
pub open spec fn refusal_of(
    s: GraphState,
    entities: AllocState,
    subject: Entity,
    kind_idx: u32,
    target: Entity,
) -> Option<Refusal> {
    if !alive(entities, subject) || !alive(entities, target) {
        Some(Refusal::Dead)
    } else if subject.index == target.index {
        Some(Refusal::Itself)
    } else if closes_cycle(s, subject, kind_idx, target) {
        Some(Refusal::Cycle)
    } else {
        None
    }
}

/// A relation that is turned down changes nothing; one that is not is there afterwards.
pub proof fn law_refused_relations_change_nothing(
    s: GraphState,
    entities: AllocState,
    subject: Entity,
    kind_idx: u32,
    target: Entity,
    position: Option<usize>,
)
    requires
        s.pairs.dom() == Set::<u32>::full(),
    ensures
        ({
            let t = after_add(s, entities, subject, kind_idx, target, position);
            let pair = RelationPair { kind_idx, target };
            if refusal_of(s, entities, subject, kind_idx, target) is Some {
                t == s
            } else {
                t.pairs[subject.index].contains(pair)
            }
        }),
{
    if refusal_of(s, entities, subject, kind_idx, target) is None {
        if is_exclusive(s, kind_idx) {
            if let Some(old) = first_pair(s.pairs[subject.index], kind_idx) {
                lemma_first_there(s.pairs[subject.index], kind_idx);
            }
        }
    }
}

/// The first relation of a kind is a relation of the kind that is there.
proof fn lemma_first_there(set: Set<RelationPair>, kind_idx: u32)
    requires
        first_pair(set, kind_idx) is Some,
    ensures
        set.contains(first_pair(set, kind_idx)->0),
        first_pair(set, kind_idx)->0.kind_idx == kind_idx,
{
    let keys = crate::relation_index::keys_of(set);
    let t = crate::pairs::first_of(keys, kind_idx)->0;
    assert(crate::pairs::is_first(keys, kind_idx, t));
    assert(keys.contains(t));
}

/// The state with `subject` moved to `index` among its siblings.
pub open spec fn sibling_moved(
    s: GraphState,
    kind_idx: u32,
    target: u32,
    subject: Entity,
    index: nat,
) -> GraphState {
    let key = (kind_idx, target);
    if s.siblings[key].contains(subject) {
        GraphState {
            siblings: s.siblings.insert(
                key,
                placed(dropped(s.siblings[key], subject), subject, index),
            ),
            ..s
        }
    } else {
        s
    }
}

/// Whether two live entities are related.
pub open spec fn related(
    s: GraphState,
    entities: AllocState,
    subject: Entity,
    kind_idx: u32,
    target: Entity,
) -> bool {
    alive(entities, subject) && alive(entities, target) && s.pairs[subject.index].contains(
        RelationPair { kind_idx, target },
    )
}

/// The state with kind `k` registered.
pub open spec fn with_registered(s: GraphState, k: KindInfo) -> GraphState {
    GraphState { kinds: with_kind(s.kinds, k), ..s }
}

/// Whether an index is among `items`.
fn holds_index(items: &[u32], index: u32) -> (b: bool)
    ensures
        b == items@.contains(index),
{
    let mut i: usize = 0;
    while i < items.len()
        invariant
            i <= items@.len(),
            forall|k: int| 0 <= k < i ==> items@[k] != index,
        decreases items.len() - i,
    {
        if items[i] == index {
            return true;
        }
        i = i + 1;
    }
    false
}

/// The relation graph of a world.
pub struct RelationGraph {
    registry: RelationRegistry,
    subject_index: SubjectIndex,
    target_index: TargetIndex,
    hook_queue: Vec<HookEvent>,
}

impl View for RelationGraph {
    type V = GraphState;

    closed spec fn view(&self) -> GraphState {
        GraphState {
            kinds: self.registry@,
            pairs: self.subject_index@,
            siblings: self.target_index@,
            hooks: self.hook_queue@,
        }
    }
}

impl RelationGraph {
    /// The graph's invariant.
    pub closed spec fn wf(&self) -> bool {
        self.registry.wf() && self.subject_index.wf() && self.target_index.wf()
    }

    /// Number of relations that point at an entity with this index.
    pub closed spec fn fan_in(&self, target: u32) -> nat {
        self.target_index.count(target)
    }

    /// Facts about every graph.
    pub proof fn lemma_wf(&self)
        requires
            self.wf(),
        ensures
            crate::relations::distinct_keys(self@.kinds),
            self@.kinds.len() <= u32::MAX,
            self@.pairs.dom() == Set::<u32>::full(),
            self@.siblings.dom() == Set::<(u32, u32)>::full(),
    {
        self.registry.lemma_wf();
        self.subject_index.lemma_total();
        self.target_index.lemma_total();
        assert(self@.pairs.dom() =~= Set::<u32>::full());
        assert(self@.siblings.dom() =~= Set::<(u32, u32)>::full());
    }

    /// A graph without kinds and relations.
    pub fn new() -> (g: RelationGraph)
        ensures
            g.wf(),
            g@.kinds.len() == 0,
            g@.hooks.len() == 0,
            forall|i: u32| (#[trigger] g@.pairs[i]) == Set::<RelationPair>::empty(),
            forall|key: (u32, u32)| (#[trigger] g@.siblings[key]).len() == 0,
            forall|t: u32| #[trigger] g.fan_in(t) == 0,
    {
        RelationGraph {
            registry: RelationRegistry::new(),
            subject_index: SubjectIndex::new(),
            target_index: TargetIndex::new(),
            hook_queue: Vec::new(),
        }
    }

    /// The registered kinds.
    pub fn registry(&self) -> (r: &RelationRegistry)
        requires
            self.wf(),
        ensures
            r.wf(),
            r@ == self@.kinds,
    {
        &self.registry
    }

    /// Index of kind `R`, which is registered if it was not.
    pub fn get_or_register<R: RelationKind>(&mut self) -> (idx: u32)
        requires
            old(self).wf(),
            old(self)@.kinds.len() < u32::MAX,
        ensures
            final(self).wf(),
            final(self)@ == with_registered(old(self)@, kind_of::<R>()),
            idx == index_with_kind(old(self)@.kinds, kind_of::<R>()),
            idx < final(self)@.kinds.len(),
            forall|t: u32| #[trigger] final(self).fan_in(t) == old(self).fan_in(t),
    {
        self.registry.get_or_register::<R>()
    }

    /// Index of a kind, which is registered if it was not.
    pub fn register_kind(&mut self, kind: Kind) -> (idx: u32)
        requires
            old(self).wf(),
            old(self)@.kinds.len() < u32::MAX,
        ensures
            final(self).wf(),
            final(self)@ == with_registered(old(self)@, kind@),
            idx == index_with_kind(old(self)@.kinds, kind@),
            idx < final(self)@.kinds.len(),
            forall|t: u32| #[trigger] final(self).fan_in(t) == old(self).fan_in(t),
    {
        self.registry.register(kind)
    }

    /// Index of the kind with the given key, if it is registered.
    pub fn kind_idx_by_key(&self, key: u64) -> (idx: Option<u32>)
        requires
            self.wf(),
        ensures
            idx == kind_index(self@.kinds, key),
            idx matches Some(i) ==> i < self@.kinds.len(),
    {
        self.registry.get_idx_by_key(key)
    }

    /// Index of kind `R`, if it is registered.
    pub fn relation_kind_idx<R: RelationKind>(&self) -> (idx: Option<u32>)
        requires
            self.wf(),
        ensures
            idx == kind_index(self@.kinds, R::spec_kind_key()),
    {
        self.registry.get_idx::<R>()
    }

    /// Sets the hook that runs after a relation of the kind was added.
    pub fn set_on_add(&mut self, kind_idx: u32, hook: u64)
        requires
            old(self).wf(),
            kind_idx < old(self)@.kinds.len(),
            old(self)@.kinds[kind_idx as int].on_add is None,
        ensures
            final(self).wf(),
            final(self)@ == (GraphState {
                kinds: old(self)@.kinds.update(
                    kind_idx as int,
                    (KindInfo { on_add: Some(hook), ..old(self)@.kinds[kind_idx as int] }),
                ),
                ..old(self)@
            }),
            forall|t: u32| #[trigger] final(self).fan_in(t) == old(self).fan_in(t),
    {
        self.registry.set_on_add(kind_idx, hook);
    }

    /// Sets the hook that runs after a relation of the kind was removed.
    pub fn set_on_remove(&mut self, kind_idx: u32, hook: u64)
        requires
            old(self).wf(),
            kind_idx < old(self)@.kinds.len(),
            old(self)@.kinds[kind_idx as int].on_remove is None,
        ensures
            final(self).wf(),
            final(self)@ == (GraphState {
                kinds: old(self)@.kinds.update(
                    kind_idx as int,
                    (KindInfo { on_remove: Some(hook), ..old(self)@.kinds[kind_idx as int] }),
                ),
                ..old(self)@
            }),
            forall|t: u32| #[trigger] final(self).fan_in(t) == old(self).fan_in(t),
    {
        self.registry.set_on_remove(kind_idx, hook);
    }

    /// Hook that runs after a relation of the kind was added.
    pub fn on_add_hook(&self, kind_idx: u32) -> (hook: Option<u64>)
        ensures
            hook == if kind_idx < self@.kinds.len() {
                self@.kinds[kind_idx as int].on_add
            } else {
                None
            },
    {
        self.registry.on_add_hook(kind_idx)
    }

    /// Hook that runs after a relation of the kind was removed.
    pub fn on_remove_hook(&self, kind_idx: u32) -> (hook: Option<u64>)
        ensures
            hook == if kind_idx < self@.kinds.len() {
                self@.kinds[kind_idx as int].on_remove
            } else {
                None
            },
    {
        self.registry.on_remove_hook(kind_idx)
    }

    /// Queues hooks behind those that are due.
    pub fn append_hooks(&mut self, events: Vec<HookEvent>)
        requires
            old(self).wf(),
        ensures
            final(self).wf(),
            final(self)@ == with_hooks(old(self)@, events@),
            forall|t: u32| #[trigger] final(self).fan_in(t) == old(self).fan_in(t),
    {
        let mut events: Vec<HookEvent> = events;
        self.hook_queue.append(&mut events);
    }

    /// Whether hooks are due.
    pub fn hooks_due(&self) -> (b: bool)
        ensures
            b == (self@.hooks.len() > 0),
    {
        self.hook_queue.len() > 0
    }

    /// Takes the hooks that are due, first come first.
    pub fn take_hooks(&mut self) -> (out: Vec<HookEvent>)
        requires
            old(self).wf(),
        ensures
            final(self).wf(),
            out@ == old(self)@.hooks,
            final(self)@ == (GraphState { hooks: Seq::<HookEvent>::empty(), ..old(self)@ }),
            forall|t: u32| #[trigger] final(self).fan_in(t) == old(self).fan_in(t),
    {
        let mut out: Vec<HookEvent> = Vec::new();
        out.append(&mut self.hook_queue);
        assert(out@ =~= old(self)@.hooks);
        assert(self@.hooks =~= Seq::<HookEvent>::empty());
        out
    }

    /// Whether the ancestors of `target` forbid that `subject` points at it.
    fn ancestors_block(&self, subject: Entity, kind_idx: u32, target: Entity) -> (b: bool)
        requires
            self.wf(),
        ensures
            b == walk_blocks(
                self@.pairs,
                kind_idx,
                target.index,
                subject.index,
                MAX_ANCESTOR_WALK as nat,
            ),
    {
        let goal: u32 = subject.index;
        let mut level: Vec<u32> = Vec::new();
        level.push(target.index);
        let mut depth: usize = 0;
        proof {
            let s = self@.pairs;
            let here = target.index;
            assert forall|j: u32| #[trigger] level@.contains(j) <==> is_ancestor(
                s,
                kind_idx,
                here,
                j,
                0,
            ) by {
                assert(level@[0] == here);
                if j == here {
                    assert(leads(s, kind_idx, here, here, 0, seq![here]));
                }
            }
        }
        loop
            invariant
                self.wf(),
                goal == subject.index,
                depth <= MAX_ANCESTOR_WALK,
                forall|j: u32| #[trigger]
                    level@.contains(j) <==> is_ancestor(
                        self@.pairs,
                        kind_idx,
                        target.index,
                        j,
                        depth as nat,
                    ),
                forall|n: nat|
                    0 < n <= depth ==> !#[trigger] is_ancestor(
                        self@.pairs,
                        kind_idx,
                        target.index,
                        goal,
                        n,
                    ),
            decreases MAX_ANCESTOR_WALK - depth,
        {
            let next: Vec<u32> = self.parents_of(level.as_slice(), kind_idx);
            let ghost n = (depth + 1) as nat;
            proof {
                let s = self@.pairs;
                let here = target.index;
                assert forall|j: u32| #[trigger] next@.contains(j) <==> is_ancestor(
                    s,
                    kind_idx,
                    here,
                    j,
                    n,
                ) by {
                    if next@.contains(j) {
                        let i = choose|i: u32| #[trigger]
                            level@.contains(i) && steps_to(s, kind_idx, i, j);
                        lemma_ancestor_step(s, kind_idx, here, i, j, depth as nat);
                    }
                    if is_ancestor(s, kind_idx, here, j, n) {
                        let i = lemma_ancestor_last(s, kind_idx, here, j, n);
                        assert(level@.contains(i));
                    }
                }
            }
            if next.len() == 0 {
                proof {
                    let s = self@.pairs;
                    let here = target.index;
                    assert forall|m: nat, j: u32| m >= n implies !#[trigger] is_ancestor(
                        s,
                        kind_idx,
                        here,
                        j,
                        m,
                    ) by {
                        if is_ancestor(s, kind_idx, here, j, m) {
                            let i = lemma_ancestor_before(s, kind_idx, here, j, m, n);
                            assert(next@.contains(i));
                        }
                    }
                }
                return false;
            }
            if holds_index(next.as_slice(), goal) {
                return true;
            }
            if depth == MAX_ANCESTOR_WALK {
                assert(next@.contains(next@[0]));
                return true;
            }
            level = next;
            depth = depth + 1;
        }
    }

    /// The indexes of all targets of the kind that the subjects in `level` have, each once.
    fn parents_of(&self, level: &[u32], kind_idx: u32) -> (next: Vec<u32>)
        requires
            self.wf(),
        ensures
            forall|j: u32| #[trigger]
                next@.contains(j) <==> exists|i: u32| #[trigger]
                    level@.contains(i) && steps_to(self@.pairs, kind_idx, i, j),
    {
        let mut next: Vec<u32> = Vec::new();
        let mut known: HashSet<u32> = HashSet::new();
        let mut i: usize = 0;
        while i < level.len()
            invariant
                i <= level@.len(),
                self.wf(),
                forall|j: u32| #[trigger] known@.contains(j) <==> next@.contains(j),
                forall|j: u32| #[trigger]
                    next@.contains(j) <==> exists|a: int|
                        0 <= a < i && steps_to(self@.pairs, kind_idx, #[trigger] level@[a], j),
            decreases level.len() - i,
        {
            let ghost s = self@.pairs;
            let ghost from = level@[i as int];
            let ghost start = next@;
            let pairs: Vec<RelationPair> = self.subject_index.pairs(level[i]);
            let mut k: usize = 0;
            while k < pairs.len()
                invariant
                    k <= pairs@.len(),
                    forall|j: u32| #[trigger] known@.contains(j) <==> next@.contains(j),
                    forall|j: u32| #[trigger]
                        next@.contains(j) <==> start.contains(j) || exists|b: int|
                            0 <= b < k && (#[trigger] pairs@[b]).kind_idx == kind_idx
                                && pairs@[b].target.index == j,
                decreases pairs.len() - k,
            {
                let p: RelationPair = pairs[k];
                let ghost before = next@;
                let ghost knew = known@;
                if p.kind_idx == kind_idx {
                    let t: u32 = p.target.index;
                    if known.insert(t) {
                        next.push(t);
                        assert forall|j: u32| #[trigger] next@.contains(j) <==> before.contains(j) || j
                            == t by {
                            if before.contains(j) {
                                let c = choose|c: int| 0 <= c < before.len() && before[c] == j;
                                assert(next@[c] == j);
                            }
                            assert(next@[before.len() as int] == t);
                        }
                    }
                }
                proof {
                    assert forall|j: u32| #[trigger] known@.contains(j) <==> next@.contains(j) by {
                        assert(knew.contains(j) <==> before.contains(j));
                    }
                    assert forall|j: u32| #[trigger] next@.contains(j) <==> start.contains(j)
                        || exists|b: int|
                        0 <= b < k + 1 && (#[trigger] pairs@[b]).kind_idx == kind_idx
                            && pairs@[b].target.index == j by {
                        assert(before.contains(j) <==> start.contains(j) || exists|b: int|
                            0 <= b < k && (#[trigger] pairs@[b]).kind_idx == kind_idx
                                && pairs@[b].target.index == j);
                        assert(knew.contains(j) <==> before.contains(j));
                        if p.kind_idx == kind_idx && p.target.index == j {
                            assert(pairs@[k as int] == p);
                        }
                    }
                }
                k = k + 1;
            }
            proof {
                assert forall|j: u32| #[trigger] next@.contains(j) <==> exists|a: int|
                    0 <= a < i + 1 && steps_to(s, kind_idx, #[trigger] level@[a], j) by {
                    if start.contains(j) {
                        let a = choose|a: int|
                            0 <= a < i && steps_to(s, kind_idx, #[trigger] level@[a], j);
                        assert(a < i + 1);
                    }
                    if exists|b: int|
                        0 <= b < pairs@.len() && (#[trigger] pairs@[b]).kind_idx == kind_idx
                            && pairs@[b].target.index == j {
                        let b = choose|b: int|
                            0 <= b < pairs@.len() && (#[trigger] pairs@[b]).kind_idx == kind_idx
                                && pairs@[b].target.index == j;
                        assert(pairs@.contains(pairs@[b]));
                        assert(s[from].contains(pairs@[b]));
                        assert(steps_to(s, kind_idx, level@[i as int], j));
                    }
                    if exists|a: int|
                        0 <= a < i + 1 && steps_to(s, kind_idx, #[trigger] level@[a], j) {
                        let a = choose|a: int|
                            0 <= a < i + 1 && steps_to(s, kind_idx, #[trigger] level@[a], j);
                        if a < i {
                            assert(start.contains(j));
                        } else {
                            let p = choose|p: RelationPair| #[trigger]
                                s[from].contains(p) && p.kind_idx == kind_idx && p.target.index
                                    == j;
                            assert(pairs@.contains(p));
                            let b = choose|b: int| 0 <= b < pairs@.len() && pairs@[b] == p;
                            assert(pairs@[b].kind_idx == kind_idx);
                        }
                    }
                }
            }
            i = i + 1;
        }
        proof {
            let s = self@.pairs;
            assert forall|j: u32| #[trigger] next@.contains(j) <==> exists|i: u32| #[trigger]
                level@.contains(i) && steps_to(s, kind_idx, i, j) by {
                if next@.contains(j) {
                    let a = choose|a: int|
                        0 <= a < level@.len() && steps_to(s, kind_idx, #[trigger] level@[a], j);
                    assert(level@.contains(level@[a]));
                }
                if exists|i: u32| #[trigger]
                    level@.contains(i) && steps_to(s, kind_idx, i, j) {
                    let i = choose|i: u32| #[trigger]
                        level@.contains(i) && steps_to(s, kind_idx, i, j);
                    let a = choose|a: int| 0 <= a < level@.len() && level@[a] == i;
                    assert(steps_to(s, kind_idx, level@[a], j));
                }
            }
        }
        next
    }

    /// Removes a relation, with its hook, and tells whether it was there.
    fn remove_edge(&mut self, subject: Entity, pair: RelationPair) -> (removed: bool)
        requires
            old(self).wf(),
        ensures
            final(self).wf(),
            removed == old(self)@.pairs[subject.index].contains(pair),
            final(self)@ == edge_removed(old(self)@, subject, pair),
            forall|t: u32| #[trigger] final(self).fan_in(t) <= old(self).fan_in(t),
    {
        if self.subject_index.remove(subject.index, pair) {
            let found: bool = self.target_index.remove(pair.kind_idx, pair.target.index, subject);
            if self.registry.has_remove_hook(pair.kind_idx) {
                self.hook_queue.push(
                    HookEvent::RelationRemoved {
                        kind_idx: pair.kind_idx,
                        subject,
                        target: pair.target,
                    },
                );
            }
            true
        } else {
            assert(self@.pairs =~= old(self)@.pairs) by {
                old(self).subject_index.lemma_total();
                self.subject_index.lemma_total();
                assert(old(self)@.pairs[subject.index].remove(pair) =~= old(
                    self,
                )@.pairs[subject.index]);
            }
            false
        }
    }

    /// Why a relation of a registered kind would be turned down, if it would.
    pub fn refusal(
        &self,
        entities: &EntityAllocator,
        subject: Entity,
        kind_idx: u32,
        target: Entity,
    ) -> (r: Option<Refusal>)
        requires
            self.wf(),
            entities.wf(),
            kind_idx < self@.kinds.len(),
        ensures
            r == refusal_of(self@, entities@, subject, kind_idx, target),
    {
        if !entities.is_alive(subject) || !entities.is_alive(target) {
            return Some(Refusal::Dead);
        }
        if subject.index == target.index {
            return Some(Refusal::Itself);
        }
        let hierarchy: bool = self.registry.is_exclusive(kind_idx) || self.registry.is_cascade(
            kind_idx,
        );
        if hierarchy && self.target_index.is_any_target(subject.index) && self.ancestors_block(
            subject,
            kind_idx,
            target,
        ) {
            return Some(Refusal::Cycle);
        }
        None
    }

    /// Adds a relation of a registered kind: at the end of the siblings, or at a position.
    pub fn add_relation_positioned(
        &mut self,
        entities: &EntityAllocator,
        subject: Entity,
        kind_idx: u32,
        target: Entity,
        position: Option<usize>,
    )
        requires
            old(self).wf(),
            entities.wf(),
            kind_idx < old(self)@.kinds.len(),
            old(self).fan_in(target.index) < u32::MAX,
        ensures
            final(self).wf(),
            final(self)@ == after_add(
                old(self)@,
                entities@,
                subject,
                kind_idx,
                target,
                position,
            ),
            forall|t: u32| #[trigger]
                final(self).fan_in(t) <= old(self).fan_in(t) + if t == target.index {
                    1nat
                } else {
                    0nat
                },
    {
        if self.refusal(entities, subject, kind_idx, target).is_some() {
            return;
        }
        if self.registry.is_exclusive(kind_idx) {
            if let Some(old_pair) = self.subject_index.first_with_kind(subject.index, kind_idx) {
                if old_pair.target == target {
                    return;
                }
                let removed: bool = self.remove_edge(subject, old_pair);
            }
        }
        let pair: RelationPair = RelationPair { kind_idx, target };
        let ghost mid = *self;
        assert(mid.fan_in(target.index) <= old(self).fan_in(target.index));
        if self.subject_index.insert(subject.index, pair) {
            match position {
                None => {
                    self.target_index.add(kind_idx, target, subject);
                },
                Some(i) => {
                    self.target_index.add_at(kind_idx, target, subject, i);
                },
            }
            if self.registry.on_add_hook(kind_idx).is_some() {
                self.hook_queue.push(HookEvent::RelationAdded { kind_idx, subject, target });
            }
        } else {
            proof {
                mid.subject_index.lemma_total();
                assert(mid@.pairs[subject.index].insert(pair) =~= mid@.pairs[subject.index]);
                assert(self@.pairs =~= mid@.pairs);
            }
        }
        assert forall|t: u32| #[trigger]
            self.fan_in(t) <= old(self).fan_in(t) + if t == target.index {
                1nat
            } else {
                0nat
            } by {
            assert(mid.fan_in(t) <= old(self).fan_in(t));
        }
    }

    /// Adds a relation at the end of the siblings.
    pub fn add_relation_by_kind_idx(
        &mut self,
        entities: &EntityAllocator,
        subject: Entity,
        kind_idx: u32,
        target: Entity,
    )
        requires
            old(self).wf(),
            entities.wf(),
            kind_idx < old(self)@.kinds.len(),
            old(self).fan_in(target.index) < u32::MAX,
        ensures
            final(self).wf(),
            final(self)@ == after_add(old(self)@, entities@, subject, kind_idx, target, None),
            forall|t: u32| #[trigger]
                final(self).fan_in(t) <= old(self).fan_in(t) + if t == target.index {
                    1nat
                } else {
                    0nat
                },
    {
        self.add_relation_positioned(entities, subject, kind_idx, target, None);
    }

    /// Adds a relation of kind `R` at the end of the siblings.
    pub fn add_relation<R: RelationKind>(
        &mut self,
        entities: &EntityAllocator,
        subject: Entity,
        kind: R,
        target: Entity,
    )
        requires
            old(self).wf(),
            entities.wf(),
            old(self)@.kinds.len() < u32::MAX,
            old(self).fan_in(target.index) < u32::MAX,
        ensures
            final(self).wf(),
            final(self)@ == after_add(
                with_registered(old(self)@, kind_of::<R>()),
                entities@,
                subject,
                index_with_kind(old(self)@.kinds, kind_of::<R>()),
                target,
                None,
            ),
            forall|t: u32| #[trigger]
                final(self).fan_in(t) <= old(self).fan_in(t) + if t == target.index {
                    1nat
                } else {
                    0nat
                },
    {
        let kind_idx: u32 = self.get_or_register::<R>();
        let ghost mid = *self;
        assert(mid.fan_in(target.index) == old(self).fan_in(target.index));
        self.add_relation_by_kind_idx(entities, subject, kind_idx, target);
        assert forall|t: u32| #[trigger]
            self.fan_in(t) <= old(self).fan_in(t) + if t == target.index {
                1nat
            } else {
                0nat
            } by {
            assert(mid.fan_in(t) == old(self).fan_in(t));
        }
    }

    /// Removes a relation. Nothing happens where it does not exist.
    pub fn remove_relation<R: RelationKind>(&mut self, subject: Entity, kind: R, target: Entity)
        requires
            old(self).wf(),
        ensures
            final(self).wf(),
            final(self)@ == match kind_index(old(self)@.kinds, R::spec_kind_key()) {
                Some(kind_idx) => edge_removed(
                    old(self)@,
                    subject,
                    (RelationPair { kind_idx, target }),
                ),
                None => old(self)@,
            },
            forall|t: u32| #[trigger] final(self).fan_in(t) <= old(self).fan_in(t),
    {
        if let Some(kind_idx) = self.registry.get_idx::<R>() {
            let removed: bool = self.remove_edge(subject, RelationPair { kind_idx, target });
        }
    }

    /// Removes a relation of the kind with the given index.
    pub fn remove_relation_by_kind_idx(&mut self, subject: Entity, kind_idx: u32, target: Entity)
        requires
            old(self).wf(),
        ensures
            final(self).wf(),
            final(self)@ == edge_removed(
                old(self)@,
                subject,
                (RelationPair { kind_idx, target }),
            ),
            forall|t: u32| #[trigger] final(self).fan_in(t) <= old(self).fan_in(t),
    {
        let removed: bool = self.remove_edge(subject, RelationPair { kind_idx, target });
    }

    /// Sees to it that the relation exists at `index` of the siblings, or at the end where there
    /// are fewer: an existing relation only moves.
    pub fn insert_relation_at<R: RelationKind>(
        &mut self,
        entities: &EntityAllocator,
        subject: Entity,
        kind: R,
        target: Entity,
        index: usize,
    )
        requires
            old(self).wf(),
            entities.wf(),
            old(self)@.kinds.len() < u32::MAX,
            old(self).fan_in(target.index) < u32::MAX,
        ensures
            final(self).wf(),
            final(self)@ == ({
                let s = with_registered(old(self)@, kind_of::<R>());
                let kind_idx = index_with_kind(old(self)@.kinds, kind_of::<R>());
                if related(s, entities@, subject, kind_idx, target) {
                    sibling_moved(s, kind_idx, target.index, subject, index as nat)
                } else {
                    after_add(s, entities@, subject, kind_idx, target, Some(index))
                }
            }),
            forall|t: u32| #[trigger]
                final(self).fan_in(t) <= old(self).fan_in(t) + if t == target.index {
                    1nat
                } else {
                    0nat
                },
    {
        let kind_idx: u32 = self.get_or_register::<R>();
        let ghost mid = *self;
        assert(mid.fan_in(target.index) == old(self).fan_in(target.index));
        if entities.is_alive(subject) && entities.is_alive(target) && self.subject_index.has(
            subject.index,
            RelationPair { kind_idx, target },
        ) {
            let moved: bool = self.target_index.move_to(kind_idx, target.index, subject, index);
        } else {
            self.add_relation_positioned(entities, subject, kind_idx, target, Some(index));
        }
        assert forall|t: u32| #[trigger]
            self.fan_in(t) <= old(self).fan_in(t) + if t == target.index {
                1nat
            } else {
                0nat
            } by {
            assert(mid.fan_in(t) == old(self).fan_in(t));
        }
    }

    /// Moves an existing relation to `index` of the siblings, or to the end where there are
    /// fewer. False where the relation does not exist.
    pub fn set_relation_index<R: RelationKind>(
        &mut self,
        entities: &EntityAllocator,
        subject: Entity,
        kind: R,
        target: Entity,
        index: usize,
    ) -> (moved: bool)
        requires
            old(self).wf(),
            entities.wf(),
        ensures
            final(self).wf(),
            match kind_index(old(self)@.kinds, R::spec_kind_key()) {
                Some(kind_idx) => if related(old(self)@, entities@, subject, kind_idx, target) {
                    moved == old(self)@.siblings[(kind_idx, target.index)].contains(subject)
                        && final(self)@ == sibling_moved(
                        old(self)@,
                        kind_idx,
                        target.index,
                        subject,
                        index as nat,
                    )
                } else {
                    !moved && final(self)@ == old(self)@
                },
                None => !moved && final(self)@ == old(self)@,
            },
            forall|t: u32| #[trigger] final(self).fan_in(t) == old(self).fan_in(t),
    {
        if !entities.is_alive(subject) || !entities.is_alive(target) {
            return false;
        }
        match self.registry.get_idx::<R>() {
            None => false,
            Some(kind_idx) => {
                if !self.subject_index.has(subject.index, RelationPair { kind_idx, target }) {
                    return false;
                }
                self.target_index.move_to(kind_idx, target.index, subject, index)
            },
        }
    }

    /// Place of the subject among its siblings. `None` where the relation does not exist.
    pub fn relation_index<R: RelationKind>(
        &self,
        entities: &EntityAllocator,
        subject: Entity,
        kind: R,
        target: Entity,
    ) -> (pos: Option<usize>)
        requires
            self.wf(),
            entities.wf(),
        ensures
            match kind_index(self@.kinds, R::spec_kind_key()) {
                Some(kind_idx) => {
                    let list = self@.siblings[(kind_idx, target.index)];
                    &&& pos is Some <==> related(self@, entities@, subject, kind_idx, target)
                        && list.contains(subject)
                    &&& pos matches Some(i) ==> i == place_of(list, subject)
                },
                None => pos is None,
            },
    {
        if !entities.is_alive(subject) || !entities.is_alive(target) {
            return None;
        }
        match self.registry.get_idx::<R>() {
            None => None,
            Some(kind_idx) => {
                if !self.subject_index.has(subject.index, RelationPair { kind_idx, target }) {
                    return None;
                }
                self.target_index.position(kind_idx, target.index, subject)
            },
        }
    }

    /// Whether a live subject has the relation.
    pub fn has_relation<R: RelationKind>(
        &self,
        entities: &EntityAllocator,
        subject: Entity,
        kind: R,
        target: Entity,
    ) -> (b: bool)
        requires
            self.wf(),
            entities.wf(),
        ensures
            b == (alive(entities@, subject) && match kind_index(self@.kinds, R::spec_kind_key()) {
                Some(kind_idx) => self@.pairs[subject.index].contains(
                    RelationPair { kind_idx, target },
                ),
                None => false,
            }),
    {
        if !entities.is_alive(subject) {
            return false;
        }
        match self.registry.get_idx::<R>() {
            None => false,
            Some(kind_idx) => self.subject_index.has(
                subject.index,
                RelationPair { kind_idx, target },
            ),
        }
    }

    /// Whether a live subject has a relation of the kind: to `target`, or to any where that is
    /// `None`.
    pub fn subject_has_relation_idx(
        &self,
        entities: &EntityAllocator,
        subject: Entity,
        kind_idx: u32,
        target: Option<Entity>,
    ) -> (b: bool)
        requires
            self.wf(),
            entities.wf(),
        ensures
            b == has_relation_to(self@, entities@, subject, kind_idx, target),
    {
        if !entities.is_alive(subject) {
            return false;
        }
        match target {
            Some(t) => self.subject_index.has(
                subject.index,
                RelationPair { kind_idx, target: t },
            ),
            None => self.subject_index.first_with_kind(subject.index, kind_idx).is_some(),
        }
    }

    /// The subjects that point at a live `parent`, in sibling order.
    pub fn targets_of<R: RelationKind>(
        &self,
        entities: &EntityAllocator,
        kind: R,
        parent: Entity,
    ) -> (out: Vec<Entity>)
        requires
            self.wf(),
            entities.wf(),
        ensures
            out@ == match kind_index(self@.kinds, R::spec_kind_key()) {
                Some(kind_idx) => if alive(entities@, parent) {
                    self@.siblings[(kind_idx, parent.index)]
                } else {
                    Seq::<Entity>::empty()
                },
                None => Seq::<Entity>::empty(),
            },
    {
        match self.registry.get_idx::<R>() {
            Some(kind_idx) => {
                if entities.is_alive(parent) {
                    copied(self.target_index.subjects(kind_idx, parent.index))
                } else {
                    Vec::new()
                }
            },
            None => Vec::new(),
        }
    }

    /// Every relation as subject index, kind and target: by subject, and then in ascending order
    /// of kind and target.
    pub fn iter_relations(&self) -> (out: Vec<(u32, u32, Entity)>)
        requires
            self.wf(),
        ensures
            forall|a: int, b: int|
                0 <= a < b < out@.len() ==> listed_before(
                    as_listed(#[trigger] out@[a]),
                    as_listed(#[trigger] out@[b]),
                ),
            forall|i: u32, k: u32, t: Entity| #[trigger]
                out@.contains((i, k, t)) <==> self@.pairs[i].contains(
                    RelationPair { kind_idx: k, target: t },
                ),
    {
        let rows: Vec<(u32, RelationPair)> = self.subject_index.iter_all();
        let mut out: Vec<(u32, u32, Entity)> = Vec::new();
        let mut n: usize = 0;
        while n < rows.len()
            invariant
                n <= rows@.len(),
                out@.len() == n,
                forall|a: int| 0 <= a < n ==> as_listed(#[trigger] out@[a]) == rows@[a],
            decreases rows.len() - n,
        {
            let row: (u32, RelationPair) = rows[n];
            out.push((row.0, row.1.kind_idx, row.1.target));
            n = n + 1;
        }
        proof {
            assert forall|a: int, b: int| 0 <= a < b < out@.len() implies listed_before(
                as_listed(#[trigger] out@[a]),
                as_listed(#[trigger] out@[b]),
            ) by {
                assert(listed_before(rows@[a], rows@[b]));
            }
            assert forall|i: u32, k: u32, t: Entity| #[trigger]
                out@.contains((i, k, t)) <==> self@.pairs[i].contains(
                    RelationPair { kind_idx: k, target: t },
                ) by {
                let p = RelationPair { kind_idx: k, target: t };
                assert(rows@.contains((i, p)) <==> self@.pairs[i].contains(p));
                if rows@.contains((i, p)) {
                    let a = choose|a: int| 0 <= a < rows@.len() && rows@[a] == (i, p);
                    assert(as_listed(out@[a]) == rows@[a]);
                    assert(out@[a] == (i, k, t));
                }
                if out@.contains((i, k, t)) {
                    let a = choose|a: int| 0 <= a < out@.len() && out@[a] == (i, k, t);
                    assert(as_listed(out@[a]) == rows@[a]);
                    assert(rows@[a] == (i, p));
                }
            }
        }
        out
    }

    /// Every relation as subject, kind and target index: by kind, then by target index, then in
    /// sibling order. Adding the relations of this list one after the other to an empty graph
    /// gives the same sibling order.
    pub fn iter_relations_target_major(&self) -> (out: Vec<(Entity, u32, u32)>)
        requires
            self.wf(),
        ensures
            exists|targets: Seq<Seq<u32>>| #[trigger]
                lists_all_targets(self@.siblings, self@.kinds.len(), targets) && out@
                    == kind_rows(self@.siblings, targets),
    {
        let mut out: Vec<(Entity, u32, u32)> = Vec::new();
        let kinds: u32 = self.registry.kind_count() as u32;
        let ghost mut all: Seq<Seq<u32>> = Seq::empty();
        let mut k: u32 = 0;
        proof {
            self.lemma_wf();
        }
        while k < kinds
            invariant
                k <= kinds == self@.kinds.len(),
                self.wf(),
                all.len() == k,
                lists_all_targets(self@.siblings, k as nat, all),
                out@ == kind_rows(self@.siblings, all),
            decreases kinds - k,
        {
            let targets: Vec<u32> = self.target_index.targets_sorted(k);
            let ghost head = out@;
            let mut n: usize = 0;
            assert(targets@.subrange(0, 0) =~= Seq::<u32>::empty());
            assert(head + target_rows(self@.siblings, k, Seq::<u32>::empty()) =~= head);
            while n < targets.len()
                invariant
                    n <= targets@.len(),
                    self.wf(),
                    out@ == head + target_rows(
                        self@.siblings,
                        k,
                        targets@.subrange(0, n as int),
                    ),
                decreases targets.len() - n,
            {
                let t: u32 = targets[n];
                let subjects: &[Entity] = self.target_index.subjects(k, t);
                let ghost part = out@;
                let mut j: usize = 0;
                assert(part + rows_of(k, t, subjects@.subrange(0, 0)) =~= part);
                while j < subjects.len()
                    invariant
                        j <= subjects@.len(),
                        out@ == part + rows_of(k, t, subjects@.subrange(0, j as int)),
                    decreases subjects.len() - j,
                {
                    out.push((subjects[j], k, t));
                    j = j + 1;
                    assert(out@ =~= part + rows_of(k, t, subjects@.subrange(0, j as int)));
                }
                n = n + 1;
                proof {
                    assert(subjects@.subrange(0, subjects@.len() as int) =~= subjects@);
                    let done = targets@.subrange(0, n as int);
                    assert(done.drop_last() =~= targets@.subrange(0, n - 1));
                    assert(out@ =~= head + target_rows(self@.siblings, k, done));
                }
            }
            proof {
                assert(targets@.subrange(0, targets@.len() as int) =~= targets@);
                let before = all;
                all = all.push(targets@);
                assert(all.drop_last() =~= before);
                assert(lists_targets(self@.siblings, k, targets@));
                assert forall|i: int| 0 <= i < all.len() implies lists_targets(
                    self@.siblings,
                    i as u32,
                    #[trigger] all[i],
                ) by {
                    if i < k {
                        assert(all[i] == before[i]);
                    }
                }
            }
            k = k + 1;
        }
        out
    }

    /// Target of the subject's first relation of the kind.
    pub fn target_of<R: RelationKind>(
        &self,
        entities: &EntityAllocator,
        subject: Entity,
        kind: R,
    ) -> (target: Option<Entity>)
        requires
            self.wf(),
            entities.wf(),
        ensures
            target == match kind_index(self@.kinds, R::spec_kind_key()) {
                Some(kind_idx) => if alive(entities@, subject) {
                    match first_pair(self@.pairs[subject.index], kind_idx) {
                        Some(p) => Some(p.target),
                        None => None,
                    }
                } else {
                    None
                },
                None => None,
            },
    {
        if !entities.is_alive(subject) {
            return None;
        }
        match self.registry.get_idx::<R>() {
            None => None,
            Some(kind_idx) => match self.subject_index.first_with_kind(subject.index, kind_idx) {
                Some(p) => Some(p.target),
                None => None,
            },
        }
    }
}

/// A row of a listing with the kind and target as a pair.
pub open spec fn as_listed(row: (u32, u32, Entity)) -> (u32, RelationPair) {
    (row.0, RelationPair { kind_idx: row.1, target: row.2 })
}

/// Whether `targets[k]` are the targets of kind `k`, in ascending order, for the first `kinds`
/// kinds.
pub open spec fn lists_all_targets(
    m: Map<(u32, u32), Seq<Entity>>,
    kinds: nat,
    targets: Seq<Seq<u32>>,
) -> bool {
    &&& targets.len() == kinds
    &&& forall|k: int| 0 <= k < kinds ==> lists_targets(m, k as u32, #[trigger] targets[k])
}

/// The rows of one kind and target.
pub open spec fn rows_of(kind_idx: u32, target: u32, subjects: Seq<Entity>) -> Seq<
    (Entity, u32, u32),
> {
    subjects.map_values(|e: Entity| (e, kind_idx, target))
}

/// The rows of one kind, target after target.
pub open spec fn target_rows(
    m: Map<(u32, u32), Seq<Entity>>,
    kind_idx: u32,
    targets: Seq<u32>,
) -> Seq<(Entity, u32, u32)>
    decreases targets.len(),
{
    if targets.len() == 0 {
        Seq::empty()
    } else {
        target_rows(m, kind_idx, targets.drop_last()) + rows_of(
            kind_idx,
            targets.last(),
            m[(kind_idx, targets.last())],
        )
    }
}

/// The rows of all kinds, kind after kind.
pub open spec fn kind_rows(m: Map<(u32, u32), Seq<Entity>>, targets: Seq<Seq<u32>>) -> Seq<
    (Entity, u32, u32),
>
    decreases targets.len(),
{
    if targets.len() == 0 {
        Seq::empty()
    } else {
        kind_rows(m, targets.drop_last()) + target_rows(
            m,
            (targets.len() - 1) as u32,
            targets.last(),
        )
    }
}

/// Whether a live subject has a relation of the kind: to `target`, or to any where that is
/// `None`.
pub open spec fn has_relation_to(
    s: GraphState,
    entities: AllocState,
    subject: Entity,
    kind_idx: u32,
    target: Option<Entity>,
) -> bool {
    alive(entities, subject) && match target {
        Some(t) => s.pairs[subject.index].contains(RelationPair { kind_idx, target: t }),
        None => has_pair_of_kind(s.pairs[subject.index], kind_idx),
    }
}

/// The current handle of slot `i`.
pub open spec fn current(entities: AllocState, i: u32) -> Entity {
    Entity { index: i, generation: entities.generations[i as int] }
}

/// Whether slot `i` holds a live entity.
pub open spec fn live_slot(entities: AllocState, i: u32) -> bool {
    i < entities.generations.len() && entities.locations[i as int] is Some
}

/// Whether the relations of each subject show in the sibling lists of their targets.
pub open spec fn pairs_listed(s: GraphState, entities: AllocState) -> bool {
    forall|i: u32, p: RelationPair| #[trigger]
        s.pairs[i].contains(p) ==> {
            &&& live_slot(entities, i)
            &&& alive(entities, p.target)
            &&& p.target.index != i
            &&& p.kind_idx < s.kinds.len()
            &&& s.siblings[(p.kind_idx, p.target.index)].contains(current(entities, i))
        }
}

/// Whether the subjects in each sibling list have the relation.
pub open spec fn lists_paired(s: GraphState, entities: AllocState) -> bool {
    forall|key: (u32, u32), e: Entity| #[trigger]
        s.siblings[key].contains(e) ==> alive(entities, e) && s.pairs[e.index].contains(
            RelationPair { kind_idx: key.0, target: current(entities, key.1) },
        )
}

/// Whether no subject is among its siblings twice.
pub open spec fn lists_distinct(s: GraphState) -> bool {
    forall|key: (u32, u32)| (#[trigger] s.siblings[key]).no_duplicates()
}

/// The two indexes agree with each other and with the live entities.
pub open spec fn consistent(s: GraphState, entities: AllocState) -> bool {
    pairs_listed(s, entities) && lists_paired(s, entities) && lists_distinct(s)
}

/// The relations of `set` that do not point at `e`.
pub open spec fn not_at(set: Set<RelationPair>, e: Entity) -> Set<RelationPair> {
    Set::new(|p: RelationPair| set.contains(p) && p.target != e)
}

/// The subjects that go with `e`: those of the first `kinds` kinds that cascade.
pub open spec fn cascade_children(s: GraphState, e: Entity, kinds: nat) -> Seq<Entity>
    decreases kinds,
{
    if kinds == 0 {
        Seq::empty()
    } else {
        let head = cascade_children(s, e, (kinds - 1) as nat);
        if s.kinds[kinds - 1].cascade {
            head + s.siblings[((kinds - 1) as u32, e.index)]
        } else {
            head
        }
    }
}

/// Hooks that are due when the subjects of one kind lose their target `e`.
pub open spec fn lost_target(kind: KindInfo, kind_idx: u32, subjects: Seq<Entity>, e: Entity) -> Seq<
    HookEvent,
> {
    if kind.on_remove is Some {
        subjects.map_values(
            |subject: Entity| HookEvent::RelationRemoved { kind_idx, subject, target: e },
        )
    } else {
        Seq::empty()
    }
}

/// Hooks that are due when `e` goes as a target of the first `kinds` kinds.
pub open spec fn target_hooks(s: GraphState, e: Entity, kinds: nat) -> Seq<HookEvent>
    decreases kinds,
{
    if kinds == 0 {
        Seq::empty()
    } else {
        let k = (kinds - 1) as u32;
        target_hooks(s, e, (kinds - 1) as nat) + lost_target(
            s.kinds[kinds - 1],
            k,
            s.siblings[(k, e.index)],
            e,
        )
    }
}

/// Hooks that are due when `e` loses the relations `list`.
pub open spec fn subject_hooks(s: GraphState, e: Entity, list: Seq<RelationPair>) -> Seq<HookEvent>
    decreases list.len(),
{
    if list.len() == 0 {
        Seq::empty()
    } else {
        let head = subject_hooks(s, e, list.drop_last());
        let p = list.last();
        if p.kind_idx < s.kinds.len() && s.kinds[p.kind_idx as int].on_remove is Some {
            head.push(
                HookEvent::RelationRemoved { kind_idx: p.kind_idx, subject: e, target: p.target },
            )
        } else {
            head
        }
    }
}

/// Whether `t` is `s` after every relation of `e`, as subject and as target, was cleared.
pub open spec fn detached(s: GraphState, e: Entity, t: GraphState) -> bool {
    &&& t.kinds == s.kinds
    &&& forall|i: u32|
        (#[trigger] t.pairs[i]) == if i == e.index {
            Set::<RelationPair>::empty()
        } else {
            not_at(s.pairs[i], e)
        }
    &&& forall|key: (u32, u32)|
        (#[trigger] t.siblings[key]) == if key.1 == e.index {
            Seq::<Entity>::empty()
        } else {
            dropped(s.siblings[key], e)
        }
    &&& t.hooks == s.hooks + target_hooks(s, e, s.kinds.len()) + subject_hooks(
        s,
        e,
        listing(s.pairs[e.index]),
    )
}

/// Whether the relations of a set can be listed: there are finitely many.
pub open spec fn listable(set: Set<RelationPair>) -> bool {
    exists|list: Seq<RelationPair>| lists(list, set)
}

/// The relations of a set in ascending order of their keys.
pub open spec fn listing(set: Set<RelationPair>) -> Seq<RelationPair> {
    choose|list: Seq<RelationPair>| lists(list, set)
}

proof fn lemma_listing_unique(a: Seq<RelationPair>, b: Seq<RelationPair>, set: Set<RelationPair>)
    requires
        lists(a, set),
        lists(b, set),
    ensures
        a == b,
    decreases a.len(),
{
    let ka = a.map_values(|p: RelationPair| p.spec_sort_key());
    let kb = b.map_values(|p: RelationPair| p.spec_sort_key());
    if a.len() == 0 {
        if b.len() > 0 {
            assert(b.contains(b[0]));
            assert(set.contains(b[0]));
            assert(a.contains(b[0]));
        }
        assert(a =~= b);
    } else {
        assert(a.contains(a.last()));
        assert(set.contains(a.last()));
        assert(b.contains(a.last()));
        let i = choose|i: int| 0 <= i < b.len() && b[i] == a.last();
        assert(b.contains(b.last()));
        assert(set.contains(b.last()));
        assert(a.contains(b.last()));
        let j = choose|j: int| 0 <= j < a.len() && a[j] == b.last();
        assert(a.last() == b.last()) by {
            if j < a.len() - 1 && i < b.len() - 1 {
                assert(precedes(ka[j], ka[a.len() - 1]));
                assert(precedes(kb[i], kb[b.len() - 1]));
            }
        }
        let rest = set.remove(a.last());
        assert(lists(a.drop_last(), rest)) by {
            lemma_drop_last_lists(a, set);
        }
        assert(lists(b.drop_last(), rest)) by {
            lemma_drop_last_lists(b, set);
        }
        lemma_listing_unique(a.drop_last(), b.drop_last(), rest);
        assert(a =~= a.drop_last().push(a.last()));
        assert(b =~= b.drop_last().push(b.last()));
    }
}

pub proof fn lemma_drop_last_lists(a: Seq<RelationPair>, set: Set<RelationPair>)
    requires
        lists(a, set),
        a.len() > 0,
    ensures
        lists(a.drop_last(), set.remove(a.last())),
{
    let ka = a.map_values(|p: RelationPair| p.spec_sort_key());
    let d = a.drop_last();
    let kd = d.map_values(|p: RelationPair| p.spec_sort_key());
    assert forall|i: int, j: int| 0 <= i < j < kd.len() implies precedes(
        #[trigger] kd[i],
        #[trigger] kd[j],
    ) by {
        assert(precedes(ka[i], ka[j]));
    }
    assert forall|p: RelationPair| #[trigger] d.contains(p) <==> set.remove(a.last()).contains(
        p,
    ) by {
        if d.contains(p) {
            let i = choose|i: int| 0 <= i < d.len() && d[i] == p;
            assert(a[i] == p);
            assert(a.contains(p));
            assert(precedes(ka[i], ka[a.len() - 1]));
        }
        if set.contains(p) && p != a.last() {
            assert(a.contains(p));
            let i = choose|i: int| 0 <= i < a.len() && a[i] == p;
            assert(d[i] == p);
        }
    }
}

/// The relations after the first `n` of `subjects` lost `pair`.
pub open spec fn pairs_lost(
    pairs: Map<u32, Set<RelationPair>>,
    subjects: Seq<Entity>,
    pair: RelationPair,
    n: nat,
) -> Map<u32, Set<RelationPair>>
    decreases n,
{
    if n == 0 {
        pairs
    } else {
        let m = pairs_lost(pairs, subjects, pair, (n - 1) as nat);
        let i = subjects[n - 1].index;
        m.insert(i, m[i].remove(pair))
    }
}

/// The state after `e` was cleared as a target of the first `n` kinds.
pub open spec fn target_cleared(s: GraphState, e: Entity, n: nat) -> GraphState
    decreases n,
{
    if n == 0 {
        s
    } else {
        let m = target_cleared(s, e, (n - 1) as nat);
        let k = (n - 1) as u32;
        let list = m.siblings[(k, e.index)];
        GraphState {
            siblings: m.siblings.insert((k, e.index), Seq::<Entity>::empty()),
            pairs: pairs_lost(
                m.pairs,
                list,
                RelationPair { kind_idx: k, target: e },
                list.len(),
            ),
            hooks: m.hooks + lost_target(s.kinds[n - 1], k, list, e),
            ..m
        }
    }
}

/// The sibling lists after `e` left those of the first `n` relations of `list`.
pub open spec fn siblings_left(
    siblings: Map<(u32, u32), Seq<Entity>>,
    list: Seq<RelationPair>,
    e: Entity,
    n: nat,
) -> Map<(u32, u32), Seq<Entity>>
    decreases n,
{
    if n == 0 {
        siblings
    } else {
        let m = siblings_left(siblings, list, e, (n - 1) as nat);
        let key = (list[n - 1].kind_idx, list[n - 1].target.index);
        m.insert(key, dropped(m[key], e))
    }
}

/// The state after every relation of `e` was cleared: as a target kind by kind, then as a subject
/// relation by relation.
pub open spec fn after_detach(s: GraphState, e: Entity) -> GraphState {
    let h = target_cleared(s, e, s.kinds.len());
    let list = listing(h.pairs[e.index]);
    GraphState {
        pairs: h.pairs.insert(e.index, Set::<RelationPair>::empty()),
        siblings: siblings_left(h.siblings, list, e, list.len()),
        hooks: h.hooks + subject_hooks(s, e, list),
        ..h
    }
}

proof fn lemma_target_cleared(s: GraphState, e: Entity, n: nat)
    requires
        n <= s.kinds.len() <= u32::MAX,
        s.siblings.dom() == Set::<(u32, u32)>::full(),
        s.pairs.dom() == Set::<u32>::full(),
    ensures
        target_cleared(s, e, n).kinds == s.kinds,
        target_cleared(s, e, n).siblings.dom() == Set::<(u32, u32)>::full(),
        target_cleared(s, e, n).pairs.dom() == Set::<u32>::full(),
        target_cleared(s, e, n).hooks == s.hooks + target_hooks(s, e, n),
        forall|key: (u32, u32)|
            (#[trigger] target_cleared(s, e, n).siblings[key]) == if key.1 == e.index && key.0
                < n {
                Seq::<Entity>::empty()
            } else {
                s.siblings[key]
            },
    decreases n,
{
    if n > 0 {
        lemma_target_cleared(s, e, (n - 1) as nat);
        let m = target_cleared(s, e, (n - 1) as nat);
        let t = target_cleared(s, e, n);
        let k = (n - 1) as u32;
        let list = m.siblings[(k, e.index)];
        lemma_pairs_lost(m.pairs, list, RelationPair { kind_idx: k, target: e }, list.len());
        assert(t.siblings.dom() =~= Set::<(u32, u32)>::full());
        assert forall|key: (u32, u32)|
            (#[trigger] t.siblings[key]) == if key.1 == e.index && key.0 < n {
                Seq::<Entity>::empty()
            } else {
                s.siblings[key]
            } by {
            assert(m.siblings[key] == if key.1 == e.index && key.0 < n - 1 {
                Seq::<Entity>::empty()
            } else {
                s.siblings[key]
            });
        }
        assert(t.hooks =~= s.hooks + target_hooks(s, e, n));
    } else {
        assert(s.hooks + Seq::<HookEvent>::empty() =~= s.hooks);
    }
}

proof fn lemma_pairs_lost(
    pairs: Map<u32, Set<RelationPair>>,
    subjects: Seq<Entity>,
    pair: RelationPair,
    n: nat,
)
    requires
        n <= subjects.len(),
        pairs.dom() == Set::<u32>::full(),
    ensures
        pairs_lost(pairs, subjects, pair, n).dom() == Set::<u32>::full(),
        forall|i: u32, p: RelationPair| #[trigger]
            pairs_lost(pairs, subjects, pair, n)[i].contains(p) <==> pairs[i].contains(p) && !(p
                == pair && exists|j: int| 0 <= j < n && (#[trigger] subjects[j]).index == i),
    decreases n,
{
    if n > 0 {
        lemma_pairs_lost(pairs, subjects, pair, (n - 1) as nat);
        let m = pairs_lost(pairs, subjects, pair, (n - 1) as nat);
        let t = pairs_lost(pairs, subjects, pair, n);
        let x = subjects[n - 1].index;
        assert(t.dom() =~= Set::<u32>::full());
        assert forall|i: u32, p: RelationPair| #[trigger] t[i].contains(p) <==> pairs[i].contains(p)
            && !(p == pair && exists|j: int| 0 <= j < n && (#[trigger] subjects[j]).index == i) by {
            assert(m[i].contains(p) <==> pairs[i].contains(p) && !(p == pair && exists|j: int|
                0 <= j < n - 1 && (#[trigger] subjects[j]).index == i));
            if p == pair && i != x {
                if exists|j: int| 0 <= j < n && (#[trigger] subjects[j]).index == i {
                    let j = choose|j: int| 0 <= j < n && (#[trigger] subjects[j]).index == i;
                    assert(0 <= j < n - 1 && subjects[j].index == i);
                }
            }
            if i == x {
                assert(0 <= n - 1 < n && subjects[n - 1].index == i);
            }
        }
    }
}

proof fn lemma_siblings_left(
    siblings: Map<(u32, u32), Seq<Entity>>,
    list: Seq<RelationPair>,
    e: Entity,
    n: nat,
    entities: AllocState,
)
    requires
        n <= list.len(),
        siblings.dom() == Set::<(u32, u32)>::full(),
        list.no_duplicates(),
        forall|i: int|
            0 <= i < list.len() ==> (#[trigger] list[i]).target == current(
                entities,
                list[i].target.index,
            ),
    ensures
        siblings_left(siblings, list, e, n).dom() == Set::<(u32, u32)>::full(),
        forall|key: (u32, u32)|
            (#[trigger] siblings_left(siblings, list, e, n)[key]) == if list.subrange(
                0,
                n as int,
            ).contains(RelationPair { kind_idx: key.0, target: current(entities, key.1) }) {
                dropped(siblings[key], e)
            } else {
                siblings[key]
            },
    decreases n,
{
    if n > 0 {
        lemma_siblings_left(siblings, list, e, (n - 1) as nat, entities);
        let m = siblings_left(siblings, list, e, (n - 1) as nat);
        let t = siblings_left(siblings, list, e, n);
        let pair = list[n - 1];
        let head = list.subrange(0, n - 1);
        let tail = list.subrange(0, n as int);
        assert(t.dom() =~= Set::<(u32, u32)>::full());
        assert(tail =~= head.push(pair));
        assert forall|x: RelationPair| tail.contains(x) <==> head.contains(x) || x == pair by {
            if head.contains(x) {
                let q = choose|q: int| 0 <= q < head.len() && head[q] == x;
                assert(tail[q] == x);
            }
            if x == pair {
                assert(tail[n - 1] == x);
            }
        }
        assert(!head.contains(pair)) by {
            if head.contains(pair) {
                let q = choose|q: int| 0 <= q < head.len() && head[q] == pair;
                assert(list[q] == list[n - 1]);
            }
        }
        assert forall|key: (u32, u32)|
            (#[trigger] t[key]) == if tail.contains(
                RelationPair { kind_idx: key.0, target: current(entities, key.1) },
            ) {
                dropped(siblings[key], e)
            } else {
                siblings[key]
            } by {
            let x = RelationPair { kind_idx: key.0, target: current(entities, key.1) };
            let _ = m[key];
            assert(pair.target == current(entities, pair.target.index));
            if key == (pair.kind_idx, pair.target.index) {
                assert(x == pair);
            } else {
                assert(x != pair);
            }
        }
    } else {
        assert(list.subrange(0, 0) =~= Seq::<RelationPair>::empty());
    }
}

proof fn lemma_cleared_pairs(s: GraphState, entities: AllocState, e: Entity, n: nat)
    requires
        n <= s.kinds.len() <= u32::MAX,
        s.siblings.dom() == Set::<(u32, u32)>::full(),
        s.pairs.dom() == Set::<u32>::full(),
        consistent(s, entities),
        alive(entities, e),
    ensures
        forall|i: u32, p: RelationPair| #[trigger]
            target_cleared(s, e, n).pairs[i].contains(p) <==> s.pairs[i].contains(p) && !(p.target
                == e && p.kind_idx < n),
    decreases n,
{
    if n > 0 {
        let n1 = (n - 1) as nat;
        lemma_cleared_pairs(s, entities, e, n1);
        lemma_target_cleared(s, e, n1);
        let m = target_cleared(s, e, n1);
        let t = target_cleared(s, e, n);
        let k = (n - 1) as u32;
        let list = m.siblings[(k, e.index)];
        assert(list == s.siblings[(k, e.index)]);
        let pair = RelationPair { kind_idx: k, target: e };
        lemma_pairs_lost(m.pairs, list, pair, list.len());
        assert forall|i: u32, p: RelationPair| #[trigger]
            t.pairs[i].contains(p) <==> s.pairs[i].contains(p) && !(p.target == e && p.kind_idx
                < n) by {
            assert(m.pairs[i].contains(p) <==> s.pairs[i].contains(p) && !(p.target == e
                && p.kind_idx < n1));
            if s.pairs[i].contains(p) && p == pair {
                assert(s.siblings[(k, e.index)].contains(current(entities, i)));
                let j = choose|j: int| 0 <= j < list.len() && list[j] == current(entities, i);
                assert(0 <= j < list.len() && list[j].index == i);
            }
        }
    }
}

/// Clearing relations leaves the kinds, and every index has its relations and siblings.
pub proof fn lemma_after_detach(s: GraphState, e: Entity)
    requires
        s.kinds.len() <= u32::MAX,
        s.siblings.dom() == Set::<(u32, u32)>::full(),
        s.pairs.dom() == Set::<u32>::full(),
    ensures
        after_detach(s, e).kinds == s.kinds,
        after_detach(s, e).pairs.dom() == Set::<u32>::full(),
        after_detach(s, e).siblings.dom() == Set::<(u32, u32)>::full(),
{
    lemma_target_cleared(s, e, s.kinds.len());
    let h = target_cleared(s, e, s.kinds.len());
    let list = listing(h.pairs[e.index]);
    lemma_siblings_left_total(h.siblings, list, e, list.len());
    assert(after_detach(s, e).pairs.dom() =~= Set::<u32>::full());
}

proof fn lemma_siblings_left_total(
    siblings: Map<(u32, u32), Seq<Entity>>,
    list: Seq<RelationPair>,
    e: Entity,
    n: nat,
)
    requires
        n <= list.len(),
        siblings.dom() == Set::<(u32, u32)>::full(),
    ensures
        siblings_left(siblings, list, e, n).dom() == Set::<(u32, u32)>::full(),
    decreases n,
{
    if n > 0 {
        lemma_siblings_left_total(siblings, list, e, (n - 1) as nat);
        assert(siblings_left(siblings, list, e, n).dom() =~= Set::<(u32, u32)>::full());
    }
}

/// Where the two indexes agree, clearing the relations of a live entity takes it out of every
/// relation and every list of siblings and leaves all others.
pub proof fn law_detach(s: GraphState, entities: AllocState, e: Entity)
    requires
        s.kinds.len() <= u32::MAX,
        s.siblings.dom() == Set::<(u32, u32)>::full(),
        s.pairs.dom() == Set::<u32>::full(),
        consistent(s, entities),
        alive(entities, e),
        listable(target_cleared(s, e, s.kinds.len()).pairs[e.index]),
    ensures
        detached(s, e, after_detach(s, e)),
{
    let h = target_cleared(s, e, s.kinds.len());
    let t = after_detach(s, e);
    lemma_target_cleared(s, e, s.kinds.len());
    lemma_cleared_pairs(s, entities, e, s.kinds.len());
    assert forall|p: RelationPair| #[trigger]
        h.pairs[e.index].contains(p) <==> s.pairs[e.index].contains(p) by {
        if s.pairs[e.index].contains(p) {
            assert(p.target.index != e.index);
        }
    }
    assert(h.pairs[e.index] =~= s.pairs[e.index]);
    let list = listing(s.pairs[e.index]);
    assert(lists(list, s.pairs[e.index]));
    let keys = list.map_values(|p: RelationPair| p.spec_sort_key());
    assert forall|i: int, j: int|
        0 <= i < list.len() && 0 <= j < list.len() && i != j implies list[i] != list[j] by {
        if i < j {
            assert(precedes(keys[i], keys[j]));
        } else {
            assert(precedes(keys[j], keys[i]));
        }
    }
    assert forall|i: int| 0 <= i < list.len() implies (#[trigger] list[i]).target == current(
        entities,
        list[i].target.index,
    ) by {
        assert(list.contains(list[i]));
        assert(s.pairs[e.index].contains(list[i]));
    }
    lemma_siblings_left(h.siblings, list, e, list.len(), entities);
    assert(list.subrange(0, list.len() as int) =~= list);
    assert forall|i: u32|
        (#[trigger] t.pairs[i]) =~= if i == e.index {
            Set::<RelationPair>::empty()
        } else {
            not_at(s.pairs[i], e)
        } by {
        if i != e.index {
            assert forall|p: RelationPair| h.pairs[i].contains(p) <==> not_at(
                s.pairs[i],
                e,
            ).contains(p) by {
                if s.pairs[i].contains(p) {
                    assert(p.kind_idx < s.kinds.len());
                }
            }
        }
    }
    assert forall|key: (u32, u32)|
        (#[trigger] t.siblings[key]) =~= if key.1 == e.index {
            Seq::<Entity>::empty()
        } else {
            dropped(s.siblings[key], e)
        } by {
        let x = RelationPair { kind_idx: key.0, target: current(entities, key.1) };
        if key.1 == e.index {
            assert(!list.contains(x)) by {
                if list.contains(x) {
                    assert(s.pairs[e.index].contains(x));
                }
            }
            if key.0 >= s.kinds.len() && s.siblings[key].len() > 0 {
                let y = s.siblings[key][0];
                assert(s.siblings[key].contains(y));
                assert(s.pairs[y.index].contains(x));
            }
            assert(h.siblings[key] =~= Seq::<Entity>::empty());
        } else if s.siblings[key].contains(e) {
            assert(s.pairs[e.index].contains(x));
            assert(list.contains(x));
        } else {
            assert(dropped(s.siblings[key], e) == s.siblings[key]);
        }
    }
}

impl RelationGraph {
    /// Clears every relation of an entity, as subject and as target, and returns the subjects
    /// that go with it.
    pub fn detach(&mut self, e: Entity) -> (children: Vec<Entity>)
        requires
            old(self).wf(),
        ensures
            final(self).wf(),
            final(self)@ == after_detach(old(self)@, e),
            children@ == cascade_children(old(self)@, e, old(self)@.kinds.len()),
            listable(
                target_cleared(old(self)@, e, old(self)@.kinds.len()).pairs[e.index],
            ),
            forall|t: u32| #[trigger] final(self).fan_in(t) <= old(self).fan_in(t),
    {
        let ghost s = old(self)@;
        let kinds: u32 = self.registry.kind_count() as u32;
        let mut children: Vec<Entity> = Vec::new();
        let mut k: u32 = 0;
        proof {
            self.lemma_wf();
        }
        while k < kinds
            invariant
                k <= kinds == s.kinds.len(),
                self.wf(),
                self@ == target_cleared(s, e, k as nat),
                s.siblings.dom() == Set::<(u32, u32)>::full(),
                s.pairs.dom() == Set::<u32>::full(),
                children@ == cascade_children(s, e, k as nat),
                forall|t: u32| #[trigger] self.fan_in(t) <= old(self).fan_in(t),
            decreases kinds - k,
        {
            let ghost before = *self;
            let ghost m = self@;
            proof {
                lemma_target_cleared(s, e, k as nat);
            }
            let subjects: Vec<Entity> = self.target_index.take_subjects(k, e.index);
            let ghost list = m.siblings[(k, e.index)];
            proof {
                assert(list == s.siblings[(k, e.index)]);
                assert forall|t: u32| #[trigger] self.fan_in(t) <= old(self).fan_in(t) by {
                    assert(before.fan_in(t) <= old(self).fan_in(t));
                }
            }
            let hooked: bool = self.registry.has_remove_hook(k);
            let cascade: bool = self.registry.is_cascade(k);
            let ghost kind = s.kinds[k as int];
            let ghost pair = RelationPair { kind_idx: k, target: e };
            let ghost kids_before = children@;
            let mut j: usize = 0;
            assert(m.hooks + lost_target(kind, k, list.subrange(0, 0), e) =~= m.hooks);
            assert(kids_before + list.subrange(0, 0) =~= kids_before);
            while j < subjects.len()
                invariant
                    j <= subjects@.len(),
                    subjects@ == list,
                    k < s.kinds.len(),
                    kind == s.kinds[k as int],
                    pair == (RelationPair { kind_idx: k, target: e }),
                    hooked == kind.on_remove is Some,
                    cascade == kind.cascade,
                    self.wf(),
                    self@.kinds == m.kinds,
                    self@.hooks == m.hooks + lost_target(kind, k, list.subrange(0, j as int), e),
                    children@ == if cascade {
                        kids_before + list.subrange(0, j as int)
                    } else {
                        kids_before
                    },
                    self@.siblings == m.siblings.insert((k, e.index), Seq::<Entity>::empty()),
                    self@.pairs == pairs_lost(m.pairs, list, pair, j as nat),
                    forall|t: u32| #[trigger] self.fan_in(t) <= old(self).fan_in(t),
                decreases subjects.len() - j,
            {
                let subject: Entity = subjects[j];
                let ghost prev_graph = *self;
                let ghost head = list.subrange(0, j as int);
                let ghost tail = list.subrange(0, j + 1);
                let gone: bool = self.subject_index.remove(
                    subject.index,
                    RelationPair { kind_idx: k, target: e },
                );
                if hooked {
                    self.hook_queue.push(
                        HookEvent::RelationRemoved { kind_idx: k, subject, target: e },
                    );
                }
                if cascade {
                    children.push(subject);
                }
                j = j + 1;
                proof {
                    assert(tail =~= head.push(subject));
                    assert(lost_target(kind, k, tail, e) =~= if hooked {
                        lost_target(kind, k, head, e).push(
                            HookEvent::RelationRemoved { kind_idx: k, subject, target: e },
                        )
                    } else {
                        lost_target(kind, k, head, e)
                    });
                    assert(self@.hooks =~= m.hooks + lost_target(kind, k, tail, e));
                    assert(kids_before + tail =~= (kids_before + head).push(subject));
                    assert forall|t: u32| #[trigger] self.fan_in(t) <= old(self).fan_in(t) by {
                        assert(prev_graph.fan_in(t) <= old(self).fan_in(t));
                    }
                }
            }
            proof {
                assert(list.subrange(0, list.len() as int) =~= list);
            }
            k = k + 1;
        }
        let ghost h = self@;
        let ghost half_graph = *self;
        proof {
            lemma_target_cleared(s, e, s.kinds.len());
        }
        let pairs: Vec<RelationPair> = self.subject_index.take_all(e.index);
        let ghost list = pairs@;
        proof {
            lemma_listing_unique(list, listing(h.pairs[e.index]), h.pairs[e.index]);
            assert forall|t: u32| #[trigger] self.fan_in(t) <= old(self).fan_in(t) by {
                assert(half_graph.fan_in(t) <= old(self).fan_in(t));
            }
            assert(list.subrange(0, 0) =~= Seq::<RelationPair>::empty());
            assert(h.hooks + subject_hooks(s, e, Seq::<RelationPair>::empty()) =~= h.hooks);
        }
        let mut j: usize = 0;
        while j < pairs.len()
            invariant
                j <= pairs@.len(),
                pairs@ == list,
                self.wf(),
                self@.kinds == s.kinds,
                self@.pairs == h.pairs.insert(e.index, Set::<RelationPair>::empty()),
                self@.hooks == h.hooks + subject_hooks(s, e, list.subrange(0, j as int)),
                self@.siblings == siblings_left(h.siblings, list, e, j as nat),
                forall|t: u32| #[trigger] self.fan_in(t) <= old(self).fan_in(t),
            decreases pairs.len() - j,
        {
            let pair: RelationPair = pairs[j];
            let ghost prev_graph = *self;
            let ghost head = list.subrange(0, j as int);
            let ghost tail = list.subrange(0, j + 1);
            let found: bool = self.target_index.remove(pair.kind_idx, pair.target.index, e);
            if self.registry.has_remove_hook(pair.kind_idx) {
                self.hook_queue.push(
                    HookEvent::RelationRemoved {
                        kind_idx: pair.kind_idx,
                        subject: e,
                        target: pair.target,
                    },
                );
            }
            j = j + 1;
            proof {
                assert(tail.drop_last() =~= head);
                assert(tail.last() == pair);
                assert(self@.hooks =~= h.hooks + subject_hooks(s, e, tail));
                assert forall|t: u32| #[trigger] self.fan_in(t) <= old(self).fan_in(t) by {
                    assert(prev_graph.fan_in(t) <= old(self).fan_in(t));
                }
            }
        }
        proof {
            assert(list.subrange(0, list.len() as int) =~= list);
        }
        children
    }
}

proof fn lemma_dropped_members(s: Seq<Entity>, e: Entity, x: Entity)
    ensures
        dropped(s, e).contains(x) ==> s.contains(x),
        s.contains(x) && x != e ==> dropped(s, e).contains(x),
{
    if s.contains(e) {
        crate::relation_laws::lemma_place_of(s, e);
        let p = place_of(s, e);
        let d = dropped(s, e);
        if d.contains(x) {
            let i = choose|i: int| 0 <= i < d.len() && d[i] == x;
            if i < p {
                assert(s[i] == x);
            } else {
                assert(s[i + 1] == x);
            }
        }
        if s.contains(x) && x != e {
            let i = choose|i: int| 0 <= i < s.len() && s[i] == x;
            if i < p {
                assert(d[i] == x);
            } else {
                assert(d[i - 1] == x);
            }
        }
    }
}

proof fn lemma_siblings_left_members(
    siblings: Map<(u32, u32), Seq<Entity>>,
    list: Seq<RelationPair>,
    e: Entity,
    n: nat,
    key: (u32, u32),
    x: Entity,
)
    requires
        n <= list.len(),
    ensures
        siblings_left(siblings, list, e, n)[key].contains(x) ==> siblings[key].contains(x),
        siblings[key].contains(x) && x != e ==> siblings_left(siblings, list, e, n)[key].contains(
            x,
        ),
    decreases n,
{
    if n > 0 {
        lemma_siblings_left_members(siblings, list, e, (n - 1) as nat, key, x);
        let m = siblings_left(siblings, list, e, (n - 1) as nat);
        lemma_dropped_members(m[key], e, x);
    }
}

proof fn lemma_pairs_lost_members(
    pairs: Map<u32, Set<RelationPair>>,
    subjects: Seq<Entity>,
    pair: RelationPair,
    n: nat,
    i: u32,
    p: RelationPair,
)
    ensures
        pairs_lost(pairs, subjects, pair, n)[i].contains(p) ==> pairs[i].contains(p),
    decreases n,
{
    if n > 0 {
        lemma_pairs_lost_members(pairs, subjects, pair, (n - 1) as nat, i, p);
    }
}

pub proof fn lemma_cleared_members(s: GraphState, e: Entity, n: nat, i: u32, p: RelationPair)
    ensures
        target_cleared(s, e, n).pairs[i].contains(p) ==> s.pairs[i].contains(p),
    decreases n,
{
    if n > 0 {
        lemma_cleared_members(s, e, (n - 1) as nat, i, p);
        let m = target_cleared(s, e, (n - 1) as nat);
        let k = (n - 1) as u32;
        let list = m.siblings[(k, e.index)];
        lemma_pairs_lost_members(
            m.pairs,
            list,
            RelationPair { kind_idx: k, target: e },
            list.len(),
            i,
            p,
        );
    }
}

/// Clearing the relations of an entity adds none, and takes no other entity out of the list of
/// siblings of another target.
pub proof fn law_detach_adds_nothing(s: GraphState, e: Entity)
    requires
        s.kinds.len() <= u32::MAX,
        s.siblings.dom() == Set::<(u32, u32)>::full(),
        s.pairs.dom() == Set::<u32>::full(),
    ensures
        after_detach(s, e).kinds == s.kinds,
        forall|key: (u32, u32), x: Entity| #[trigger]
            after_detach(s, e).siblings[key].contains(x) ==> s.siblings[key].contains(x),
        forall|key: (u32, u32), x: Entity| #[trigger]
            s.siblings[key].contains(x) && x != e && key.1 != e.index ==> after_detach(
                s,
                e,
            ).siblings[key].contains(x),
        forall|i: u32, p: RelationPair| #[trigger]
            after_detach(s, e).pairs[i].contains(p) ==> s.pairs[i].contains(p),
{
    lemma_after_detach(s, e);
    lemma_target_cleared(s, e, s.kinds.len());
    let t = after_detach(s, e);
    let h = target_cleared(s, e, s.kinds.len());
    let list = listing(h.pairs[e.index]);
    assert forall|key: (u32, u32), x: Entity| #[trigger] t.siblings[key].contains(
        x,
    ) implies s.siblings[key].contains(x) by {
        lemma_siblings_left_members(h.siblings, list, e, list.len(), key, x);
        assert(h.siblings[key].contains(x));
    }
    assert forall|key: (u32, u32), x: Entity| #[trigger]
        s.siblings[key].contains(x) && x != e && key.1 != e.index implies t.siblings[key].contains(
        x,
    ) by {
        assert(h.siblings[key] == s.siblings[key]);
        lemma_siblings_left_members(h.siblings, list, e, list.len(), key, x);
    }
    assert forall|i: u32, p: RelationPair| #[trigger] t.pairs[i].contains(
        p,
    ) implies s.pairs[i].contains(p) by {
        lemma_cleared_members(s, e, s.kinds.len(), i, p);
    }
}

impl RelationGraph {
    /// All subjects of a kind, once for each relation.
    pub fn subjects_of_kind<R: RelationKind>(&self, kind: R) -> (out: Vec<Entity>)
        requires
            self.wf(),
        ensures
            match kind_index(self@.kinds, R::spec_kind_key()) {
                Some(kind_idx) => exists|targets: Seq<u32>|
                    #[trigger] lists_targets(self@.siblings, kind_idx, targets) && out@ == joined(
                        self@.siblings,
                        kind_idx,
                        targets,
                    ),
                None => out@.len() == 0,
            },
    {
        match self.registry.get_idx::<R>() {
            Some(kind_idx) => {
                let out: Vec<Entity> = self.target_index.all_subjects(kind_idx);
                proof {
                    let targets = choose|targets: Seq<u32>|
                        lists_targets(self@.siblings, kind_idx, targets) && out@ == joined(
                            self@.siblings,
                            kind_idx,
                            targets,
                        );
                    assert(lists_targets(self@.siblings, kind_idx, targets));
                }
                out
            },
            None => Vec::new(),
        }
    }
}

impl RelationGraph {
    /// The largest number of relations that point at one entity.
    pub fn largest_fan_in(&self) -> (n: u32)
        ensures
            forall|t: u32| #[trigger] self.fan_in(t) <= n,
            n > 0 ==> exists|t: u32| #[trigger] self.fan_in(t) == n,
    {
        let n: u32 = self.target_index.largest_count();
        assert forall|t: u32| #[trigger] self.fan_in(t) <= n by {
            assert(self.target_index.count(t) <= n);
        }
        if n > 0 {
            proof {
                let t = choose|t: u32| #[trigger] self.target_index.count(t) == n;
                assert(self.fan_in(t) == n);
            }
        }
        n
    }
}

} // verus!
