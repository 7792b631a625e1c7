//! The membership index and its maintenance: which component every node
//! belongs to, which nodes every component holds, and the traversal that
//! brings both up to date after the graph has changed.

use crate::connections::{list_get, AdjacencyStore, ConnectionUpdateEvent, Connections};
use crate::graph::{
    continuous, first_unclaimed, has_edge, index_consistent, lemma_drop_last_contains,
    lemma_push_contains, lemma_push_front_contains, lemma_reachable_refl, lemma_reachable_step,
    near, partition_correct, populated, reachable, reassigned, same_entry, settled_outside,
    symmetric, thrifty, touched, turn, turns, unassigned, unclaimed, upkeep, Upkeep,
};
use crate::partition::{
    lemma_first_unclaimed, lemma_progress_done, lemma_progress_frame, lemma_progress_isolated,
    lemma_progress_pass, lemma_progress_reuse, lemma_progress_start, lemma_progress_traverse,
    lemma_turn_traverse, members_exist, older_than, progress,
};
use std::collections::{HashMap, HashSet, VecDeque};
use vstd::prelude::*;
use vstd::std_specs::iter::IteratorSpec;

verus! {

broadcast use vstd::std_specs::hash::group_hash_axioms;

/// The membership of a node: the identity of the component it belongs to.
#[derive(Clone, Copy, Debug, PartialEq, Eq, Structural)]
pub struct InConnectedComponent(pub u64);

/// A component: the set of its members.
pub struct ConnectedComponent(HashSet<u64>);

impl View for ConnectedComponent {
    type V = Set<u64>;

    closed spec fn view(&self) -> Set<u64> {
        self.0@
    }
}

impl Default for ConnectedComponent {
    fn default() -> (component: ConnectedComponent)
        ensures
            component@ == Set::<u64>::empty(),
    {
        ConnectedComponent(HashSet::new())
    }
}

impl ConnectedComponent {
    /// Whether `entity` is a member.
    pub fn contains(&self, entity: u64) -> (found: bool)
        ensures
            found == self@.contains(entity),
    {
        self.0.contains(&entity)
    }

    /// Whether the component has no member.
    pub fn is_empty(&self) -> (empty: bool)
        ensures
            empty == self@.is_empty(),
    {
        self.0.is_empty()
    }

    /// The members, each once, in no particular order.
    pub fn to_vec(&self) -> (members: Vec<u64>)
        ensures
            members@.to_set() == self@,
            members@.no_duplicates(),
    {
        let mut members: Vec<u64> = Vec::new();
        for entity in it: self.0.iter()
            invariant
                it.seq() == self.0.iter().remaining(),
                members@ == it.seq().unref().take(it.index()),
        {
            members.push(*entity);
            assert(members@ =~= it.seq().unref().take(it.index() + 1));
        }
        assert(members@ =~= self.0.iter().remaining().unref());
        members
    }
}

/// The membership index: for every member node its component, and for every
/// component its member set. Both sides change together.
pub struct MembershipIndex {
    member_of: HashMap<u64, u64>,
    components: HashMap<u64, ConnectedComponent>,
    next_component: u64,
}

impl MembershipIndex {
    /// The component of every member node.
    pub closed spec fn membership(&self) -> Map<u64, u64> {
        self.member_of@
    }

    /// The member set of every component.
    pub closed spec fn members(&self) -> Map<u64, Set<u64>> {
        Map::new(|c: u64| self.components@.contains_key(c), |c: u64| self.components@[c]@)
    }

    /// The identity that the next new component gets.
    pub closed spec fn next(&self) -> u64 {
        self.next_component
    }

    /// Both sides agree, and every component is older than the next identity.
    pub open spec fn wf(&self) -> bool {
        &&& index_consistent(self.membership(), self.members())
        &&& forall|c: u64| #[trigger] self.members().contains_key(c) ==> c < self.next()
    }

    /// An index without members and without components.
    pub fn new() -> (index: MembershipIndex)
        ensures
            index.wf(),
            index.membership() == Map::<u64, u64>::empty(),
            index.members() == Map::<u64, Set<u64>>::empty(),
            index.next() == 0,
    {
        let index = MembershipIndex {
            member_of: HashMap::new(),
            components: HashMap::new(),
            next_component: 0,
        };
        assert(index.members() =~= Map::<u64, Set<u64>>::empty());
        index
    }

    /// The identity that the next new component gets.
    pub fn next_component(&self) -> (next: u64)
        ensures
            next == self.next(),
    {
        self.next_component
    }

    /// The membership of a node, if it has one.
    pub fn component_of(&self, entity: u64) -> (membership: Option<InConnectedComponent>)
        ensures
            membership == if self.membership().contains_key(entity) {
                Some(InConnectedComponent(self.membership()[entity]))
            } else {
                None
            },
    {
        match self.member_of.get(&entity) {
            Some(c) => Some(InConnectedComponent(*c)),
            None => None,
        }
    }

    /// The component of an identity, if it exists.
    pub fn members_of(&self, component: u64) -> (members: Option<&ConnectedComponent>)
        ensures
            match members {
                Some(c) => self.members().contains_key(component) && c@ == self.members()[component],
                None => !self.members().contains_key(component),
            },
    {
        self.components.get(&component)
    }

    /// Creates a component without members and returns its identity, which
    /// no component has had before.
    pub fn spawn(&mut self) -> (component: u64)
        requires
            old(self).wf(),
            old(self).next() < u64::MAX,
        ensures
            final(self).wf(),
            component == old(self).next(),
            final(self).next() == old(self).next() + 1,
            final(self).membership() == old(self).membership(),
            final(self).members() == old(self).members().insert(component, Set::<u64>::empty()),
    {
        let component = self.next_component;
        self.next_component = component + 1;
        self.components.insert(component, ConnectedComponent::default());
        assert(self.members() =~= old(self).members().insert(component, Set::<u64>::empty()));
        component
    }

    /// Makes `entity` a member of `component`, and of no other. Nothing
    /// changes where the component does not exist. Returns whether it exists.
    pub fn insert(&mut self, entity: u64, component: u64) -> (exists: bool)
        requires
            old(self).wf(),
        ensures
            final(self).wf(),
            final(self).next() == old(self).next(),
            exists == old(self).members().contains_key(component),
            exists ==> final(self).membership() == old(self).membership().insert(
                entity,
                component,
            ) && final(self).members() == reassigned(old(self).members(), entity, component),
            !exists ==> final(self).membership() == old(self).membership() && final(self).members() == old(self).members(),
    {
        if !self.components.contains_key(&component) {
            return false;
        }
        let previous = self.member_of.insert(entity, component);
        if let Some(p) = previous {
            if p != component {
                if let Some(mut members) = self.components.remove(&p) {
                    members.0.remove(&entity);
                    self.components.insert(p, members);
                }
            }
        }
        if let Some(mut members) = self.components.remove(&component) {
            members.0.insert(entity);
            self.components.insert(component, members);
        }
        proof {
            let s0 = old(self).members();
            let s1 = self.members();
            let want = reassigned(s0, entity, component);
            assert forall|k: u64| s0.contains_key(k) implies #[trigger] s1[k] == want[k] by {
                if k != component {
                    if !(previous == Some(k)) {
                        assert(!s0[k].contains(entity));
                        assert(s0[k].remove(entity) =~= s0[k]);
                    }
                }
            }
            assert(s1 =~= want);
        }
        true
    }

    /// Takes the membership of `entity` away, if it has one, and returns it.
    pub fn remove(&mut self, entity: u64) -> (membership: Option<InConnectedComponent>)
        requires
            old(self).wf(),
        ensures
            final(self).wf(),
            final(self).next() == old(self).next(),
            final(self).membership() == old(self).membership().remove(entity),
            final(self).members() == unassigned(old(self).members(), entity),
            membership == if old(self).membership().contains_key(entity) {
                Some(InConnectedComponent(old(self).membership()[entity]))
            } else {
                None
            },
    {
        let previous = self.member_of.remove(&entity);
        if let Some(p) = previous {
            if let Some(mut members) = self.components.remove(&p) {
                members.0.remove(&entity);
                self.components.insert(p, members);
            }
        }
        let membership = match previous {
            Some(p) => Some(InConnectedComponent(p)),
            None => None,
        };
        proof {
            let s0 = old(self).members();
            let s1 = self.members();
            let want = unassigned(s0, entity);
            assert forall|k: u64| s0.contains_key(k) implies #[trigger] s1[k] == want[k] by {
                if !(previous == Some(k)) {
                    assert(!s0[k].contains(entity));
                    assert(s0[k].remove(entity) =~= s0[k]);
                }
            }
            assert(s1 =~= want);
        }
        membership
    }
}

impl ConnectedComponent {
    /// Destroys every component that has no member.
    pub fn update(index: &mut MembershipIndex)
        requires
            old(index).wf(),
        ensures
            final(index).wf(),
            final(index).next() == old(index).next(),
            final(index).membership() == old(index).membership(),
            final(index).members() == populated(old(index).members()),
    {
        let mut empty: Vec<u64> = Vec::new();
        for component in it: index.components.keys()
            invariant
                it.seq() == index.components.keys().remaining(),
                forall|c: u64|
                    empty@.contains(c) <==> it.seq().unref().take(it.index()).contains(c)
                        && index.components@[c]@.is_empty(),
        {
            let ghost before = empty@;
            let ghost seen = it.seq().unref().take(it.index());
            let ghost seen_after = it.seq().unref().take(it.index() + 1);
            assert(seen_after =~= seen.push(*component));
            assert(it.seq().unref().to_set().contains(*component)) by {
                assert(it.seq().unref()[it.index()] == *component);
            }
            let mut is_empty = false;
            if let Some(members) = index.components.get(component) {
                is_empty = members.is_empty();
            }
            if is_empty {
                empty.push(*component);
            }
            proof {
                lemma_push_contains(seen, *component);
                lemma_push_contains(before, *component);
            }
        }
        proof {
            let keys = index.components.keys().remaining().unref();
            assert(keys.take(keys.len() as int) =~= keys);
            assert forall|c: u64|
                empty@.contains(c) <==> index.components@.contains_key(c)
                    && index.components@[c]@.is_empty() by {
                assert(keys.to_set().contains(c) == index.components@.dom().contains(c));
            }
        }
        let n = empty.len();
        let mut i: usize = 0;
        while i < n
            invariant
                n == empty@.len(),
                i <= n,
                index.member_of == old(index).member_of,
                index.next_component == old(index).next_component,
                forall|c: u64|
                    empty@.contains(c) <==> old(index).components@.contains_key(c) && old(index).components@[c]@.is_empty(),
                forall|c: u64| #[trigger]
                    index.components@.contains_key(c) <==> old(index).components@.contains_key(c)
                        && !empty@.take(i as int).contains(c),
                forall|c: u64| #[trigger]
                    index.components@.contains_key(c) ==> index.components@[c] == old(index).components@[c],
            decreases n - i,
        {
            let component = empty[i];
            index.components.remove(&component);
            proof {
                assert(empty@.take(i + 1) =~= empty@.take(i as int).push(component));
                lemma_push_contains(empty@.take(i as int), component);
            }
            i = i + 1;
        }
        proof {
            assert(empty@.take(n as int) =~= empty@);
            assert(index.members() =~= populated(old(index).members()));
            let m = index.membership();
            let s = index.members();
            assert forall|k: u64| #[trigger] m.contains_key(k) implies s.contains_key(m[k])
                && s[m[k]].contains(k) by {
                assert(old(index).members()[m[k]].contains(k));
            }
        }
    }
}

impl InConnectedComponent {
    /// Chooses the component for the traversal that starts at `entity`, whose
    /// neighbours are `attached_to`: the component of `entity` itself, or else
    /// of the first neighbour, that no traversal of this tick has claimed; a
    /// new component where there is none. The choice is claimed. The claimed
    /// components are all older than the next identity.
    pub fn get_or_spawn_connected_component(
        entity: u64,
        index: &mut MembershipIndex,
        used_components: &mut HashSet<u64>,
        attached_to: &Connections,
    ) -> (component: u64)
        requires
            old(index).wf(),
            old(index).next() < u64::MAX,
            forall|c: u64| #[trigger] old(used_components)@.contains(c) ==> c < old(index).next(),
        ensures
            final(index).wf(),
            final(index).membership() == old(index).membership(),
            !old(used_components)@.contains(component),
            final(used_components)@ == old(used_components)@.insert(component),
            forall|c: u64| #[trigger] final(used_components)@.contains(c) ==> c < final(index).next(),
            match first_unclaimed(
                old(index).membership(),
                old(used_components)@,
                seq![entity] + attached_to@,
            ) {
                Some(c) => {
                    &&& component == c
                    &&& final(index).members() == old(index).members()
                    &&& final(index).next() == old(index).next()
                },
                None => {
                    &&& component == old(index).next()
                    &&& final(index).members() == old(index).members().insert(
                        component,
                        Set::<u64>::empty(),
                    )
                    &&& final(index).next() == old(index).next() + 1
                },
            },
    {
        let ghost m = index.membership();
        let ghost used = used_components@;
        let ghost probes = seq![entity] + attached_to@;
        assert(probes.drop_first() =~= attached_to@);
        assert(attached_to@.skip(0) =~= attached_to@);
        if let Some(own) = index.component_of(entity) {
            if used_components.insert(own.0) {
                return own.0;
            }
            assert(used_components@ =~= used);
        }
        let n = attached_to.len();
        let mut i: usize = 0;
        while i < n
            invariant
                n == attached_to@.len(),
                i <= n,
                *index == *old(index),
                index.wf(),
                index.next() < u64::MAX,
                m == index.membership(),
                used == used_components@,
                used == old(used_components)@,
                forall|c: u64| #[trigger] used.contains(c) ==> c < index.next(),
                probes == seq![entity] + attached_to@,
                first_unclaimed(m, used, probes) == first_unclaimed(
                    m,
                    used,
                    attached_to@.skip(i as int),
                ),
            decreases n - i,
        {
            let attachment = list_get(attached_to, i);
            assert(attached_to@.skip(i as int).drop_first() =~= attached_to@.skip(i + 1));
            if let Some(other) = index.component_of(attachment) {
                if used_components.insert(other.0) {
                    return other.0;
                }
                assert(used_components@ =~= used);
            }
            i = i + 1;
        }
        let component = index.spawn();
        used_components.insert(component);
        component
    }
}

/// Puts the neighbours that were not visited yet at the front of the queue.
fn enqueue_unvisited(
    connections: &Connections,
    visited: &HashSet<u64>,
    queue: &mut VecDeque<u64>,
)
    ensures
        forall|x: u64| #[trigger]
            final(queue)@.contains(x) <==> old(queue)@.contains(x) || (connections@.contains(x)
                && !visited@.contains(x)),
{
    let n = connections.len();
    let mut i: usize = 0;
    while i < n
        invariant
            n == connections@.len(),
            i <= n,
            forall|x: u64| #[trigger]
                queue@.contains(x) <==> old(queue)@.contains(x) || (connections@.take(
                    i as int,
                ).contains(x) && !visited@.contains(x)),
        decreases n - i,
    {
        let next = list_get(connections, i);
        proof {
            assert(connections@.take(i + 1) =~= connections@.take(i as int).push(next));
            lemma_push_contains(connections@.take(i as int), next);
            lemma_push_front_contains(queue@, next);
        }
        if !visited.contains(&next) {
            queue.push_front(next);
        }
        i = i + 1;
    }
    assert(connections@.take(n as int) =~= connections@);
}

/// Some existing node of `nodes` lists `y`.
pub open spec fn listed_in(g: Map<u64, Seq<u64>>, nodes: Set<u64>, y: u64) -> bool {
    exists|x: u64| nodes.contains(x) && g.contains_key(x) && #[trigger] g[x].contains(y)
}

/// Breadth-first traversal from `entity` over the neighbour lists as they
/// are now: every node reached that was not visited before becomes visited
/// and a member of `component`. A listed node that does not exist is visited,
/// reported in `stale`, and not followed.
fn traverse(
    entity: u64,
    component: u64,
    store: &AdjacencyStore,
    index: &mut MembershipIndex,
    visited: &mut HashSet<u64>,
    stale: &mut Vec<u64>,
)
    requires
        old(index).wf(),
        old(index).members().contains_key(component),
    ensures
        final(index).wf(),
        final(index).next() == old(index).next(),
        final(index).members().dom() == old(index).members().dom(),
        old(visited)@.subset_of(final(visited)@),
        final(visited)@.contains(entity),
        forall|x: u64|
            #[trigger] final(visited)@.contains(x) && !old(visited)@.contains(x)
                && store@.contains_key(x) ==> reachable(store@, entity, x) && final(index).membership().contains_key(x) && final(index).membership()[x] == component,
        forall|x: u64|
            !(final(visited)@.contains(x) && !old(visited)@.contains(x) && store@.contains_key(x))
                ==> #[trigger] same_entry(final(index).membership(), old(index).membership(), x),
        forall|x: u64, y: u64|
            final(visited)@.contains(x) && !old(visited)@.contains(x) && store@.contains_key(x)
                && #[trigger] store@[x].contains(y) ==> final(visited)@.contains(y),
        forall|y: u64|
            #[trigger] final(visited)@.contains(y) && !old(visited)@.contains(y)
                && !store@.contains_key(y) ==> y == entity || listed_in(
                store@,
                final(visited)@.difference(old(visited)@),
                y,
            ),
        forall|x: u64| #[trigger]
            final(stale)@.contains(x) <==> old(stale)@.contains(x) || (final(visited)@.contains(x)
                && !old(visited)@.contains(x) && !store@.contains_key(x)),
        old(stale)@.no_duplicates() && (forall|x: u64| #[trigger]
            old(stale)@.contains(x) ==> old(visited)@.contains(x)) ==> final(stale)@.no_duplicates(),
{
    let ghost g = store@;
    let ghost v0 = visited@;
    let ghost m0 = index.membership();
    let ghost tidy = stale@.no_duplicates() && (forall|x: u64| #[trigger]
        stale@.contains(x) ==> visited@.contains(x));
    let mut queue: VecDeque<u64> = VecDeque::new();
    queue.push_front(entity);
    proof {
        lemma_push_front_contains(Seq::<u64>::empty(), entity);
        assert(seq![entity] + Seq::<u64>::empty() =~= seq![entity]);
        if g.contains_key(entity) {
            lemma_reachable_refl(g, entity);
        }
        store.lemma_finite();
    }
    while queue.len() > 0
        invariant
            g == store@,
            v0 == old(visited)@,
            m0 == old(index).membership(),
            tidy == (old(stale)@.no_duplicates() && (forall|x: u64| #[trigger]
                old(stale)@.contains(x) ==> v0.contains(x))),
            index.wf(),
            index.next() == old(index).next(),
            index.members().dom() == old(index).members().dom(),
            index.members().contains_key(component),
            g.dom().finite(),
            v0.subset_of(visited@),
            visited@.contains(entity) || queue@.contains(entity),
            forall|x: u64| #[trigger]
                queue@.contains(x) && g.contains_key(x) ==> reachable(g, entity, x),
            forall|x: u64| #[trigger]
                queue@.contains(x) ==> x == entity || listed_in(g, visited@.difference(v0), x),
            forall|x: u64|
                #[trigger] visited@.contains(x) && !v0.contains(x) && g.contains_key(x)
                    ==> reachable(g, entity, x) && index.membership().contains_key(x)
                    && index.membership()[x] == component,
            forall|x: u64|
                !(visited@.contains(x) && !v0.contains(x) && g.contains_key(x))
                    ==> #[trigger] same_entry(index.membership(), m0, x),
            forall|x: u64, y: u64|
                visited@.contains(x) && !v0.contains(x) && g.contains_key(x) && #[trigger] g[x].contains(
                    y,
                ) ==> visited@.contains(y) || queue@.contains(y),
            forall|y: u64|
                #[trigger] visited@.contains(y) && !v0.contains(y) && !g.contains_key(y) ==> y
                    == entity || listed_in(g, visited@.difference(v0), y),
            forall|x: u64| #[trigger]
                stale@.contains(x) <==> old(stale)@.contains(x) || (visited@.contains(x)
                    && !v0.contains(x) && !g.contains_key(x)),
            tidy ==> stale@.no_duplicates(),
        decreases g.dom().difference(visited@).len(), queue@.len(),
    {
        let ghost q0 = queue@;
        let ghost seen = visited@;
        let ghost m1 = index.membership();
        let ghost s0 = stale@;
        if let Some(e) = queue.pop_back() {
            proof {
                lemma_drop_last_contains(q0, queue@);
                assert(q0.contains(e)) by {
                    assert(q0[q0.len() - 1] == e);
                }
            }
            if visited.insert(e) {
                proof {
                    assert forall|y: u64| listed_in(g, seen.difference(v0), y) implies listed_in(
                        g,
                        visited@.difference(v0),
                        y,
                    ) by {
                        let x = choose|x: u64|
                            seen.difference(v0).contains(x) && g.contains_key(x) && #[trigger] g[x].contains(
                                y,
                            );
                        assert(visited@.difference(v0).contains(x));
                    }
                }
                if let Some(connections) = store.get(e) {
                    let _ = index.insert(e, component);
                    let ghost q1 = queue@;
                    enqueue_unvisited(connections, visited, &mut queue);
                    proof {
                        assert(g.dom().difference(visited@) =~= g.dom().difference(seen).remove(e));
                        assert forall|x: u64|
                            !(visited@.contains(x) && !v0.contains(x) && g.contains_key(
                                x,
                            )) implies #[trigger] same_entry(index.membership(), m0, x) by {
                            assert(same_entry(m1, m0, x));
                        }
                        assert forall|x: u64| #[trigger]
                            queue@.contains(x) && g.contains_key(x) implies reachable(
                            g,
                            entity,
                            x,
                        ) by {
                            if !q1.contains(x) {
                                assert(has_edge(g, e, x));
                                lemma_reachable_step(g, entity, e, x);
                            }
                        }
                        assert forall|x: u64| #[trigger] queue@.contains(x) implies x == entity
                            || listed_in(g, visited@.difference(v0), x) by {
                            if !q1.contains(x) {
                                assert(visited@.difference(v0).contains(e) && g[e].contains(x));
                            }
                        }
                    }
                } else {
                    stale.push(e);
                    proof {
                        lemma_push_contains(s0, e);
                        assert(g.dom().difference(visited@) =~= g.dom().difference(seen));
                        if tidy {
                            assert(!s0.contains(e));
                            assert forall|i: int, j: int|
                                0 <= i < stale@.len() && 0 <= j < stale@.len() && i
                                    != j implies stale@[i] != stale@[j] by {
                                if i < s0.len() {
                                    assert(s0.contains(stale@[i])) by {
                                        assert(s0[i] == stale@[i]);
                                    }
                                }
                                if j < s0.len() {
                                    assert(s0.contains(stale@[j])) by {
                                        assert(s0[j] == stale@[j]);
                                    }
                                }
                            }
                        }
                    }
                }
            } else {
                assert(visited@ =~= seen);
            }
        }
    }
    assert(queue@.len() == 0);
    assert(forall|x: u64| !queue@.contains(x));
}

/// The nodes that the notices name, in the order of the notices.
pub open spec fn nodes_of(updates: Seq<ConnectionUpdateEvent>) -> Seq<u64> {
    Seq::new(updates.len(), |i: int| updates[i].0)
}

/// The set of the nodes that the notices name.
pub open spec fn notified(updates: Seq<ConnectionUpdateEvent>) -> Set<u64> {
    nodes_of(updates).to_set()
}

/// A node is notified exactly when there is a notice of it.
pub proof fn lemma_notified(updates: Seq<ConnectionUpdateEvent>)
    ensures
        forall|x: u64| #[trigger]
            notified(updates).contains(x) <==> updates.contains(ConnectionUpdateEvent(x)),
{
    let nodes = nodes_of(updates);
    assert forall|x: u64| #[trigger]
        notified(updates).contains(x) <==> updates.contains(ConnectionUpdateEvent(x)) by {
        if nodes.contains(x) {
            let i = choose|i: int| 0 <= i < nodes.len() && nodes[i] == x;
            assert(updates[i] == ConnectionUpdateEvent(x));
        }
        if updates.contains(ConnectionUpdateEvent(x)) {
            let i = choose|i: int| 0 <= i < updates.len() && updates[i] == ConnectionUpdateEvent(x);
            assert(nodes[i] == x);
        }
    }
}

impl InConnectedComponent {
    /// Brings the membership up to date after the neighbour lists of the
    /// nodes named in `updates` have changed. The notified nodes take their
    /// turns in the order of the notices (see `turn`): a node without
    /// neighbours loses its membership; any other node that no traversal of
    /// this call has visited starts one, which claims a component (see
    /// `get_or_spawn_connected_component`) and makes every node that it
    /// reaches a member of that component. No component is destroyed here.
    /// Returns, each once, the listed nodes that were found not to exist.
    pub fn update(
        updates: &Vec<ConnectionUpdateEvent>,
        store: &AdjacencyStore,
        index: &mut MembershipIndex,
    ) -> (stale: Vec<u64>)
        requires
            old(index).wf(),
            old(index).next() + updates@.len() <= u64::MAX,
        ensures
            final(index).wf(),
            final(index).membership() == upkeep(
                store@,
                old(index).membership(),
                old(index).next(),
                nodes_of(updates@),
            ).membership,
            final(index).next() == upkeep(
                store@,
                old(index).membership(),
                old(index).next(),
                nodes_of(updates@),
            ).next,
            old(index).next() <= final(index).next() <= old(index).next() + updates@.len(),
            forall|c: u64| #[trigger]
                final(index).members().contains_key(c) <==> old(index).members().contains_key(c)
                    || old(index).next() <= c < final(index).next(),
            forall|x: u64|
                !touched(store@, notified(updates@), x) ==> #[trigger] same_entry(
                    final(index).membership(),
                    old(index).membership(),
                    x,
                ),
            symmetric(store@) && settled_outside(
                store@,
                old(index).membership(),
                notified(updates@),
            ) ==> partition_correct(store@, final(index).membership()),
            symmetric(store@) && members_exist(store@, old(index).membership()) ==> continuous(
                store@,
                old(index).membership(),
                final(index).membership(),
                old(index).next(),
            ) && thrifty(
                store@,
                old(index).membership(),
                final(index).membership(),
                old(index).next(),
                notified(updates@),
            ),
            forall|x: u64| #[trigger]
                final(index).membership().contains_key(x) ==> old(index).membership().contains_key(
                    x,
                ) || store@.contains_key(x),
            symmetric(store@) ==> forall|x: u64|
                notified(updates@).contains(x) && store@.contains_key(x) && store@[x].len() == 0
                    ==> !#[trigger] final(index).membership().contains_key(x),
            stale@.no_duplicates(),
            forall|y: u64| #[trigger]
                stale@.contains(y) <==> !store@.contains_key(y) && (notified(updates@).contains(y)
                    || listed_in(
                    store@,
                    upkeep(
                        store@,
                        old(index).membership(),
                        old(index).next(),
                        nodes_of(updates@),
                    ).visited,
                    y,
                )),
    {
        let ghost g = store@;
        let ghost m0 = index.membership();
        let ghost next0 = index.next();
        let ghost u = notified(updates@);
        let ghost nodes = nodes_of(updates@);
        let ghost start = Upkeep {
            membership: m0,
            used: Set::<u64>::empty(),
            visited: Set::<u64>::empty(),
            next: next0,
        };
        let mut visited: HashSet<u64> = HashSet::new();
        let mut used_components: HashSet<u64> = HashSet::new();
        let mut stale: Vec<u64> = Vec::new();
        proof {
            lemma_progress_start(g, u, m0, next0);
            assert(nodes.take(0).to_set() =~= Set::<u64>::empty());
            assert(nodes.take(0) =~= Seq::<u64>::empty());
            assert(older_than(m0, next0)) by {
                assert forall|a: u64| #[trigger] m0.contains_key(a) implies m0[a] < next0 by {
                    assert(index.members().contains_key(m0[a]));
                }
            }
        }
        let n = updates.len();
        let mut i: usize = 0;
        while i < n
            invariant
                g == store@,
                m0 == old(index).membership(),
                next0 == old(index).next(),
                u == notified(updates@),
                nodes == nodes_of(updates@),
                start == (Upkeep {
                    membership: m0,
                    used: Set::<u64>::empty(),
                    visited: Set::<u64>::empty(),
                    next: next0,
                }),
                n == updates@.len(),
                i <= n,
                next0 + updates@.len() <= u64::MAX,
                older_than(m0, next0),
                index.wf(),
                next0 <= index.next() <= next0 + i,
                forall|c: u64| #[trigger]
                    index.members().contains_key(c) <==> old(index).members().contains_key(c)
                        || next0 <= c < index.next(),
                progress(
                    g,
                    u,
                    m0,
                    next0,
                    nodes.take(i as int).to_set(),
                    visited@,
                    used_components@,
                    index.membership(),
                ),
                index.membership() == turns(g, start, nodes.take(i as int)).membership,
                used_components@ == turns(g, start, nodes.take(i as int)).used,
                forall|c: u64| #[trigger] used_components@.contains(c) ==> c < index.next(),
                index.next() == turns(g, start, nodes.take(i as int)).next,
                forall|x: u64|
                    #![trigger turns(g, start, nodes.take(i as int)).visited.contains(x)]
                    #![trigger visited@.contains(x)]
                    turns(g, start, nodes.take(i as int)).visited.contains(x) <==> visited@.contains(
                        x,
                    ) && g.contains_key(x),
                forall|x: u64|
                    #[trigger] stale@.contains(x) <==> visited@.contains(x) && !g.contains_key(x),
                forall|y: u64|
                    #[trigger] visited@.contains(y) && !g.contains_key(y) ==> listed_in(
                        g,
                        visited@,
                        y,
                    ) || nodes.take(i as int).contains(y),
                forall|y: u64|
                    #[trigger] nodes.take(i as int).contains(y) && !g.contains_key(y)
                        ==> visited@.contains(y),
                forall|x: u64, y: u64|
                    visited@.contains(x) && g.contains_key(x) && #[trigger] g[x].contains(y)
                        ==> visited@.contains(y),
                stale@.no_duplicates(),
            decreases n - i,
        {
            let entity = updates[i].0;
            let ghost done = nodes.take(i as int).to_set();
            let ghost m = index.membership();
            let ghost seen = visited@;
            let ghost used = used_components@;
            let ghost next1 = index.next();
            let ghost s = turns(g, start, nodes.take(i as int));
            proof {
                assert(nodes[i as int] == entity);
                assert(nodes.take(i + 1).drop_last() =~= nodes.take(i as int));
                assert(nodes.take(i + 1).last() == entity);
                assert(turns(g, start, nodes.take(i + 1)) == turn(g, s, entity));
                assert(nodes.take(i + 1) =~= nodes.take(i as int).push(entity));
                lemma_push_contains(nodes.take(i as int), entity);
                assert(nodes.take(i + 1).to_set() =~= done.insert(entity));
                assert(u.contains(entity)) by {
                    assert(nodes.contains(nodes[i as int]));
                }
                assert(older_than(m, next1)) by {
                    assert forall|a: u64| #[trigger] m.contains_key(a) implies m[a] < next1 by {
                        assert(index.members().contains_key(m[a]));
                    }
                }
                assert(s.visited.contains(entity) == (seen.contains(entity) && g.contains_key(
                    entity,
                )));
            }
            let ghost s0 = stale@;
            match store.get(entity) {
                None => {
                    if visited.insert(entity) {
                        stale.push(entity);
                        proof {
                            lemma_push_contains(s0, entity);
                            assert(!s0.contains(entity));
                            assert forall|a: int, b: int|
                                0 <= a < stale@.len() && 0 <= b < stale@.len() && a
                                    != b implies stale@[a] != stale@[b] by {
                                if a < s0.len() {
                                    assert(s0.contains(s0[a]));
                                }
                                if b < s0.len() {
                                    assert(s0.contains(s0[b]));
                                }
                            }
                        }
                    } else {
                        assert(visited@ =~= seen);
                    }
                    proof {
                        lemma_progress_pass(g, u, m0, next0, done, seen, used, m, entity, visited@);
                        assert forall|y: u64|
                            #[trigger] visited@.contains(y) && !g.contains_key(
                                y,
                            ) implies listed_in(g, visited@, y) || nodes.take(i + 1).contains(
                            y,
                        ) by {
                            if seen.contains(y) && !nodes.take(i as int).contains(y) {
                                let x = choose|x: u64|
                                    seen.contains(x) && g.contains_key(x) && #[trigger] g[x].contains(
                                        y,
                                    );
                                assert(visited@.contains(x));
                            }
                        }
                    }
                },
                Some(connections) => {
                    if connections.is_empty() {
                        let _ = index.remove(entity);
                        proof {
                            lemma_progress_isolated(g, u, m0, next0, done, seen, used, m, entity);
                        }
                    } else if visited.contains(&entity) {
                        proof {
                            lemma_progress_pass(g, u, m0, next0, done, seen, used, m, entity, seen);
                        }
                    } else {
                        let component = Self::get_or_spawn_connected_component(
                            entity,
                            index,
                            &mut used_components,
                            connections,
                        );
                        proof {
                            let probes = seq![entity] + connections@;
                            lemma_first_unclaimed(m, used, probes);
                            lemma_push_front_contains(connections@, entity);
                            match first_unclaimed(m, used, probes) {
                                Some(c) => {
                                    let t = choose|t: u64| #[trigger]
                                        probes.contains(t) && unclaimed(m, used, t) && m[t] == c;
                                    assert(near(g, m, entity, t) && m[t] == component);
                                    assert(index.members().contains_key(component));
                                    assert(component != next1);
                                },
                                None => {
                                    assert forall|t: u64| #[trigger]
                                        near(g, m, entity, t) implies used.contains(m[t]) by {
                                        assert(probes.contains(t));
                                    }
                                },
                            }
                        }
                        traverse(entity, component, store, index, &mut visited, &mut stale);
                        proof {
                            assert forall|x: u64, y: u64|
                                visited@.contains(x) && !seen.contains(x) && #[trigger] has_edge(
                                    g,
                                    x,
                                    y,
                                ) implies visited@.contains(y) by {
                                assert(g[x].contains(y));
                            }
                            lemma_progress_traverse(
                                g,
                                u,
                                m0,
                                next0,
                                done,
                                seen,
                                used,
                                m,
                                entity,
                                component,
                                next1,
                                visited@,
                                index.membership(),
                            );
                            lemma_turn_traverse(g, s, entity, seen, visited@, index.membership());
                            assert(used_components@ =~= turn(g, s, entity).used);
                            assert forall|y: u64|
                                #[trigger] visited@.contains(y) && !g.contains_key(
                                    y,
                                ) implies listed_in(g, visited@, y) || nodes.take(
                                i as int,
                            ).contains(y) by {
                                if seen.contains(y) {
                                    if !nodes.take(i as int).contains(y) {
                                        let x = choose|x: u64|
                                            seen.contains(x) && g.contains_key(x) && #[trigger] g[x].contains(
                                                y,
                                            );
                                        assert(visited@.contains(x));
                                    }
                                } else {
                                    let x = choose|x: u64|
                                        visited@.difference(seen).contains(x) && g.contains_key(x)
                                            && #[trigger] g[x].contains(y);
                                    assert(visited@.contains(x));
                                }
                            }
                        }
                    }
                },
            }
            i = i + 1;
        }
        proof {
            assert(nodes.take(n as int) =~= nodes);
            let s = upkeep(g, m0, next0, nodes);
            lemma_progress_frame(
                g,
                u,
                m0,
                next0,
                u,
                visited@,
                used_components@,
                index.membership(),
            );
            assert forall|x: u64| #[trigger] index.membership().contains_key(x) implies m0.contains_key(
                x,
            ) || g.contains_key(x) by {
                if !same_entry(index.membership(), m0, x) {
                }
            }
            if symmetric(g) && settled_outside(g, m0, u) {
                lemma_progress_done(
                    g,
                    u,
                    m0,
                    next0,
                    visited@,
                    used_components@,
                    index.membership(),
                );
            }
            if symmetric(g) && members_exist(g, m0) {
                lemma_progress_reuse(
                    g,
                    u,
                    m0,
                    next0,
                    visited@,
                    used_components@,
                    index.membership(),
                );
            }
            assert forall|y: u64| #[trigger]
                stale@.contains(y) <==> !g.contains_key(y) && (u.contains(y) || listed_in(
                    g,
                    s.visited,
                    y,
                )) by {
                if listed_in(g, s.visited, y) {
                    let x = choose|x: u64|
                        s.visited.contains(x) && g.contains_key(x) && #[trigger] g[x].contains(y);
                    assert(visited@.contains(x));
                }
                if visited@.contains(y) && !g.contains_key(y) && !nodes.contains(y) {
                    let x = choose|x: u64|
                        visited@.contains(x) && g.contains_key(x) && #[trigger] g[x].contains(y);
                    assert(s.visited.contains(x));
                }
            }
        }
        stale
    }
}

} // verus!
