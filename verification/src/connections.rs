//! The adjacency store: for every node the list of its neighbours, changed
//! only by one-sided connect and disconnect and by the removal of a node.

use crate::graph::{duplicate_free, lemma_push_contains};
use smallvec::SmallVec;
use std::collections::HashMap;
use vstd::prelude::*;

verus! {

broadcast use vstd::std_specs::hash::group_hash_axioms;

/// A neighbour list can take another entry while it is shorter than this.
pub const MAX_NEIGHBORS: usize = usize::MAX / 32;

/// The neighbours of one node, in the order in which they were connected.
/// The list lives in a small vector that keeps up to ten entries inline.
#[verifier::external_body]
pub struct Connections(SmallVec<[u64; 10]>);

/// The neighbours that a list holds, first to last.
pub uninterp spec fn neighbors_of(c: Connections) -> Seq<u64>;

/// `SmallVec::new`: a vector without entries.
#[verifier::external_body]
fn list_new() -> (c: Connections)
    ensures
        neighbors_of(c) == Seq::<u64>::empty(),
{
    Connections(SmallVec::new())
}

/// `SmallVec::len`: the number of entries.
#[verifier::external_body]
fn list_len(c: &Connections) -> (n: usize)
    ensures
        n == neighbors_of(*c).len(),
{
    c.0.len()
}

/// Indexing a `SmallVec`, which indexes the slice of its entries: the entry
/// at position `i`. The position must be within the list, or the index panics.
#[verifier::external_body]
pub(crate) fn list_get(c: &Connections, i: usize) -> (entity: u64)
    requires
        i < neighbors_of(*c).len(),
    ensures
        entity == neighbors_of(*c)[i as int],
{
    c.0[i]
}

/// `contains` on the slice of a `SmallVec`'s entries: whether some entry
/// equals `entity`.
#[verifier::external_body]
fn list_contains(c: &Connections, entity: u64) -> (found: bool)
    ensures
        found == neighbors_of(*c).contains(entity),
{
    c.0.contains(&entity)
}

/// `SmallVec::push`: appends one entry and keeps the others in place. It
/// panics when the capacity it would grow to overflows, which a list
/// shorter than `MAX_NEIGHBORS` cannot cause.
#[verifier::external_body]
fn list_push(c: &mut Connections, entity: u64)
    requires
        neighbors_of(*old(c)).len() < MAX_NEIGHBORS,
    ensures
        neighbors_of(*final(c)) == neighbors_of(*old(c)).push(entity),
{
    c.0.push(entity)
}

/// `SmallVec::retain` with the test `is_other`: keeps, in their order, the
/// entries that differ from `entity` and drops the rest.
#[verifier::external_body]
fn list_retain_others(c: &mut Connections, entity: u64)
    ensures
        neighbors_of(*final(c)) == without_neighbor(neighbors_of(*old(c)), entity),
{
    c.0.retain(|e| is_other(*e, entity))
}

fn is_other(e: u64, entity: u64) -> (other: bool)
    ensures
        other == (e != entity),
{
    e != entity
}

/// The list `s` after `entity` was connected: unchanged where it is already
/// there, else with `entity` at the end.
pub open spec fn with_neighbor(s: Seq<u64>, entity: u64) -> Seq<u64> {
    if s.contains(entity) {
        s
    } else {
        s.push(entity)
    }
}

/// The list `s` after `entity` was disconnected: what differs from `entity`,
/// in the same order.
pub open spec fn without_neighbor(s: Seq<u64>, entity: u64) -> Seq<u64> {
    s.filter(|e: u64| e != entity)
}

/// Connecting adds exactly `entity` to what a list contains, and keeps it
/// free of duplicates.
pub proof fn lemma_with_neighbor(s: Seq<u64>, entity: u64)
    ensures
        forall|x: u64| #[trigger]
            with_neighbor(s, entity).contains(x) <==> s.contains(x) || x == entity,
        s.no_duplicates() ==> with_neighbor(s, entity).no_duplicates(),
        s.len() <= with_neighbor(s, entity).len() <= s.len() + 1,
        with_neighbor(s, entity).len() > 0,
        with_neighbor(s, entity) != s <==> !s.contains(entity),
        with_neighbor(s, entity).len() == s.len() ==> with_neighbor(s, entity) == s,
{
    if !s.contains(entity) {
        lemma_push_contains(s, entity);
    }
}

/// Disconnecting removes exactly `entity` from what a list contains, and
/// keeps it free of duplicates.
pub proof fn lemma_without_neighbor(s: Seq<u64>, entity: u64)
    ensures
        forall|x: u64| #[trigger]
            without_neighbor(s, entity).contains(x) <==> s.contains(x) && x != entity,
        s.no_duplicates() ==> without_neighbor(s, entity).no_duplicates(),
        without_neighbor(s, entity).len() <= s.len(),
        !s.contains(entity) ==> without_neighbor(s, entity) == s,
        s.contains(entity) ==> without_neighbor(s, entity).len() < s.len(),
        without_neighbor(s, entity) != s <==> s.contains(entity),
    decreases s.len(),
{
    reveal(Seq::filter);
    let t = without_neighbor(s, entity);
    if s.len() > 0 {
        let rest = s.drop_last();
        let last = s.last();
        let r = without_neighbor(rest, entity);
        lemma_without_neighbor(rest, entity);
        assert(s =~= rest.push(last));
        lemma_push_contains(rest, last);
        if last != entity {
            assert(t == r.push(last));
            lemma_push_contains(r, last);
        }
        if s.no_duplicates() {
            assert(rest.no_duplicates());
            assert(!rest.contains(last)) by {
                if rest.contains(last) {
                    let i = choose|i: int| 0 <= i < rest.len() && rest[i] == last;
                    assert(s[i] == s[s.len() - 1]);
                }
            }
            assert(!r.contains(last));
            assert(t.no_duplicates());
        }
        if !s.contains(entity) {
            assert(t =~= s);
        }
    } else {
        assert(t =~= s);
    }
}

impl View for Connections {
    type V = Seq<u64>;

    open spec fn view(&self) -> Seq<u64> {
        neighbors_of(*self)
    }
}

impl Default for Connections {
    fn default() -> (c: Connections)
        ensures
            c@ == Seq::<u64>::empty(),
    {
        list_new()
    }
}

impl Connections {
    /// The number of neighbours.
    pub fn len(&self) -> (n: usize)
        ensures
            n == self@.len(),
    {
        list_len(self)
    }

    /// Whether the node has no neighbour.
    pub fn is_empty(&self) -> (empty: bool)
        ensures
            empty == (self@.len() == 0),
    {
        list_len(self) == 0
    }

    /// Whether `entity` is a neighbour.
    pub fn contains(&self, entity: u64) -> (found: bool)
        ensures
            found == self@.contains(entity),
    {
        list_contains(self, entity)
    }

    /// The neighbour at position `i`, or `None` past the end.
    pub fn get(&self, i: usize) -> (entity: Option<u64>)
        ensures
            entity == if i < self@.len() {
                Some(self@[i as int])
            } else {
                None
            },
    {
        if i < list_len(self) {
            Some(list_get(self, i))
        } else {
            None
        }
    }

    /// The neighbours as a vector, in their order.
    pub fn to_vec(&self) -> (v: Vec<u64>)
        ensures
            v@ == self@,
    {
        let n = list_len(self);
        let mut v: Vec<u64> = Vec::new();
        let mut i: usize = 0;
        while i < n
            invariant
                n == self@.len(),
                i <= n,
                v@ == self@.take(i as int),
            decreases n - i,
        {
            v.push(list_get(self, i));
            i = i + 1;
            assert(v@ =~= self@.take(i as int));
        }
        assert(self@.take(n as int) =~= self@);
        v
    }

    /// Adds `entity` as a neighbour unless it already is one.
    pub fn connect(&mut self, entity: u64)
        requires
            old(self)@.contains(entity) || old(self)@.len() < MAX_NEIGHBORS,
        ensures
            final(self)@ == with_neighbor(old(self)@, entity),
    {
        if list_contains(self, entity) {
            return ;
        }
        list_push(self, entity);
    }

    /// Removes `entity` from the neighbours if it is one.
    pub fn disconnect(&mut self, entity: u64)
        ensures
            final(self)@ == without_neighbor(old(self)@, entity),
    {
        list_retain_others(self, entity);
    }
}

/// The graph `g` after `a` took `b` into its list; nothing changes where
/// `a` does not exist.
pub open spec fn linked(g: Map<u64, Seq<u64>>, a: u64, b: u64) -> Map<u64, Seq<u64>> {
    if g.contains_key(a) {
        g.insert(a, with_neighbor(g[a], b))
    } else {
        g
    }
}

/// The graph `g` after `a` dropped `b` from its list; nothing changes where
/// `a` does not exist.
pub open spec fn unlinked(g: Map<u64, Seq<u64>>, a: u64, b: u64) -> Map<u64, Seq<u64>> {
    if g.contains_key(a) {
        g.insert(a, without_neighbor(g[a], b))
    } else {
        g
    }
}

/// The graph `g` after every node that `entity` lists dropped `entity`
/// from its own list; nothing changes where `entity` does not exist.
pub open spec fn detached(g: Map<u64, Seq<u64>>, entity: u64) -> Map<u64, Seq<u64>> {
    if g.contains_key(entity) {
        detached_from(g, g[entity], entity)
    } else {
        g
    }
}

/// The graph `g` after every node that `list` names dropped `entity` from
/// its own list.
pub open spec fn detached_from(g: Map<u64, Seq<u64>>, list: Seq<u64>, entity: u64) -> Map<
    u64,
    Seq<u64>,
> {
    Map::new(
        |n: u64| g.contains_key(n),
        |n: u64|
            if list.contains(n) {
                without_neighbor(g[n], entity)
            } else {
                g[n]
            },
    )
}

/// The adjacency store: the existing nodes, each with its neighbour list.
pub struct AdjacencyStore {
    nodes: HashMap<u64, Connections>,
}

impl View for AdjacencyStore {
    type V = Map<u64, Seq<u64>>;

    closed spec fn view(&self) -> Map<u64, Seq<u64>> {
        Map::new(|n: u64| self.nodes@.contains_key(n), |n: u64| self.nodes@[n]@)
    }
}

impl AdjacencyStore {
    /// No neighbour list names a node twice.
    pub open spec fn wf(&self) -> bool {
        duplicate_free(self@)
    }

    /// The store holds finitely many nodes.
    pub proof fn lemma_finite(&self)
        ensures
            self@.dom().finite(),
    {
        assert(self@.dom() =~= self.nodes@.dom());
    }

    /// A store without nodes.
    pub fn new() -> (store: AdjacencyStore)
        ensures
            store@ == Map::<u64, Seq<u64>>::empty(),
            store.wf(),
    {
        let store = AdjacencyStore { nodes: HashMap::new() };
        assert(store@ =~= Map::<u64, Seq<u64>>::empty());
        store
    }

    /// Whether the node exists.
    pub fn contains(&self, entity: u64) -> (exists: bool)
        ensures
            exists == self@.contains_key(entity),
    {
        self.nodes.contains_key(&entity)
    }

    /// The neighbour list of a node, or `None` where the node does not exist.
    pub fn get(&self, entity: u64) -> (connections: Option<&Connections>)
        ensures
            match connections {
                Some(c) => self@.contains_key(entity) && c@ == self@[entity],
                None => !self@.contains_key(entity),
            },
    {
        self.nodes.get(&entity)
    }

    /// Lets a node come into existence, with an empty neighbour list. A node
    /// that exists already keeps its list. Returns whether the node is new.
    pub fn insert(&mut self, entity: u64) -> (added: bool)
        requires
            old(self).wf(),
        ensures
            final(self).wf(),
            added == !old(self)@.contains_key(entity),
            final(self)@ == if added {
                old(self)@.insert(entity, Seq::<u64>::empty())
            } else {
                old(self)@
            },
    {
        if self.nodes.contains_key(&entity) {
            return false;
        }
        self.nodes.insert(entity, Connections::default());
        assert(self@ =~= old(self)@.insert(entity, Seq::<u64>::empty()));
        true
    }

    /// One side of a connect: `a` takes `b` into its list unless it is there.
    /// Returns whether the list of `a` changed, or `None` where `a` does not
    /// exist; then nothing changes.
    pub fn connect(&mut self, a: u64, b: u64) -> (changed: Option<bool>)
        requires
            old(self).wf(),
            old(self)@.contains_key(a) ==> old(self)@[a].contains(b) || old(self)@[a].len()
                < MAX_NEIGHBORS,
        ensures
            final(self).wf(),
            final(self)@ == linked(old(self)@, a, b),
            changed == if old(self)@.contains_key(a) {
                Some(final(self)@[a] != old(self)@[a])
            } else {
                None
            },
    {
        match self.nodes.remove(&a) {
            Some(mut connections) => {
                let changed = !connections.contains(b);
                connections.connect(b);
                self.nodes.insert(a, connections);
                proof {
                    lemma_with_neighbor(old(self)@[a], b);
                    assert(self@ =~= linked(old(self)@, a, b));
                }
                Some(changed)
            },
            None => {
                assert(self@ =~= old(self)@);
                None
            },
        }
    }

    /// One side of a disconnect: `a` drops `b` from its list if it is there.
    /// Returns whether the list of `a` changed, or `None` where `a` does not
    /// exist; then nothing changes.
    pub fn disconnect(&mut self, a: u64, b: u64) -> (changed: Option<bool>)
        requires
            old(self).wf(),
        ensures
            final(self).wf(),
            final(self)@ == unlinked(old(self)@, a, b),
            changed == if old(self)@.contains_key(a) {
                Some(final(self)@[a] != old(self)@[a])
            } else {
                None
            },
    {
        match self.nodes.remove(&a) {
            Some(mut connections) => {
                let changed = connections.contains(b);
                connections.disconnect(b);
                self.nodes.insert(a, connections);
                proof {
                    lemma_without_neighbor(old(self)@[a], b);
                    assert(self@ =~= unlinked(old(self)@, a, b));
                }
                Some(changed)
            },
            None => {
                assert(self@ =~= old(self)@);
                None
            },
        }
    }

    /// Lets a node go out of existence: first every node that it lists drops
    /// it, then its own list goes. Returns the notices of the nodes whose
    /// lists changed, or `None` where the node did not exist.
    pub fn remove(&mut self, entity: u64) -> (notices: Option<Vec<ConnectionUpdateEvent>>)
        requires
            old(self).wf(),
        ensures
            final(self).wf(),
            final(self)@ == detached(old(self)@, entity).remove(entity),
            match notices {
                Some(notices) => old(self)@.contains_key(entity) && notices@ == detach_notices(
                    old(self)@,
                    old(self)@[entity],
                    entity,
                ),
                None => !old(self)@.contains_key(entity),
            },
    {
        let notices = Connections::on_remove(self, entity);
        assert(self@.contains_key(entity) == old(self)@.contains_key(entity));
        assert(self@.contains_key(entity) == self.nodes@.contains_key(entity));
        let existed = match self.nodes.remove(&entity) {
            Some(_) => true,
            None => false,
        };
        assert(self@ =~= detached(old(self)@, entity).remove(entity));
        if existed {
            Some(notices)
        } else {
            None
        }
    }
}

/// The notices after `entity` was noted: unchanged where it is noted
/// already, else with a notice of `entity` at the end.
pub open spec fn noted(
    updates: Seq<ConnectionUpdateEvent>,
    entity: u64,
) -> Seq<ConnectionUpdateEvent> {
    if updates.contains(ConnectionUpdateEvent(entity)) {
        updates
    } else {
        updates.push(ConnectionUpdateEvent(entity))
    }
}

/// Noting a node keeps what was noted, adds that node and nothing else,
/// and notes nothing twice.
pub proof fn lemma_noted(updates: Seq<ConnectionUpdateEvent>, entity: u64)
    ensures
        forall|x: u64| #[trigger]
            noted(updates, entity).contains(ConnectionUpdateEvent(x)) <==> updates.contains(
                ConnectionUpdateEvent(x),
            ) || x == entity,
        updates.no_duplicates() ==> noted(updates, entity).no_duplicates(),
        updates.len() <= noted(updates, entity).len() <= updates.len() + 1,
{
    if !updates.contains(ConnectionUpdateEvent(entity)) {
        lemma_push_contains(updates, ConnectionUpdateEvent(entity));
    }
}

/// Notes that the list of `entity` has changed, once however often it is
/// noted.
pub fn note(updates: &mut Vec<ConnectionUpdateEvent>, entity: u64)
    ensures
        final(updates)@ == noted(old(updates)@, entity),
{
    let n = updates.len();
    let mut i: usize = 0;
    while i < n
        invariant
            n == updates@.len(),
            i <= n,
            *updates == *old(updates),
            !updates@.take(i as int).contains(ConnectionUpdateEvent(entity)),
        decreases n - i,
    {
        if updates[i].0 == entity {
            assert(updates@[i as int] == ConnectionUpdateEvent(entity));
            return ;
        }
        proof {
            assert(updates@.take(i + 1) =~= updates@.take(i as int).push(updates@[i as int]));
            lemma_push_contains(updates@.take(i as int), updates@[i as int]);
        }
        i = i + 1;
    }
    assert(updates@.take(n as int) =~= updates@);
    updates.push(ConnectionUpdateEvent(entity));
}

/// The notices when every node that `list` names drops `entity` from its
/// own list: each node other than `entity` whose list changes is noted, in
/// the order of `list`.
pub open spec fn detach_notices(
    g: Map<u64, Seq<u64>>,
    list: Seq<u64>,
    entity: u64,
) -> Seq<ConnectionUpdateEvent>
    decreases list.len(),
{
    if list.len() == 0 {
        Seq::<ConnectionUpdateEvent>::empty()
    } else {
        let rest = detach_notices(g, list.drop_last(), entity);
        let other = list.last();
        if other != entity && g.contains_key(other) && g[other].contains(entity) {
            noted(rest, other)
        } else {
            rest
        }
    }
}

/// The notices of a removal name exactly the other nodes whose lists it
/// changes, each once, and there are no more of them than the list is long.
pub proof fn lemma_detach_notices(g: Map<u64, Seq<u64>>, list: Seq<u64>, entity: u64)
    ensures
        forall|x: u64| #[trigger]
            detach_notices(g, list, entity).contains(ConnectionUpdateEvent(x)) <==> x != entity
                && g.contains_key(x) && list.contains(x) && g[x].contains(entity),
        detach_notices(g, list, entity).no_duplicates(),
        detach_notices(g, list, entity).len() <= list.len(),
    decreases list.len(),
{
    if list.len() > 0 {
        let short = list.drop_last();
        let other = list.last();
        lemma_detach_notices(g, short, entity);
        lemma_noted(detach_notices(g, short, entity), other);
        assert(list =~= short.push(other));
        lemma_push_contains(short, other);
    }
}

impl Connections {
    /// What has to happen before a node goes: every node that `entity` lists
    /// drops `entity` from its own list. A listed node that does not exist is
    /// passed over. Returns the notices of the other nodes whose lists
    /// changed.
    pub fn on_remove(store: &mut AdjacencyStore, entity: u64) -> (notices: Vec<
        ConnectionUpdateEvent,
    >)
        requires
            old(store).wf(),
        ensures
            final(store).wf(),
            final(store)@ == detached(old(store)@, entity),
            notices@ == if old(store)@.contains_key(entity) {
                detach_notices(old(store)@, old(store)@[entity], entity)
            } else {
                Seq::<ConnectionUpdateEvent>::empty()
            },
    {
        let mut notices: Vec<ConnectionUpdateEvent> = Vec::new();
        let connections = match store.get(entity) {
            Some(c) => c.to_vec(),
            None => {
                return notices;
            },
        };
        let n = connections.len();
        let mut i: usize = 0;
        assert(connections@.take(0) =~= Seq::<u64>::empty());
        while i < n
            invariant
                store.wf(),
                n == connections@.len(),
                i <= n,
                connections@ == old(store)@[entity],
                old(store)@.contains_key(entity),
                store@ == detached_from(old(store)@, connections@.take(i as int), entity),
                notices@ == detach_notices(old(store)@, connections@.take(i as int), entity),
            decreases n - i,
        {
            let other = connections[i];
            let changed = store.disconnect(other, entity);
            if other != entity {
                if let Some(true) = changed {
                    note(&mut notices, other);
                }
            }
            proof {
                let g = old(store)@;
                let short = connections@.take(i as int);
                let long = connections@.take(i + 1);
                assert(long =~= short.push(other));
                assert(long.drop_last() =~= short);
                lemma_push_contains(short, other);
                if g.contains_key(other) {
                    lemma_without_neighbor(g[other], entity);
                    lemma_without_neighbor(without_neighbor(g[other], entity), entity);
                    if other != entity && g[other].contains(entity) && short.contains(other) {
                        // noted when it was first met
                        lemma_detach_notices(g, short, entity);
                    }
                }
                assert(store@ =~= detached_from(g, long, entity));
            }
            i = i + 1;
        }
        assert(connections@.take(n as int) =~= connections@);
        notices
    }
}

/// Notice that the neighbour list of a node has changed.
#[derive(Clone, Copy, Debug, PartialEq, Eq, Structural)]
pub struct ConnectionUpdateEvent(pub u64);

} // verus!
