//! One tick: the requests are applied to the adjacency store, then the
//! membership is brought up to date and the components left without a
//! member are destroyed.

use crate::connected_components::{
    lemma_notified, listed_in, nodes_of, notified, ConnectedComponent, InConnectedComponent,
    MembershipIndex,
};
use crate::connections::{detach_notices, AdjacencyStore, ConnectionUpdateEvent, MAX_NEIGHBORS};
use crate::graph::{
    continuous, partition_correct, same_entry, settled_outside, symmetric, thrifty, touched,
    upkeep,
};
use crate::laws::{
    lemma_after_connects, lemma_after_disconnects, lemma_connect_notices,
    lemma_disconnect_notices, lemma_removal_detaches, lemma_removal_notices,
    lemma_removal_settled, lemma_settled_after_edits, lemma_spawn_keeps_partition, removed,
    unlisted,
};
use crate::messages::{
    after_connects, after_disconnects, changed, connect_notices, connect_pairs,
    disconnect_notices, disconnect_pairs, has_room_for, missing_of_pairs, named_in, names,
    ConnectMessage, DisconnectMessage,
};
use crate::partition::members_exist;
use vstd::prelude::*;

verus! {

/// The two stages of a tick.
#[derive(Clone, Copy, Debug, Hash, PartialEq, Eq, Structural)]
pub enum EntityGraphSystem {
    /// The requests are applied to the neighbour lists.
    UpdateGraph,
    /// The membership is brought up to date.
    ComputeConnectedComponents,
}

impl EntityGraphSystem {
    /// The stages in the order in which a tick runs them.
    pub fn get_config() -> (order: [EntityGraphSystem; 2])
        ensures
            order[0] == EntityGraphSystem::UpdateGraph,
            order[1] == EntityGraphSystem::ComputeConnectedComponents,
    {
        [EntityGraphSystem::UpdateGraph, EntityGraphSystem::ComputeConnectedComponents]
    }
}

/// Every component has a member.
pub open spec fn no_orphans(members: Map<u64, Set<u64>>) -> bool {
    forall|c: u64| #[trigger] members.contains_key(c) ==> !members[c].is_empty()
}

/// The nodes whose lists the requests of a tick change: by its connect
/// requests, or after them by its disconnect requests.
pub open spec fn mutated(
    g: Map<u64, Seq<u64>>,
    connects: Seq<ConnectMessage>,
    disconnects: Seq<DisconnectMessage>,
) -> Set<u64> {
    Set::new(
        |x: u64|
            changed(g, after_connects(g, connects), x) || changed(
                after_connects(g, connects),
                after_disconnects(after_connects(g, connects), disconnects),
                x,
            ),
    )
}

/// The notices of a tick: of the connect requests first, then of the
/// disconnect requests; each node whose list changed is noted once, where
/// its list first changes.
pub open spec fn notices(
    g: Map<u64, Seq<u64>>,
    connects: Seq<ConnectMessage>,
    disconnects: Seq<DisconnectMessage>,
) -> Seq<ConnectionUpdateEvent> {
    disconnect_notices(
        after_connects(g, connects),
        connect_notices(g, Seq::<ConnectionUpdateEvent>::empty(), connects),
        disconnects,
    )
}

/// The notices of the removal of `entity`: the nodes that stay and whose
/// lists it changes; none where `entity` does not exist.
pub open spec fn removal_notices(g: Map<u64, Seq<u64>>, entity: u64) -> Seq<
    ConnectionUpdateEvent,
> {
    if g.contains_key(entity) {
        detach_notices(g, g[entity], entity)
    } else {
        Seq::<ConnectionUpdateEvent>::empty()
    }
}

/// The graph and the membership of its nodes.
pub struct EntityGraph {
    /// The neighbour lists.
    pub connections: AdjacencyStore,
    /// The membership index.
    pub components: MembershipIndex,
}

/// What a tick reports: its notices, and what it found amiss, none of it
/// fatal.
pub struct TickReport {
    /// The notices of the tick: the nodes whose lists changed.
    pub notices: Vec<ConnectionUpdateEvent>,
    /// The sides of requests that do not exist, connect requests first.
    pub missing: Vec<u64>,
    /// The listed nodes that a traversal found not to exist.
    pub stale: Vec<u64>,
}

impl EntityGraph {
    /// Both parts are well formed, and only existing nodes are members.
    pub open spec fn wf(&self) -> bool {
        &&& self.connections.wf()
        &&& self.components.wf()
        &&& members_exist(self.connections@, self.components.membership())
    }

    /// A graph without nodes.
    pub fn new() -> (graph: EntityGraph)
        ensures
            graph.wf(),
            graph.connections@ == Map::<u64, Seq<u64>>::empty(),
            graph.components.membership() == Map::<u64, u64>::empty(),
            graph.components.members() == Map::<u64, Set<u64>>::empty(),
            graph.components.next() == 0,
    {
        EntityGraph { connections: AdjacencyStore::new(), components: MembershipIndex::new() }
    }

    /// Lets a node come into existence, without neighbours and without
    /// membership. Returns whether the node is new.
    pub fn spawn(&mut self, entity: u64) -> (added: bool)
        requires
            old(self).wf(),
        ensures
            final(self).wf(),
            added == !old(self).connections@.contains_key(entity),
            final(self).connections@ == if added {
                old(self).connections@.insert(entity, Seq::<u64>::empty())
            } else {
                old(self).connections@
            },
            final(self).components == old(self).components,
            added && unlisted(old(self).connections@, entity) && symmetric(old(self).connections@)
                && partition_correct(old(self).connections@, old(self).components.membership())
                ==> symmetric(final(self).connections@) && partition_correct(
                final(self).connections@,
                final(self).components.membership(),
            ),
    {
        proof {
            let g = self.connections@;
            let m = self.components.membership();
            if !g.contains_key(entity) && unlisted(g, entity) && symmetric(g) && partition_correct(
                g,
                m,
            ) {
                lemma_spawn_keeps_partition(g, m, entity);
            }
        }
        self.connections.insert(entity)
    }

    /// Lets a node go out of existence: its neighbours drop it and it loses
    /// its membership. Then the membership of the nodes that stay is brought
    /// up to date from the nodes whose lists changed, and the components left
    /// without a member are destroyed. Returns the listed nodes that the
    /// upkeep found not to exist, or `None` where the node did not exist.
    pub fn despawn(&mut self, entity: u64) -> (stale: Option<Vec<u64>>)
        requires
            old(self).wf(),
            old(self).connections@.contains_key(entity) ==> old(self).components.next() + old(self).connections@[entity].len() <= u64::MAX,
        ensures
            final(self).wf(),
            stale is Some == old(self).connections@.contains_key(entity),
            final(self).connections@ == removed(old(self).connections@, entity),
            final(self).components.membership() == upkeep(
                final(self).connections@,
                old(self).components.membership().remove(entity),
                old(self).components.next(),
                nodes_of(removal_notices(old(self).connections@, entity)),
            ).membership,
            final(self).components.next() == upkeep(
                final(self).connections@,
                old(self).components.membership().remove(entity),
                old(self).components.next(),
                nodes_of(removal_notices(old(self).connections@, entity)),
            ).next,
            no_orphans(final(self).components.members()),
            !final(self).components.membership().contains_key(entity),
            stale is Some && symmetric(old(self).connections@) ==> forall|x: u64| #[trigger]
                final(self).connections@.contains_key(x) ==> !final(self).connections@[x].contains(
                    entity,
                ),
            symmetric(old(self).connections@) ==> symmetric(final(self).connections@),
            symmetric(old(self).connections@) && partition_correct(
                old(self).connections@,
                old(self).components.membership(),
            ) ==> partition_correct(
                final(self).connections@,
                final(self).components.membership(),
            ),
            forall|x: u64|
                !touched(
                    final(self).connections@,
                    notified(removal_notices(old(self).connections@, entity)),
                    x,
                ) ==> #[trigger] same_entry(
                    final(self).components.membership(),
                    old(self).components.membership().remove(entity),
                    x,
                ),
            match stale {
                Some(stale) => stale@.no_duplicates() && forall|y: u64| #[trigger]
                    stale@.contains(y) <==> !final(self).connections@.contains_key(y) && listed_in(
                        final(self).connections@,
                        upkeep(
                            final(self).connections@,
                            old(self).components.membership().remove(entity),
                            old(self).components.next(),
                            nodes_of(removal_notices(old(self).connections@, entity)),
                        ).visited,
                        y,
                    ),
                None => true,
            },
    {
        let ghost g = self.connections@;
        let ghost m = self.components.membership();
        let removal = self.connections.remove(entity);
        let existed = removal.is_some();
        let notices = match removal {
            Some(notices) => notices,
            None => Vec::new(),
        };
        let _ = self.components.remove(entity);
        proof {
            let h = self.connections@;
            let m1 = m.remove(entity);
            assert(notices@ == removal_notices(g, entity));
            lemma_notified(notices@);
            assert(members_exist(h, m1)) by {
                assert forall|a: u64| #[trigger] m1.contains_key(a) implies h.contains_key(a) by {
                    assert(m.contains_key(a) && g.contains_key(a) && a != entity);
                }
            }
            if existed {
                lemma_removal_notices(g, entity);
                if symmetric(g) {
                    lemma_removal_detaches(g, entity);
                    if partition_correct(g, m) {
                        lemma_removal_settled(g, m, entity, notified(notices@));
                    }
                }
            } else {
                assert(h =~= g);
                assert(m1 =~= m);
                if symmetric(g) && partition_correct(g, m) {
                    lemma_settled_after_edits(g, g, m, m, notified(notices@));
                }
            }
        }
        let stale = ConnectedComponentPlugin.run(&notices, &self.connections, &mut self.components);
        proof {
            assert(!self.connections@.contains_key(entity));
            assert(!self.components.membership().contains_key(entity));
            if existed {
                assert forall|y: u64| #[trigger]
                    stale@.contains(y) <==> !self.connections@.contains_key(y) && listed_in(
                        self.connections@,
                        upkeep(
                            self.connections@,
                            m.remove(entity),
                            old(self).components.next(),
                            nodes_of(notices@),
                        ).visited,
                        y,
                    ) by {
                    if notified(notices@).contains(y) {
                        assert(self.connections@.contains_key(y));
                    }
                }
            }
        }
        if existed {
            Some(stale)
        } else {
            None
        }
    }
}

/// The stage that applies the requests to the neighbour lists.
pub struct ConnectionsPlugin;

impl ConnectionsPlugin {
    /// Runs the stage: first all connect requests are applied, then all
    /// disconnect requests, so that a pair named in both ends the tick
    /// disconnected. Returns the notices, one for every node whose list
    /// changed, and the sides of requests that do not exist, those of connect
    /// requests first.
    pub fn run(
        &self,
        store: &mut AdjacencyStore,
        connects: &Vec<ConnectMessage>,
        disconnects: &Vec<DisconnectMessage>,
    ) -> (result: (Vec<ConnectionUpdateEvent>, Vec<u64>))
        requires
            old(store).wf(),
            has_room_for(old(store)@, connect_pairs(connects@)),
        ensures
            final(store).wf(),
            final(store)@ == after_disconnects(after_connects(old(store)@, connects@), disconnects@),
            final(store)@.dom() == old(store)@.dom(),
            symmetric(old(store)@) ==> symmetric(final(store)@),
            result.0@ == notices(old(store)@, connects@, disconnects@),
            result.0@.no_duplicates(),
            result.0@.len() <= 2 * connects@.len() + 2 * disconnects@.len(),
            notified(result.0@) == mutated(old(store)@, connects@, disconnects@),
            forall|x: u64|
                final(store)@.contains_key(x) && !notified(result.0@).contains(x)
                    ==> #[trigger] final(store)@[x] == old(store)@[x],
            forall|x: u64| #[trigger] notified(result.0@).contains(x) ==> old(store)@.contains_key(x),
            result.1@ == missing_of_pairs(old(store)@, connect_pairs(connects@)) + missing_of_pairs(
                old(store)@,
                disconnect_pairs(disconnects@),
            ),
    {
        let ghost g0 = store@;
        let mut updates: Vec<ConnectionUpdateEvent> = Vec::new();
        let mut missing = ConnectMessage::on_message(connects, &mut updates, store);
        let ghost g1 = store@;
        let ghost u1 = updates@;
        let mut missing_disconnects = DisconnectMessage::on_message(disconnects, &mut updates, store);
        let ghost g2 = store@;
        proof {
            lemma_after_connects(g0, connects@);
            lemma_after_disconnects(g1, disconnects@);
            lemma_connect_notices(g0, Seq::<ConnectionUpdateEvent>::empty(), connects@);
            lemma_disconnect_notices(g1, u1, disconnects@);
            lemma_missing_same_nodes(g0, g1, disconnect_pairs(disconnects@));
            lemma_notified(updates@);
            assert(notified(updates@) =~= mutated(g0, connects@, disconnects@)) by {
                assert forall|x: u64|
                    notified(updates@).contains(x) == mutated(g0, connects@, disconnects@).contains(
                        x,
                    ) by {
                    assert(g0.dom().contains(x) == g1.dom().contains(x));
                    assert(!Seq::<ConnectionUpdateEvent>::empty().contains(
                        ConnectionUpdateEvent(x),
                    ));
                }
            }
            assert forall|x: u64|
                g2.contains_key(x) && !notified(updates@).contains(x) implies #[trigger] g2[x]
                == g0[x] by {
                assert(g0.dom().contains(x) && g1.dom().contains(x));
            }
        }
        missing.append(&mut missing_disconnects);
        (updates, missing)
    }
}

/// The stage that brings the membership up to date.
pub struct ConnectedComponentPlugin;

impl ConnectedComponentPlugin {
    /// Runs the stage: the membership is recomputed from the updated nodes
    /// (see `InConnectedComponent::update`), then the components left
    /// without a member are destroyed. Returns the listed nodes that were
    /// found not to exist.
    pub fn run(
        &self,
        updates: &Vec<ConnectionUpdateEvent>,
        store: &AdjacencyStore,
        index: &mut MembershipIndex,
    ) -> (stale: Vec<u64>)
        requires
            old(index).wf(),
            old(index).next() + updates@.len() <= u64::MAX,
        ensures
            final(index).wf(),
            no_orphans(final(index).members()),
            final(index).membership() == upkeep(
                store@,
                old(index).membership(),
                old(index).next(),
                nodes_of(updates@),
            ).membership,
            final(index).next() == upkeep(
                store@,
                old(index).membership(),
                old(index).next(),
                nodes_of(updates@),
            ).next,
            old(index).next() <= final(index).next() <= old(index).next() + updates@.len(),
            symmetric(store@) && members_exist(store@, old(index).membership()) ==> continuous(
                store@,
                old(index).membership(),
                final(index).membership(),
                old(index).next(),
            ) && thrifty(
                store@,
                old(index).membership(),
                final(index).membership(),
                old(index).next(),
                notified(updates@),
            ),
            stale@.no_duplicates(),
            forall|y: u64| #[trigger]
                stale@.contains(y) <==> !store@.contains_key(y) && (notified(updates@).contains(y)
                    || listed_in(
                    store@,
                    upkeep(
                        store@,
                        old(index).membership(),
                        old(index).next(),
                        nodes_of(updates@),
                    ).visited,
                    y,
                )),
            forall|c: u64| #[trigger]
                final(index).members().contains_key(c) ==> old(index).members().contains_key(c)
                    || old(index).next() <= c < final(index).next(),
            forall|x: u64|
                !touched(store@, notified(updates@), x) ==> #[trigger] same_entry(
                    final(index).membership(),
                    old(index).membership(),
                    x,
                ),
            symmetric(store@) && settled_outside(
                store@,
                old(index).membership(),
                notified(updates@),
            ) ==> partition_correct(store@, final(index).membership()),
            forall|x: u64| #[trigger]
                final(index).membership().contains_key(x) ==> old(index).membership().contains_key(
                    x,
                ) || store@.contains_key(x),
            symmetric(store@) ==> forall|x: u64|
                notified(updates@).contains(x) && store@.contains_key(x) && store@[x].len() == 0
                    ==> !#[trigger] final(index).membership().contains_key(x),
    {
        let stale = InConnectedComponent::update(updates, store, index);
        ConnectedComponent::update(index);
        stale
    }
}

/// The tick as a whole: both stages, in their order.
pub struct EntityGraphPlugin;

/// Whether the list of `entity`, if it exists, can take `additional` more
/// entries.
fn fits(store: &AdjacencyStore, entity: u64, additional: usize) -> (ok: bool)
    ensures
        ok == (store@.contains_key(entity) ==> store@[entity].len() + additional
            <= MAX_NEIGHBORS),
{
    match store.get(entity) {
        Some(connections) => additional <= MAX_NEIGHBORS && connections.len() <= MAX_NEIGHBORS
            - additional,
        None => true,
    }
}

impl EntityGraphPlugin {
    /// Whether the limits of the machine allow the tick: the lists of the
    /// nodes to be connected have room, and there are identities left for
    /// the components that the tick may create.
    pub fn can_run(
        &self,
        graph: &EntityGraph,
        connects: &Vec<ConnectMessage>,
        disconnects: &Vec<DisconnectMessage>,
    ) -> (ok: bool)
        ensures
            ok == (has_room_for(graph.connections@, connect_pairs(connects@))
                && graph.components.next() + 2 * connects@.len() + 2 * disconnects@.len()
                <= u64::MAX),
    {
        let n = connects.len();
        let needed: u128 = graph.components.next_component() as u128 + 2 * (n as u128) + 2 * (
        disconnects.len() as u128);
        if needed > u64::MAX as u128 {
            return false;
        }
        let ghost g = graph.connections@;
        let ghost pairs = connect_pairs(connects@);
        let mut i: usize = 0;
        while i < n
            invariant
                n == connects@.len(),
                i <= n,
                g == graph.connections@,
                pairs == connect_pairs(connects@),
                forall|k: int, x: u64|
                    0 <= k < i && names(#[trigger] pairs[k], x) && g.contains_key(x) ==> (
                    #[trigger] g[x]).len() + n <= MAX_NEIGHBORS,
            decreases n - i,
        {
            let (a, b) = connects[i].0;
            assert(pairs[i as int] == (a, b));
            if !fits(&graph.connections, a, n) || !fits(&graph.connections, b, n) {
                assert(names(pairs[i as int], a) && names(pairs[i as int], b));
                assert(named_in(pairs, a) && named_in(pairs, b));
                return false;
            }
            i = i + 1;
        }
        assert forall|x: u64| g.contains_key(x) && named_in(pairs, x) implies (#[trigger] g[x]).len()
            + pairs.len() <= MAX_NEIGHBORS by {
            let k = choose|k: int| 0 <= k < pairs.len() && names(#[trigger] pairs[k], x);
        }
        true
    }

    /// Runs one tick. First all connect requests are applied, then all
    /// disconnect requests, so that a pair named in both ends the tick
    /// disconnected. Every side that exists is noted as changed, and from
    /// the noted nodes the membership is brought up to date. At last the
    /// components left without a member are destroyed.
    pub fn run(
        &self,
        graph: &mut EntityGraph,
        connects: &Vec<ConnectMessage>,
        disconnects: &Vec<DisconnectMessage>,
    ) -> (report: TickReport)
        requires
            old(graph).wf(),
            has_room_for(old(graph).connections@, connect_pairs(connects@)),
            old(graph).components.next() + 2 * connects@.len() + 2 * disconnects@.len()
                <= u64::MAX,
        ensures
            final(graph).wf(),
            final(graph).connections@ == after_disconnects(
                after_connects(old(graph).connections@, connects@),
                disconnects@,
            ),
            symmetric(old(graph).connections@) ==> symmetric(final(graph).connections@),
            symmetric(old(graph).connections@) && partition_correct(
                old(graph).connections@,
                old(graph).components.membership(),
            ) ==> partition_correct(
                final(graph).connections@,
                final(graph).components.membership(),
            ),
            no_orphans(final(graph).components.members()),
            final(graph).components.membership() == upkeep(
                final(graph).connections@,
                old(graph).components.membership(),
                old(graph).components.next(),
                nodes_of(notices(old(graph).connections@, connects@, disconnects@)),
            ).membership,
            final(graph).components.next() == upkeep(
                final(graph).connections@,
                old(graph).components.membership(),
                old(graph).components.next(),
                nodes_of(notices(old(graph).connections@, connects@, disconnects@)),
            ).next,
            symmetric(old(graph).connections@) ==> continuous(
                final(graph).connections@,
                old(graph).components.membership(),
                final(graph).components.membership(),
                old(graph).components.next(),
            ) && thrifty(
                final(graph).connections@,
                old(graph).components.membership(),
                final(graph).components.membership(),
                old(graph).components.next(),
                mutated(old(graph).connections@, connects@, disconnects@),
            ),
            forall|x: u64|
                !touched(
                    final(graph).connections@,
                    mutated(old(graph).connections@, connects@, disconnects@),
                    x,
                ) ==> #[trigger] same_entry(
                    final(graph).components.membership(),
                    old(graph).components.membership(),
                    x,
                ),
            old(graph).components.next() <= final(graph).components.next() <= old(graph).components.next() + 2 * connects@.len() + 2 * disconnects@.len(),
            forall|c: u64| #[trigger]
                final(graph).components.members().contains_key(c) ==> old(graph).components.members().contains_key(c) || old(graph).components.next() <= c
                    < final(graph).components.next(),
            report.notices@ == notices(old(graph).connections@, connects@, disconnects@),
            report.missing@ == missing_of_pairs(old(graph).connections@, connect_pairs(connects@))
                + missing_of_pairs(old(graph).connections@, disconnect_pairs(disconnects@)),
            report.stale@.no_duplicates(),
            forall|y: u64| #[trigger]
                report.stale@.contains(y) <==> !final(graph).connections@.contains_key(y)
                    && listed_in(
                    final(graph).connections@,
                    upkeep(
                        final(graph).connections@,
                        old(graph).components.membership(),
                        old(graph).components.next(),
                        nodes_of(notices(old(graph).connections@, connects@, disconnects@)),
                    ).visited,
                    y,
                ),
    {
        let ghost g0 = graph.connections@;
        let ghost m0 = graph.components.membership();
        let (updates, missing) = ConnectionsPlugin.run(&mut graph.connections, connects, disconnects);
        proof {
            let g2 = graph.connections@;
            if symmetric(g0) && partition_correct(g0, m0) {
                assert forall|x: u64| #[trigger] g2.contains_key(x) implies g0.contains_key(x) by {
                    assert(g0.dom().contains(x));
                }
                assert forall|x: u64, y: u64|
                    g2.contains_key(x) && !notified(updates@).contains(x) && #[trigger] crate::graph::has_edge(
                        g0,
                        x,
                        y,
                    ) implies g2.contains_key(y) by {
                    assert(g2.dom().contains(y));
                }
                lemma_settled_after_edits(g0, g2, m0, m0, notified(updates@));
            }
            assert(members_exist(g2, m0)) by {
                assert forall|a: u64| #[trigger] m0.contains_key(a) implies g2.contains_key(a) by {
                    assert(g0.dom().contains(a));
                }
            }
        }
        let stale = ConnectedComponentPlugin.run(&updates, &graph.connections, &mut graph.components);
        TickReport { notices: updates, missing, stale }
    }
}

/// Which sides are missing depends only on which nodes exist.
pub proof fn lemma_missing_same_nodes(
    g: Map<u64, Seq<u64>>,
    h: Map<u64, Seq<u64>>,
    pairs: Seq<(u64, u64)>,
)
    requires
        g.dom() == h.dom(),
    ensures
        missing_of_pairs(g, pairs) == missing_of_pairs(h, pairs),
    decreases pairs.len(),
{
    if pairs.len() > 0 {
        lemma_missing_same_nodes(g, h, pairs.drop_last());
        assert(g.dom().contains(pairs.last().0) == h.dom().contains(pairs.last().0));
        assert(g.dom().contains(pairs.last().1) == h.dom().contains(pairs.last().1));
    }
}

} // verus!
