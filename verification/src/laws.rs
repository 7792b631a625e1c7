//! What holds of the graph across requests, ticks and removals: symmetry
//! stays, changes are noted, and a membership that was the partition into
//! connected components stays right wherever the noted nodes do not reach.

use crate::connections::{
    detach_notices, detached, lemma_detach_notices, lemma_noted, lemma_with_neighbor,
    lemma_without_neighbor, linked, unlinked, ConnectionUpdateEvent,
};
use crate::graph::{
    closed_under_edges, continuous, duplicate_free, has_edge, near, thrifty,
    lemma_reachable_exist, lemma_reachable_refl, lemma_reachable_step,
    lemma_reachable_sym, lemma_reachable_trans, lemma_reachable_transfers, partition_correct,
    reachable, same_component, same_entry, settled_outside, symmetric, touched,
};
use crate::messages::{
    after_connects, after_disconnects, changed, connect_notices, connect_pairs, connected,
    disconnect_notices, disconnect_pairs, disconnected, named_in, names, ConnectMessage,
    DisconnectMessage,
};
use crate::partition::{members_exist, older_than};
use vstd::prelude::*;

verus! {

/// After `a` and `b` were connected, an existing node lists what it listed
/// before and, if it is one of the two, the other.
pub proof fn lemma_connected_lists(g: Map<u64, Seq<u64>>, a: u64, b: u64)
    ensures
        connected(g, a, b).dom() == g.dom(),
        forall|x: u64, y: u64|
            g.contains_key(x) ==> (#[trigger] connected(g, a, b)[x].contains(y) <==> g[x].contains(
                y,
            ) || (x == a && y == b) || (x == b && y == a)),
        forall|x: u64| x != a && x != b && g.contains_key(x) ==> #[trigger] connected(g, a, b)[x]
            == g[x],
        forall|x: u64|
            g.contains_key(x) ==> g[x].len() <= (#[trigger] connected(g, a, b)[x]).len()
                <= g[x].len() + 1,
        forall|x: u64|
            g.contains_key(x) && (#[trigger] connected(g, a, b)[x]).len() == g[x].len()
                ==> connected(g, a, b)[x] == g[x],
        duplicate_free(g) ==> duplicate_free(connected(g, a, b)),
{
    let h = linked(g, a, b);
    let k = connected(g, a, b);
    lemma_with_neighbor(g[a], b);
    lemma_with_neighbor(h[b], a);
    if a == b && g.contains_key(a) {
        assert(h[a].contains(a));
    }
    assert(h.dom() =~= g.dom());
    assert(k.dom() =~= g.dom());
    assert forall|x: u64, y: u64| g.contains_key(x) implies (#[trigger] k[x].contains(y)
        <==> g[x].contains(y) || (x == a && y == b) || (x == b && y == a)) by {}
    if duplicate_free(g) {
        assert forall|x: u64| k.contains_key(x) implies (#[trigger] k[x]).no_duplicates() by {
            assert(g.contains_key(x));
            assert(g[x].no_duplicates());
            assert(h[x].no_duplicates());
        }
    }
}

/// After `a` and `b` were disconnected, an existing node lists what it
/// listed before, but not the other of the two if it is one of them.
pub proof fn lemma_disconnected_lists(g: Map<u64, Seq<u64>>, a: u64, b: u64)
    ensures
        disconnected(g, a, b).dom() == g.dom(),
        forall|x: u64, y: u64|
            g.contains_key(x) ==> (#[trigger] disconnected(g, a, b)[x].contains(y)
                <==> g[x].contains(y) && !(x == a && y == b) && !(x == b && y == a)),
        forall|x: u64|
            x != a && x != b && g.contains_key(x) ==> #[trigger] disconnected(g, a, b)[x] == g[x],
        forall|x: u64|
            g.contains_key(x) ==> (#[trigger] disconnected(g, a, b)[x]).len() <= g[x].len(),
        forall|x: u64|
            g.contains_key(x) && (#[trigger] disconnected(g, a, b)[x]).len() == g[x].len()
                ==> disconnected(g, a, b)[x] == g[x],
        duplicate_free(g) ==> duplicate_free(disconnected(g, a, b)),
{
    let h = unlinked(g, a, b);
    let k = disconnected(g, a, b);
    lemma_without_neighbor(g[a], b);
    lemma_without_neighbor(h[b], a);
    assert(h.dom() =~= g.dom());
    assert(k.dom() =~= g.dom());
    assert forall|x: u64, y: u64| g.contains_key(x) implies (#[trigger] k[x].contains(y)
        <==> g[x].contains(y) && !(x == a && y == b) && !(x == b && y == a)) by {}
    if duplicate_free(g) {
        assert forall|x: u64| k.contains_key(x) implies (#[trigger] k[x]).no_duplicates() by {
            assert(g.contains_key(x));
            assert(g[x].no_duplicates());
            assert(h[x].no_duplicates());
        }
    }
}

/// Connecting two nodes keeps a symmetric graph symmetric.
pub proof fn lemma_connected_symmetric(g: Map<u64, Seq<u64>>, a: u64, b: u64)
    requires
        symmetric(g),
    ensures
        symmetric(connected(g, a, b)),
{
    let k = connected(g, a, b);
    lemma_connected_lists(g, a, b);
    assert forall|x: u64, y: u64| has_edge(k, x, y) implies has_edge(k, y, x) by {
        assert(g.dom().contains(x) && g.dom().contains(y));
        assert(k[x].contains(y));
        if g[x].contains(y) {
            assert(has_edge(g, x, y));
            assert(has_edge(g, y, x));
        }
        assert(k[y].contains(x));
    }
}

/// Disconnecting two nodes keeps a symmetric graph symmetric.
pub proof fn lemma_disconnected_symmetric(g: Map<u64, Seq<u64>>, a: u64, b: u64)
    requires
        symmetric(g),
    ensures
        symmetric(disconnected(g, a, b)),
{
    let k = disconnected(g, a, b);
    lemma_disconnected_lists(g, a, b);
    assert forall|x: u64, y: u64| has_edge(k, x, y) implies has_edge(k, y, x) by {
        assert(g.dom().contains(x) && g.dom().contains(y));
        assert(k[x].contains(y));
        assert(has_edge(g, x, y));
        assert(has_edge(g, y, x));
        assert(k[y].contains(x));
    }
}

/// A node is named in a sequence of requests if it is named in the last of
/// them or in one before it.
pub proof fn lemma_named_in_last(pairs: Seq<(u64, u64)>, x: u64)
    requires
        pairs.len() > 0,
    ensures
        named_in(pairs, x) <==> named_in(pairs.drop_last(), x) || names(pairs.last(), x),
{
    let rest = pairs.drop_last();
    if named_in(pairs, x) {
        let i = choose|i: int| 0 <= i < pairs.len() && names(#[trigger] pairs[i], x);
        if i < rest.len() {
            assert(names(rest[i], x));
        }
    }
    if named_in(rest, x) {
        let i = choose|i: int| 0 <= i < rest.len() && names(#[trigger] rest[i], x);
        assert(names(pairs[i], x));
    }
    if names(pairs.last(), x) {
        assert(names(pairs[pairs.len() - 1], x));
    }
}

/// The connect requests let no node come or go, keep a symmetric graph
/// symmetric and lists free of duplicates, lengthen a list by one entry for
/// each request at most, and change the list of no node but the sides
/// that the requests name.
pub proof fn lemma_after_connects(g: Map<u64, Seq<u64>>, events: Seq<ConnectMessage>)
    ensures
        after_connects(g, events).dom() == g.dom(),
        symmetric(g) ==> symmetric(after_connects(g, events)),
        duplicate_free(g) ==> duplicate_free(after_connects(g, events)),
        forall|x: u64|
            g.contains_key(x) ==> g[x].len() <= (#[trigger] after_connects(g, events)[x]).len()
                <= g[x].len() + events.len(),
        forall|x: u64|
            g.contains_key(x) && (#[trigger] after_connects(g, events)[x]).len() == g[x].len()
                ==> after_connects(g, events)[x] == g[x],
        forall|x: u64|
            g.contains_key(x) && !named_in(connect_pairs(events), x) ==> #[trigger] after_connects(
                g,
                events,
            )[x] == g[x],
    decreases events.len(),
{
    if events.len() > 0 {
        let rest = events.drop_last();
        let (a, b) = events.last().0;
        lemma_after_connects(g, rest);
        let mid = after_connects(g, rest);
        lemma_connected_lists(mid, a, b);
        if symmetric(g) {
            lemma_connected_symmetric(mid, a, b);
        }
        let all = after_connects(g, events);
        let pairs = connect_pairs(events);
        assert(pairs.drop_last() =~= connect_pairs(rest));
        assert(pairs.last() == (a, b));
        assert forall|x: u64|
            g.contains_key(x) && !named_in(pairs, x) implies #[trigger] all[x] == g[x] by {
            lemma_named_in_last(pairs, x);
            assert(mid.dom().contains(x));
        }
        assert forall|x: u64| g.contains_key(x) implies g[x].len() <= (#[trigger] all[x]).len()
            <= g[x].len() + events.len() && (all[x].len() == g[x].len() ==> all[x] == g[x]) by {
            assert(mid.dom().contains(x));
        }
    }
}

/// The disconnect requests let no node come or go, keep a symmetric graph
/// symmetric and lists free of duplicates, and change the list of no node
/// but the sides that the requests name.
pub proof fn lemma_after_disconnects(g: Map<u64, Seq<u64>>, events: Seq<DisconnectMessage>)
    ensures
        after_disconnects(g, events).dom() == g.dom(),
        symmetric(g) ==> symmetric(after_disconnects(g, events)),
        duplicate_free(g) ==> duplicate_free(after_disconnects(g, events)),
        forall|x: u64|
            g.contains_key(x) ==> (#[trigger] after_disconnects(g, events)[x]).len() <= g[x].len(),
        forall|x: u64|
            g.contains_key(x) && (#[trigger] after_disconnects(g, events)[x]).len() == g[x].len()
                ==> after_disconnects(g, events)[x] == g[x],
        forall|x: u64|
            g.contains_key(x) && !named_in(disconnect_pairs(events), x)
                ==> #[trigger] after_disconnects(g, events)[x] == g[x],
    decreases events.len(),
{
    if events.len() > 0 {
        let rest = events.drop_last();
        let (a, b) = events.last().0;
        lemma_after_disconnects(g, rest);
        let mid = after_disconnects(g, rest);
        lemma_disconnected_lists(mid, a, b);
        if symmetric(g) {
            lemma_disconnected_symmetric(mid, a, b);
        }
        let all = after_disconnects(g, events);
        let pairs = disconnect_pairs(events);
        assert(pairs.drop_last() =~= disconnect_pairs(rest));
        assert(pairs.last() == (a, b));
        assert forall|x: u64|
            g.contains_key(x) && !named_in(pairs, x) implies #[trigger] all[x] == g[x] by {
            lemma_named_in_last(pairs, x);
            assert(mid.dom().contains(x));
        }
        assert forall|x: u64| g.contains_key(x) implies (#[trigger] all[x]).len() <= g[x].len() && (
        all[x].len() == g[x].len() ==> all[x] == g[x]) by {
            assert(mid.dom().contains(x));
        }
    }
}

/// The notices of the connect requests name, besides what was noted
/// before, exactly the nodes whose lists the requests changed, each once.
pub proof fn lemma_connect_notices(
    g: Map<u64, Seq<u64>>,
    updates: Seq<ConnectionUpdateEvent>,
    events: Seq<ConnectMessage>,
)
    ensures
        forall|x: u64| #[trigger]
            connect_notices(g, updates, events).contains(ConnectionUpdateEvent(x))
                <==> updates.contains(ConnectionUpdateEvent(x)) || changed(
                g,
                after_connects(g, events),
                x,
            ),
        updates.no_duplicates() ==> connect_notices(g, updates, events).no_duplicates(),
        connect_notices(g, updates, events).len() <= updates.len() + 2 * events.len(),
    decreases events.len(),
{
    if events.len() > 0 {
        let rest = events.drop_last();
        let (a, b) = events.last().0;
        lemma_connect_notices(g, updates, rest);
        lemma_after_connects(g, rest);
        lemma_after_connects(g, events);
        let mid = after_connects(g, rest);
        let all = after_connects(g, events);
        lemma_connected_lists(mid, a, b);
        let before = connect_notices(g, updates, rest);
        lemma_noted(before, a);
        let first = if changed(mid, all, a) {
            crate::connections::noted(before, a)
        } else {
            before
        };
        lemma_noted(first, b);
        assert forall|x: u64| #[trigger]
            connect_notices(g, updates, events).contains(ConnectionUpdateEvent(x))
                <==> updates.contains(ConnectionUpdateEvent(x)) || changed(g, all, x) by {
            assert(mid.dom().contains(x) == g.dom().contains(x));
            if g.contains_key(x) {
                assert(g[x].len() <= mid[x].len() <= all[x].len());
            }
        }
    }
}

/// The notices of the disconnect requests name, besides what was noted
/// before, exactly the nodes whose lists the requests changed, each once.
pub proof fn lemma_disconnect_notices(
    g: Map<u64, Seq<u64>>,
    updates: Seq<ConnectionUpdateEvent>,
    events: Seq<DisconnectMessage>,
)
    ensures
        forall|x: u64| #[trigger]
            disconnect_notices(g, updates, events).contains(ConnectionUpdateEvent(x))
                <==> updates.contains(ConnectionUpdateEvent(x)) || changed(
                g,
                after_disconnects(g, events),
                x,
            ),
        updates.no_duplicates() ==> disconnect_notices(g, updates, events).no_duplicates(),
        disconnect_notices(g, updates, events).len() <= updates.len() + 2 * events.len(),
    decreases events.len(),
{
    if events.len() > 0 {
        let rest = events.drop_last();
        let (a, b) = events.last().0;
        lemma_disconnect_notices(g, updates, rest);
        lemma_after_disconnects(g, rest);
        lemma_after_disconnects(g, events);
        let mid = after_disconnects(g, rest);
        let all = after_disconnects(g, events);
        lemma_disconnected_lists(mid, a, b);
        let before = disconnect_notices(g, updates, rest);
        lemma_noted(before, a);
        let first = if changed(mid, all, a) {
            crate::connections::noted(before, a)
        } else {
            before
        };
        lemma_noted(first, b);
        assert forall|x: u64| #[trigger]
            disconnect_notices(g, updates, events).contains(ConnectionUpdateEvent(x))
                <==> updates.contains(ConnectionUpdateEvent(x)) || changed(g, all, x) by {
            assert(mid.dom().contains(x) == g.dom().contains(x));
            if g.contains_key(x) {
                assert(all[x].len() <= mid[x].len() <= g[x].len());
            }
        }
    }
}

/// Symmetry across a tick: where adjacency went both ways before the
/// requests of a tick, it goes both ways after them, whatever they are.
pub proof fn lemma_tick_keeps_symmetry(
    g: Map<u64, Seq<u64>>,
    connects: Seq<ConnectMessage>,
    disconnects: Seq<DisconnectMessage>,
)
    requires
        symmetric(g),
    ensures
        symmetric(after_disconnects(after_connects(g, connects), disconnects)),
{
    lemma_after_connects(g, connects);
    lemma_after_disconnects(after_connects(g, connects), disconnects);
}

/// Where the membership was the partition of `before` into connected
/// components, and the symmetric graph `after` keeps some of its nodes, each
/// with its membership, and differs from `before` only in the lists of nodes
/// in `updated`, no unchanged list naming a node that is gone, the
/// membership is still right wherever `updated` does not reach.
pub proof fn lemma_settled_after_edits(
    before: Map<u64, Seq<u64>>,
    after: Map<u64, Seq<u64>>,
    m_before: Map<u64, u64>,
    m: Map<u64, u64>,
    updated: Set<u64>,
)
    requires
        partition_correct(before, m_before),
        symmetric(after),
        forall|x: u64| #[trigger] after.contains_key(x) ==> before.contains_key(x),
        forall|x: u64|
            after.contains_key(x) && !updated.contains(x) ==> #[trigger] after[x] == before[x],
        forall|x: u64, y: u64|
            after.contains_key(x) && !updated.contains(x) && #[trigger] has_edge(before, x, y)
                ==> after.contains_key(y),
        forall|x: u64| after.contains_key(x) ==> #[trigger] same_entry(m, m_before, x),
        forall|x: u64| #[trigger] m.contains_key(x) ==> after.contains_key(x),
    ensures
        settled_outside(after, m, updated),
{
    let s = Set::new(|x: u64| after.contains_key(x) && !touched(after, updated, x));
    // the untouched nodes are closed under the edges of both graphs
    assert(closed_under_edges(after, s)) by {
        assert forall|x: u64, y: u64| s.contains(x) && #[trigger] has_edge(after, x, y) implies s.contains(
            y,
        ) by {
            if touched(after, updated, y) {
                let u = choose|u: u64| updated.contains(u) && #[trigger] reachable(after, u, y);
                assert(has_edge(after, y, x));
                lemma_reachable_step(after, u, y, x);
                assert(touched(after, updated, x));
            }
        }
    }
    assert forall|x: u64| s.contains(x) implies !updated.contains(x) by {
        if updated.contains(x) {
            lemma_reachable_refl(after, x);
            assert(touched(after, updated, x));
        }
    }
    assert(closed_under_edges(before, s)) by {
        assert forall|x: u64, y: u64| s.contains(x) && #[trigger] has_edge(before, x, y) implies s.contains(
            y,
        ) by {
            assert(after[x] == before[x]);
            assert(after.contains_key(y));
            assert(has_edge(after, x, y));
        }
    }
    assert forall|x: u64| s.contains(x) && #[trigger] after.contains_key(x) implies before.contains_key(
        x,
    ) && after[x] == before[x] by {}
    assert forall|x: u64| s.contains(x) && #[trigger] before.contains_key(x) implies after.contains_key(
        x,
    ) && before[x] == after[x] by {}
    assert forall|a: u64, b: u64|
        after.contains_key(a) && after.contains_key(b) && a != b && !touched(after, updated, a)
            && !touched(after, updated, b) implies (#[trigger] same_component(m, a, b)
        <==> reachable(after, a, b)) by {
        assert(s.contains(a));
        assert(same_entry(m, m_before, a) && same_entry(m, m_before, b));
        assert(same_component(m, a, b) == same_component(m_before, a, b));
        if reachable(after, a, b) {
            lemma_reachable_transfers(after, before, s, a, b);
        }
        if reachable(before, a, b) {
            lemma_reachable_transfers(before, after, s, a, b);
        }
    }
    assert forall|a: u64, t: u64|
        after.contains_key(a) && !touched(after, updated, a) && touched(
            after,
            updated,
            t,
        ) implies !#[trigger] same_component(m, a, t) by {
        if same_component(m, a, t) {
            let u = choose|u: u64| updated.contains(u) && #[trigger] reachable(after, u, t);
            lemma_reachable_exist(after, u, t);
            assert(s.contains(a));
            assert(same_entry(m, m_before, a) && same_entry(m, m_before, t));
            assert(same_component(m_before, a, t));
            assert(a != t);
            assert(reachable(before, a, t));
            lemma_reachable_transfers(before, after, s, a, t);
            assert(s.contains(t));
        }
    }
    assert forall|a: u64|
        after.contains_key(a) && !touched(after, updated, a) implies (#[trigger] m.contains_key(a)
        <==> after[a].len() > 0) by {
        assert(s.contains(a));
        assert(same_entry(m, m_before, a));
    }
}

/// The graph after `entity` went out of existence: every node that it
/// listed has dropped it, and its own list is gone.
pub open spec fn removed(g: Map<u64, Seq<u64>>, entity: u64) -> Map<u64, Seq<u64>> {
    detached(g, entity).remove(entity)
}

/// Isolation: in a membership that is the partition into connected
/// components, a node without neighbours is no member.
pub proof fn lemma_isolated_is_no_member(g: Map<u64, Seq<u64>>, m: Map<u64, u64>, a: u64)
    requires
        partition_correct(g, m),
        g.contains_key(a),
        g[a].len() == 0,
    ensures
        !m.contains_key(a),
{
}

/// Cleanup on removal: when a node of a symmetric graph goes, no list of
/// the nodes that stay names it; the others keep what else they listed, and
/// the graph stays symmetric and free of duplicates.
pub proof fn lemma_removal_detaches(g: Map<u64, Seq<u64>>, entity: u64)
    requires
        symmetric(g),
        g.contains_key(entity),
    ensures
        removed(g, entity).dom() == g.dom().remove(entity),
        forall|x: u64| #[trigger]
            removed(g, entity).contains_key(x) ==> !removed(g, entity)[x].contains(entity),
        forall|x: u64, y: u64|
            removed(g, entity).contains_key(x) && y != entity ==> (#[trigger] removed(
                g,
                entity,
            )[x].contains(y) <==> g[x].contains(y)),
        symmetric(removed(g, entity)),
        duplicate_free(g) ==> duplicate_free(removed(g, entity)),
{
    let h = removed(g, entity);
    assert(h.dom() =~= g.dom().remove(entity));
    assert forall|x: u64| #[trigger] h.contains_key(x) implies !h[x].contains(entity) && (forall|
        y: u64,
    |
        y != entity ==> (#[trigger] h[x].contains(y) <==> g[x].contains(y))) && (g[x].no_duplicates()
        ==> h[x].no_duplicates()) by {
        assert(g.contains_key(x) && x != entity);
        lemma_without_neighbor(g[x], entity);
        if g[x].contains(entity) {
            assert(has_edge(g, x, entity));
            assert(has_edge(g, entity, x));
        }
        assert(h[x] == if g[entity].contains(x) {
            crate::connections::without_neighbor(g[x], entity)
        } else {
            g[x]
        });
    }
    assert forall|x: u64, y: u64| has_edge(h, x, y) implies has_edge(h, y, x) by {
        assert(h[x].contains(y));
        assert(y != entity);
        assert(has_edge(g, x, y));
        assert(has_edge(g, y, x));
        assert(h[y].contains(x));
    }
}

/// The notices of a removal name exactly the nodes that stay and whose
/// lists it changes.
pub proof fn lemma_removal_notices(g: Map<u64, Seq<u64>>, entity: u64)
    requires
        g.contains_key(entity),
    ensures
        forall|x: u64| #[trigger]
            detach_notices(g, g[entity], entity).contains(ConnectionUpdateEvent(x)) <==> removed(
                g,
                entity,
            ).contains_key(x) && removed(g, entity)[x] != g[x],
        detach_notices(g, g[entity], entity).no_duplicates(),
        detach_notices(g, g[entity], entity).len() <= g[entity].len(),
{
    let h = removed(g, entity);
    lemma_detach_notices(g, g[entity], entity);
    assert(h.dom() =~= g.dom().remove(entity));
    assert forall|x: u64| #[trigger]
        detach_notices(g, g[entity], entity).contains(ConnectionUpdateEvent(x)) <==> h.contains_key(
            x,
        ) && h[x] != g[x] by {
        assert(h.contains_key(x) == g.dom().remove(entity).contains(x));
        if g.contains_key(x) && x != entity {
            lemma_without_neighbor(g[x], entity);
        }
    }
}

/// Cleanup on removal: where the membership was the partition of a
/// symmetric graph into connected components and a node goes, the membership
/// of the nodes that stay is still right wherever the nodes whose lists the
/// removal changed do not reach. The upkeep from the notices of the removal
/// makes it right everywhere.
pub proof fn lemma_removal_settled(
    g: Map<u64, Seq<u64>>,
    m: Map<u64, u64>,
    entity: u64,
    updated: Set<u64>,
)
    requires
        symmetric(g),
        partition_correct(g, m),
        g.contains_key(entity),
        forall|x: u64|
            removed(g, entity).contains_key(x) && #[trigger] removed(g, entity)[x] != g[x]
                ==> updated.contains(x),
    ensures
        symmetric(removed(g, entity)),
        settled_outside(removed(g, entity), m.remove(entity), updated),
{
    let h = removed(g, entity);
    let m1 = m.remove(entity);
    lemma_removal_detaches(g, entity);
    assert forall|x: u64| #[trigger] h.contains_key(x) implies g.contains_key(x) by {
        assert(g.dom().remove(entity).contains(x));
    }
    assert forall|x: u64, y: u64|
        h.contains_key(x) && !updated.contains(x) && #[trigger] has_edge(
            g,
            x,
            y,
        ) implies h.contains_key(y) by {
        assert(h[x] == g[x]);
        assert(!h[x].contains(entity));
        assert(g.dom().remove(entity).contains(y));
    }
    assert forall|x: u64| h.contains_key(x) implies #[trigger] same_entry(m1, m, x) by {
        assert(g.dom().remove(entity).contains(x));
    }
    assert forall|x: u64| #[trigger] m1.contains_key(x) implies h.contains_key(x) by {
        assert(m.contains_key(x) && x != entity);
        assert(g.dom().remove(entity).contains(x));
    }
    lemma_settled_after_edits(g, h, m, m1, updated);
}

/// Identity stability: let a tick end with `m` as the partition of the
/// symmetric graph `g`, with every identity that lives on keeping one of its
/// members and new identities made only where no old one was free. If the
/// nodes that `k` reaches were, before the tick, members of `c` or of no
/// component, if every member that `c` had is among them, and if each
/// updated node among them is or lists a node that was a member, then the
/// component of `k` is `c`: nodes that join a component that does not split
/// take its identity, and no new one is made.
pub proof fn lemma_identity_kept(
    g: Map<u64, Seq<u64>>,
    before: Map<u64, u64>,
    m: Map<u64, u64>,
    next: u64,
    updated: Set<u64>,
    c: u64,
    k: u64,
)
    requires
        symmetric(g),
        partition_correct(g, m),
        members_exist(g, before),
        older_than(before, next),
        continuous(g, before, m, next),
        thrifty(g, before, m, next, updated),
        m.contains_key(k),
        forall|y: u64| #[trigger] reachable(g, k, y) && before.contains_key(y) ==> before[y] == c,
        forall|y: u64| #[trigger] before.contains_key(y) && before[y] == c ==> reachable(g, k, y),
        forall|r: u64|
            updated.contains(r) && #[trigger] reachable(g, k, r) ==> exists|t: u64| #[trigger]
                near(g, before, r, t),
    ensures
        m[k] == c,
{
    if m[k] >= next {
        let r = choose|r: u64|
            updated.contains(r) && #[trigger] reachable(g, r, k) && forall|t: u64| #[trigger]
                near(g, before, r, t) ==> exists|z: u64| #[trigger]
                    m.contains_key(z) && m[z] == before[t];
        lemma_reachable_sym(g, r, k);
        let t = choose|t: u64| #[trigger] near(g, before, r, t);
        assert(g.contains_key(t));
        if t != r {
            lemma_reachable_exist(g, k, r);
            assert(has_edge(g, r, t));
            lemma_reachable_step(g, k, r, t);
        }
        assert(reachable(g, k, t));
        assert(before[t] == c);
        let z = choose|z: u64| #[trigger] m.contains_key(z) && m[z] == before[t];
        assert(m[z] < next);
        let y = choose|y: u64|
            #[trigger] reachable(g, z, y) && before.contains_key(y) && before[y] == m[z];
        assert(reachable(g, k, y));
        lemma_reachable_sym(g, z, y);
        lemma_reachable_trans(g, k, y, z);
        lemma_reachable_exist(g, k, z);
        if k != z {
            assert(same_component(m, k, z));
        }
    } else {
        let y = choose|y: u64|
            #[trigger] reachable(g, k, y) && before.contains_key(y) && before[y] == m[k];
    }
}

/// No existing node lists `entity`.
pub open spec fn unlisted(g: Map<u64, Seq<u64>>, entity: u64) -> bool {
    forall|x: u64| g.contains_key(x) ==> !(#[trigger] g[x]).contains(entity)
}

/// Where a node that no list names comes into existence, without
/// neighbours, a symmetric graph stays symmetric and the membership stays
/// the partition into connected components.
pub proof fn lemma_spawn_keeps_partition(g: Map<u64, Seq<u64>>, m: Map<u64, u64>, entity: u64)
    requires
        !g.contains_key(entity),
        unlisted(g, entity),
        symmetric(g),
        partition_correct(g, m),
    ensures
        symmetric(g.insert(entity, Seq::<u64>::empty())),
        partition_correct(g.insert(entity, Seq::<u64>::empty()), m),
{
    let h = g.insert(entity, Seq::<u64>::empty());
    let s = g.dom();
    assert forall|x: u64, y: u64| #[trigger] has_edge(h, x, y) implies has_edge(g, x, y) by {
        assert(h[x].contains(y));
        assert(x != entity);
        assert(g[x].contains(y));
    }
    assert(symmetric(h)) by {
        assert forall|x: u64, y: u64| has_edge(h, x, y) implies has_edge(h, y, x) by {
            assert(has_edge(g, x, y));
            assert(has_edge(g, y, x));
        }
    }
    assert(closed_under_edges(g, s));
    assert(closed_under_edges(h, s)) by {
        assert forall|x: u64, y: u64| s.contains(x) && #[trigger] has_edge(h, x, y) implies s.contains(
            y,
        ) by {
            assert(has_edge(g, x, y));
        }
    }
    assert forall|a: u64| #[trigger] m.contains_key(a) <==> h.contains_key(a) && h[a].len()
        > 0 by {}
    assert forall|a: u64, b: u64|
        h.contains_key(a) && h.contains_key(b) && a != b implies (#[trigger] same_component(
        m,
        a,
        b,
    ) <==> reachable(h, a, b)) by {
        if a == entity {
            if reachable(h, a, b) {
                crate::graph::lemma_isolated_reaches_itself(h, a, b);
            }
        } else {
            assert(s.contains(a));
            if reachable(h, a, b) {
                lemma_reachable_transfers(h, g, s, a, b);
            }
            if b != entity && reachable(g, a, b) {
                lemma_reachable_transfers(g, h, s, a, b);
            }
        }
    }
}

} // verus!
