//! The requests of a tick, and how they are applied to the adjacency store:
//! each request is applied to each of its two sides that exists, and every
//! side whose list changes is noted.

use crate::connections::{
    lemma_with_neighbor, lemma_without_neighbor, linked, note, noted, unlinked, AdjacencyStore,
    ConnectionUpdateEvent, MAX_NEIGHBORS,
};
use crate::laws::{
    lemma_connect_notices, lemma_connected_lists, lemma_disconnect_notices,
    lemma_disconnected_lists,
};
use vstd::prelude::*;

verus! {

/// The request to connect two nodes.
#[derive(Clone, Copy, Debug)]
pub struct ConnectMessage(pub (u64, u64));

/// The request to disconnect two nodes.
#[derive(Clone, Copy, Debug)]
pub struct DisconnectMessage(pub (u64, u64));

/// The graph after `a` and `b` were connected: each takes the other into
/// its list, as far as it exists.
pub open spec fn connected(g: Map<u64, Seq<u64>>, a: u64, b: u64) -> Map<u64, Seq<u64>> {
    linked(linked(g, a, b), b, a)
}

/// The graph after `a` and `b` were disconnected: each drops the other from
/// its list, as far as it exists.
pub open spec fn disconnected(g: Map<u64, Seq<u64>>, a: u64, b: u64) -> Map<u64, Seq<u64>> {
    unlinked(unlinked(g, a, b), b, a)
}

/// The graph after the connect requests were applied in their order.
pub open spec fn after_connects(g: Map<u64, Seq<u64>>, events: Seq<ConnectMessage>) -> Map<
    u64,
    Seq<u64>,
>
    decreases events.len(),
{
    if events.len() == 0 {
        g
    } else {
        let (a, b) = events.last().0;
        connected(after_connects(g, events.drop_last()), a, b)
    }
}

/// The graph after the disconnect requests were applied in their order.
pub open spec fn after_disconnects(
    g: Map<u64, Seq<u64>>,
    events: Seq<DisconnectMessage>,
) -> Map<u64, Seq<u64>>
    decreases events.len(),
{
    if events.len() == 0 {
        g
    } else {
        let (a, b) = events.last().0;
        disconnected(after_disconnects(g, events.drop_last()), a, b)
    }
}

/// The list of the existing node `x` is not in `after` what it is in
/// `before`.
pub open spec fn changed(before: Map<u64, Seq<u64>>, after: Map<u64, Seq<u64>>, x: u64) -> bool {
    before.contains_key(x) && after[x] != before[x]
}

/// The notices after a request on `pair` took the graph from `before` to
/// `after`: each side whose list changed is noted, the first side first.
pub open spec fn noted_pair(
    before: Map<u64, Seq<u64>>,
    after: Map<u64, Seq<u64>>,
    updates: Seq<ConnectionUpdateEvent>,
    pair: (u64, u64),
) -> Seq<ConnectionUpdateEvent> {
    let first = if changed(before, after, pair.0) {
        noted(updates, pair.0)
    } else {
        updates
    };
    if changed(before, after, pair.1) {
        noted(first, pair.1)
    } else {
        first
    }
}

/// The notices after the connect requests were applied to `g` in their
/// order.
pub open spec fn connect_notices(
    g: Map<u64, Seq<u64>>,
    updates: Seq<ConnectionUpdateEvent>,
    events: Seq<ConnectMessage>,
) -> Seq<ConnectionUpdateEvent>
    decreases events.len(),
{
    if events.len() == 0 {
        updates
    } else {
        noted_pair(
            after_connects(g, events.drop_last()),
            after_connects(g, events),
            connect_notices(g, updates, events.drop_last()),
            events.last().0,
        )
    }
}

/// The notices after the disconnect requests were applied to `g` in their
/// order.
pub open spec fn disconnect_notices(
    g: Map<u64, Seq<u64>>,
    updates: Seq<ConnectionUpdateEvent>,
    events: Seq<DisconnectMessage>,
) -> Seq<ConnectionUpdateEvent>
    decreases events.len(),
{
    if events.len() == 0 {
        updates
    } else {
        noted_pair(
            after_disconnects(g, events.drop_last()),
            after_disconnects(g, events),
            disconnect_notices(g, updates, events.drop_last()),
            events.last().0,
        )
    }
}

/// The sides of a request on `a` and `b` that do not exist, `a` first.
pub open spec fn missing_of_pair(g: Map<u64, Seq<u64>>, pair: (u64, u64)) -> Seq<u64> {
    let first = if g.contains_key(pair.0) {
        Seq::<u64>::empty()
    } else {
        seq![pair.0]
    };
    if g.contains_key(pair.1) {
        first
    } else {
        first.push(pair.1)
    }
}

/// The sides of the requests on `pairs` that do not exist, in the order of
/// the requests.
pub open spec fn missing_of_pairs(g: Map<u64, Seq<u64>>, pairs: Seq<(u64, u64)>) -> Seq<u64>
    decreases pairs.len(),
{
    if pairs.len() == 0 {
        Seq::<u64>::empty()
    } else {
        missing_of_pairs(g, pairs.drop_last()) + missing_of_pair(g, pairs.last())
    }
}

/// Some request on `pairs` names `x` as one of its sides.
pub open spec fn named_in(pairs: Seq<(u64, u64)>, x: u64) -> bool {
    exists|i: int| 0 <= i < pairs.len() && names(#[trigger] pairs[i], x)
}

/// `x` is one of the two sides of `pair`.
pub open spec fn names(pair: (u64, u64), x: u64) -> bool {
    pair.0 == x || pair.1 == x
}

/// The list of every existing node that the requests on `pairs` name can
/// take one more entry for each of the requests.
pub open spec fn has_room_for(g: Map<u64, Seq<u64>>, pairs: Seq<(u64, u64)>) -> bool {
    forall|x: u64|
        g.contains_key(x) && named_in(pairs, x) ==> (#[trigger] g[x]).len() + pairs.len()
            <= MAX_NEIGHBORS
}

/// The pairs that the connect requests name.
pub open spec fn connect_pairs(events: Seq<ConnectMessage>) -> Seq<(u64, u64)> {
    Seq::new(events.len(), |i: int| events[i].0)
}

/// The pairs that the disconnect requests name.
pub open spec fn disconnect_pairs(events: Seq<DisconnectMessage>) -> Seq<(u64, u64)> {
    Seq::new(events.len(), |i: int| events[i].0)
}

/// Noting the first side if the first half of a request changed its list,
/// and then the second side if the second half changed its list, is noting
/// the sides whose lists the request changed.
proof fn lemma_noted_sides(
    g: Map<u64, Seq<u64>>,
    half: Map<u64, Seq<u64>>,
    h: Map<u64, Seq<u64>>,
    updates: Seq<ConnectionUpdateEvent>,
    a: u64,
    b: u64,
)
    requires
        half.dom() == g.dom(),
        g.contains_key(a) ==> h[a] == half[a],
        a != b && g.contains_key(b) ==> half[b] == g[b],
    ensures
        noted_pair(g, h, updates, (a, b)) == ({
            let first = if changed(g, half, a) {
                noted(updates, a)
            } else {
                updates
            };
            if changed(half, h, b) {
                noted(first, b)
            } else {
                first
            }
        }),
{
    assert(half.dom().contains(a) == g.dom().contains(a));
    assert(half.dom().contains(b) == g.dom().contains(b));
    crate::connections::lemma_noted(updates, a);
}

impl ConnectMessage {
    /// Applies the connect requests in their order. Of each request, each
    /// side that exists takes the other into its list, unless it is there,
    /// and is noted in `updates` if its list changed; a side that does not
    /// exist is passed over. Returns the sides that do not exist.
    pub fn on_message(
        events: &Vec<ConnectMessage>,
        updates: &mut Vec<ConnectionUpdateEvent>,
        store: &mut AdjacencyStore,
    ) -> (missing: Vec<u64>)
        requires
            old(store).wf(),
            has_room_for(old(store)@, connect_pairs(events@)),
        ensures
            final(store).wf(),
            final(store)@ == after_connects(old(store)@, events@),
            final(updates)@ == connect_notices(old(store)@, old(updates)@, events@),
            forall|x: u64| #[trigger]
                final(updates)@.contains(ConnectionUpdateEvent(x)) <==> old(updates)@.contains(
                    ConnectionUpdateEvent(x),
                ) || changed(old(store)@, final(store)@, x),
            missing@ == missing_of_pairs(old(store)@, connect_pairs(events@)),
    {
        let ghost g0 = store@;
        let ghost pairs = connect_pairs(events@);
        let mut missing: Vec<u64> = Vec::new();
        let n = events.len();
        let mut i: usize = 0;
        assert(pairs.take(0) =~= Seq::<(u64, u64)>::empty());
        assert(events@.take(0) =~= Seq::<ConnectMessage>::empty());
        while i < n
            invariant
                n == events@.len(),
                i <= n,
                g0 == old(store)@,
                pairs == connect_pairs(events@),
                store.wf(),
                store@.dom() == g0.dom(),
                forall|x: u64|
                    store@.contains_key(x) && named_in(pairs, x) ==> (#[trigger] store@[x]).len()
                        + (n - i) <= MAX_NEIGHBORS,
                store@ == after_connects(g0, events@.take(i as int)),
                updates@ == connect_notices(g0, old(updates)@, events@.take(i as int)),
                missing@ == missing_of_pairs(g0, pairs.take(i as int)),
            decreases n - i,
        {
            let (entity1, entity2) = events[i].0;
            let ghost g = store@;
            let ghost noted_before = updates@;
            proof {
                assert(events@.take(i + 1).drop_last() =~= events@.take(i as int));
                assert(events@.take(i + 1).last() == events@[i as int]);
                assert(pairs.take(i + 1).drop_last() =~= pairs.take(i as int));
                assert(pairs.take(i + 1).last() == (entity1, entity2));
                assert(names(pairs[i as int], entity1) && names(pairs[i as int], entity2));
                lemma_connected_lists(g, entity1, entity2);
                let half = linked(g, entity1, entity2);
                assert(half.dom() =~= g.dom());
                if g.contains_key(entity1) {
                    lemma_with_neighbor(g[entity1], entity2);
                }
                if g.contains_key(entity2) {
                    lemma_with_neighbor(half[entity2], entity1);
                }
                lemma_noted_sides(
                    g,
                    half,
                    connected(g, entity1, entity2),
                    noted_before,
                    entity1,
                    entity2,
                );
            }
            match store.connect(entity1, entity2) {
                Some(true) => note(updates, entity1),
                Some(false) => {},
                None => missing.push(entity1),
            }
            assert(store@.contains_key(entity2) ==> store@[entity2].contains(entity1)
                || store@[entity2].len() < MAX_NEIGHBORS) by {
                if store@.contains_key(entity2) {
                    assert(g[entity2].len() + (n - i) <= MAX_NEIGHBORS);
                    if entity1 == entity2 {
                        assert(store@[entity2].contains(entity1));
                    }
                }
            }
            match store.connect(entity2, entity1) {
                Some(true) => note(updates, entity2),
                Some(false) => {},
                None => missing.push(entity2),
            }
            proof {
                let h = connected(g, entity1, entity2);
                assert(store@ == h);
                let before = missing_of_pairs(g0, pairs.take(i as int));
                assert(missing@ =~= before + missing_of_pair(g0, (entity1, entity2)));
                assert(updates@ == noted_pair(g, h, noted_before, (entity1, entity2)));
            }
            i = i + 1;
        }
        proof {
            assert(events@.take(n as int) =~= events@);
            assert(pairs.take(n as int) =~= pairs);
            lemma_connect_notices(g0, old(updates)@, events@);
        }
        missing
    }
}

impl DisconnectMessage {
    /// Applies the disconnect requests in their order. Of each request, each
    /// side that exists drops the other from its list, if it is there, and
    /// is noted in `updates` if its list changed; a side that does not exist
    /// is passed over. Returns the sides that do not exist.
    pub fn on_message(
        events: &Vec<DisconnectMessage>,
        updates: &mut Vec<ConnectionUpdateEvent>,
        store: &mut AdjacencyStore,
    ) -> (missing: Vec<u64>)
        requires
            old(store).wf(),
        ensures
            final(store).wf(),
            final(store)@ == after_disconnects(old(store)@, events@),
            final(updates)@ == disconnect_notices(old(store)@, old(updates)@, events@),
            forall|x: u64| #[trigger]
                final(updates)@.contains(ConnectionUpdateEvent(x)) <==> old(updates)@.contains(
                    ConnectionUpdateEvent(x),
                ) || changed(old(store)@, final(store)@, x),
            missing@ == missing_of_pairs(old(store)@, disconnect_pairs(events@)),
    {
        let ghost g0 = store@;
        let ghost pairs = disconnect_pairs(events@);
        let mut missing: Vec<u64> = Vec::new();
        let n = events.len();
        let mut i: usize = 0;
        assert(pairs.take(0) =~= Seq::<(u64, u64)>::empty());
        assert(events@.take(0) =~= Seq::<DisconnectMessage>::empty());
        while i < n
            invariant
                n == events@.len(),
                i <= n,
                g0 == old(store)@,
                pairs == disconnect_pairs(events@),
                store.wf(),
                store@.dom() == g0.dom(),
                store@ == after_disconnects(g0, events@.take(i as int)),
                updates@ == disconnect_notices(g0, old(updates)@, events@.take(i as int)),
                missing@ == missing_of_pairs(g0, pairs.take(i as int)),
            decreases n - i,
        {
            let (entity1, entity2) = events[i].0;
            let ghost g = store@;
            let ghost noted_before = updates@;
            proof {
                assert(events@.take(i + 1).drop_last() =~= events@.take(i as int));
                assert(events@.take(i + 1).last() == events@[i as int]);
                assert(pairs.take(i + 1).drop_last() =~= pairs.take(i as int));
                assert(pairs.take(i + 1).last() == (entity1, entity2));
                lemma_disconnected_lists(g, entity1, entity2);
                let half = unlinked(g, entity1, entity2);
                assert(half.dom() =~= g.dom());
                if g.contains_key(entity1) {
                    lemma_without_neighbor(g[entity1], entity2);
                }
                if g.contains_key(entity2) {
                    lemma_without_neighbor(half[entity2], entity1);
                }
                lemma_noted_sides(
                    g,
                    half,
                    disconnected(g, entity1, entity2),
                    noted_before,
                    entity1,
                    entity2,
                );
            }
            match store.disconnect(entity1, entity2) {
                Some(true) => note(updates, entity1),
                Some(false) => {},
                None => missing.push(entity1),
            }
            match store.disconnect(entity2, entity1) {
                Some(true) => note(updates, entity2),
                Some(false) => {},
                None => missing.push(entity2),
            }
            proof {
                let h = disconnected(g, entity1, entity2);
                assert(store@ == h);
                let before = missing_of_pairs(g0, pairs.take(i as int));
                assert(missing@ =~= before + missing_of_pair(g0, (entity1, entity2)));
                assert(updates@ == noted_pair(g, h, noted_before, (entity1, entity2)));
            }
            i = i + 1;
        }
        proof {
            assert(events@.take(n as int) =~= events@);
            assert(pairs.take(n as int) =~= pairs);
            lemma_disconnect_notices(g0, old(updates)@, events@);
        }
        missing
    }
}

} // verus!
