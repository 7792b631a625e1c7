//! Why the traversals of one tick leave the membership equal to the
//! partition into connected components: the invariant that holds between
//! two traversals, and what follows from it when every updated node has had
//! its turn.

use crate::graph::{
    claim, closed_under_edges, continuous, first_unclaimed, has_edge, lemma_closed_reach,
    lemma_isolated_reaches_itself, lemma_reachable_exist, lemma_reachable_refl,
    lemma_reachable_step, lemma_reachable_sym, lemma_reachable_trans, near, partition_correct,
    reachable, same_component, same_entry, settled_outside, symmetric, thrifty, touched, turn,
    unclaimed, Upkeep,
};
use vstd::prelude::*;

verus! {

/// No membership names a node that does not exist.
pub open spec fn members_exist(g: Map<u64, Seq<u64>>, m: Map<u64, u64>) -> bool {
    forall|a: u64| #[trigger] m.contains_key(a) ==> g.contains_key(a)
}

/// Every component in `m` is older than `next`.
pub open spec fn older_than(m: Map<u64, u64>, next: u64) -> bool {
    forall|a: u64| #[trigger] m.contains_key(a) ==> m[a] < next
}

/// What holds between two traversals of a tick. `g` is the graph, `updated`
/// the nodes whose lists changed, `m0` the membership and `next0` the next
/// identity when the tick began; `done` holds the updated nodes that had
/// their turn, `visited` the nodes that a traversal reached, `used` the
/// components claimed, and `m` is the membership now.
pub open spec fn progress(
    g: Map<u64, Seq<u64>>,
    updated: Set<u64>,
    m0: Map<u64, u64>,
    next0: u64,
    done: Set<u64>,
    visited: Set<u64>,
    used: Set<u64>,
    m: Map<u64, u64>,
) -> bool {
    &&& forall|x: u64| #[trigger]
        visited.contains(x) && g.contains_key(x) ==> touched(g, updated, x)
    &&& forall|x: u64|
        !#[trigger] same_entry(m, m0, x) ==> g.contains_key(x) && (visited.contains(x) || (
        done.contains(x) && g[x].len() == 0))
    &&& closed_under_edges(g, visited)
    &&& forall|u: u64| #[trigger]
        done.contains(u) && g.contains_key(u) && g[u].len() > 0 ==> visited.contains(u)
    &&& forall|u: u64| #[trigger] done.contains(u) ==> updated.contains(u)
    &&& symmetric(g) ==> {
        &&& forall|x: u64| #[trigger]
            visited.contains(x) && g.contains_key(x) ==> m.contains_key(x) && used.contains(m[x])
                && g[x].len() > 0
        &&& forall|a: u64, b: u64|
            visited.contains(a) && visited.contains(b) && g.contains_key(a) && g.contains_key(b)
                ==> (m[a] == m[b] <==> #[trigger] reachable(g, a, b))
        &&& forall|u: u64| #[trigger]
            done.contains(u) && g.contains_key(u) && g[u].len() == 0 ==> !m.contains_key(u)
    }
    &&& symmetric(g) && members_exist(g, m0) ==> {
        &&& forall|c: u64| #[trigger]
            used.contains(c) ==> c >= next0 || exists|t: u64|
                touched(g, updated, t) && #[trigger] m0.contains_key(t) && m0[t] == c
        &&& forall|x: u64| #[trigger]
            visited.contains(x) && g.contains_key(x) ==> m[x] >= next0 || exists|y: u64|
                #[trigger] reachable(g, x, y) && m0.contains_key(y) && m0[y] == m[x]
        &&& forall|c: u64| #[trigger]
            used.contains(c) ==> exists|z: u64|
                #[trigger] visited.contains(z) && g.contains_key(z) && m[z] == c
        &&& forall|x: u64| #[trigger]
            visited.contains(x) && g.contains_key(x) && m[x] >= next0 ==> exists|r: u64|
                updated.contains(r) && #[trigger] reachable(g, r, x) && forall|t: u64| #[trigger]
                    near(g, m0, r, t) ==> used.contains(m0[t])
    }
}

/// Where a list has a first unclaimed member, its component is the result;
/// where the result is `None`, the list has no unclaimed member.
pub proof fn lemma_first_unclaimed(m: Map<u64, u64>, used: Set<u64>, list: Seq<u64>)
    ensures
        match first_unclaimed(m, used, list) {
            Some(c) => exists|t: u64| #[trigger]
                list.contains(t) && unclaimed(m, used, t) && m[t] == c,
            None => forall|t: u64| #[trigger] list.contains(t) ==> !unclaimed(m, used, t),
        },
    decreases list.len(),
{
    if list.len() == 0 {
    } else if unclaimed(m, used, list[0]) {
        assert(list.contains(list[0]));
    } else {
        let rest = list.drop_first();
        lemma_first_unclaimed(m, used, rest);
        match first_unclaimed(m, used, rest) {
            Some(c) => {
                let t = choose|t: u64| #[trigger]
                    rest.contains(t) && unclaimed(m, used, t) && m[t] == c;
                let i = choose|i: int| 0 <= i < rest.len() && rest[i] == t;
                assert(list[i + 1] == t);
                assert(list.contains(t));
            },
            None => {
                assert forall|t: u64| #[trigger] list.contains(t) implies !unclaimed(
                    m,
                    used,
                    t,
                ) by {
                    let i = choose|i: int| 0 <= i < list.len() && list[i] == t;
                    if i > 0 {
                        assert(rest[i - 1] == t);
                        assert(rest.contains(t));
                    }
                }
            },
        }
    }
}

/// The invariant holds when a tick begins.
pub proof fn lemma_progress_start(
    g: Map<u64, Seq<u64>>,
    updated: Set<u64>,
    m0: Map<u64, u64>,
    next0: u64,
)
    ensures
        progress(
            g,
            updated,
            m0,
            next0,
            Set::<u64>::empty(),
            Set::<u64>::empty(),
            Set::<u64>::empty(),
            m0,
        ),
{
}

/// The invariant stays when an updated node is passed over: one that does
/// not exist, which may be marked as visited, or one that has neighbours and
/// was visited already.
pub proof fn lemma_progress_pass(
    g: Map<u64, Seq<u64>>,
    updated: Set<u64>,
    m0: Map<u64, u64>,
    next0: u64,
    done: Set<u64>,
    visited: Set<u64>,
    used: Set<u64>,
    m: Map<u64, u64>,
    entity: u64,
    visited1: Set<u64>,
)
    requires
        progress(g, updated, m0, next0, done, visited, used, m),
        updated.contains(entity),
        !g.contains_key(entity) || (g[entity].len() > 0 && visited.contains(entity)),
        visited1 == visited || (!g.contains_key(entity) && visited1 == visited.insert(entity)),
    ensures
        progress(g, updated, m0, next0, done.insert(entity), visited1, used, m),
{
    let done1 = done.insert(entity);
    assert forall|x: u64| !#[trigger] same_entry(m, m0, x) implies g.contains_key(x) && (
    visited1.contains(x) || (done1.contains(x) && g[x].len() == 0)) by {}
    assert forall|x: u64| visited1.contains(x) && g.contains_key(x) implies visited.contains(
        x,
    ) by {}
    if symmetric(g) && members_exist(g, m0) {
        assert forall|c: u64| #[trigger] used.contains(c) implies exists|z: u64|
            #[trigger] visited1.contains(z) && g.contains_key(z) && m[z] == c by {
            let z = choose|z: u64| #[trigger] visited.contains(z) && g.contains_key(z) && m[z] == c;
            assert(visited1.contains(z));
        }
    }
}

/// The invariant stays when an updated node without neighbours loses its
/// membership.
pub proof fn lemma_progress_isolated(
    g: Map<u64, Seq<u64>>,
    updated: Set<u64>,
    m0: Map<u64, u64>,
    next0: u64,
    done: Set<u64>,
    visited: Set<u64>,
    used: Set<u64>,
    m: Map<u64, u64>,
    entity: u64,
)
    requires
        progress(g, updated, m0, next0, done, visited, used, m),
        updated.contains(entity),
        g.contains_key(entity),
        g[entity].len() == 0,
    ensures
        progress(g, updated, m0, next0, done.insert(entity), visited, used, m.remove(entity)),
{
    let done1 = done.insert(entity);
    let m1 = m.remove(entity);
    assert forall|x: u64| !#[trigger] same_entry(m1, m0, x) implies g.contains_key(x) && (
    visited.contains(x) || (done1.contains(x) && g[x].len() == 0)) by {
        if x != entity {
            assert(same_entry(m1, m0, x) == same_entry(m, m0, x));
        }
    }
    if symmetric(g) {
        assert forall|a: u64, b: u64|
            visited.contains(a) && visited.contains(b) && g.contains_key(a) && g.contains_key(
                b,
            ) implies (m1[a] == m1[b] <==> #[trigger] reachable(g, a, b)) by {
            assert(a != entity && b != entity);
        }
    }
}

/// The invariant stays when an updated node that has neighbours and was
/// not visited claims `component` and a traversal from it assigns that
/// component to every node it newly reaches.
pub proof fn lemma_progress_traverse(
    g: Map<u64, Seq<u64>>,
    updated: Set<u64>,
    m0: Map<u64, u64>,
    next0: u64,
    done: Set<u64>,
    visited: Set<u64>,
    used: Set<u64>,
    m: Map<u64, u64>,
    entity: u64,
    component: u64,
    next1: u64,
    visited1: Set<u64>,
    m1: Map<u64, u64>,
)
    requires
        progress(g, updated, m0, next0, done, visited, used, m),
        updated.contains(entity),
        g.contains_key(entity),
        g[entity].len() > 0,
        !visited.contains(entity),
        next0 <= next1,
        older_than(m, next1),
        older_than(m0, next0),
        (component == next1 && forall|t: u64| #[trigger]
            near(g, m, entity, t) ==> used.contains(m[t])) || (!used.contains(component)
            && exists|t: u64| #[trigger] near(g, m, entity, t) && m[t] == component),
        visited.subset_of(visited1),
        visited1.contains(entity),
        forall|x: u64|
            #[trigger] visited1.contains(x) && !visited.contains(x) && g.contains_key(x)
                ==> reachable(g, entity, x) && m1.contains_key(x) && m1[x] == component,
        forall|x: u64|
            !(visited1.contains(x) && !visited.contains(x) && g.contains_key(x))
                ==> #[trigger] same_entry(m1, m, x),
        forall|x: u64, y: u64|
            visited1.contains(x) && !visited.contains(x) && #[trigger] has_edge(g, x, y)
                ==> visited1.contains(y),
    ensures
        progress(
            g,
            updated,
            m0,
            next0,
            done.insert(entity),
            visited1,
            used.insert(component),
            m1,
        ),
{
    let done1 = done.insert(entity);
    let used1 = used.insert(component);
    lemma_reachable_refl(g, entity);
    assert forall|x: u64| #[trigger] visited1.contains(x) && g.contains_key(x) implies touched(
        g,
        updated,
        x,
    ) by {
        if !visited.contains(x) {
            assert(reachable(g, entity, x));
        }
    }
    assert forall|x: u64| !#[trigger] same_entry(m1, m0, x) implies g.contains_key(x) && (
    visited1.contains(x) || (done1.contains(x) && g[x].len() == 0)) by {
        if !(visited1.contains(x) && !visited.contains(x) && g.contains_key(x)) {
            assert(same_entry(m1, m, x));
            assert(!same_entry(m, m0, x));
        }
    }
    assert(closed_under_edges(g, visited1));
    if symmetric(g) {
        assert forall|x: u64| #[trigger]
            visited1.contains(x) && !visited.contains(x) && g.contains_key(x) implies g[x].len()
            > 0 by {
            if x != entity {
                lemma_reachable_sym(g, entity, x);
                if g[x].len() == 0 {
                    lemma_isolated_reaches_itself(g, x, entity);
                }
            }
        }
        assert forall|x: u64| #[trigger]
            visited1.contains(x) && g.contains_key(x) implies m1.contains_key(x) && used1.contains(
            m1[x],
        ) && g[x].len() > 0 by {
            if visited.contains(x) {
                assert(same_entry(m1, m, x));
            }
        }
        assert forall|a: u64, b: u64|
            visited1.contains(a) && visited1.contains(b) && g.contains_key(a) && g.contains_key(
                b,
            ) implies (m1[a] == m1[b] <==> #[trigger] reachable(g, a, b)) by {
            if visited.contains(a) {
                assert(same_entry(m1, m, a));
                assert(m[a] != component);
            }
            if visited.contains(b) {
                assert(same_entry(m1, m, b));
                assert(m[b] != component);
            }
            if !visited.contains(a) && !visited.contains(b) {
                lemma_reachable_sym(g, entity, a);
                lemma_reachable_trans(g, a, entity, b);
            } else if visited.contains(a) && !visited.contains(b) {
                if reachable(g, a, b) {
                    lemma_closed_reach(g, visited, a, b);
                }
            } else if !visited.contains(a) && visited.contains(b) {
                if reachable(g, a, b) {
                    lemma_reachable_sym(g, a, b);
                    lemma_closed_reach(g, visited, b, a);
                }
            }
        }
        assert forall|u: u64| #[trigger]
            done1.contains(u) && g.contains_key(u) && g[u].len() == 0 implies !m1.contains_key(
            u,
        ) by {
            assert(same_entry(m1, m, u));
        }
        if members_exist(g, m0) {
            // the membership of the node and of the nodes it lists is as it was
            assert forall|t: u64| (t == entity || g[entity].contains(t)) && (m.contains_key(t)
                || m0.contains_key(t)) implies #[trigger] same_entry(m, m0, t) && reachable(
                g,
                entity,
                t,
            ) by {
                if !same_entry(m, m0, t) {
                    if t != entity {
                        assert(has_edge(g, entity, t));
                        assert(has_edge(g, t, entity));
                    }
                }
                assert(same_entry(m, m0, t));
                assert(m0.contains_key(t));
                if t != entity {
                    assert(has_edge(g, entity, t));
                    lemma_reachable_step(g, entity, entity, t);
                }
            }
            let reused = !(component == next1);
            if reused {
                let t = choose|t: u64| #[trigger] near(g, m, entity, t) && m[t] == component;
                assert(same_entry(m, m0, t) && reachable(g, entity, t));
                assert(touched(g, updated, t));
                assert(m0.contains_key(t) && m0[t] == component);
                assert(component < next0);
                assert forall|x: u64|
                    #[trigger] visited1.contains(x) && !visited.contains(x) && g.contains_key(
                        x,
                    ) implies reachable(g, x, t) by {
                    lemma_reachable_sym(g, entity, x);
                    lemma_reachable_trans(g, x, entity, t);
                }
            }
            assert forall|c: u64| #[trigger] used1.contains(c) implies c >= next0 || exists|
                t: u64,
            |
                touched(g, updated, t) && #[trigger] m0.contains_key(t) && m0[t] == c by {}
            assert forall|x: u64| #[trigger]
                visited1.contains(x) && g.contains_key(x) implies m1[x] >= next0 || exists|y: u64|
                #[trigger] reachable(g, x, y) && m0.contains_key(y) && m0[y] == m1[x] by {
                if visited.contains(x) {
                    assert(same_entry(m1, m, x));
                } else if reused {
                    let t = choose|t: u64| #[trigger] near(g, m, entity, t) && m[t] == component;
                    assert(reachable(g, x, t));
                }
            }
            assert forall|c: u64| #[trigger] used1.contains(c) implies exists|z: u64|
                #[trigger] visited1.contains(z) && g.contains_key(z) && m1[z] == c by {
                if used.contains(c) {
                    let z = choose|z: u64|
                        #[trigger] visited.contains(z) && g.contains_key(z) && m[z] == c;
                    assert(same_entry(m1, m, z));
                    assert(visited1.contains(z));
                } else {
                    assert(visited1.contains(entity) && m1[entity] == c);
                }
            }
            assert forall|x: u64| #[trigger]
                visited1.contains(x) && g.contains_key(x) && m1[x] >= next0 implies exists|r: u64|
                updated.contains(r) && #[trigger] reachable(g, r, x) && forall|t: u64| #[trigger]
                    near(g, m0, r, t) ==> used1.contains(m0[t]) by {
                if visited.contains(x) {
                    assert(same_entry(m1, m, x));
                    let r = choose|r: u64|
                        updated.contains(r) && #[trigger] reachable(g, r, x) && forall|t: u64| #[trigger]
                            near(g, m0, r, t) ==> used.contains(m0[t]);
                    assert(forall|t: u64| #[trigger]
                        near(g, m0, r, t) ==> used1.contains(m0[t]));
                } else {
                    assert(!reused);
                    assert(reachable(g, entity, x));
                    assert forall|t: u64| #[trigger] near(g, m0, entity, t) implies used1.contains(
                        m0[t],
                    ) by {
                        assert(same_entry(m, m0, t));
                        assert(near(g, m, entity, t));
                    }
                }
            }
        }
    }
}

/// What the invariant leaves unchanged: the membership of every node that
/// no updated node reaches.
pub proof fn lemma_progress_frame(
    g: Map<u64, Seq<u64>>,
    updated: Set<u64>,
    m0: Map<u64, u64>,
    next0: u64,
    done: Set<u64>,
    visited: Set<u64>,
    used: Set<u64>,
    m: Map<u64, u64>,
)
    requires
        progress(g, updated, m0, next0, done, visited, used, m),
    ensures
        forall|x: u64| !touched(g, updated, x) ==> #[trigger] same_entry(m, m0, x),
{
    assert forall|x: u64| !touched(g, updated, x) implies #[trigger] same_entry(m, m0, x) by {
        if !same_entry(m, m0, x) {
            if !visited.contains(x) {
                lemma_reachable_refl(g, x);
                assert(updated.contains(x) && reachable(g, x, x));
            }
        }
    }
}

/// When every updated node has had its turn, an existing node that some
/// updated node reaches was visited, or it has no neighbours and is itself
/// updated.
proof fn lemma_touched_cases(
    g: Map<u64, Seq<u64>>,
    updated: Set<u64>,
    m0: Map<u64, u64>,
    next0: u64,
    visited: Set<u64>,
    used: Set<u64>,
    m: Map<u64, u64>,
    a: u64,
)
    requires
        progress(g, updated, m0, next0, updated, visited, used, m),
        touched(g, updated, a),
    ensures
        g.contains_key(a),
        visited.contains(a) || (g[a].len() == 0 && updated.contains(a)),
{
    let u = choose|u: u64| updated.contains(u) && #[trigger] reachable(g, u, a);
    lemma_reachable_exist(g, u, a);
    if g[u].len() == 0 {
        lemma_isolated_reaches_itself(g, u, a);
    } else {
        assert(visited.contains(u));
        lemma_closed_reach(g, visited, u, a);
    }
}

/// When every updated node has had its turn in a symmetric graph, and the
/// membership was right before wherever the updated nodes do not reach, the
/// membership is now the partition into connected components.
pub proof fn lemma_progress_done(
    g: Map<u64, Seq<u64>>,
    updated: Set<u64>,
    m0: Map<u64, u64>,
    next0: u64,
    visited: Set<u64>,
    used: Set<u64>,
    m: Map<u64, u64>,
)
    requires
        progress(g, updated, m0, next0, updated, visited, used, m),
        symmetric(g),
        settled_outside(g, m0, updated),
        older_than(m0, next0),
    ensures
        partition_correct(g, m),
{
    assert(members_exist(g, m0));
    assert forall|a: u64| #[trigger] m.contains_key(a) <==> g.contains_key(a) && g[a].len()
        > 0 by {
        if touched(g, updated, a) {
            lemma_touched_cases(g, updated, m0, next0, visited, used, m, a);
        }
        if g.contains_key(a) && g[a].len() > 0 {
            if !visited.contains(a) {
                assert(!touched(g, updated, a));
                assert(m0.contains_key(a));
                assert(same_entry(m, m0, a));
            }
        }
        if m.contains_key(a) {
            if same_entry(m, m0, a) {
                assert(m0.contains_key(a));
                assert(g.contains_key(a));
            }
        }
    }
    assert forall|a: u64, b: u64|
        g.contains_key(a) && g.contains_key(b) && a != b implies (#[trigger] same_component(
        m,
        a,
        b,
    ) <==> reachable(g, a, b)) by {
        if touched(g, updated, a) {
            lemma_touched_cases(g, updated, m0, next0, visited, used, m, a);
        }
        if touched(g, updated, b) {
            lemma_touched_cases(g, updated, m0, next0, visited, used, m, b);
        }
        if g[a].len() == 0 || g[b].len() == 0 {
            assert(!same_component(m, a, b));
            if reachable(g, a, b) {
                if g[a].len() == 0 {
                    lemma_isolated_reaches_itself(g, a, b);
                } else {
                    lemma_reachable_sym(g, a, b);
                    lemma_isolated_reaches_itself(g, b, a);
                }
            }
        } else if visited.contains(a) && visited.contains(b) {
        } else if visited.contains(a) {
            lemma_unvisited_apart(g, updated, m0, next0, visited, used, m, a, b);
            if reachable(g, a, b) {
                lemma_closed_reach(g, visited, a, b);
            }
        } else if visited.contains(b) {
            lemma_unvisited_apart(g, updated, m0, next0, visited, used, m, b, a);
            if reachable(g, a, b) {
                lemma_reachable_sym(g, a, b);
                lemma_closed_reach(g, visited, b, a);
            }
        } else {
            assert(same_entry(m, m0, a));
            assert(same_entry(m, m0, b));
            assert(same_component(m, a, b) == same_component(m0, a, b));
        }
    }
}

/// A visited node and a node with neighbours that was not visited are in
/// different components.
proof fn lemma_unvisited_apart(
    g: Map<u64, Seq<u64>>,
    updated: Set<u64>,
    m0: Map<u64, u64>,
    next0: u64,
    visited: Set<u64>,
    used: Set<u64>,
    m: Map<u64, u64>,
    a: u64,
    b: u64,
)
    requires
        progress(g, updated, m0, next0, updated, visited, used, m),
        symmetric(g),
        settled_outside(g, m0, updated),
        older_than(m0, next0),
        g.contains_key(a),
        g.contains_key(b),
        visited.contains(a),
        !visited.contains(b),
        g[b].len() > 0,
    ensures
        !same_component(m, a, b),
{
    if touched(g, updated, b) {
        lemma_touched_cases(g, updated, m0, next0, visited, used, m, b);
    }
    assert(!touched(g, updated, b));
    assert(same_entry(m, m0, b));
    assert(members_exist(g, m0));
    if same_component(m, a, b) {
        let c = m[a];
        assert(used.contains(c));
        assert(m0[b] == c);
        assert(c < next0);
        let t = choose|t: u64|
            touched(g, updated, t) && #[trigger] m0.contains_key(t) && m0[t] == c;
        assert(same_component(m0, b, t));
    }
}

/// When every updated node has had its turn in a symmetric graph: an
/// identity that lives on keeps one of its members, and a new identity was
/// made only where no old one was free.
pub proof fn lemma_progress_reuse(
    g: Map<u64, Seq<u64>>,
    updated: Set<u64>,
    m0: Map<u64, u64>,
    next0: u64,
    visited: Set<u64>,
    used: Set<u64>,
    m: Map<u64, u64>,
)
    requires
        progress(g, updated, m0, next0, updated, visited, used, m),
        symmetric(g),
        members_exist(g, m0),
        older_than(m0, next0),
    ensures
        continuous(g, m0, m, next0),
        thrifty(g, m0, m, next0, updated),
{
    assert forall|x: u64| #[trigger] m.contains_key(x) implies g.contains_key(x) && (
    visited.contains(x) || same_entry(m, m0, x)) by {
        if same_entry(m, m0, x) {
            assert(m0.contains_key(x));
        }
    }
    assert forall|x: u64| #[trigger] m.contains_key(x) && m[x] < next0 implies exists|y: u64|
        #[trigger] reachable(g, x, y) && m0.contains_key(y) && m0[y] == m[x] by {
        if !visited.contains(x) {
            lemma_reachable_refl(g, x);
            assert(reachable(g, x, x) && m0.contains_key(x) && m0[x] == m[x]);
        }
    }
    assert forall|x: u64| #[trigger] m.contains_key(x) && m[x] >= next0 implies exists|r: u64|
        updated.contains(r) && #[trigger] reachable(g, r, x) && forall|t: u64| #[trigger]
            near(g, m0, r, t) ==> exists|z: u64| #[trigger]
                m.contains_key(z) && m[z] == m0[t] by {
        if !visited.contains(x) {
            assert(same_entry(m, m0, x));
            assert(m0.contains_key(x));
        }
        let r = choose|r: u64|
            updated.contains(r) && #[trigger] reachable(g, r, x) && forall|t: u64| #[trigger]
                near(g, m0, r, t) ==> used.contains(m0[t]);
        assert forall|t: u64| #[trigger] near(g, m0, r, t) implies exists|z: u64| #[trigger]
            m.contains_key(z) && m[z] == m0[t] by {
            let c = m0[t];
            assert(used.contains(c));
            let z = choose|z: u64|
                #[trigger] visited.contains(z) && g.contains_key(z) && m[z] == c;
            assert(m.contains_key(z) && m[z] == m0[t]);
        }
    }
}

/// A traversal is the turn of its node: where the nodes visited so far
/// are closed under edges, before and after, the nodes that the traversal
/// newly visits are those that its node reaches and that were not visited.
pub proof fn lemma_turn_traverse(
    g: Map<u64, Seq<u64>>,
    s: Upkeep,
    entity: u64,
    seen: Set<u64>,
    seen1: Set<u64>,
    m1: Map<u64, u64>,
)
    requires
        g.contains_key(entity),
        g[entity].len() > 0,
        !seen.contains(entity),
        forall|x: u64| s.visited.contains(x) <==> seen.contains(x) && g.contains_key(x),
        closed_under_edges(g, seen),
        closed_under_edges(g, seen1),
        seen.subset_of(seen1),
        seen1.contains(entity),
        forall|x: u64|
            #[trigger] seen1.contains(x) && !seen.contains(x) && g.contains_key(x) ==> reachable(
                g,
                entity,
                x,
            ) && m1.contains_key(x) && m1[x] == claim(g, s, entity),
        forall|x: u64|
            !(seen1.contains(x) && !seen.contains(x) && g.contains_key(x))
                ==> #[trigger] same_entry(m1, s.membership, x),
    ensures
        m1 == turn(g, s, entity).membership,
        forall|x: u64|
            turn(g, s, entity).visited.contains(x) <==> seen1.contains(x) && g.contains_key(x),
{
    let t = turn(g, s, entity);
    assert forall|x: u64| reachable(g, entity, x) implies seen1.contains(x) && g.contains_key(
        x,
    ) by {
        lemma_closed_reach(g, seen1, entity, x);
        lemma_reachable_exist(g, entity, x);
    }
    assert forall|x: u64| t.visited.contains(x) <==> seen1.contains(x) && g.contains_key(x) by {}
    assert forall|x: u64|
        (reachable(g, entity, x) && !s.visited.contains(x)) <==> (seen1.contains(x)
            && !seen.contains(x) && g.contains_key(x)) by {}
    assert forall|x: u64| #[trigger]
        m1.dom().contains(x) == t.membership.dom().contains(x) by {
        if !(seen1.contains(x) && !seen.contains(x) && g.contains_key(x)) {
            assert(same_entry(m1, s.membership, x));
        }
    }
    assert forall|x: u64| m1.dom().contains(x) implies #[trigger] m1[x] == t.membership[x] by {
        if !(seen1.contains(x) && !seen.contains(x) && g.contains_key(x)) {
            assert(same_entry(m1, s.membership, x));
        }
    }
    assert(m1 =~= t.membership);
}

} // verus!
