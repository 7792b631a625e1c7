//! The mathematical model of the graph: adjacency as a map from each existing
//! node to its neighbour list, paths, reachability, and what it means for a
//! membership relation to be the partition into connected components.

use vstd::prelude::*;

verus! {

/// There is an edge from `a` to `b`: both exist and `b` is in `a`'s list.
/// A neighbour that does not exist is a stale reference, not an edge.
pub open spec fn has_edge(g: Map<u64, Seq<u64>>, a: u64, b: u64) -> bool {
    g.contains_key(a) && g.contains_key(b) && g[a].contains(b)
}

/// `p` is a non-empty walk through existing nodes along edges.
pub open spec fn is_path(g: Map<u64, Seq<u64>>, p: Seq<u64>) -> bool {
    &&& p.len() > 0
    &&& g.contains_key(p[0])
    &&& forall|i: int| 0 <= i < p.len() - 1 ==> has_edge(g, #[trigger] p[i], p[i + 1])
}

/// `b` can be reached from `a` along edges; every existing node reaches itself.
pub open spec fn reachable(g: Map<u64, Seq<u64>>, a: u64, b: u64) -> bool {
    exists|p: Seq<u64>| is_path(g, p) && p[0] == a && #[trigger] p[p.len() - 1] == b
}

/// Among existing nodes, adjacency goes both ways.
pub open spec fn symmetric(g: Map<u64, Seq<u64>>) -> bool {
    forall|a: u64, b: u64| has_edge(g, a, b) ==> has_edge(g, b, a)
}

/// No neighbour list names the same node twice.
pub open spec fn duplicate_free(g: Map<u64, Seq<u64>>) -> bool {
    forall|a: u64| g.contains_key(a) ==> (#[trigger] g[a]).no_duplicates()
}

/// Some node of `updated` reaches `x`.
pub open spec fn touched(g: Map<u64, Seq<u64>>, updated: Set<u64>, x: u64) -> bool {
    exists|u: u64| updated.contains(u) && #[trigger] reachable(g, u, x)
}

/// `a` and `b` are both members, of the same component.
pub open spec fn same_component(m: Map<u64, u64>, a: u64, b: u64) -> bool {
    m.contains_key(a) && m.contains_key(b) && m[a] == m[b]
}

/// The membership `m` is exactly the partition of `g` into connected
/// components: a node is a member iff it has a neighbour list that is not
/// empty, and two distinct nodes share a component iff one reaches the other.
pub open spec fn partition_correct(g: Map<u64, Seq<u64>>, m: Map<u64, u64>) -> bool {
    &&& forall|a: u64| #[trigger] m.contains_key(a) <==> g.contains_key(a) && g[a].len() > 0
    &&& forall|a: u64, b: u64|
        g.contains_key(a) && g.contains_key(b) && a != b ==> (#[trigger] same_component(m, a, b)
            <==> reachable(g, a, b))
}

/// The membership `m` is right wherever `updated` does not reach: there it is
/// the partition of `g`, and no component there has a member in the touched
/// part.
pub open spec fn settled_outside(
    g: Map<u64, Seq<u64>>,
    m: Map<u64, u64>,
    updated: Set<u64>,
) -> bool {
    &&& forall|a: u64| #[trigger] m.contains_key(a) ==> g.contains_key(a)
    &&& forall|a: u64|
        g.contains_key(a) && !touched(g, updated, a) ==> (#[trigger] m.contains_key(a) <==> g[a].len()
            > 0)
    &&& forall|a: u64, b: u64|
        g.contains_key(a) && g.contains_key(b) && a != b && !touched(g, updated, a) && !touched(
            g,
            updated,
            b,
        ) ==> (#[trigger] same_component(m, a, b) <==> reachable(g, a, b))
    &&& forall|a: u64, t: u64|
        g.contains_key(a) && !touched(g, updated, a) && touched(g, updated, t)
            ==> !#[trigger] same_component(m, a, t)
}

/// Every existing node reaches itself.
pub proof fn lemma_reachable_refl(g: Map<u64, Seq<u64>>, a: u64)
    requires
        g.contains_key(a),
    ensures
        reachable(g, a, a),
{
    let p = seq![a];
    assert(is_path(g, p));
    assert(p[0] == a && p[p.len() - 1] == a);
}

/// Both ends of a path exist.
pub proof fn lemma_reachable_exist(g: Map<u64, Seq<u64>>, a: u64, b: u64)
    requires
        reachable(g, a, b),
    ensures
        g.contains_key(a),
        g.contains_key(b),
{
    let p = choose|p: Seq<u64>| is_path(g, p) && p[0] == a && #[trigger] p[p.len() - 1] == b;
    if p.len() > 1 {
        assert(has_edge(g, p[p.len() - 2], p[p.len() - 2 + 1]));
    }
}

/// A path can be prolonged by one edge.
pub proof fn lemma_reachable_step(g: Map<u64, Seq<u64>>, a: u64, b: u64, c: u64)
    requires
        reachable(g, a, b),
        has_edge(g, b, c),
    ensures
        reachable(g, a, c),
{
    let p = choose|p: Seq<u64>| is_path(g, p) && p[0] == a && #[trigger] p[p.len() - 1] == b;
    let q = p.push(c);
    assert forall|i: int| 0 <= i < q.len() - 1 implies has_edge(g, #[trigger] q[i], q[i + 1]) by {
        if i < p.len() - 1 {
            assert(has_edge(g, p[i], p[i + 1]));
        }
    }
    assert(is_path(g, q));
    assert(q[0] == a && q[q.len() - 1] == c);
}

/// A path of more than one node ends with an edge from a node that its
/// start reaches.
pub proof fn lemma_path_last_edge(g: Map<u64, Seq<u64>>, p: Seq<u64>)
    requires
        is_path(g, p),
        p.len() > 1,
    ensures
        is_path(g, p.drop_last()),
        reachable(g, p[0], p[p.len() - 2]),
        has_edge(g, p[p.len() - 2], p[p.len() - 1]),
{
    let q = p.drop_last();
    assert forall|i: int| 0 <= i < q.len() - 1 implies has_edge(g, #[trigger] q[i], q[i + 1]) by {
        assert(has_edge(g, p[i], p[i + 1]));
    }
    assert(is_path(g, q));
    assert(q[0] == p[0] && q[q.len() - 1] == p[p.len() - 2]);
    assert(has_edge(g, p[p.len() - 2], p[p.len() - 2 + 1]));
}

proof fn lemma_path_trans(g: Map<u64, Seq<u64>>, a: u64, q: Seq<u64>)
    requires
        is_path(g, q),
        reachable(g, a, q[0]),
    ensures
        reachable(g, a, q[q.len() - 1]),
    decreases q.len(),
{
    if q.len() > 1 {
        lemma_path_last_edge(g, q);
        lemma_path_trans(g, a, q.drop_last());
        lemma_reachable_step(g, a, q[q.len() - 2], q[q.len() - 1]);
    }
}

/// Reachability is transitive.
pub proof fn lemma_reachable_trans(g: Map<u64, Seq<u64>>, a: u64, b: u64, c: u64)
    requires
        reachable(g, a, b),
        reachable(g, b, c),
    ensures
        reachable(g, a, c),
{
    let q = choose|q: Seq<u64>| is_path(g, q) && q[0] == b && #[trigger] q[q.len() - 1] == c;
    lemma_path_trans(g, a, q);
}

proof fn lemma_path_sym(g: Map<u64, Seq<u64>>, p: Seq<u64>)
    requires
        symmetric(g),
        is_path(g, p),
    ensures
        reachable(g, p[p.len() - 1], p[0]),
    decreases p.len(),
{
    if p.len() > 1 {
        lemma_path_last_edge(g, p);
        lemma_path_sym(g, p.drop_last());
        let m = p[p.len() - 2];
        let b = p[p.len() - 1];
        lemma_reachable_refl(g, b);
        lemma_reachable_step(g, b, b, m);
        lemma_reachable_trans(g, b, m, p[0]);
    } else {
        lemma_reachable_refl(g, p[0]);
    }
}

/// In a symmetric graph reachability goes both ways.
pub proof fn lemma_reachable_sym(g: Map<u64, Seq<u64>>, a: u64, b: u64)
    requires
        symmetric(g),
        reachable(g, a, b),
    ensures
        reachable(g, b, a),
{
    let p = choose|p: Seq<u64>| is_path(g, p) && p[0] == a && #[trigger] p[p.len() - 1] == b;
    lemma_path_sym(g, p);
}

/// A set that no edge leaves is closed under edges.
pub open spec fn closed_under_edges(g: Map<u64, Seq<u64>>, s: Set<u64>) -> bool {
    forall|x: u64, y: u64| s.contains(x) && #[trigger] has_edge(g, x, y) ==> s.contains(y)
}

proof fn lemma_path_stays(g: Map<u64, Seq<u64>>, s: Set<u64>, p: Seq<u64>)
    requires
        closed_under_edges(g, s),
        is_path(g, p),
        s.contains(p[0]),
    ensures
        s.contains(p[p.len() - 1]),
    decreases p.len(),
{
    if p.len() > 1 {
        lemma_path_last_edge(g, p);
        lemma_path_stays(g, s, p.drop_last());
    }
}

/// A path that starts in a set closed under edges ends in it.
pub proof fn lemma_closed_reach(g: Map<u64, Seq<u64>>, s: Set<u64>, a: u64, b: u64)
    requires
        closed_under_edges(g, s),
        s.contains(a),
        reachable(g, a, b),
    ensures
        s.contains(b),
{
    let p = choose|p: Seq<u64>| is_path(g, p) && p[0] == a && #[trigger] p[p.len() - 1] == b;
    lemma_path_stays(g, s, p);
}

/// A node without neighbours reaches only itself.
pub proof fn lemma_isolated_reaches_itself(g: Map<u64, Seq<u64>>, a: u64, b: u64)
    requires
        reachable(g, a, b),
        g[a].len() == 0,
    ensures
        a == b,
{
    let p = choose|p: Seq<u64>| is_path(g, p) && p[0] == a && #[trigger] p[p.len() - 1] == b;
    if p.len() > 1 {
        assert(has_edge(g, p[0], p[1]));
    }
}

proof fn lemma_path_transfers(
    g: Map<u64, Seq<u64>>,
    h: Map<u64, Seq<u64>>,
    s: Set<u64>,
    p: Seq<u64>,
)
    requires
        closed_under_edges(g, s),
        forall|x: u64|
            s.contains(x) && #[trigger] g.contains_key(x) ==> h.contains_key(x) && g[x] == h[x],
        is_path(g, p),
        s.contains(p[0]),
    ensures
        is_path(h, p),
        s.contains(p[p.len() - 1]),
    decreases p.len(),
{
    assert(h.contains_key(p[0]));
    if p.len() > 1 {
        lemma_path_last_edge(g, p);
        let q = p.drop_last();
        lemma_path_transfers(g, h, s, q);
        let m = p[p.len() - 2];
        let b = p[p.len() - 1];
        assert(s.contains(m));
        assert(g.contains_key(m) && g.contains_key(b));
        assert(s.contains(b));
        assert(has_edge(h, m, b));
        assert forall|i: int| 0 <= i < p.len() - 1 implies has_edge(h, #[trigger] p[i], p[i + 1]) by {
            if i < q.len() - 1 {
                assert(has_edge(h, q[i], q[i + 1]));
            }
        }
    }
}

/// Where a second graph has the nodes of a set that is closed under the
/// edges of the first, with the same lists, a path of the first that starts
/// in the set is a path of the second and ends in the set.
pub proof fn lemma_reachable_transfers(
    g: Map<u64, Seq<u64>>,
    h: Map<u64, Seq<u64>>,
    s: Set<u64>,
    a: u64,
    b: u64,
)
    requires
        closed_under_edges(g, s),
        forall|x: u64|
            s.contains(x) && #[trigger] g.contains_key(x) ==> h.contains_key(x) && g[x] == h[x],
        s.contains(a),
        reachable(g, a, b),
    ensures
        reachable(h, a, b),
        s.contains(b),
{
    let p = choose|p: Seq<u64>| is_path(g, p) && p[0] == a && #[trigger] p[p.len() - 1] == b;
    lemma_path_transfers(g, h, s, p);
    assert(is_path(h, p) && p[0] == a && p[p.len() - 1] == b);
}

/// The two sides of the membership index agree: a node is a member of `c`
/// exactly when the member set of `c` holds it.
pub open spec fn index_consistent(m: Map<u64, u64>, s: Map<u64, Set<u64>>) -> bool {
    &&& forall|n: u64| #[trigger]
        m.contains_key(n) ==> s.contains_key(m[n]) && s[m[n]].contains(n)
    &&& forall|c: u64, n: u64|
        s.contains_key(c) && #[trigger] s[c].contains(n) ==> m.contains_key(n) && m[n] == c
}

/// The member sets after `n` moved into component `c`.
pub open spec fn reassigned(s: Map<u64, Set<u64>>, n: u64, c: u64) -> Map<u64, Set<u64>> {
    Map::new(
        |k: u64| s.contains_key(k),
        |k: u64|
            if k == c {
                s[k].insert(n)
            } else {
                s[k].remove(n)
            },
    )
}

/// The member sets after `n` lost its membership.
pub open spec fn unassigned(s: Map<u64, Set<u64>>, n: u64) -> Map<u64, Set<u64>> {
    Map::new(|k: u64| s.contains_key(k), |k: u64| s[k].remove(n))
}

/// The member sets without the components that have no member.
pub open spec fn populated(s: Map<u64, Set<u64>>) -> Map<u64, Set<u64>> {
    Map::new(|k: u64| s.contains_key(k) && !s[k].is_empty(), |k: u64| s[k])
}

/// `a` and `b` agree on `x`: both lack it, or both map it to the same value.
pub open spec fn same_entry(a: Map<u64, u64>, b: Map<u64, u64>, x: u64) -> bool {
    a.contains_key(x) == b.contains_key(x) && (a.contains_key(x) ==> a[x] == b[x])
}

/// `n` is a member of a component that `used` does not hold.
pub open spec fn unclaimed(m: Map<u64, u64>, used: Set<u64>, n: u64) -> bool {
    m.contains_key(n) && !used.contains(m[n])
}

/// The component of the first node of `list` that is a member of a
/// component not in `used`; `None` where there is no such node.
pub open spec fn first_unclaimed(m: Map<u64, u64>, used: Set<u64>, list: Seq<u64>) -> Option<u64>
    decreases list.len(),
{
    if list.len() == 0 {
        None
    } else if unclaimed(m, used, list[0]) {
        Some(m[list[0]])
    } else {
        first_unclaimed(m, used, list.drop_first())
    }
}

/// What a sequence contains after a value was added at its end.
pub proof fn lemma_push_contains<A>(s: Seq<A>, v: A)
    ensures
        forall|x: A|
            #![trigger s.push(v).contains(x)]
            #![trigger s.contains(x)]
            s.push(v).contains(x) <==> s.contains(x) || x == v,
{
    let t = s.push(v);
    assert forall|x: A| t.contains(x) <==> s.contains(x) || x == v by {
        assert(t[s.len() as int] == v);
        if s.contains(x) {
            let i = choose|i: int| 0 <= i < s.len() && s[i] == x;
            assert(t[i] == x);
        }
    }
}

/// What a sequence contains after a value was added at its front.
pub proof fn lemma_push_front_contains(s: Seq<u64>, v: u64)
    ensures
        forall|x: u64|
            #![trigger (seq![v] + s).contains(x)]
            #![trigger s.contains(x)]
            (seq![v] + s).contains(x) <==> s.contains(x) || x == v,
{
    let t = seq![v] + s;
    assert forall|x: u64| t.contains(x) <==> s.contains(x) || x == v by {
        assert(t[0] == v);
        if s.contains(x) {
            let i = choose|i: int| 0 <= i < s.len() && s[i] == x;
            assert(t[i + 1] == x);
        }
        if t.contains(x) {
            let i = choose|i: int| 0 <= i < t.len() && t[i] == x;
            if i > 0 {
                assert(s[i - 1] == x);
            }
        }
    }
}

/// What a sequence contains besides its last value.
pub proof fn lemma_drop_last_contains(s: Seq<u64>, t: Seq<u64>)
    requires
        s.len() > 0,
        t == s.subrange(0, s.len() - 1),
    ensures
        forall|x: u64|
            #![trigger s.contains(x)]
            #![trigger t.contains(x)]
            s.contains(x) <==> t.contains(x) || x == s[s.len() - 1],
{
    assert forall|x: u64| s.contains(x) <==> t.contains(x) || x == s[s.len() - 1] by {
        if t.contains(x) {
            let i = choose|i: int| 0 <= i < t.len() && t[i] == x;
            assert(s[i] == x);
        }
        if s.contains(x) {
            let i = choose|i: int| 0 <= i < s.len() && s[i] == x;
            if i < s.len() - 1 {
                assert(t[i] == x);
            }
        }
    }
}

/// The state of the upkeep of one tick between two turns: the membership,
/// the components claimed, the existing nodes visited, and the identity
/// that the next new component gets.
pub struct Upkeep {
    pub membership: Map<u64, u64>,
    pub used: Set<u64>,
    pub visited: Set<u64>,
    pub next: u64,
}

/// The component that a traversal from `entity` claims: that of the first
/// of `entity` and its neighbours that is a member of a component not yet
/// claimed, else a new one.
pub open spec fn claim(g: Map<u64, Seq<u64>>, s: Upkeep, entity: u64) -> u64 {
    match first_unclaimed(s.membership, s.used, seq![entity] + g[entity]) {
        Some(c) => c,
        None => s.next,
    }
}

/// The turn of one updated node. A node that does not exist is passed
/// over. A node without neighbours loses its membership. A node that was
/// visited is passed over. From any other node a traversal starts: it
/// claims a component, and every node that it reaches and that was not
/// visited becomes a member of that component and visited. The claim looks
/// at the membership as it is at that turn; for the node itself, and in a
/// symmetric graph for the nodes it lists, that is the membership from
/// before the tick, since none of them was visited.
pub open spec fn turn(g: Map<u64, Seq<u64>>, s: Upkeep, entity: u64) -> Upkeep {
    if !g.contains_key(entity) {
        s
    } else if g[entity].len() == 0 {
        Upkeep { membership: s.membership.remove(entity), ..s }
    } else if s.visited.contains(entity) {
        s
    } else {
        let c = claim(g, s, entity);
        let choice = first_unclaimed(s.membership, s.used, seq![entity] + g[entity]);
        Upkeep {
            membership: Map::new(
                |x: u64|
                    s.membership.contains_key(x) || (reachable(g, entity, x) && !s.visited.contains(
                        x,
                    )),
                |x: u64|
                    if reachable(g, entity, x) && !s.visited.contains(x) {
                        c
                    } else {
                        s.membership[x]
                    },
            ),
            used: s.used.insert(c),
            visited: Set::new(|x: u64| s.visited.contains(x) || reachable(g, entity, x)),
            next: if choice is None {
                (s.next + 1) as u64
            } else {
                s.next
            },
        }
    }
}

/// The turns of the updated nodes, in their order.
pub open spec fn turns(g: Map<u64, Seq<u64>>, s: Upkeep, updated: Seq<u64>) -> Upkeep
    decreases updated.len(),
{
    if updated.len() == 0 {
        s
    } else {
        turn(g, turns(g, s, updated.drop_last()), updated.last())
    }
}

/// The upkeep of a tick that starts from the membership `m` and the next
/// identity `next`, when all of `updated` have had their turn.
pub open spec fn upkeep(
    g: Map<u64, Seq<u64>>,
    m: Map<u64, u64>,
    next: u64,
    updated: Seq<u64>,
) -> Upkeep {
    turns(
        g,
        Upkeep { membership: m, used: Set::<u64>::empty(), visited: Set::<u64>::empty(), next },
        updated,
    )
}

/// `t` is `r` or one of the nodes that `r` lists, and a member in `m`.
pub open spec fn near(g: Map<u64, Seq<u64>>, m: Map<u64, u64>, r: u64, t: u64) -> bool {
    (t == r || g[r].contains(t)) && m.contains_key(t)
}

/// Every component of `m` that is older than `next` was, in `before`, the
/// component of a node that is now in it: an identity that lives on keeps
/// one of its members.
pub open spec fn continuous(
    g: Map<u64, Seq<u64>>,
    before: Map<u64, u64>,
    m: Map<u64, u64>,
    next: u64,
) -> bool {
    forall|x: u64| #[trigger]
        m.contains_key(x) && m[x] < next ==> exists|y: u64|
            #[trigger] reachable(g, x, y) && before.contains_key(y) && before[y] == m[x]
}

/// Every component of `m` that is not older than `next` holds an updated
/// node such that the components that this node and the nodes it lists had
/// in `before` are all in use in `m`: a new identity is made only where no
/// old one is free.
pub open spec fn thrifty(
    g: Map<u64, Seq<u64>>,
    before: Map<u64, u64>,
    m: Map<u64, u64>,
    next: u64,
    updated: Set<u64>,
) -> bool {
    forall|x: u64| #[trigger]
        m.contains_key(x) && m[x] >= next ==> exists|r: u64|
            updated.contains(r) && #[trigger] reachable(g, r, x) && forall|t: u64| #[trigger]
                near(g, before, r, t) ==> exists|z: u64| #[trigger]
                    m.contains_key(z) && m[z] == before[t]
}

} // verus!
