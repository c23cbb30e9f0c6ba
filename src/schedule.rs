use vstd::prelude::*;
use crate::types::{Event, EventView, Ratio, events_view, str_eq, contains_name, copy_events};
use crate::graph::{ConstraintGraph, has_cycle, weakly_connected, is_walk, is_topological, linked};

verus! {

/// An event named `x` lists `y` among the events it happens before.
pub open spec fn listed_before(ev: Seq<EventView>, x: Seq<char>, y: Seq<char>) -> bool {
    exists|j: int, m: int|
        0 <= j < ev.len() && 0 <= m < ev[j].before.len() && ev[j].name == x && #[trigger] ev[j].before[m] == y
}

/// `x` comes directly before `y`: an event named `x` lists `y`, or `x -> y` is the
/// constraint `a -> b` being added.
pub open spec fn directly_before(ev: Seq<EventView>, a: Seq<char>, b: Seq<char>, x: Seq<char>, y: Seq<char>) -> bool {
    listed_before(ev, x, y) || (x == a && y == b)
}

/// A name that the graph of `ev` with the constraint `a -> b` has a node for: an
/// event's name, a name an event lists, or `a` or `b`.
pub open spec fn mentioned(ev: Seq<EventView>, a: Seq<char>, b: Seq<char>, x: Seq<char>) -> bool {
    ||| x == a
    ||| x == b
    ||| exists|j: int| 0 <= j < ev.len() && (#[trigger] ev[j]).name == x
    ||| exists|j: int, m: int| 0 <= j < ev.len() && 0 <= m < ev[j].before.len() && #[trigger] ev[j].before[m] == x
}

/// A chain of names, each directly before the next.
pub open spec fn is_chain(ev: Seq<EventView>, a: Seq<char>, b: Seq<char>, p: Seq<Seq<char>>) -> bool {
    forall|k: int| 0 <= k < p.len() - 1 ==> #[trigger] directly_before(ev, a, b, p[k], p[k + 1])
}

/// Adding `a -> b` to the precedence of `ev` closes a cycle of names.
pub open spec fn closes_cycle(ev: Seq<EventView>, a: Seq<char>, b: Seq<char>) -> bool {
    exists|p: Seq<Seq<char>>| p.len() >= 2 && p[0] == p.last() && #[trigger] is_chain(ev, a, b, p)
}

/// `x` and `y` are joined by a precedence, in either direction.
pub open spec fn adjoining(ev: Seq<EventView>, a: Seq<char>, b: Seq<char>, x: Seq<char>, y: Seq<char>) -> bool {
    directly_before(ev, a, b, x, y) || directly_before(ev, a, b, y, x)
}

/// A chain of names that ignores the direction of precedence.
pub open spec fn is_loose_chain(ev: Seq<EventView>, a: Seq<char>, b: Seq<char>, p: Seq<Seq<char>>) -> bool {
    forall|k: int| 0 <= k < p.len() - 1 ==> #[trigger] adjoining(ev, a, b, p[k], p[k + 1])
}

/// The name the graph starts from: the first event's, or `a` when there is none.
pub open spec fn first_name(ev: Seq<EventView>, a: Seq<char>) -> Seq<char> {
    if ev.len() > 0 { ev[0].name } else { a }
}

/// Ignoring direction, every mentioned name is joined to the first name by a chain.
pub open spec fn all_joined(ev: Seq<EventView>, a: Seq<char>, b: Seq<char>) -> bool {
    forall|x: Seq<char>| #[trigger] mentioned(ev, a, b, x) ==> exists|p: Seq<Seq<char>>|
        p.len() >= 1 && p[0] == first_name(ev, a) && p.last() == x && #[trigger] is_loose_chain(ev, a, b, p)
}

/// A bound on the nodes plus edges of the graph of `ev`: one per event and two per
/// name it lists.
pub open spec fn mention_count(ev: Seq<EventView>) -> nat
    decreases ev.len(),
{
    if ev.len() == 0 { 0 } else { mention_count(ev.drop_last()) + 1 + 2 * ev.last().before.len() }
}

proof fn lemma_mention_count_prefix(ev: Seq<EventView>, i: int)
    requires
        0 <= i < ev.len(),
    ensures
        mention_count(ev.take(i + 1)) == mention_count(ev.take(i)) + 1 + 2 * ev[i].before.len(),
        mention_count(ev.take(i + 1)) <= mention_count(ev),
    decreases ev.len() - i,
{
    assert(ev.take(i + 1).drop_last() =~= ev.take(i));
    if i + 1 < ev.len() {
        lemma_mention_count_prefix(ev, i + 1);
    } else {
        assert(ev.take(i + 1) =~= ev);
    }
}

/// The graph's nodes are exactly the mentioned names, and its edges exactly the
/// direct precedences between them.
pub open spec fn represents(g: ConstraintGraph, ev: Seq<EventView>, a: Seq<char>, b: Seq<char>) -> bool {
    &&& g.wf()
    &&& forall|x: Seq<char>| #[trigger] g.node_names().contains(x) <==> mentioned(ev, a, b, x)
    &&& forall|e: (nat, nat)| #[trigger] g.edges().contains(e) <==> (e.0 < g.names.len() && e.1 < g.names.len()
            && directly_before(ev, a, b, g.node_names()[e.0 as int], g.node_names()[e.1 as int]))
}


spec fn listed_upto(ev: Seq<EventView>, i: int, k: int, x: Seq<char>, y: Seq<char>) -> bool {
    exists|j: int, m: int|
        0 <= j <= i && j < ev.len() && 0 <= m < ev[j].before.len() && (j < i || m < k) && ev[j].name == x
            && #[trigger] ev[j].before[m] == y
}

spec fn mentioned_upto(ev: Seq<EventView>, i: int, k: int, named: bool, x: Seq<char>) -> bool {
    ||| exists|j: int| 0 <= j < i && j < ev.len() && (#[trigger] ev[j]).name == x
    ||| (named && 0 <= i < ev.len() && ev[i].name == x)
    ||| exists|j: int, m: int|
        0 <= j <= i && j < ev.len() && 0 <= m < ev[j].before.len() && (j < i || m < k) && #[trigger] ev[j].before[m] == x
}

/// Edges of `edges` are exactly the pairs of `names` that `rel` relates.
spec fn edges_are(edges: Seq<(nat, nat)>, names: Seq<Seq<char>>, rel: spec_fn(Seq<char>, Seq<char>) -> bool) -> bool {
    forall|e: (nat, nat)| #[trigger] edges.contains(e) <==> (e.0 < names.len() && e.1 < names.len()
        && rel(names[e.0 as int], names[e.1 as int]))
}

proof fn lemma_names_grow(
    edges: Seq<(nat, nat)>,
    old_names: Seq<Seq<char>>,
    new_names: Seq<Seq<char>>,
    rel: spec_fn(Seq<char>, Seq<char>) -> bool,
)
    requires
        edges_are(edges, old_names, rel),
        old_names.len() <= new_names.len(),
        forall|j: int| 0 <= j < old_names.len() ==> new_names[j] == old_names[j],
        new_names.no_duplicates(),
        forall|x: Seq<char>, y: Seq<char>| #[trigger] rel(x, y) ==> old_names.contains(x) && old_names.contains(y),
    ensures
        edges_are(edges, new_names, rel),
{
    assert forall|e: (nat, nat)| #[trigger] edges.contains(e) <==> (e.0 < new_names.len() && e.1 < new_names.len()
        && rel(new_names[e.0 as int], new_names[e.1 as int])) by {
        if e.0 < new_names.len() && e.1 < new_names.len() && rel(new_names[e.0 as int], new_names[e.1 as int]) {
            let x = new_names[e.0 as int];
            let y = new_names[e.1 as int];
            let jx = choose|j: int| 0 <= j < old_names.len() && old_names[j] == x;
            let jy = choose|j: int| 0 <= j < old_names.len() && old_names[j] == y;
            assert(new_names[jx] == x && new_names[jy] == y);
        }
    }
}

proof fn lemma_edge_added(
    old_edges: Seq<(nat, nat)>,
    new_edges: Seq<(nat, nat)>,
    names: Seq<Seq<char>>,
    old_rel: spec_fn(Seq<char>, Seq<char>) -> bool,
    new_rel: spec_fn(Seq<char>, Seq<char>) -> bool,
    ia: nat,
    ib: nat,
)
    requires
        edges_are(old_edges, names, old_rel),
        names.no_duplicates(),
        ia < names.len(),
        ib < names.len(),
        forall|e: (nat, nat)| #[trigger] new_edges.contains(e) <==> (old_edges.contains(e) || e == (ia, ib)),
        forall|x: Seq<char>, y: Seq<char>| #[trigger] new_rel(x, y) <==> (old_rel(x, y) || (x == names[ia as int] && y == names[ib as int])),
    ensures
        edges_are(new_edges, names, new_rel),
{
    assert forall|e: (nat, nat)| #[trigger] new_edges.contains(e) <==> (e.0 < names.len() && e.1 < names.len()
        && new_rel(names[e.0 as int], names[e.1 as int])) by {
        if e.0 < names.len() && e.1 < names.len() && new_rel(names[e.0 as int], names[e.1 as int]) {
            if !old_rel(names[e.0 as int], names[e.1 as int]) {
                assert(e.0 == ia);
                assert(e.1 == ib);
            }
        }
        if old_edges.contains(e) {
            assert(old_rel(names[e.0 as int], names[e.1 as int]));
        }
    }
}

/// The precedence graph of `events` together with the constraint `a -> b`.
pub fn build_graph(events: &Vec<Event>, a: &str, b: &str) -> (g: ConstraintGraph)
    requires
        mention_count(events_view(events@)) + 4 < u32::MAX,
    ensures
        represents(g, events_view(events@), a@, b@),
        g.names.len() > 0,
        g.node_names()[0] == first_name(events_view(events@), a@),
{
    let ghost ev = events_view(events@);
    let mut g = ConstraintGraph::new();
    let mut i: usize = 0;
    while i < events.len()
        invariant
            ev == events_view(events@),
            0 <= i <= events.len(),
            g.wf(),
            g.names.len() + g.edges().len() <= mention_count(ev.take(i as int)),
            mention_count(ev) + 4 < u32::MAX,
            forall|x: Seq<char>| #[trigger] g.node_names().contains(x) <==> mentioned_upto(ev, i as int, 0, false, x),
            edges_are(g.edges(), g.node_names(), |x: Seq<char>, y: Seq<char>| listed_upto(ev, i as int, 0, x, y)),
            i > 0 ==> g.names.len() > 0 && g.node_names()[0] == ev[0].name,
        decreases events.len() - i,
    {
        let ghost names0 = g.node_names();
        let ghost edges0 = g.edges();
        proof {
            lemma_mention_count_prefix(ev, i as int);
        }
        let ia = g.node_of(events[i].name.as_str());
        proof {
            assert(ev[i as int].name == events@[i as int].name@);
            let nm = ev[i as int].name;
            assert forall|x: Seq<char>| #[trigger] g.node_names().contains(x) <==> mentioned_upto(ev, i as int, 0, true, x) by {
                if g.node_names().contains(x) && x != nm {
                    assert(names0.contains(x));
                }
                if mentioned_upto(ev, i as int, 0, true, x) && x != nm {
                    assert(mentioned_upto(ev, i as int, 0, false, x));
                    assert(names0.contains(x));
                    if names0 != g.node_names() {
                        assert(g.node_names() == names0.push(nm));
                        let j = choose|j: int| 0 <= j < names0.len() && names0[j] == x;
                        assert(g.node_names()[j] == x);
                    }
                }
            }
            let rel = |x: Seq<char>, y: Seq<char>| listed_upto(ev, i as int, 0, x, y);
            assert forall|x: Seq<char>, y: Seq<char>| #[trigger] rel(x, y) implies names0.contains(x) && names0.contains(y) by {
                let (j, m) = choose|j: int, m: int|
                    0 <= j <= i && j < ev.len() && 0 <= m < ev[j].before.len() && (j < i || m < 0) && ev[j].name == x
                        && #[trigger] ev[j].before[m] == y;
                assert(mentioned_upto(ev, i as int, 0, false, x));
                assert(mentioned_upto(ev, i as int, 0, false, y));
            }
            if names0 != g.node_names() {
                assert(g.node_names() == names0.push(nm));
            }
            lemma_names_grow(g.edges(), names0, g.node_names(), rel);
            assert(ev[i as int].before.len() == events@[i as int].before.len());
        }
        let mut k: usize = 0;
        while k < events[i].before.len()
            invariant
                ev == events_view(events@),
                0 <= i < events.len(),
                0 <= k <= events[i as int].before.len(),
                g.wf(),
                ia < g.names.len(),
                g.node_names()[ia as int] == ev[i as int].name,
                mention_count(ev) + 4 < u32::MAX,
                forall|x: Seq<char>| #[trigger] g.node_names().contains(x) <==> mentioned_upto(ev, i as int, k as int, true, x),
                edges_are(g.edges(), g.node_names(), |x: Seq<char>, y: Seq<char>| listed_upto(ev, i as int, k as int, x, y)),
                g.names.len() > 0 && g.node_names()[0] == ev[0].name,
                g.names.len() + g.edges().len() <= mention_count(ev.take(i as int)) + 1 + 2 * k,
                mention_count(ev.take(i as int)) + 1 + 2 * ev[i as int].before.len() <= mention_count(ev),
            decreases events[i as int].before.len() - k,
        {
            let ghost names1 = g.node_names();
            let ghost y0 = ev[i as int].before[k as int];
            proof {
                assert(y0 == events@[i as int].before@[k as int]@);
            }
            let ib = g.node_of(events[i].before[k].as_str());
            proof {
                assert forall|x: Seq<char>| #[trigger] g.node_names().contains(x) <==> mentioned_upto(ev, i as int, k + 1, true, x) by {
                    if g.node_names().contains(x) && x != y0 {
                        assert(names1.contains(x));
                        assert(mentioned_upto(ev, i as int, k as int, true, x));
                    }
                    if x == y0 {
                        assert(ev[i as int].before[k as int] == x);
                    }
                    if mentioned_upto(ev, i as int, k + 1, true, x) && x != y0 {
                        assert(mentioned_upto(ev, i as int, k as int, true, x));
                        assert(names1.contains(x));
                        if names1 != g.node_names() {
                            let j = choose|j: int| 0 <= j < names1.len() && names1[j] == x;
                            assert(g.node_names()[j] == x);
                        }
                    }
                }
                let rel = |x: Seq<char>, y: Seq<char>| listed_upto(ev, i as int, k as int, x, y);
                assert forall|x: Seq<char>, y: Seq<char>| #[trigger] rel(x, y) implies names1.contains(x) && names1.contains(y) by {
                    let (j, m) = choose|j: int, m: int|
                        0 <= j <= i && j < ev.len() && 0 <= m < ev[j].before.len() && (j < i || m < k) && ev[j].name == x
                            && #[trigger] ev[j].before[m] == y;
                    assert(mentioned_upto(ev, i as int, k as int, true, x));
                    assert(mentioned_upto(ev, i as int, k as int, true, y));
                }
                lemma_names_grow(g.edges(), names1, g.node_names(), rel);
            }
            let ghost e1 = g.edges();
            g.add_edge(ia, ib);
            proof {
                let rel0 = |x: Seq<char>, y: Seq<char>| listed_upto(ev, i as int, k as int, x, y);
                let rel1 = |x: Seq<char>, y: Seq<char>| listed_upto(ev, i as int, k + 1, x, y);
                let nm = ev[i as int].name;
                assert forall|x: Seq<char>, y: Seq<char>| #[trigger] rel1(x, y) <==> (rel0(x, y) || (x == g.node_names()[ia as int] && y == g.node_names()[ib as int])) by {
                    if x == nm && y == y0 {
                        assert(ev[i as int].before[k as int] == y);
                    }
                    if rel1(x, y) && !(x == nm && y == y0) {
                        let (j, m) = choose|j: int, m: int|
                            0 <= j <= i && j < ev.len() && 0 <= m < ev[j].before.len() && (j < i || m < k + 1) && ev[j].name == x
                                && #[trigger] ev[j].before[m] == y;
                        assert(j < i || m < k);
                    }
                }
                lemma_edge_added(e1, g.edges(), g.node_names(), rel0, rel1, ia as nat, ib as nat);
            }
            k += 1;
        }
        proof {
            let n_i = ev[i as int].before.len() as int;
            let rel0 = |x: Seq<char>, y: Seq<char>| listed_upto(ev, i as int, n_i, x, y);
            let rel1 = |x: Seq<char>, y: Seq<char>| listed_upto(ev, i + 1, 0, x, y);
            assert forall|x: Seq<char>, y: Seq<char>| #[trigger] rel0(x, y) <==> rel1(x, y) by {
                if rel1(x, y) {
                    let (j, m) = choose|j: int, m: int|
                        0 <= j <= i + 1 && j < ev.len() && 0 <= m < ev[j].before.len() && (j < i + 1 || m < 0) && ev[j].name == x
                            && #[trigger] ev[j].before[m] == y;
                    assert(j < i || m < n_i);
                }
            }
            assert forall|x: Seq<char>| #[trigger] g.node_names().contains(x) <==> mentioned_upto(ev, i + 1, 0, false, x) by {
                if mentioned_upto(ev, i as int, n_i, true, x) {
                    if 0 <= i < ev.len() && ev[i as int].name == x {
                        assert(ev[i as int].name == x);
                    }
                }
                if mentioned_upto(ev, i + 1, 0, false, x) {
                    if exists|j: int| 0 <= j < i + 1 && j < ev.len() && (#[trigger] ev[j]).name == x {
                        let j = choose|j: int| 0 <= j < i + 1 && j < ev.len() && (#[trigger] ev[j]).name == x;
                        if j < i {
                            assert(mentioned_upto(ev, i as int, n_i, true, x));
                        }
                    } else {
                        let (j, m) = choose|j: int, m: int|
                            0 <= j <= i + 1 && j < ev.len() && 0 <= m < ev[j].before.len() && (j < i + 1 || m < 0) && #[trigger] ev[j].before[m] == x;
                        assert(j < i || m < n_i);
                    }
                }
            }
            assert forall|e: (nat, nat)| #[trigger] g.edges().contains(e) <==> (e.0 < g.node_names().len() && e.1 < g.node_names().len()
                && rel1(g.node_names()[e.0 as int], g.node_names()[e.1 as int])) by {
                if g.edges().contains(e) {
                    assert(rel0(g.node_names()[e.0 as int], g.node_names()[e.1 as int]));
                }
                if e.0 < g.node_names().len() && e.1 < g.node_names().len() && rel1(g.node_names()[e.0 as int], g.node_names()[e.1 as int]) {
                    assert(rel0(g.node_names()[e.0 as int], g.node_names()[e.1 as int]));
                }
            }
        }
        i += 1;
    }
    proof {
        assert(ev.take(i as int) =~= ev);
    }
    let ghost ev_len = ev.len() as int;
    let ghost rel_l = |x: Seq<char>, y: Seq<char>| listed_upto(ev, ev_len, 0, x, y);
    let ghost names0 = g.node_names();
    proof {
        assert forall|x: Seq<char>, y: Seq<char>| #[trigger] rel_l(x, y) implies names0.contains(x) && names0.contains(y) by {
            let (j, m) = choose|j: int, m: int|
                0 <= j <= ev_len && j < ev.len() && 0 <= m < ev[j].before.len() && (j < ev_len || m < 0) && ev[j].name == x
                    && #[trigger] ev[j].before[m] == y;
            assert(mentioned_upto(ev, ev_len, 0, false, x));
            assert(mentioned_upto(ev, ev_len, 0, false, y));
        }
    }
    let ia = g.node_of(a);
    let ghost names1 = g.node_names();
    proof {
        if names0 != names1 {
            assert(names1 == names0.push(a@));
        }
        lemma_names_grow(g.edges(), names0, names1, rel_l);
        assert(g.names.len() == names1.len());
    }
    let ib = g.node_of(b);
    let ghost names2 = g.node_names();
    proof {
        if names1 != names2 {
            assert(names2 == names1.push(b@));
        }
        assert forall|x: Seq<char>, y: Seq<char>| #[trigger] rel_l(x, y) implies names1.contains(x) && names1.contains(y) by {
            assert(names0.contains(x) && names0.contains(y));
            let jx = choose|j: int| 0 <= j < names0.len() && names0[j] == x;
            let jy = choose|j: int| 0 <= j < names0.len() && names0[j] == y;
            assert(names1[jx] == x && names1[jy] == y);
        }
        lemma_names_grow(g.edges(), names1, names2, rel_l);
    }
    let ghost e2 = g.edges();
    g.add_edge(ia, ib);
    proof {
        let rel_d = |x: Seq<char>, y: Seq<char>| directly_before(ev, a@, b@, x, y);
        assert forall|x: Seq<char>, y: Seq<char>| #[trigger] rel_d(x, y) <==> (rel_l(x, y) || (x == names2[ia as int] && y == names2[ib as int])) by {
            if listed_before(ev, x, y) {
                let (j, m) = choose|j: int, m: int|
                    0 <= j < ev.len() && 0 <= m < ev[j].before.len() && ev[j].name == x && #[trigger] ev[j].before[m] == y;
                assert(rel_l(x, y));
            }
            if rel_l(x, y) {
                let (j, m) = choose|j: int, m: int|
                    0 <= j <= ev_len && j < ev.len() && 0 <= m < ev[j].before.len() && (j < ev_len || m < 0) && ev[j].name == x
                        && #[trigger] ev[j].before[m] == y;
                assert(listed_before(ev, x, y));
            }
        }
        lemma_edge_added(e2, g.edges(), names2, rel_l, rel_d, ia as nat, ib as nat);
        assert forall|x: Seq<char>| #[trigger] names2.contains(x) <==> mentioned(ev, a@, b@, x) by {
            if names2.contains(x) && x != a@ && x != b@ {
                assert(names1.contains(x));
                assert(names0.contains(x));
                assert(mentioned_upto(ev, ev_len, 0, false, x));
            }
            if mentioned(ev, a@, b@, x) {
                if x == a@ {
                    assert(names1.contains(x));
                    let j = choose|j: int| 0 <= j < names1.len() && names1[j] == x;
                    assert(names2[j] == x);
                } else if x != b@ {
                    assert(mentioned_upto(ev, ev_len, 0, false, x));
                    assert(names0.contains(x));
                    let j = choose|j: int| 0 <= j < names0.len() && names0[j] == x;
                    assert(names1[j] == x);
                    assert(names2[j] == x);
                }
            }
        }
        if ev.len() == 0 {
            assert(names0.len() == 0);
            assert(names1[0] == a@);
        }
        assert(names2[0] == names1[0]);
        assert(names1[0] == first_name(ev, a@));
    }
    g
}

spec fn index_of(names: Seq<Seq<char>>, x: Seq<char>) -> nat {
    (choose|j: int| 0 <= j < names.len() && names[j] == x) as nat
}

proof fn lemma_index_of(names: Seq<Seq<char>>, x: Seq<char>)
    requires
        names.contains(x),
        names.no_duplicates(),
    ensures
        index_of(names, x) < names.len(),
        names[index_of(names, x) as int] == x,
        forall|j: int| 0 <= j < names.len() && names[j] == x ==> j == index_of(names, x),
{
}

proof fn lemma_before_mentions(ev: Seq<EventView>, a: Seq<char>, b: Seq<char>, x: Seq<char>, y: Seq<char>)
    requires
        directly_before(ev, a, b, x, y),
    ensures
        mentioned(ev, a, b, x),
        mentioned(ev, a, b, y),
{
    if listed_before(ev, x, y) {
        let (j, m) = choose|j: int, m: int|
            0 <= j < ev.len() && 0 <= m < ev[j].before.len() && ev[j].name == x && #[trigger] ev[j].before[m] == y;
        assert(ev[j].name == x);
    }
}

/// The graph has a cycle exactly when the names close one.
pub proof fn lemma_cycle_by_names(g: ConstraintGraph, ev: Seq<EventView>, a: Seq<char>, b: Seq<char>)
    requires
        represents(g, ev, a, b),
    ensures
        has_cycle(g.edges()) <==> closes_cycle(ev, a, b),
{
    let names = g.node_names();
    let edges = g.edges();
    if has_cycle(edges) {
        let p = choose|p: Seq<nat>| p.len() >= 2 && p[0] == p.last() && is_walk(edges, p);
        let q = Seq::new(p.len(), |k: int| names[p[k] as int]);
        assert forall|k: int| 0 <= k < q.len() - 1 implies #[trigger] directly_before(ev, a, b, q[k], q[k + 1]) by {
            assert(edges.contains((p[k], p[k + 1])));
        }
        assert(is_chain(ev, a, b, q));
    }
    if closes_cycle(ev, a, b) {
        let q = choose|q: Seq<Seq<char>>| q.len() >= 2 && q[0] == q.last() && #[trigger] is_chain(ev, a, b, q);
        assert forall|k: int| 0 <= k < q.len() implies names.contains(#[trigger] q[k]) by {
            if k < q.len() - 1 {
                assert(directly_before(ev, a, b, q[k], q[k + 1]));
                lemma_before_mentions(ev, a, b, q[k], q[k + 1]);
            } else {
                let k1 = k - 1;
                assert(directly_before(ev, a, b, q[k1], q[k1 + 1]));
                lemma_before_mentions(ev, a, b, q[k1], q[k1 + 1]);
            }
        }
        let p = Seq::new(q.len(), |k: int| index_of(names, q[k]));
        assert forall|k: int| 0 <= k < p.len() - 1 implies #[trigger] edges.contains((p[k], p[k + 1])) by {
            assert(names.contains(q[k]));
            assert(names.contains(q[k + 1]));
            lemma_index_of(names, q[k]);
            lemma_index_of(names, q[k + 1]);
            assert(directly_before(ev, a, b, q[k], q[k + 1]));
        }
        assert(is_walk(edges, p));
        assert(p[0] == p.last());
    }
}

/// The graph is weakly connected exactly when every mentioned name is joined to the
/// first name.
pub proof fn lemma_connected_by_names(g: ConstraintGraph, ev: Seq<EventView>, a: Seq<char>, b: Seq<char>)
    requires
        represents(g, ev, a, b),
        g.names.len() > 0,
        g.node_names()[0] == first_name(ev, a),
    ensures
        weakly_connected(g.names.len() as nat, g.edges()) <==> all_joined(ev, a, b),
{
    let names = g.node_names();
    let edges = g.edges();
    let n = g.names.len() as nat;
    assert(names.len() == n);
    if weakly_connected(n, edges) {
        assert forall|x: Seq<char>| #[trigger] mentioned(ev, a, b, x) implies exists|q: Seq<Seq<char>>|
            q.len() >= 1 && q[0] == first_name(ev, a) && q.last() == x && #[trigger] is_loose_chain(ev, a, b, q) by {
            assert(names.contains(x));
            lemma_index_of(names, x);
            let v = index_of(names, x);
            assert(crate::graph::reached(edges, v));
            let p = choose|p: Seq<nat>| #[trigger] crate::graph::rooted_walk(edges, p, v);
            let q = Seq::new(p.len(), |k: int| names[p[k] as int]);
            assert forall|k: int| 0 <= k < q.len() - 1 implies #[trigger] adjoining(ev, a, b, q[k], q[k + 1]) by {
                assert(linked(edges, p[k], p[k + 1]));
                if edges.contains((p[k], p[k + 1])) {
                    assert(directly_before(ev, a, b, q[k], q[k + 1]));
                } else {
                    assert(edges.contains((p[k + 1], p[k])));
                    assert(directly_before(ev, a, b, q[k + 1], q[k]));
                }
            }
            assert(is_loose_chain(ev, a, b, q));
        }
    }
    if all_joined(ev, a, b) {
        assert forall|v: nat| v < n implies #[trigger] crate::graph::reached(edges, v) by {
            let x = names[v as int];
            assert(names.contains(x));
            assert(mentioned(ev, a, b, x));
            let q = choose|q: Seq<Seq<char>>|
                q.len() >= 1 && q[0] == first_name(ev, a) && q.last() == x && #[trigger] is_loose_chain(ev, a, b, q);
            assert forall|k: int| 0 <= k < q.len() implies names.contains(#[trigger] q[k]) by {
                if k < q.len() - 1 {
                    assert(adjoining(ev, a, b, q[k], q[k + 1]));
                    if directly_before(ev, a, b, q[k], q[k + 1]) {
                        lemma_before_mentions(ev, a, b, q[k], q[k + 1]);
                    } else {
                        lemma_before_mentions(ev, a, b, q[k + 1], q[k]);
                    }
                } else {
                    assert(q[k] == x);
                }
            }
            let p = Seq::new(q.len(), |k: int| index_of(names, q[k]));
            assert forall|k: int| 0 <= k < p.len() - 1 implies #[trigger] linked(edges, p[k], p[k + 1]) by {
                assert(names.contains(q[k]));
                assert(names.contains(q[k + 1]));
                lemma_index_of(names, q[k]);
                lemma_index_of(names, q[k + 1]);
                assert(adjoining(ev, a, b, q[k], q[k + 1]));
                if directly_before(ev, a, b, q[k], q[k + 1]) {
                    assert(edges.contains((p[k], p[k + 1])));
                } else {
                    assert(edges.contains((p[k + 1], p[k])));
                }
            }
            lemma_index_of(names, q[0]);
            lemma_index_of(names, x);
            assert(p[0] == 0);
            assert(p.last() == v);
            assert(crate::graph::rooted_walk(edges, p, v));
        }
    }
}

/// `v` appears in `order`.
pub open spec fn in_order(order: Seq<usize>, v: nat) -> bool {
    exists|k: int| 0 <= k < order.len() && #[trigger] order[k] == v
}

/// A topological order lists every node.
proof fn lemma_order_covers(order: Seq<usize>, n: nat)
    requires
        order.len() == n,
        order.no_duplicates(),
        forall|k: int| 0 <= k < n ==> #[trigger] order[k] < n,
    ensures
        forall|v: nat| v < n ==> #[trigger] in_order(order, v),
{
    let oi = order.map_values(|x: usize| x as int);
    assert(oi.no_duplicates()) by {
        assert forall|i: int, j: int| 0 <= i < oi.len() && 0 <= j < oi.len() && i != j implies oi[i] != oi[j] by {
            assert(order[i] != order[j]);
        }
    }
    oi.unique_seq_to_set();
    vstd::set_lib::lemma_int_range(0, n as int);
    let r = vstd::set_lib::set_int_range(0, n as int);
    assert(oi.to_set().subset_of(r)) by {
        assert forall|x: int| oi.to_set().contains(x) implies r.contains(x) by {
            let k = choose|k: int| 0 <= k < oi.len() && oi[k] == x;
            assert(order[k] < n);
        }
    }
    vstd::set_lib::lemma_subset_equality(oi.to_set(), r);
    assert forall|v: nat| v < n implies #[trigger] in_order(order, v) by {
        assert(r.contains(v as int));
        assert(oi.to_set().contains(v as int));
        let k = choose|k: int| 0 <= k < oi.len() && oi[k] == v as int;
        assert(order[k] == v);
    }
}

/// The rank of `v` is one more than the largest rank of a predecessor (1 for a source).
pub open spec fn rank_at(edges: Seq<(nat, nat)>, rank: Seq<usize>, v: int) -> bool {
    &&& 1 <= rank[v]
    &&& forall|u: nat| #[trigger] edges.contains((u, v as nat)) ==> rank[v] >= rank[u as int] + 1
    &&& (rank[v] == 1 || exists|u: nat| #[trigger] edges.contains((u, v as nat)) && rank[v] == rank[u as int] + 1)
}

/// The earliest rank of every node: `1 + max` over its predecessors, 1 for a source.
pub fn earliest_ranks(g: &ConstraintGraph, order: &Vec<usize>) -> (rank: Vec<usize>)
    requires
        g.wf(),
        is_topological(order@, g.names.len() as nat, g.edges()),
    ensures
        rank.len() == g.names.len(),
        forall|v: int| 0 <= v < rank.len() ==> #[trigger] rank_at(g.edges(), rank@, v),
        forall|v: int| 0 <= v < rank.len() ==> #[trigger] rank[v] <= g.names.len(),
{
    let n = g.names.len();
    let ghost edges = g.edges();
    proof {
        lemma_order_covers(order@, n as nat);
    }
    let mut rank: Vec<usize> = Vec::new();
    let mut i: usize = 0;
    while i < n
        invariant
            i <= n,
            rank.len() == i,
            forall|k: int| 0 <= k < i ==> rank[k] == 0,
        decreases n - i,
    {
        rank.push(0);
        i += 1;
    }
    let mut k: usize = 0;
    while k < n
        invariant
            g.wf(),
            n == g.names.len(),
            edges == g.edges(),
            is_topological(order@, n as nat, edges),
            forall|v: nat| v < n ==> #[trigger] in_order(order@, v),
            k <= n,
            rank.len() == n,
            forall|j: int| 0 <= j < k ==> #[trigger] rank_at(edges, rank@, order@[j] as int),
            forall|j: int| 0 <= j < k ==> #[trigger] rank@[order@[j] as int] <= j + 1,
            forall|j: int| k <= j < n ==> #[trigger] rank@[order@[j] as int] == 0,
        decreases n - k,
    {
        let v = order[k];
        let preds = g.neighbors(v, true);
        let mut m: usize = 0;
        let mut t: usize = 0;
        while t < preds.len()
            invariant
                g.wf(),
                n == g.names.len(),
                edges == g.edges(),
                is_topological(order@, n as nat, edges),
                forall|v: nat| v < n ==> #[trigger] in_order(order@, v),
                k < n,
                v == order@[k as int],
                rank.len() == n,
                forall|j: int| 0 <= j < k ==> #[trigger] rank@[order@[j] as int] <= j + 1,
                forall|q: int| 0 <= q < preds.len() ==> edges.contains((#[trigger] preds[q] as nat, v as nat)),
                t <= preds.len(),
                m <= k,
                forall|q: int| 0 <= q < t ==> rank@[#[trigger] preds@[q] as int] <= m,
                m == 0 || exists|q: int| 0 <= q < t && rank@[#[trigger] preds@[q] as int] == m,
            decreases preds.len() - t,
        {
            let u = preds[t];
            proof {
                assert(edges.contains((u as nat, v as nat)));
                let e = choose|e: int| 0 <= e < edges.len() && edges[e] == (u as nat, v as nat);
                assert(edges[e].0 < n);
                assert(in_order(order@, u as nat));
                let ju = choose|j: int| 0 <= j < n && #[trigger] order@[j] == u as nat;
                assert(edges.contains((order@[ju] as nat, order@[k as int] as nat)));
                assert(ju < k);
                assert(rank@[order@[ju] as int] <= ju + 1);
            }
            if rank[u] > m {
                m = rank[u];
            }
            t += 1;
        }
        proof {
            assert forall|u: nat| #[trigger] edges.contains((u, v as nat)) implies m >= rank@[u as int] by {
                assert(preds@.contains(u as usize));
                let q = choose|q: int| 0 <= q < preds.len() && preds@[q] == u as usize;
                assert(rank@[preds@[q] as int] <= m);
            }
        }
        let ghost rank0 = rank@;
        rank.set(v, m + 1);
        proof {
            assert forall|j: int| 0 <= j < k implies #[trigger] rank_at(edges, rank@, order@[j] as int) by {
                let w = order@[j] as int;
                assert(order@[j] != order@[k as int]);
                assert(rank_at(edges, rank0, w));
                assert forall|u: nat| #[trigger] edges.contains((u, w as nat)) implies rank@[u as int] == rank0[u as int] by {
                    let e = choose|e: int| 0 <= e < edges.len() && edges[e] == (u, w as nat);
                    assert(edges[e].0 < n);
                    assert(in_order(order@, u));
                    let ju = choose|jj: int| 0 <= jj < n && #[trigger] order@[jj] == u;
                    assert(edges.contains((order@[ju] as nat, order@[j] as nat)));
                    assert(ju < j);
                    assert(order@[ju] != order@[k as int]);
                }
                assert(rank@[w] == rank0[w]);
                if rank@[w] != 1 {
                    let u = choose|u: nat| #[trigger] edges.contains((u, w as nat)) && rank0[w] == rank0[u as int] + 1;
                    assert(rank@[u as int] == rank0[u as int]);
                }
            }
            assert(rank_at(edges, rank@, v as int)) by {
                if m != 0 {
                    let q = choose|q: int| 0 <= q < t && rank0[#[trigger] preds@[q] as int] == m;
                    let u = preds@[q];
                    assert(edges.contains((u as nat, v as nat)));
                    assert(u != v) by {
                        let p = seq![v as nat, v as nat];
                        assert(in_order(order@, u as nat));
                        let ju = choose|jj: int| 0 <= jj < n && #[trigger] order@[jj] == u as nat;
                        assert(edges.contains((order@[ju] as nat, order@[k as int] as nat)));
                    }
                    assert(rank@[u as int] == m);
                    assert(rank@[v as int] == rank@[u as int] + 1);
                    let un: nat = u as nat;
                    let vi: int = v as int;
                    assert(vi as nat == v as nat);
                    assert(edges.contains((un, vi as nat)) && rank@[vi] == rank@[un as int] + 1);
                } else {
                    assert(rank@[v as int] == 1);
                }
                assert(1 <= rank@[v as int]);
                assert forall|u: nat| #[trigger] edges.contains((u, v as nat)) implies rank@[v as int] >= rank@[u as int] + 1 by {
                    assert(m >= rank0[u as int]);
                    assert(u != v) by {
                        let e = choose|e: int| 0 <= e < edges.len() && edges[e] == (u, v as nat);
                        assert(edges[e].0 < n);
                        assert(in_order(order@, u));
                    let ju = choose|jj: int| 0 <= jj < n && #[trigger] order@[jj] == u;
                        assert(edges.contains((order@[ju] as nat, order@[k as int] as nat)));
                    }
                    assert(rank@[u as int] == rank0[u as int]);
                }
            }
            assert forall|j: int| 0 <= j < k + 1 implies #[trigger] rank@[order@[j] as int] <= j + 1 by {
                if j < k {
                    assert(order@[j] != order@[k as int]);
                }
            }
            assert forall|j: int| k + 1 <= j < n implies #[trigger] rank@[order@[j] as int] == 0 by {
                assert(order@[j] != order@[k as int]);
            }
        }
        k += 1;
    }
    proof {
        assert forall|v: int| 0 <= v < n implies #[trigger] rank_at(edges, rank@, v) && rank@[v] <= n by {
            assert(in_order(order@, v as nat));
            let j = choose|j: int| 0 <= j < n && #[trigger] order@[j] == v as nat;
            assert(rank_at(edges, rank@, order@[j] as int));
            assert(rank@[order@[j] as int] <= j + 1);
        }
        assert forall|v: int| 0 <= v < rank.len() implies #[trigger] rank[v] <= g.names.len() by {
            assert(rank_at(edges, rank@, v) && rank@[v] <= n);
        }
    }
    rank
}

/// The largest value of a non-empty list.
pub fn max_value(v: &Vec<usize>) -> (m: usize)
    requires
        v.len() > 0,
    ensures
        forall|k: int| 0 <= k < v.len() ==> #[trigger] v[k] <= m,
        exists|k: int| 0 <= k < v.len() && #[trigger] v[k] == m,
{
    let mut m = v[0];
    let mut i: usize = 1;
    while i < v.len()
        invariant
            1 <= i <= v.len(),
            forall|k: int| 0 <= k < i ==> #[trigger] v[k] <= m,
            exists|k: int| 0 <= k < i && #[trigger] v[k] == m,
        decreases v.len() - i,
    {
        if v[i] > m {
            m = v[i];
        }
        i += 1;
    }
    m
}

/// The smallest value of a non-empty list.
pub fn min_value(v: &Vec<usize>) -> (m: usize)
    requires
        v.len() > 0,
    ensures
        forall|k: int| 0 <= k < v.len() ==> m <= #[trigger] v[k],
        exists|k: int| 0 <= k < v.len() && #[trigger] v[k] == m,
{
    let mut m = v[0];
    let mut i: usize = 1;
    while i < v.len()
        invariant
            1 <= i <= v.len(),
            forall|k: int| 0 <= k < i ==> m <= #[trigger] v[k],
            exists|k: int| 0 <= k < i && #[trigger] v[k] == m,
        decreases v.len() - i,
    {
        if v[i] < m {
            m = v[i];
        }
        i += 1;
    }
    m
}

/// The latest rank of `v`: the least earliest rank of its successors, or
/// `max_rank + 1` when it has none.
pub open spec fn latest_at(edges: Seq<(nat, nat)>, rank: Seq<usize>, max_rank: int, latest: Seq<usize>, v: int) -> bool {
    &&& (forall|w: nat| !(#[trigger] edges.contains((v as nat, w)))) ==> latest[v] == max_rank + 1
    &&& (exists|w: nat| #[trigger] edges.contains((v as nat, w))) ==> {
        &&& forall|w: nat| #[trigger] edges.contains((v as nat, w)) ==> latest[v] <= rank[w as int]
        &&& exists|w: nat| #[trigger] edges.contains((v as nat, w)) && latest[v] == rank[w as int]
    }
}

/// The latest rank of every node.
pub fn latest_ranks(g: &ConstraintGraph, rank: &Vec<usize>, max_rank: usize) -> (latest: Vec<usize>)
    requires
        g.wf(),
        rank.len() == g.names.len(),
        forall|v: int| 0 <= v < rank.len() ==> #[trigger] rank[v] <= max_rank,
        max_rank < usize::MAX,
    ensures
        latest.len() == g.names.len(),
        forall|v: int| 0 <= v < latest.len() ==> #[trigger] latest_at(g.edges(), rank@, max_rank as int, latest@, v),
        forall|v: int| 0 <= v < latest.len() ==> #[trigger] latest[v] <= max_rank + 1,
{
    let n = g.names.len();
    let ghost edges = g.edges();
    let mut latest: Vec<usize> = Vec::new();
    let mut v: usize = 0;
    while v < n
        invariant
            g.wf(),
            n == g.names.len(),
            edges == g.edges(),
            rank.len() == n,
            forall|x: int| 0 <= x < rank.len() ==> #[trigger] rank[x] <= max_rank,
            max_rank < usize::MAX,
            v <= n,
            latest.len() == v,
            forall|x: int| 0 <= x < v ==> #[trigger] latest_at(edges, rank@, max_rank as int, latest@, x),
            forall|x: int| 0 <= x < v ==> #[trigger] latest@[x] <= max_rank + 1,
        decreases n - v,
    {
        let succs = g.neighbors(v, false);
        let mut best: usize = max_rank + 1;
        let mut t: usize = 0;
        while t < succs.len()
            invariant
                g.wf(),
                n == g.names.len(),
                edges == g.edges(),
                v < n,
                rank.len() == n,
                forall|x: int| 0 <= x < rank.len() ==> #[trigger] rank[x] <= max_rank,
                max_rank < usize::MAX,
                forall|q: int| 0 <= q < succs.len() ==> edges.contains((v as nat, #[trigger] succs[q] as nat)),
                t <= succs.len(),
                best <= max_rank + 1,
                forall|q: int| 0 <= q < t ==> best <= rank@[#[trigger] succs@[q] as int],
                t == 0 ==> best == max_rank + 1,
                t > 0 ==> exists|q: int| 0 <= q < t && rank@[#[trigger] succs@[q] as int] == best,
            decreases succs.len() - t,
        {
            let w = succs[t];
            proof {
                assert(edges.contains((v as nat, w as nat)));
                let e = choose|e: int| 0 <= e < edges.len() && edges[e] == (v as nat, w as nat);
                assert(edges[e].1 < n);
            }
            if t == 0 || rank[w] < best {
                best = rank[w];
            }
            t += 1;
        }
        let ghost latest0 = latest@;
        latest.push(best);
        proof {
            assert forall|x: int| 0 <= x < v + 1 implies #[trigger] latest_at(edges, rank@, max_rank as int, latest@, x) by {
                if x < v {
                    assert(latest@[x] == latest0[x]);
                    assert(latest_at(edges, rank@, max_rank as int, latest0, x));
                } else {
                    assert(x == v);
                    assert(latest@[x] == best);
                    if exists|w: nat| #[trigger] edges.contains((v as nat, w)) {
                        let w = choose|w: nat| #[trigger] edges.contains((v as nat, w));
                        assert(succs@.contains(w as usize));
                        assert(t > 0);
                        let q = choose|q: int| 0 <= q < t && rank@[#[trigger] succs@[q] as int] == best;
                        let wq: nat = succs@[q] as nat;
                        assert(edges.contains((v as nat, wq)) && latest@[x] == rank@[wq as int]);
                        assert forall|w2: nat| #[trigger] edges.contains((v as nat, w2)) implies latest@[x] <= rank@[w2 as int] by {
                            assert(succs@.contains(w2 as usize));
                            let q2 = choose|q2: int| 0 <= q2 < succs.len() && succs@[q2] == w2 as usize;
                            assert(best <= rank@[succs@[q2] as int]);
                        }
                    } else {
                        if t > 0 {
                            assert(edges.contains((v as nat, succs@[0] as nat)));
                        }
                        assert(best == max_rank + 1);
                    }
                    assert(latest_at(edges, rank@, max_rank as int, latest@, v as int));
                }
            }
        }
        v += 1;
    }
    latest
}

/// No two intervals `[starts[i], ends[i]]` on one track overlap (touching ends are fine).
pub open spec fn disjoint_on_tracks(starts: Seq<u64>, ends: Seq<u64>, tracks: Seq<u64>) -> bool {
    forall|i: int, j: int|
        0 <= i < tracks.len() && 0 <= j < tracks.len() && i != j && #[trigger] tracks[i] == #[trigger] tracks[j]
            ==> ends[i] <= starts[j] || ends[j] <= starts[i]
}

/// `m` distinct intervals all contain one point: no valid assignment fits them in
/// fewer than `m` tracks.
pub open spec fn overlap_certificate(starts: Seq<u64>, ends: Seq<u64>, m: nat) -> bool {
    exists|wit: Seq<int>, p: int| #[trigger] certifies(starts, ends, wit, p) && wit.len() == m
}

pub open spec fn certifies(starts: Seq<u64>, ends: Seq<u64>, wit: Seq<int>, p: int) -> bool {
    &&& wit.no_duplicates()
    &&& forall|k: int| 0 <= k < wit.len() ==> 0 <= #[trigger] wit[k] < starts.len() && starts[wit[k]] <= p < ends[wit[k]]
}

/// Interval partitioning cannot do better than the largest set of intervals sharing a
/// point: any assignment without overlaps on a track that uses only tracks below `k`
/// has `k` at least the size of such a set.
pub proof fn lemma_tracks_minimal(starts: Seq<u64>, ends: Seq<u64>, other: Seq<u64>, k: nat, m: nat)
    requires
        starts.len() == ends.len(),
        other.len() == starts.len(),
        disjoint_on_tracks(starts, ends, other),
        forall|i: int| 0 <= i < other.len() ==> #[trigger] other[i] < k,
        overlap_certificate(starts, ends, m),
    ensures
        m <= k,
{
    let (wit, p) = choose|wit: Seq<int>, p: int| #[trigger] certifies(starts, ends, wit, p) && wit.len() == m;
    let tr = wit.map_values(|w: int| other[w] as int);
    assert(tr.no_duplicates()) by {
        assert forall|x: int, y: int| 0 <= x < tr.len() && 0 <= y < tr.len() && x != y implies tr[x] != tr[y] by {
            let (i, j) = (wit[x], wit[y]);
            assert(i != j);
            assert(starts[i] <= p < ends[i] && starts[j] <= p < ends[j]);
            if other[i] == other[j] {
                assert(ends[i] <= starts[j] || ends[j] <= starts[i]);
            }
        }
    }
    tr.unique_seq_to_set();
    vstd::set_lib::lemma_int_range(0, k as int);
    assert(tr.to_set().subset_of(vstd::set_lib::set_int_range(0, k as int))) by {
        assert forall|x: int| tr.to_set().contains(x) implies vstd::set_lib::set_int_range(0, k as int).contains(x) by {
            let q = choose|q: int| 0 <= q < tr.len() && tr[q] == x;
            assert(other[wit[q]] < k);
        }
    }
    vstd::set_lib::lemma_len_subset(tr.to_set(), vstd::set_lib::set_int_range(0, k as int));
}

/// Some interval is on track `l`.
pub open spec fn lane_used(tracks: Seq<u64>, l: int) -> bool {
    exists|i: int| 0 <= i < tracks.len() && #[trigger] tracks[i] == l
}

spec fn placed(starts: Seq<u64>, s: int, j: int, i: int) -> bool {
    starts[i] < s || (starts[i] == s && i < j)
}

/// Greedy interval partitioning: intervals are taken by increasing start (ties in
/// list order), each going on the first track whose last interval ends no later than
/// its start, or on a new track. Returns each interval's track and the track count.
pub fn assign_tracks(starts: &Vec<u64>, ends: &Vec<u64>, span: u64) -> (r: (Vec<u64>, usize))
    requires
        starts.len() == ends.len(),
        forall|i: int| 0 <= i < starts.len() ==> #[trigger] starts[i] < ends[i] && ends[i] <= span,
        span < u64::MAX,
    ensures
        r.0.len() == starts.len(),
        r.1 <= starts.len(),
        forall|i: int| 0 <= i < starts.len() ==> #[trigger] r.0[i] < r.1,
        disjoint_on_tracks(starts@, ends@, r.0@),
        overlap_certificate(starts@, ends@, r.1 as nat),
        forall|l: int| 0 <= l < r.1 ==> #[trigger] lane_used(r.0@, l),
{
    let n = starts.len();
    let mut tracks: Vec<u64> = Vec::new();
    let mut i: usize = 0;
    while i < n
        invariant
            i <= n,
            tracks.len() == i,
        decreases n - i,
    {
        tracks.push(0);
        i += 1;
    }
    let mut lanes: Vec<u64> = Vec::new();
    let mut s: u64 = 0;
    let ghost mut done: Set<int> = Set::empty();
    let ghost mut last: Seq<int> = Seq::empty();
    let ghost mut wit: Seq<int> = Seq::empty();
    let ghost mut pt: int = 0;
    proof { vstd::set_lib::lemma_int_range(0, n as int); }
    while s <= span
        invariant
            forall|i: int| #[trigger] done.contains(i) <==> 0 <= i < n && placed(starts@, s as int, 0, i),
            done.subset_of(vstd::set_lib::set_int_range(0, n as int)),
            done.finite(),
            vstd::set_lib::set_int_range(0, n as int).finite(),
            vstd::set_lib::set_int_range(0, n as int).len() == n,
            lanes.len() <= done.len(),
            n == starts.len(),
            starts.len() == ends.len(),
            forall|i: int| 0 <= i < n ==> #[trigger] starts[i] < ends[i] && ends[i] <= span,
            span < u64::MAX,
            s <= span + 1,
            last.len() == lanes.len(),
            forall|l: int| 0 <= l < lanes.len() ==> 0 <= #[trigger] last[l] < n && placed(starts@, s as int, 0, last[l])
                && tracks[last[l]] == l && ends[last[l]] == lanes[l] && starts[last[l]] < s,
            certifies(starts@, ends@, wit, pt),
            wit.len() == lanes.len(),
            tracks.len() == n,
            forall|i: int| 0 <= i < n && placed(starts@, s as int, 0, i) ==> #[trigger] tracks[i] < lanes.len()
                && ends[i] <= lanes[tracks[i] as int],
            forall|i: int, j: int|
                0 <= i < n && 0 <= j < n && i != j && placed(starts@, s as int, 0, i) && placed(starts@, s as int, 0, j)
                    && #[trigger] tracks[i] == #[trigger] tracks[j] ==> ends[i] <= starts[j] || ends[j] <= starts[i],
        decreases span + 1 - s,
    {
        let mut j: usize = 0;
        while j < n
            invariant
                forall|i: int| #[trigger] done.contains(i) <==> 0 <= i < n && placed(starts@, s as int, j as int, i),
                done.subset_of(vstd::set_lib::set_int_range(0, n as int)),
                done.finite(),
                vstd::set_lib::set_int_range(0, n as int).finite(),
                vstd::set_lib::set_int_range(0, n as int).len() == n,
                lanes.len() <= done.len(),
                n == starts.len(),
                starts.len() == ends.len(),
                forall|i: int| 0 <= i < n ==> #[trigger] starts[i] < ends[i] && ends[i] <= span,
                s <= span,
                j <= n,
                last.len() == lanes.len(),
                forall|l: int| 0 <= l < lanes.len() ==> 0 <= #[trigger] last[l] < n && placed(starts@, s as int, j as int, last[l])
                    && tracks[last[l]] == l && ends[last[l]] == lanes[l] && starts[last[l]] <= s,
                certifies(starts@, ends@, wit, pt),
                wit.len() == lanes.len(),
                tracks.len() == n,
                forall|i: int| 0 <= i < n && placed(starts@, s as int, j as int, i) ==> #[trigger] tracks[i] < lanes.len()
                    && ends[i] <= lanes[tracks[i] as int],
                forall|i: int, k: int|
                    0 <= i < n && 0 <= k < n && i != k && placed(starts@, s as int, j as int, i) && placed(starts@, s as int, j as int, k)
                        && #[trigger] tracks[i] == #[trigger] tracks[k] ==> ends[i] <= starts[k] || ends[k] <= starts[i],
            decreases n - j,
        {
            if starts[j] == s {
                let mut l: usize = 0;
                let mut found: bool = false;
                while l < lanes.len() && !found
                    invariant
                        l <= lanes.len(),
                        found ==> l < lanes.len() && lanes[l as int] <= s,
                        !found ==> forall|q: int| 0 <= q < l ==> #[trigger] lanes[q] > s,
                    decreases lanes.len() - l + (if found { 0int } else { 1int }),
                {
                    if lanes[l] <= s {
                        found = true;
                    } else {
                        l += 1;
                    }
                }
                let ghost lanes0 = lanes@;
                let ghost tracks0 = tracks@;
                proof {
                    assert(!done.contains(j as int));
                    let before_len = done.len();
                    done = done.insert(j as int);
                    assert(done.len() == before_len + 1);
                    assert forall|i: int| #[trigger] done.contains(i) <==> 0 <= i < n && placed(starts@, s as int, j + 1, i) by {}
                    assert(done.subset_of(vstd::set_lib::set_int_range(0, n as int)));
                }
                if found {
                    lanes.set(l, ends[j]);
                    tracks.set(j, l as u64);
                    proof {
                        last = last.update(l as int, j as int);
                    }
                } else {
                    proof {
                        let w2 = last.push(j as int);
                        assert(certifies(starts@, ends@, w2, s as int)) by {
                            assert forall|x: int, y: int| 0 <= x < w2.len() && 0 <= y < w2.len() && x != y implies w2[x] != w2[y] by {
                                if x < last.len() && y < last.len() {
                                    assert(tracks0[last[x]] == x && tracks0[last[y]] == y);
                                } else if x < last.len() {
                                    assert(placed(starts@, s as int, j as int, last[x]));
                                } else {
                                    assert(placed(starts@, s as int, j as int, last[y]));
                                }
                            }
                            assert forall|k: int| 0 <= k < w2.len() implies 0 <= #[trigger] w2[k] < n && starts[w2[k]] <= s < ends[w2[k]] by {
                                if k < last.len() {
                                    assert(lanes0[k] > s);
                                }
                            }
                        }
                        wit = w2;
                        pt = s as int;
                        last = w2;
                    }
                    lanes.push(ends[j]);
                    tracks.set(j, (lanes.len() - 1) as u64);
                }
                proof {
                    let lj = tracks@[j as int];
                    assert forall|i: int| 0 <= i < n && placed(starts@, s as int, j + 1, i) implies #[trigger] tracks@[i] < lanes.len()
                        && ends[i] <= lanes@[tracks@[i] as int] by {
                        if i != j {
                            assert(placed(starts@, s as int, j as int, i));
                            assert(tracks@[i] == tracks0[i]);
                            if tracks0[i] == lj {
                                assert(ends[i] <= lanes0[lj as int]);
                            }
                        }
                    }
                    assert forall|i: int, k: int|
                        0 <= i < n && 0 <= k < n && i != k && placed(starts@, s as int, j + 1, i) && placed(starts@, s as int, j + 1, k)
                            && #[trigger] tracks@[i] == #[trigger] tracks@[k] implies ends[i] <= starts[k] || ends[k] <= starts[i] by {
                        if i != j && k != j {
                            assert(placed(starts@, s as int, j as int, i));
                            assert(placed(starts@, s as int, j as int, k));
                        } else if i == j {
                            assert(placed(starts@, s as int, j as int, k));
                            assert(tracks0[k] == lj);
                            assert(ends[k] <= lanes0[lj as int]);
                        } else {
                            assert(placed(starts@, s as int, j as int, i));
                            assert(tracks0[i] == lj);
                            assert(ends[i] <= lanes0[lj as int]);
                        }
                    }
                }
            } else {
                proof {
                    assert forall|i: int| 0 <= i < n && placed(starts@, s as int, j + 1, i) implies placed(starts@, s as int, j as int, i) by {}
                    assert forall|i: int| #[trigger] done.contains(i) <==> 0 <= i < n && placed(starts@, s as int, j + 1, i) by {}
                }
            }
            j += 1;
        }
        proof {
            assert forall|i: int| 0 <= i < n && placed(starts@, s + 1, 0, i) implies placed(starts@, s as int, n as int, i) by {}
            assert forall|i: int| #[trigger] done.contains(i) <==> 0 <= i < n && placed(starts@, s + 1, 0, i) by {}
        }
        s += 1;
    }
    proof {
        assert forall|i: int| 0 <= i < n implies placed(starts@, s as int, 0, i) by {
            assert(starts[i] < ends[i] && ends[i] <= span);
        }
        vstd::set_lib::lemma_len_subset(done, vstd::set_lib::set_int_range(0, n as int));
        assert forall|l: int| 0 <= l < lanes.len() implies #[trigger] lane_used(tracks@, l) by {
            assert(tracks@[last[l]] == l);
        }
    }
    (tracks, lanes.len())
}

proof fn lemma_latest_after_rank(edges: Seq<(nat, nat)>, rank: Seq<usize>, latest: Seq<usize>, max_rank: int, n: nat, v: int)
    requires
        0 <= v < n,
        rank.len() == n,
        latest.len() == n,
        forall|k: int| 0 <= k < edges.len() ==> (#[trigger] edges[k]).0 < n && edges[k].1 < n,
        forall|x: int| 0 <= x < n ==> #[trigger] rank_at(edges, rank, x),
        latest_at(edges, rank, max_rank, latest, v),
        rank[v] <= max_rank,
    ensures
        latest[v] > rank[v],
{
    if exists|w: nat| #[trigger] edges.contains((v as nat, w)) {
        let w = choose|w: nat| #[trigger] edges.contains((v as nat, w)) && latest[v] == rank[w as int];
        let e = choose|e: int| 0 <= e < edges.len() && edges[e] == (v as nat, w);
        assert(edges[e].1 < n);
        let wi = w as int;
        assert(rank_at(edges, rank, wi));
        let vn: nat = v as nat;
        assert(edges.contains((vn, wi as nat)));
        assert(rank[wi] >= rank[vn as int] + 1);
    } else {
        assert(forall|w: nat| !(#[trigger] edges.contains((v as nat, w))));
        assert(latest[v] == max_rank + 1);
    }
}

proof fn lemma_latest_le(edges: Seq<(nat, nat)>, rank: Seq<usize>, max_rank: int, latest: Seq<usize>, v: int, w: nat)
    requires
        latest_at(edges, rank, max_rank, latest, v),
        edges.contains((v as nat, w)),
    ensures
        latest[v] <= rank[w as int],
{
}

proof fn lemma_mention_count_len(ev: Seq<EventView>)
    ensures
        mention_count(ev) >= ev.len(),
    decreases ev.len(),
{
    if ev.len() > 0 {
        lemma_mention_count_len(ev.drop_last());
    }
}

/// `holds_name` is membership among the views.
proof fn lemma_holds_name(v: Seq<String>, x: Seq<char>)
    ensures
        crate::types::holds_name(v, x) <==> crate::types::views(v).contains(x),
{
    if crate::types::holds_name(v, x) {
        let k = choose|k: int| 0 <= k < v.len() && (#[trigger] v[k])@ == x;
        assert(crate::types::views(v)[k] == x);
    }
    if crate::types::views(v).contains(x) {
        let k = choose|k: int| 0 <= k < crate::types::views(v).len() && crate::types::views(v)[k] == x;
        assert(v[k]@ == x);
    }
}

/// The index of the first event named `a`, or the length when there is none.
pub fn first_index_named(events: &Vec<Event>, a: &str) -> (r: usize)
    ensures
        r <= events.len(),
        r < events.len() ==> first_named(events_view(events@), a@, r as int),
        r == events.len() ==> forall|q: int| 0 <= q < events.len() ==> #[trigger] events_view(events@)[q].name != a@,
{
    let ghost ev = events_view(events@);
    let mut k: usize = 0;
    while k < events.len()
        invariant
            ev == events_view(events@),
            k <= events.len(),
            forall|j: int| 0 <= j < k ==> #[trigger] ev[j].name != a@,
        decreases events.len() - k,
    {
        proof { assert(ev[k as int].name == events@[k as int].name@); }
        if str_eq(events[k].name.as_str(), a) {
            return k;
        }
        k += 1;
    }
    k
}

/// `rank` gives each mentioned name its earliest rank: 1 when nothing comes directly
/// before it, otherwise one more than the largest rank of a name directly before it.
pub open spec fn earliest_by_name(ev: Seq<EventView>, a: Seq<char>, b: Seq<char>, rank: spec_fn(Seq<char>) -> int) -> bool {
    forall|x: Seq<char>| #[trigger] mentioned(ev, a, b, x) ==> {
        &&& rank(x) >= 1
        &&& forall|y: Seq<char>| #[trigger] directly_before(ev, a, b, y, x) ==> rank(x) >= rank(y) + 1
        &&& (rank(x) == 1 || exists|y: Seq<char>| #[trigger] directly_before(ev, a, b, y, x) && rank(x) == rank(y) + 1)
    }
}

/// `latest` gives each mentioned name the least earliest rank of the names it comes
/// directly before, or `top` when it comes before none.
pub open spec fn latest_by_name(
    ev: Seq<EventView>,
    a: Seq<char>,
    b: Seq<char>,
    rank: spec_fn(Seq<char>) -> int,
    latest: spec_fn(Seq<char>) -> int,
    top: int,
) -> bool {
    forall|x: Seq<char>| #[trigger] mentioned(ev, a, b, x) ==> {
        &&& (forall|y: Seq<char>| !#[trigger] directly_before(ev, a, b, x, y)) ==> latest(x) == top
        &&& (exists|y: Seq<char>| #[trigger] directly_before(ev, a, b, x, y)) ==> {
            &&& forall|y: Seq<char>| #[trigger] directly_before(ev, a, b, x, y) ==> latest(x) <= rank(y)
            &&& exists|y: Seq<char>| #[trigger] directly_before(ev, a, b, x, y) && latest(x) == rank(y)
        }
    }
}

/// Each event's interval is `[earliest - 1, latest - 1] / (top - 1)`, where `top` is one
/// more than the largest earliest rank.
pub open spec fn positioned(
    ev: Seq<EventView>,
    a: Seq<char>,
    b: Seq<char>,
    out: Seq<EventView>,
    rank: spec_fn(Seq<char>) -> int,
    latest: spec_fn(Seq<char>) -> int,
    top: int,
) -> bool {
    &&& earliest_by_name(ev, a, b, rank)
    &&& latest_by_name(ev, a, b, rank, latest, top)
    &&& forall|x: Seq<char>| #[trigger] mentioned(ev, a, b, x) ==> rank(x) < top
    &&& exists|x: Seq<char>| #[trigger] mentioned(ev, a, b, x) && rank(x) == top - 1
    &&& forall|i: int| 0 <= i < out.len() ==> {
        &&& (#[trigger] out[i]).start.num == rank(out[i].name) - 1
        &&& out[i].end.num == latest(out[i].name) - 1
        &&& out[i].start.den == top - 1
    }
}

/// `out`, with interval `iv` and track `tr`, is the layout the scheduler gives when
/// `a -> b` is added to `ev`: the constraint recorded, every interval fixed by the
/// earliest and latest ranks, the greedy tracks, and `iv` running from `a`'s rank to
/// `b`'s.
pub open spec fn schedule_result(ev: Seq<EventView>, a: Seq<char>, b: Seq<char>, iv: (Ratio, Ratio), tr: i64, out: Seq<EventView>) -> bool {
    &&& same_story(ev, a, b, out)
    &&& laid_out(ev, a, b, out, iv.0.den)
    &&& tracks_disjoint(out)
    &&& exists|rank: spec_fn(Seq<char>) -> int, latest: spec_fn(Seq<char>) -> int, top: int|
        #[trigger] positioned(ev, a, b, out, rank, latest, top)
        && iv.0.num == rank(a) - 1 && iv.1.num == rank(b) - 1 && iv.0.den == top - 1
    &&& exists|count: usize| #[trigger] greedy_tracks(out, count)
    &&& iv.0.den == iv.1.den && iv.0.num < iv.1.num <= iv.1.den
    &&& tr >= -1
    &&& (tr == -1) == (forall|i: int| 0 <= i < out.len() ==> #[trigger] out[i].name != a && out[i].name != b)
    &&& forall|i: int| 0 <= i < out.len() && (#[trigger] out[i].name == a || out[i].name == b) ==> out[i].track <= tr
    &&& tr >= 0 ==> exists|i: int| 0 <= i < out.len() && (#[trigger] out[i].name == a || out[i].name == b) && out[i].track == tr
}

/// Some event is on track `l`.
pub open spec fn track_used(o: Seq<EventView>, l: int) -> bool {
    exists|i: int| 0 <= i < o.len() && (#[trigger] o[i]).track == l
}

/// The starts of the laid-out events, as numerators.
pub open spec fn start_nums(o: Seq<EventView>) -> Seq<u64> {
    o.map_values(|e: EventView| e.start.num)
}

/// The ends of the laid-out events, as numerators.
pub open spec fn end_nums(o: Seq<EventView>) -> Seq<u64> {
    o.map_values(|e: EventView| e.end.num)
}

/// The tracks are the greedy partition into `count` tracks: the tracks used are
/// exactly `0..count`, and `count` intervals share a point, so no valid layout uses
/// fewer.
pub open spec fn greedy_tracks(o: Seq<EventView>, count: usize) -> bool {
    &&& forall|i: int| 0 <= i < o.len() ==> (#[trigger] o[i]).track < count
    &&& forall|l: int| 0 <= l < count ==> #[trigger] track_used(o, l)
    &&& overlap_certificate(start_nums(o), end_nums(o), count as nat)
}

/// Earliest and latest ranks read by name from the graph's nodes.
proof fn lemma_ranks_by_name(
    g: ConstraintGraph,
    ev: Seq<EventView>,
    a: Seq<char>,
    b: Seq<char>,
    rank: Seq<usize>,
    latest: Seq<usize>,
    max_rank: int,
)
    requires
        represents(g, ev, a, b),
        rank.len() == g.names.len(),
        latest.len() == g.names.len(),
        forall|v: int| 0 <= v < rank.len() ==> #[trigger] rank_at(g.edges(), rank, v),
        forall|v: int| 0 <= v < latest.len() ==> #[trigger] latest_at(g.edges(), rank, max_rank, latest, v),
    ensures
        earliest_by_name(ev, a, b, |x: Seq<char>| rank[index_of(g.node_names(), x) as int] as int),
        latest_by_name(ev, a, b, |x: Seq<char>| rank[index_of(g.node_names(), x) as int] as int,
            |x: Seq<char>| latest[index_of(g.node_names(), x) as int] as int, max_rank + 1),
{
    let names = g.node_names();
    let edges = g.edges();
    let rf = |x: Seq<char>| rank[index_of(names, x) as int] as int;
    let lf = |x: Seq<char>| latest[index_of(names, x) as int] as int;
    assert forall|x: Seq<char>| #[trigger] mentioned(ev, a, b, x) implies {
        &&& rf(x) >= 1
        &&& forall|y: Seq<char>| #[trigger] directly_before(ev, a, b, y, x) ==> rf(x) >= rf(y) + 1
        &&& (rf(x) == 1 || exists|y: Seq<char>| #[trigger] directly_before(ev, a, b, y, x) && rf(x) == rf(y) + 1)
    } by {
        assert(names.contains(x));
        lemma_index_of(names, x);
        let v = index_of(names, x);
        assert(rank_at(edges, rank, v as int));
        assert forall|y: Seq<char>| #[trigger] directly_before(ev, a, b, y, x) implies rf(x) >= rf(y) + 1 by {
            lemma_before_mentions(ev, a, b, y, x);
            assert(names.contains(y));
            lemma_index_of(names, y);
            let u = index_of(names, y);
            assert(edges.contains((u, v)));
        }
        if rf(x) != 1 {
            let u = choose|u: nat| #[trigger] edges.contains((u, v)) && rank[v as int] == rank[u as int] + 1;
            let e = choose|e: int| 0 <= e < edges.len() && edges[e] == (u, v);
            assert(edges[e].0 < names.len());
            let y = names[u as int];
            assert(directly_before(ev, a, b, y, x));
            lemma_index_of(names, y);
            assert(rf(x) == rf(y) + 1);
        }
    }
    assert forall|x: Seq<char>| #[trigger] mentioned(ev, a, b, x) implies {
        &&& (forall|y: Seq<char>| !#[trigger] directly_before(ev, a, b, x, y)) ==> lf(x) == max_rank + 1
        &&& (exists|y: Seq<char>| #[trigger] directly_before(ev, a, b, x, y)) ==> {
            &&& forall|y: Seq<char>| #[trigger] directly_before(ev, a, b, x, y) ==> lf(x) <= rf(y)
            &&& exists|y: Seq<char>| #[trigger] directly_before(ev, a, b, x, y) && lf(x) == rf(y)
        }
    } by {
        assert(names.contains(x));
        lemma_index_of(names, x);
        let v = index_of(names, x);
        assert(latest_at(edges, rank, max_rank, latest, v as int));
        if exists|y: Seq<char>| #[trigger] directly_before(ev, a, b, x, y) {
            let y0 = choose|y: Seq<char>| #[trigger] directly_before(ev, a, b, x, y);
            lemma_before_mentions(ev, a, b, x, y0);
            lemma_index_of(names, y0);
            assert(edges.contains((v, index_of(names, y0))));
            assert forall|y: Seq<char>| #[trigger] directly_before(ev, a, b, x, y) implies lf(x) <= rf(y) by {
                lemma_before_mentions(ev, a, b, x, y);
                lemma_index_of(names, y);
                assert(edges.contains((v, index_of(names, y))));
            }
            let w = choose|w: nat| #[trigger] edges.contains((v, w)) && latest[v as int] == rank[w as int];
            let e = choose|e: int| 0 <= e < edges.len() && edges[e] == (v, w);
            assert(edges[e].1 < names.len());
            let y = names[w as int];
            assert(directly_before(ev, a, b, x, y));
            lemma_index_of(names, y);
            assert(lf(x) == rf(y));
        } else {
            assert forall|w: nat| !(#[trigger] edges.contains((v, w))) by {
                if edges.contains((v, w)) {
                    let e = choose|e: int| 0 <= e < edges.len() && edges[e] == (v, w);
                    assert(edges[e].1 < names.len());
                    assert(directly_before(ev, a, b, x, names[w as int]));
                }
            }
        }
    }
}

/// Why a constraint was refused.
#[derive(Clone, Copy, Debug, PartialEq, Eq, Structural)]
pub enum ScheduleError {
    /// The constraint closes a cycle of precedences.
    Cycle,
    /// Ignoring direction, the events no longer form one piece.
    Disconnected,
}

impl ScheduleError {
    pub fn message(&self) -> (r: &'static str)
        ensures
            *self == ScheduleError::Cycle ==> r@ == "Adding this constraint introduces a cycle"@,
            *self == ScheduleError::Disconnected ==> r@ == "Graph is not a valid interval graph"@,
    {
        match self {
            ScheduleError::Cycle => "Adding this constraint introduces a cycle",
            ScheduleError::Disconnected => "Graph is not a valid interval graph",
        }
    }
}

/// `i` is the first event named `a`.
pub open spec fn first_named(ev: Seq<EventView>, a: Seq<char>, i: int) -> bool {
    0 <= i < ev.len() && ev[i].name == a && forall|j: int| 0 <= j < i ==> #[trigger] ev[j].name != a
}

/// The `before` list of event `i` once `a -> b` is recorded: the first event named
/// `a` gains `b` unless it lists it already.
pub open spec fn recorded_before(ev: Seq<EventView>, a: Seq<char>, b: Seq<char>, i: int) -> Seq<Seq<char>> {
    if first_named(ev, a, i) && !ev[i].before.contains(b) { ev[i].before.push(b) } else { ev[i].before }
}

/// `out` is `ev` with the constraint recorded and only its layout fields changed.
pub open spec fn same_story(ev: Seq<EventView>, a: Seq<char>, b: Seq<char>, out: Seq<EventView>) -> bool {
    &&& out.len() == ev.len()
    &&& forall|i: int| 0 <= i < ev.len() ==> {
        &&& (#[trigger] out[i]).name == ev[i].name
        &&& out[i].description == ev[i].description
        &&& out[i].category == ev[i].category
        &&& out[i].characters == ev[i].characters
        &&& out[i].effects == ev[i].effects
        &&& out[i].before == recorded_before(ev, a, b, i)
    }
}

/// Every interval lies in `[0, 1]` over the common denominator `den`, starts
/// strictly before it ends, and follows the precedences: an event ends no later than
/// any event it comes directly before starts.
pub open spec fn laid_out(ev: Seq<EventView>, a: Seq<char>, b: Seq<char>, out: Seq<EventView>, den: u64) -> bool {
    &&& den > 0
    &&& forall|i: int| 0 <= i < out.len() ==> {
        &&& (#[trigger] out[i]).start.den == den
        &&& out[i].end.den == den
        &&& out[i].start.num < out[i].end.num
        &&& out[i].end.num <= den
    }
    &&& forall|i: int, j: int| 0 <= i < out.len() && 0 <= j < out.len()
        && #[trigger] directly_before(ev, a, b, out[i].name, out[j].name) ==> out[i].end.num <= out[j].start.num
}

/// No two events on one track overlap.
pub open spec fn tracks_disjoint(out: Seq<EventView>) -> bool {
    forall|i: int, j: int| 0 <= i < out.len() && 0 <= j < out.len() && i != j
        && #[trigger] out[i].track == #[trigger] out[j].track
        ==> out[i].end.num <= out[j].start.num || out[j].end.num <= out[i].start.num
}

/// Records `a -> b` (a must happen before b), checks that the precedences stay
/// acyclic and in one piece, and lays out every event again: normalized intervals
/// from earliest and latest ranks, and greedy tracks. On success returns the interval
/// from `a`'s start to `b`'s start, the highest track of an event named `a` or `b`
/// (-1 when there is none), and the laid-out events.
#[verifier::rlimit(80)]
#[verifier::spinoff_prover]
pub fn add_constraint_and_get_interval(
    existing_events: Vec<Event>,
    new_constraint: (&str, &str),
) -> (r: Result<((Ratio, Ratio), i64, Vec<Event>), ScheduleError>)
    requires
        mention_count(events_view(existing_events@)) + 4 < u32::MAX,
    ensures
        r == Err::<((Ratio, Ratio), i64, Vec<Event>), ScheduleError>(ScheduleError::Cycle)
            <==> closes_cycle(events_view(existing_events@), new_constraint.0@, new_constraint.1@),
        r == Err::<((Ratio, Ratio), i64, Vec<Event>), ScheduleError>(ScheduleError::Disconnected)
            <==> (!closes_cycle(events_view(existing_events@), new_constraint.0@, new_constraint.1@)
            && !all_joined(events_view(existing_events@), new_constraint.0@, new_constraint.1@)),
        r is Ok ==> same_story(events_view(existing_events@), new_constraint.0@, new_constraint.1@, events_view(r->Ok_0.2@)),
        r is Ok ==> laid_out(events_view(existing_events@), new_constraint.0@, new_constraint.1@, events_view(r->Ok_0.2@), r->Ok_0.0.0.den),
        r is Ok ==> tracks_disjoint(events_view(r->Ok_0.2@)),
        r is Ok ==> exists|rank: spec_fn(Seq<char>) -> int, latest: spec_fn(Seq<char>) -> int, top: int|
            #[trigger] positioned(events_view(existing_events@), new_constraint.0@, new_constraint.1@, events_view(r->Ok_0.2@), rank, latest, top)
            && r->Ok_0.0.0.num == rank(new_constraint.0@) - 1 && r->Ok_0.0.1.num == rank(new_constraint.1@) - 1
            && r->Ok_0.0.0.den == top - 1,
        r is Ok ==> exists|count: usize| #[trigger] greedy_tracks(events_view(r->Ok_0.2@), count),
        r is Ok ==> schedule_result(events_view(existing_events@), new_constraint.0@, new_constraint.1@,
            r->Ok_0.0, r->Ok_0.1, events_view(r->Ok_0.2@)),
        r is Ok ==> r->Ok_0.0.0.den == r->Ok_0.0.1.den && r->Ok_0.0.0.num < r->Ok_0.0.1.num <= r->Ok_0.0.1.den,
        r is Ok ==> forall|i: int| 0 <= i < r->Ok_0.2.len() && #[trigger] events_view(r->Ok_0.2@)[i].name == new_constraint.0@
            ==> events_view(r->Ok_0.2@)[i].start == r->Ok_0.0.0,
        r is Ok ==> forall|i: int| 0 <= i < r->Ok_0.2.len() && #[trigger] events_view(r->Ok_0.2@)[i].name == new_constraint.1@
            ==> events_view(r->Ok_0.2@)[i].start == r->Ok_0.0.1,
        r is Ok ==> ((r->Ok_0.1 == -1) == (forall|i: int| 0 <= i < r->Ok_0.2.len()
            ==> #[trigger] events_view(r->Ok_0.2@)[i].name != new_constraint.0@ && events_view(r->Ok_0.2@)[i].name != new_constraint.1@)),
        r is Ok ==> forall|i: int| 0 <= i < r->Ok_0.2.len() && (#[trigger] events_view(r->Ok_0.2@)[i].name == new_constraint.0@
            || events_view(r->Ok_0.2@)[i].name == new_constraint.1@) ==> events_view(r->Ok_0.2@)[i].track <= r->Ok_0.1,
        r is Ok ==> (r->Ok_0.1 >= 0 ==> exists|i: int| 0 <= i < r->Ok_0.2.len() && (#[trigger] events_view(r->Ok_0.2@)[i].name == new_constraint.0@
            || events_view(r->Ok_0.2@)[i].name == new_constraint.1@) && events_view(r->Ok_0.2@)[i].track == r->Ok_0.1),
{
    let (a, b) = new_constraint;
    let ghost ev = events_view(existing_events@);
    let g = build_graph(&existing_events, a, b);
    proof {
        lemma_cycle_by_names(g, ev, a@, b@);
        lemma_connected_by_names(g, ev, a@, b@);
    }
    if g.has_cycle() {
        return Err(ScheduleError::Cycle);
    }
    if !g.is_interval_graph() {
        return Err(ScheduleError::Disconnected);
    }
    let order = match g.topological_order() {
        Some(o) => o,
        None => {
            return Err(ScheduleError::Cycle);
        },
    };
    let ghost edges = g.edges();
    let n = g.names.len();
    let rank = earliest_ranks(&g, &order);
    let max_e = max_value(&rank);
    let latest = latest_ranks(&g, &rank, max_e);
    let min_e = min_value(&rank);
    let max_l = max_value(&latest);
    proof {
        assert forall|v: int| 0 <= v < n implies #[trigger] latest@[v] > rank@[v] by {
            assert(rank@[v] <= max_e);
            lemma_latest_after_rank(edges, rank@, latest@, max_e as int, n as nat, v);
        }
        assert(latest@[0] > rank@[0]);
        assert(rank@[0] >= min_e);
        assert(g.wf());
        assert forall|v: int| 0 <= v < n implies #[trigger] rank@[v] <= n && latest@[v] <= n + 1 by {
            assert(rank@[v] <= max_e);
        }
        let v0 = choose|k: int| 0 <= k < latest.len() && #[trigger] latest@[k] == max_l;
        assert(latest@[v0] <= n + 1);
        // the smallest earliest rank is 1
        let vmin = choose|k: int| 0 <= k < rank.len() && #[trigger] rank@[k] == min_e;
        assert(rank_at(edges, rank@, vmin));
        if rank@[vmin] != 1 {
            let u = choose|u: nat| #[trigger] edges.contains((u, vmin as nat)) && rank@[vmin] == rank@[u as int] + 1;
            let e = choose|e: int| 0 <= e < edges.len() && edges[e] == (u, vmin as nat);
            assert(edges[e].0 < n);
            assert(min_e <= rank@[u as int]);
        }
        assert(min_e == 1);
        // the largest latest rank is one more than the largest earliest rank
        let vmax = choose|k: int| 0 <= k < rank.len() && #[trigger] rank@[k] == max_e;
        assert(latest_at(edges, rank@, max_e as int, latest@, vmax));
        assert forall|w: nat| !(#[trigger] edges.contains((vmax as nat, w))) by {
            if edges.contains((vmax as nat, w)) {
                let e = choose|e: int| 0 <= e < edges.len() && edges[e] == (vmax as nat, w);
                assert(edges[e].1 < n);
                assert(rank_at(edges, rank@, w as int));
                assert(rank@[w as int] <= max_e);
            }
        }
        assert(latest@[vmax] == max_e + 1);
        assert(max_l == max_e + 1);
    }
    let span = max_l - min_e;
    // positions of the events' nodes
    let mut starts: Vec<u64> = Vec::new();
    let mut ends: Vec<u64> = Vec::new();
    let mut nodes: Vec<usize> = Vec::new();
    let mut i: usize = 0;
    while i < existing_events.len()
        invariant
            ev == events_view(existing_events@),
            represents(g, ev, a@, b@),
            n == g.names.len(),
            rank.len() == n,
            latest.len() == n,
            forall|v: int| 0 <= v < n ==> min_e <= #[trigger] rank@[v] && rank@[v] < latest@[v] && latest@[v] <= max_l,
            span == max_l - min_e,
            n < u32::MAX,
            i <= existing_events.len(),
            nodes.len() == i,
            starts.len() == i,
            ends.len() == i,
            forall|k: int| 0 <= k < i ==> #[trigger] nodes[k] < n && g.node_names()[nodes[k] as int] == ev[k].name
                && starts[k] == rank@[nodes[k] as int] - min_e && ends[k] == latest@[nodes[k] as int] - min_e,
        decreases existing_events.len() - i,
    {
        proof {
            assert(ev[i as int].name == existing_events@[i as int].name@);
            assert(mentioned(ev, a@, b@, ev[i as int].name));
        }
        let v = match g.find(existing_events[i].name.as_str()) {
            Some(v) => v,
            None => {
                proof { assert(false); }
                0
            },
        };
        nodes.push(v);
        starts.push((rank[v] - min_e) as u64);
        ends.push((latest[v] - min_e) as u64);
        i += 1;
    }
    proof {
        assert forall|k: int| 0 <= k < starts.len() implies #[trigger] starts@[k] < ends@[k] && ends@[k] <= span as u64 by {
            assert(nodes[k] < n);
        }
    }
    let (tracks, lane_count) = assign_tracks(&starts, &ends, span as u64);
    proof {
        lemma_mention_count_len(ev);
    }
    let ia = match g.find(a) {
        Some(v) => v,
        None => {
            proof { assert(mentioned(ev, a@, b@, a@)); }
            0
        },
    };
    let ib = match g.find(b) {
        Some(v) => v,
        None => {
            proof { assert(mentioned(ev, a@, b@, b@)); }
            0
        },
    };
    let first_a = first_index_named(&existing_events, a);
    let mut out: Vec<Event> = Vec::new();
    let mut tr: i64 = -1;
    let mut j: usize = 0;
    while j < existing_events.len()
        invariant
            ev == events_view(existing_events@),
            j <= existing_events.len(),
            out.len() == j,
            tracks.len() == existing_events.len(),
            starts.len() == existing_events.len(),
            ends.len() == existing_events.len(),
            first_a <= existing_events.len(),
            first_a == existing_events.len() ==> forall|q: int| 0 <= q < existing_events.len() ==> #[trigger] ev[q].name != a@,
            first_a < existing_events.len() ==> first_named(ev, a@, first_a as int),
            span > 0,
            forall|q: int| 0 <= q < j ==> {
                &&& (#[trigger] out@[q])@.name == ev[q].name
                &&& out@[q]@.description == ev[q].description
                &&& out@[q]@.category == ev[q].category
                &&& out@[q]@.characters == ev[q].characters
                &&& out@[q]@.effects == ev[q].effects
                &&& out@[q]@.before == recorded_before(ev, a@, b@, q)
                &&& out@[q].start == Ratio { num: starts[q], den: span as u64 }
                &&& out@[q].end == Ratio { num: ends[q], den: span as u64 }
                &&& out@[q].track == tracks[q]
            },
            tr >= -1,
            (tr == -1) == (forall|q: int| 0 <= q < j ==> #[trigger] ev[q].name != a@ && ev[q].name != b@),
            forall|q: int| 0 <= q < j && (#[trigger] ev[q].name == a@ || ev[q].name == b@) ==> tracks[q] <= tr,
            tr >= 0 ==> exists|q: int| 0 <= q < j && (#[trigger] ev[q].name == a@ || ev[q].name == b@) && tracks[q] == tr,
            forall|q: int| 0 <= q < tracks.len() ==> #[trigger] tracks[q] < u32::MAX,
        decreases existing_events.len() - j,
    {
        let mut e = existing_events[j].copy();
        proof {
            lemma_holds_name(e.before@, b@);
            assert(ev[j as int] == existing_events@[j as int]@);
            assert(crate::types::views(e.before@) == ev[j as int].before);
            assert(first_named(ev, a@, j as int) <==> j == first_a) by {
                if first_named(ev, a@, j as int) && first_a != j {
                    if first_a < existing_events.len() {
                        assert(first_named(ev, a@, first_a as int));
                        if first_a < j {
                            assert(ev[first_a as int].name != a@);
                        } else {
                            assert(ev[j as int].name != a@);
                        }
                    } else {
                        assert(ev[j as int].name != a@);
                    }
                }
            }
        }
        if j == first_a && !contains_name(&e.before, b) {
            e.before.push(b.to_string());
            proof {
                assert(crate::types::views(e.before@) =~= ev[j as int].before.push(b@));
            }
        }
        e.start = Ratio::new(starts[j], span as u64);
        e.end = Ratio::new(ends[j], span as u64);
        e.track = tracks[j];
        let is_ab = str_eq(existing_events[j].name.as_str(), a) || str_eq(existing_events[j].name.as_str(), b);
        proof { assert(ev[j as int].name == existing_events@[j as int].name@); }
        if is_ab && (tracks[j] as i64) > tr {
            tr = tracks[j] as i64;
        }
        let ghost out0 = out@;
        out.push(e);
        proof {
            let q = j as int;
            assert(out@[q] == e);
            assert(out@[q]@.name == ev[q].name);
            assert(out@[q]@.description == ev[q].description);
            assert(out@[q]@.category == ev[q].category);
            assert(out@[q]@.characters == ev[q].characters);
            assert(out@[q]@.effects == ev[q].effects);
            assert(out@[q]@.before == recorded_before(ev, a@, b@, q));
            assert forall|q2: int| 0 <= q2 < j implies out@[q2] == out0[q2] by {}
        }
        j += 1;
    }
    let iv = (Ratio::new((rank[ia] - min_e) as u64, span as u64), Ratio::new((rank[ib] - min_e) as u64, span as u64));
    proof {
        let o = events_view(out@);
        assert forall|q: int| 0 <= q < o.len() implies #[trigger] o[q] == out@[q]@ by {}
        assert(same_story(ev, a@, b@, o));
        assert forall|q: int, w: int| 0 <= q < o.len() && 0 <= w < o.len()
            && #[trigger] directly_before(ev, a@, b@, o[q].name, o[w].name) implies o[q].end.num <= o[w].start.num by {
            assert(o[q] == out@[q]@ && o[w] == out@[w]@);
            let e = (nodes[q] as nat, nodes[w] as nat);
            assert(g.edges().contains(e));
            assert(latest_at(edges, rank@, max_e as int, latest@, nodes[q] as int));
            let vq: int = nodes[q] as int;
            assert(edges.contains((vq as nat, nodes[w] as nat)));
            lemma_latest_le(edges, rank@, max_e as int, latest@, vq, nodes[w] as nat);
        }
        assert(laid_out(ev, a@, b@, o, iv.0.den));
        assert forall|q: int, w: int| 0 <= q < o.len() && 0 <= w < o.len() && q != w
            && #[trigger] o[q].track == #[trigger] o[w].track
            implies o[q].end.num <= o[w].start.num || o[w].end.num <= o[q].start.num by {
            assert(o[q] == out@[q]@ && o[w] == out@[w]@);
            assert(tracks@[q] == tracks@[w]);
        }
        assert(directly_before(ev, a@, b@, a@, b@));
        assert(g.edges().contains((ia as nat, ib as nat)));
        assert(rank_at(edges, rank@, ib as int));
        assert forall|q: int| 0 <= q < o.len() && #[trigger] o[q].name == a@ implies o[q].start == iv.0 by {
            assert(o[q] == out@[q]@);
            assert(g.node_names()[nodes[q] as int] == a@);
            assert(g.node_names().no_duplicates());
        }
        assert forall|q: int| 0 <= q < o.len() && #[trigger] o[q].name == b@ implies o[q].start == iv.1 by {
            assert(o[q] == out@[q]@);
            assert(g.node_names()[nodes[q] as int] == b@);
        }
        assert forall|q: int| 0 <= q < o.len() && (#[trigger] o[q].name == a@ || o[q].name == b@) implies o[q].track <= tr by {
            assert(o[q] == out@[q]@);
        }
        if tr >= 0 {
            let q = choose|q: int| 0 <= q < j && (#[trigger] ev[q].name == a@ || ev[q].name == b@) && tracks[q] == tr;
            assert(o[q] == out@[q]@);
        }
        if tr == -1 {
            assert forall|q: int| 0 <= q < o.len() implies #[trigger] o[q].name != a@ && o[q].name != b@ by {
                assert(o[q] == out@[q]@);
            }
        } else {
            let q = choose|q: int| 0 <= q < j && (#[trigger] ev[q].name == a@ || ev[q].name == b@) && tracks[q] == tr;
            assert(o[q] == out@[q]@);
        }
        assert(tracks_disjoint(o));
        assert(iv.0.den == iv.1.den);
        assert(iv.0.num < iv.1.num);
        assert(iv.1.num <= iv.1.den);
        assert(same_story(ev, a@, b@, o));
        assert(laid_out(ev, a@, b@, o, iv.0.den));
        assert(forall|i: int| 0 <= i < o.len() && #[trigger] o[i].name == a@ ==> o[i].start == iv.0);
        assert(forall|i: int| 0 <= i < o.len() && #[trigger] o[i].name == b@ ==> o[i].start == iv.1);
        assert((tr == -1) == (forall|i: int| 0 <= i < o.len() ==> #[trigger] o[i].name != a@ && o[i].name != b@));
        assert(forall|i: int| 0 <= i < o.len() && (#[trigger] o[i].name == a@ || o[i].name == b@) ==> o[i].track <= tr);
        assert(tr >= 0 ==> exists|i: int| 0 <= i < o.len() && (#[trigger] o[i].name == a@ || o[i].name == b@) && o[i].track == tr);
    }
    let ghost o = events_view(out@);
    let ghost olen = out.len();
    proof {
        lemma_ranks_by_name(g, ev, a@, b@, rank@, latest@, max_e as int);
        let names = g.node_names();
        let rf = |x: Seq<char>| rank@[index_of(names, x) as int] as int;
        let lf = |x: Seq<char>| latest@[index_of(names, x) as int] as int;
        let top = max_e + 1;
        assert forall|x: Seq<char>| #[trigger] mentioned(ev, a@, b@, x) implies rf(x) < top by {
            assert(names.contains(x));
            lemma_index_of(names, x);
        }
        let vmax = choose|k: int| 0 <= k < rank.len() && #[trigger] rank@[k] == max_e;
        let xm = names[vmax];
        assert(names.contains(xm));
        lemma_index_of(names, xm);
        assert(mentioned(ev, a@, b@, xm) && rf(xm) == top - 1);
        assert forall|i: int| 0 <= i < o.len() implies {
            &&& (#[trigger] o[i]).start.num == rf(o[i].name) - 1
            &&& o[i].end.num == lf(o[i].name) - 1
            &&& o[i].start.den == top - 1
        } by {
            assert(o[i] == out@[i]@);
            assert(names[nodes[i] as int] == ev[i].name);
            lemma_index_of(names, ev[i].name);
        }
        assert(positioned(ev, a@, b@, o, rf, lf, top));
        lemma_index_of(names, a@);
        lemma_index_of(names, b@);
        assert(names[ia as int] == a@ && names[ib as int] == b@);
        assert(iv.0.num == rf(a@) - 1 && iv.1.num == rf(b@) - 1);
        assert(start_nums(o) =~= starts@) by {
            assert forall|i: int| 0 <= i < o.len() implies start_nums(o)[i] == starts@[i] by { assert(o[i] == out@[i]@); }
        }
        assert(end_nums(o) =~= ends@) by {
            assert forall|i: int| 0 <= i < o.len() implies end_nums(o)[i] == ends@[i] by { assert(o[i] == out@[i]@); }
        }
        assert forall|i: int| 0 <= i < o.len() implies (#[trigger] o[i]).track < lane_count by {
            assert(o[i] == out@[i]@);
        }
        assert forall|l: int| 0 <= l < lane_count implies #[trigger] track_used(o, l) by {
            assert(lane_used(tracks@, l));
            let i = choose|i: int| 0 <= i < tracks.len() && #[trigger] tracks@[i] == l;
            assert(o[i] == out@[i]@);
        }
        assert(greedy_tracks(o, lane_count));
    }
    let res: Result<((Ratio, Ratio), i64, Vec<Event>), ScheduleError> = Ok((iv, tr, out));
    proof {
        assert(events_view(res->Ok_0.2@) == o);
        assert(res->Ok_0.2.len() == olen);
        assert(res->Ok_0.1 == tr);
        assert(new_constraint.0@ == a@ && new_constraint.1@ == b@);
        if tr == -1 {
            assert forall|i: int| 0 <= i < res->Ok_0.2.len() implies #[trigger] events_view(res->Ok_0.2@)[i].name != new_constraint.0@
                && events_view(res->Ok_0.2@)[i].name != new_constraint.1@ by {
                assert(o[i].name != a@ && o[i].name != b@);
            }
        } else {
            let i = choose|i: int| 0 <= i < o.len() && (#[trigger] o[i].name == a@ || o[i].name == b@) && o[i].track == tr;
            assert(events_view(res->Ok_0.2@)[i].name == new_constraint.0@ || events_view(res->Ok_0.2@)[i].name == new_constraint.1@);
        }
        assert(schedule_result(ev, a@, b@, iv, tr, o));
    }
    res
}

/// `holds_name` is membership among the views.
pub proof fn lemma_holds_name_pub(v: Seq<String>, x: Seq<char>)
    ensures
        crate::types::holds_name(v, x) <==> crate::types::views(v).contains(x),
{
    lemma_holds_name(v, x);
}

/// Records the constraint `a -> b` in the timeline and lays every event out again.
/// A constraint that closes a cycle, or leaves the events in more than one piece, is
/// refused, and the timeline is then left exactly as it was.
pub fn insert_constraint(timeline: &mut Vec<Event>, a: &str, b: &str) -> (r: Result<(Ratio, Ratio), ScheduleError>)
    requires
        mention_count(events_view(old(timeline)@)) + 4 < u32::MAX,
    ensures
        r == Err::<(Ratio, Ratio), ScheduleError>(ScheduleError::Cycle) <==> closes_cycle(events_view(old(timeline)@), a@, b@),
        r is Err ==> *final(timeline) == *old(timeline),
        r is Ok ==> {
            let ev = events_view(old(timeline)@);
            let o = events_view(final(timeline)@);
            &&& same_story(ev, a@, b@, o)
            &&& laid_out(ev, a@, b@, o, r->Ok_0.0.den)
            &&& tracks_disjoint(o)
        },
{
    match add_constraint_and_get_interval(copy_events(timeline), (a, b)) {
        Ok((iv, _track, out)) => {
            *timeline = out;
            Ok(iv)
        },
        Err(e) => Err(e),
    }
}
} // verus!
