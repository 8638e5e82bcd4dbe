//! The mathematical model of the engine.
//!
//! A graph is a sequence of node records — identifier, incoming-edge source
//! positions, outgoing-edge count, score bits — together with the damping
//! bits, the running edge count and the cached count of nodes with at least
//! one incoming edge.  Every mutating operation of the engine is specified
//! here as a function from view to view, and every query as a function of the
//! view, so each executable method's contract pins its whole effect.

use vstd::prelude::*;
use crate::fp::{add_bits, sub_bits, mul_bits, div_bits, sqrt_bits, bits_of_usize, lt_bits};

verus! {

/// One node of the graph: identifier, positions of the sources of its
/// incoming edges (duplicates allowed), count of its outgoing edges, and its
/// score as binary64 bits.
#[verifier::ext_equal]
pub ghost struct NodeView {
    pub id: Seq<char>,
    pub incoming: Seq<usize>,
    pub outgoing: usize,
    pub score: u64,
}

/// The whole engine state: damping bits, nodes in creation order, running
/// edge count, and the cached count of nodes with incoming edges (`None`
/// after a node was created since it was last computed).
#[verifier::ext_equal]
pub ghost struct GraphView {
    pub damping: u64,
    pub nodes: Seq<NodeView>,
    pub edges: usize,
    pub cached_incoming: Option<usize>,
}

/// Position of the first node carrying `id`, or -1 when no node does.
pub open spec fn find_id(nodes: Seq<NodeView>, id: Seq<char>) -> int
    decreases nodes.len(),
{
    if nodes.len() == 0 {
        -1
    } else if nodes[0].id == id {
        0
    } else if find_id(nodes.drop_first(), id) < 0 {
        -1
    } else {
        find_id(nodes.drop_first(), id) + 1
    }
}

/// Whether some node carries `id`.
pub open spec fn contains_id(nodes: Seq<NodeView>, id: Seq<char>) -> bool {
    find_id(nodes, id) >= 0
}

/// The identifiers of the nodes, in creation order.
pub open spec fn node_ids(nodes: Seq<NodeView>) -> Seq<Seq<char>> {
    nodes.map_values(|n: NodeView| n.id)
}

/// `find_id` returns the position of the first node carrying `id`, or -1
/// when no node does.
pub proof fn lemma_find_id(nodes: Seq<NodeView>, id: Seq<char>)
    ensures
        find_id(nodes, id) >= 0 ==> find_id(nodes, id) < nodes.len()
            && nodes[find_id(nodes, id)].id == id
            && (forall|k: int| 0 <= k < find_id(nodes, id) ==> nodes[k].id != id),
        find_id(nodes, id) < 0 ==> (forall|k: int| 0 <= k < nodes.len() ==> nodes[k].id != id),
    decreases nodes.len(),
{
    if nodes.len() > 0 && nodes[0].id != id {
        let rest = nodes.drop_first();
        lemma_find_id(rest, id);
        let r = find_id(nodes, id);
        if find_id(rest, id) >= 0 {
            assert(nodes[r] == rest[r - 1]);
            assert forall|k: int| 0 <= k < r implies nodes[k].id != id by {
                if k > 0 {
                    assert(nodes[k] == rest[k - 1]);
                }
            }
        } else {
            assert forall|k: int| 0 <= k < nodes.len() implies nodes[k].id != id by {
                if k > 0 {
                    assert(nodes[k] == rest[k - 1]);
                }
            }
        }
    }
}

/// Appending a node moves `find_id` as expected: hits stay where they were, a
/// fresh identifier is found at the end when the new node carries it.
pub proof fn lemma_find_id_push(nodes: Seq<NodeView>, n: NodeView, id: Seq<char>)
    ensures
        contains_id(nodes, id) ==> find_id(nodes.push(n), id) == find_id(nodes, id),
        !contains_id(nodes, id) && n.id == id ==> find_id(nodes.push(n), id) == nodes.len(),
        !contains_id(nodes, id) && n.id != id ==> find_id(nodes.push(n), id) < 0,
    decreases nodes.len(),
{
    if nodes.len() == 0 {
        assert(nodes.push(n)[0] == n);
        assert(nodes.push(n).drop_first() =~= Seq::<NodeView>::empty());
        if n.id != id {
            assert(find_id(Seq::<NodeView>::empty(), id) == -1);
            assert(find_id(nodes.push(n), id) < 0);
        }
    } else {
        lemma_find_id_push(nodes.drop_first(), n, id);
        assert(nodes.push(n).drop_first() =~= nodes.drop_first().push(n));
        assert(nodes.push(n)[0] == nodes[0]);
        if nodes[0].id != id && find_id(nodes, id) >= 0 {
            assert(find_id(nodes.drop_first(), id) >= 0);
        }
    }
}

/// Well-formedness of a graph: identifiers are distinct; no adjacency list or
/// outgoing count exceeds the edge count; every incoming-edge source is the
/// position of a node that has sent at least one edge.
pub open spec fn wf(g: GraphView) -> bool {
    &&& g.nodes.len() <= usize::MAX
    &&& (forall|i: int, j: int| 0 <= i < j < g.nodes.len()
            ==> #[trigger] g.nodes[i].id != #[trigger] g.nodes[j].id)
    &&& (forall|i: int| 0 <= i < g.nodes.len()
            ==> #[trigger] g.nodes[i].incoming.len() <= g.edges)
    &&& (forall|i: int| 0 <= i < g.nodes.len() ==> #[trigger] g.nodes[i].outgoing <= g.edges)
    &&& (forall|i: int, k: int|
            0 <= i < g.nodes.len() && 0 <= k < g.nodes[i].incoming.len() ==> {
                let p = #[trigger] g.nodes[i].incoming[k];
                p < g.nodes.len() && g.nodes[p as int].outgoing >= 1
            })
}

/// The bits of binary64 one.
pub open spec fn one_bits() -> u64 {
    bits_of_usize(1)
}

/// The score a node is created with: one minus the damping factor.
pub open spec fn initial_score(g: GraphView) -> u64 {
    sub_bits(one_bits(), g.damping)
}

/// The damping bits a graph starts with: 85 divided by 100.
pub open spec fn default_damping_bits() -> u64 {
    div_bits(bits_of_usize(85), bits_of_usize(100))
}

/// The default convergence threshold: 1 divided by 100.
pub open spec fn default_threshold_bits() -> u64 {
    div_bits(bits_of_usize(1), bits_of_usize(100))
}

/// The empty graph: no nodes, no edges, default damping, no cached count.
pub open spec fn empty_graph() -> GraphView {
    GraphView {
        damping: default_damping_bits(),
        nodes: Seq::empty(),
        edges: 0,
        cached_incoming: None,
    }
}

/// The graph `g` with damping bits `d`.
pub open spec fn with_damping(g: GraphView, d: u64) -> GraphView {
    GraphView { damping: d, ..g }
}

/// Resolving an identifier: an unknown one appends a node with no edges and
/// the initial score, and drops the cached incoming count; a known one leaves
/// the graph unchanged.
pub open spec fn create_spec(g: GraphView, id: Seq<char>) -> GraphView {
    if contains_id(g.nodes, id) {
        g
    } else {
        GraphView {
            nodes: g.nodes.push(
                NodeView { id: id, incoming: Seq::empty(), outgoing: 0, score: initial_score(g) },
            ),
            cached_incoming: None,
            ..g
        }
    }
}

/// Inserting an edge: resolve both endpoints (creating nodes as needed), add
/// one to the source's outgoing count, append the source's position to the
/// target's incoming list, and count the edge.
pub open spec fn add_edge_spec(g: GraphView, s: Seq<char>, t: Seq<char>) -> GraphView {
    edge_update_spec(create_spec(create_spec(g, s), t), s, t)
}

/// The adjacency part of inserting an edge, on a graph already holding both
/// endpoints: add one to the source's outgoing count, append the source's
/// position to the target's incoming list, and count the edge.
pub open spec fn edge_update_spec(g2: GraphView, s: Seq<char>, t: Seq<char>) -> GraphView {
    let sp = find_id(g2.nodes, s);
    let tp = find_id(g2.nodes, t);
    let ns = g2.nodes[sp];
    let nodes1 = g2.nodes.update(sp, NodeView { outgoing: (ns.outgoing + 1) as usize, ..ns });
    let nt = nodes1[tp];
    let nodes2 = nodes1.update(tp, NodeView { incoming: nt.incoming.push(sp as usize), ..nt });
    GraphView { nodes: nodes2, edges: (g2.edges + 1) as usize, ..g2 }
}

/// Resolving an identifier preserves well-formedness and the edge count.
pub proof fn lemma_create_wf(g: GraphView, id: Seq<char>)
    requires
        wf(g),
        g.nodes.len() < usize::MAX,
    ensures
        wf(create_spec(g, id)),
        create_spec(g, id).edges == g.edges,
        g.nodes.len() <= create_spec(g, id).nodes.len(),
{
    if !contains_id(g.nodes, id) {
        lemma_find_id(g.nodes, id);
        let c = create_spec(g, id);
        assert(forall|i: int| 0 <= i < g.nodes.len() ==> c.nodes[i] == g.nodes[i]);
        assert(forall|i: int, j: int| 0 <= i < j < c.nodes.len()
            ==> c.nodes[i].id != c.nodes[j].id) by {
            assert(forall|k: int| 0 <= k < g.nodes.len() ==> g.nodes[k].id != id);
        }
    }
}

/// The adjacency update of an edge preserves well-formedness when both
/// endpoints are present and the edge count has room.
pub proof fn lemma_edge_update_wf(g2: GraphView, s: Seq<char>, t: Seq<char>)
    requires
        wf(g2),
        contains_id(g2.nodes, s),
        contains_id(g2.nodes, t),
        g2.edges < usize::MAX,
    ensures
        wf(edge_update_spec(g2, s, t)),
        edge_update_spec(g2, s, t).edges == g2.edges + 1,
        node_ids(edge_update_spec(g2, s, t).nodes) == node_ids(g2.nodes),
{
    lemma_find_id(g2.nodes, s);
    lemma_find_id(g2.nodes, t);
    let sp = find_id(g2.nodes, s);
    let tp = find_id(g2.nodes, t);
    let r = edge_update_spec(g2, s, t);
    assert(0 <= sp < g2.nodes.len());
    assert(0 <= tp < g2.nodes.len());
    assert(r.nodes.len() == g2.nodes.len());
    assert(r.edges == g2.edges + 1);
    assert forall|i: int| 0 <= i < r.nodes.len() implies #[trigger] r.nodes[i].id
        == g2.nodes[i].id && r.nodes[i].outgoing >= g2.nodes[i].outgoing
        && r.nodes[i].outgoing <= g2.nodes[i].outgoing + 1
        && r.nodes[i].incoming.len() <= g2.nodes[i].incoming.len() + 1 by {
    }
    assert(r.nodes[sp].outgoing >= 1);
    assert forall|i: int| 0 <= i < r.nodes.len() implies #[trigger] r.nodes[i].incoming.len()
        <= r.edges by {
    }
    let ns = g2.nodes[sp];
    let nodes1 = g2.nodes.update(sp, NodeView { outgoing: (ns.outgoing + 1) as usize, ..ns });
    let nt = nodes1[tp];
    let nodes2 = nodes1.update(tp, NodeView { incoming: nt.incoming.push(sp as usize), ..nt });
    assert(r.nodes == nodes2);
    assert(nt.incoming == g2.nodes[tp].incoming);
    assert forall|i: int, k: int|
        0 <= i < r.nodes.len() && 0 <= k < r.nodes[i].incoming.len() implies
        (#[trigger] r.nodes[i].incoming[k]) < r.nodes.len()
            && r.nodes[r.nodes[i].incoming[k] as int].outgoing >= 1 by {
        if i == tp {
            assert(r.nodes[i].incoming == nt.incoming.push(sp as usize));
            if k == nt.incoming.len() {
                assert(r.nodes[i].incoming[k] == sp as usize);
                assert(r.nodes[sp].outgoing >= 1);
            } else {
                assert(r.nodes[i].incoming[k] == g2.nodes[i].incoming[k]);
                let p = r.nodes[i].incoming[k];
                assert(p < g2.nodes.len() && g2.nodes[p as int].outgoing >= 1);
                assert(r.nodes[p as int].outgoing >= g2.nodes[p as int].outgoing);
            }
        } else {
            assert(r.nodes[i].incoming == g2.nodes[i].incoming);
            let p = r.nodes[i].incoming[k];
            assert(p < g2.nodes.len() && g2.nodes[p as int].outgoing >= 1);
            assert(r.nodes[p as int].outgoing >= g2.nodes[p as int].outgoing);
        }
    }
    assert(node_ids(r.nodes) =~= node_ids(g2.nodes));
}

/// After resolving, the identifier is present, and presence of others is
/// unchanged.
pub proof fn lemma_create_contains(g: GraphView, id: Seq<char>)
    ensures
        contains_id(create_spec(g, id).nodes, id),
        forall|o: Seq<char>| contains_id(g.nodes, o)
            ==> #[trigger] contains_id(create_spec(g, id).nodes, o)
                && find_id(create_spec(g, id).nodes, o) == find_id(g.nodes, o),
{
    let n = NodeView { id: id, incoming: Seq::empty(), outgoing: 0, score: initial_score(g) };
    if !contains_id(g.nodes, id) {
        lemma_find_id_push(g.nodes, n, id);
    }
    assert forall|o: Seq<char>| contains_id(g.nodes, o) implies
        #[trigger] contains_id(create_spec(g, id).nodes, o)
            && find_id(create_spec(g, id).nodes, o) == find_id(g.nodes, o) by {
        if !contains_id(g.nodes, id) {
            lemma_find_id_push(g.nodes, n, o);
        } else {
            assert(create_spec(g, id) == g);
        }
    }
}


/// The share handed over by the source at position `p`: its score divided by its
/// outgoing count.
pub open spec fn source_share(g: GraphView, p: usize) -> u64 {
    div_bits(g.nodes[p as int].score, bits_of_usize(g.nodes[p as int].outgoing))
}

/// Left fold, from zero bits, of the first `k` shares named by the
/// incoming list `inc`, read against the scores of `g`.
pub open spec fn share_sum(g: GraphView, inc: Seq<usize>, k: int) -> u64
    decreases k,
{
    if k <= 0 {
        0u64
    } else {
        add_bits(share_sum(g, inc, k - 1), source_share(g, inc[k - 1]))
    }
}

/// The score node `i` takes from one sweep: one minus damping, plus damping
/// times the fold of its incoming shares, each share read from
/// the scores of `g` (synchronous update).
pub open spec fn new_score(g: GraphView, i: int) -> u64 {
    add_bits(
        sub_bits(one_bits(), g.damping),
        mul_bits(g.damping, share_sum(g, g.nodes[i].incoming, g.nodes[i].incoming.len() as int)),
    )
}

/// The squared score change of node `i` over one sweep.
pub open spec fn diff_term(g: GraphView, i: int) -> u64 {
    let d = sub_bits(g.nodes[i].score, new_score(g, i));
    mul_bits(d, d)
}

/// Left fold, from zero bits, of the first `k` squared score changes.
pub open spec fn diff_sq_sum(g: GraphView, k: int) -> u64
    decreases k,
{
    if k <= 0 {
        0u64
    } else {
        add_bits(diff_sq_sum(g, k - 1), diff_term(g, k - 1))
    }
}

/// Count of nodes among the first `k` with at least one incoming edge.
pub open spec fn count_with_incoming(nodes: Seq<NodeView>, k: int) -> int
    decreases k,
{
    if k <= 0 {
        0
    } else {
        count_with_incoming(nodes, k - 1) + (if nodes[k - 1].incoming.len() > 0 {
            1int
        } else {
            0int
        })
    }
}

/// The count is between 0 and `k`.
pub proof fn lemma_count_with_incoming_bound(nodes: Seq<NodeView>, k: int)
    requires
        k >= 0,
    ensures
        0 <= count_with_incoming(nodes, k) <= k,
    decreases k,
{
    if k > 0 {
        lemma_count_with_incoming_bound(nodes, k - 1);
    }
}

/// The count depends only on which nodes have incoming edges.
pub proof fn lemma_count_with_incoming_same(a: Seq<NodeView>, b: Seq<NodeView>, k: int)
    requires
        forall|i: int| 0 <= i < k ==> #[trigger] a[i].incoming.len() == b[i].incoming.len(),
    ensures
        count_with_incoming(a, k) == count_with_incoming(b, k),
    decreases k,
{
    if k > 0 {
        lemma_count_with_incoming_same(a, b, k - 1);
    }
}

/// The normalization denominator of the metric: the cached count where one is
/// cached — even when later edges made it stale — else the count over all
/// nodes.
pub open spec fn effective_incoming(g: GraphView) -> usize {
    match g.cached_incoming {
        Some(n) => n,
        None => count_with_incoming(g.nodes, g.nodes.len() as int) as usize,
    }
}

/// The convergence metric of one sweep of `g`: the square root of the summed
/// squared score changes, divided by the denominator count.
pub open spec fn metric_spec(g: GraphView) -> u64 {
    div_bits(sqrt_bits(diff_sq_sum(g, g.nodes.len() as int)), bits_of_usize(effective_incoming(g)))
}

/// One sweep: every score is replaced by its `new_score`, and the denominator
/// count is cached; identifiers, adjacency, edge count and damping stay.
pub open spec fn step_spec(g: GraphView) -> GraphView {
    GraphView {
        nodes: Seq::new(g.nodes.len(), |i: int| NodeView { score: new_score(g, i), ..g.nodes[i] }),
        cached_incoming: Some(effective_incoming(g)),
        ..g
    }
}

/// `k` sweeps in order.
pub open spec fn iterate_steps(g: GraphView, k: nat) -> GraphView
    decreases k,
{
    if k == 0 {
        g
    } else {
        step_spec(iterate_steps(g, (k - 1) as nat))
    }
}

/// A sweep preserves well-formedness and everything but scores and the cache.
pub proof fn lemma_step_wf(g: GraphView)
    requires
        wf(g),
    ensures
        wf(step_spec(g)),
        step_spec(g).nodes.len() == g.nodes.len(),
        step_spec(g).edges == g.edges,
        step_spec(g).damping == g.damping,
        node_ids(step_spec(g).nodes) == node_ids(g.nodes),
{
    let r = step_spec(g);
    assert(forall|i: int| 0 <= i < r.nodes.len() ==> #[trigger] r.nodes[i].id == g.nodes[i].id
        && r.nodes[i].incoming == g.nodes[i].incoming
        && r.nodes[i].outgoing == g.nodes[i].outgoing);
    assert(node_ids(r.nodes) =~= node_ids(g.nodes));
}

/// The identifier-score pairs of the nodes, in creation order.
pub open spec fn pairs_of(g: GraphView) -> Seq<(Seq<char>, u64)> {
    Seq::new(g.nodes.len(), |i: int| (g.nodes[i].id, g.nodes[i].score))
}

/// The identifier views of stored pairs: what the ranked view's entries mean.
pub open spec fn pair_views(s: Seq<(String, u64)>) -> Seq<(Seq<char>, u64)> {
    Seq::new(s.len(), |i: int| (s[i].0@, s[i].1))
}

/// Stable descending insertion: `x` goes in front of the first entry whose
/// score is below `x`'s, after every entry tied with or above it.
pub open spec fn insert_ranked(t: Seq<(Seq<char>, u64)>, x: (Seq<char>, u64)) -> Seq<
    (Seq<char>, u64),
>
    decreases t.len(),
{
    if t.len() == 0 {
        seq![x]
    } else if lt_bits(t[0].1, x.1) {
        seq![x] + t
    } else {
        seq![t[0]] + insert_ranked(t.drop_first(), x)
    }
}

/// Stable sort by descending score: entries of equal score keep their
/// creation order.
pub open spec fn sort_ranked(s: Seq<(Seq<char>, u64)>) -> Seq<(Seq<char>, u64)>
    decreases s.len(),
{
    if s.len() == 0 {
        Seq::empty()
    } else {
        insert_ranked(sort_ranked(s.drop_last()), s.last())
    }
}

/// The ranked view of a graph: its identifier-score pairs, stably sorted by
/// descending score.
pub open spec fn ranked_spec(g: GraphView) -> Seq<(Seq<char>, u64)> {
    sort_ranked(pairs_of(g))
}

/// Inserting at the first position whose score is below `x`'s splits the
/// sorted sequence around `x`.
pub proof fn lemma_insert_ranked_split(t: Seq<(Seq<char>, u64)>, x: (Seq<char>, u64), k: int)
    requires
        0 <= k <= t.len(),
        forall|j: int| 0 <= j < k ==> !lt_bits(t[j].1, x.1),
        k < t.len() ==> lt_bits(t[k].1, x.1),
    ensures
        insert_ranked(t, x) == t.subrange(0, k) + seq![x] + t.subrange(k, t.len() as int),
    decreases t.len(),
{
    if t.len() == 0 {
        assert(insert_ranked(t, x) =~= t.subrange(0, 0) + seq![x] + t.subrange(0, 0));
    } else if k == 0 {
        assert(lt_bits(t[0].1, x.1));
        assert(insert_ranked(t, x) =~= t.subrange(0, 0) + seq![x] + t.subrange(0, t.len() as int));
    } else {
        assert(!lt_bits(t[0].1, x.1));
        let d = t.drop_first();
        assert(forall|j: int| 0 <= j < k - 1 ==> d[j] == t[j + 1]);
        if k - 1 < d.len() {
            assert(d[k - 1] == t[k]);
        }
        lemma_insert_ranked_split(d, x, k - 1);
        assert(seq![t[0]] + (d.subrange(0, k - 1) + seq![x] + d.subrange(k - 1, d.len() as int))
            =~= t.subrange(0, k) + seq![x] + t.subrange(k, t.len() as int));
    }
}


/// In a well-formed graph the node count equals the number of distinct
/// identifiers: the identifier sequence has no duplicates, so its set has
/// exactly one member per node.
pub proof fn lemma_node_count_is_distinct_ids(g: GraphView)
    requires
        wf(g),
    ensures
        node_ids(g.nodes).to_set().len() == g.nodes.len(),
{
    let ids = node_ids(g.nodes);
    assert(ids.len() == g.nodes.len());
    assert forall|i: int, j: int|
        0 <= i < ids.len() && 0 <= j < ids.len() && i != j implies ids[i] != ids[j] by {
        assert(ids[i] == g.nodes[i].id);
        assert(ids[j] == g.nodes[j].id);
    }
    assert(ids.no_duplicates());
    ids.unique_seq_to_set();
}

/// Resolving an identifier makes the identifier set exactly the old set plus
/// that identifier.
pub proof fn lemma_create_ids(g: GraphView, id: Seq<char>)
    ensures
        node_ids(create_spec(g, id).nodes).to_set() == node_ids(g.nodes).to_set().insert(id),
{
    broadcast use vstd::set::group_set_axioms;

    let ids = node_ids(g.nodes);
    let cids = node_ids(create_spec(g, id).nodes);
    if contains_id(g.nodes, id) {
        lemma_find_id(g.nodes, id);
        let r = find_id(g.nodes, id);
        assert(ids[r] == id);
        assert(ids.contains(id));
        assert(cids =~= ids);
        assert(ids.to_set().insert(id) =~= ids.to_set());
    } else {
        assert(cids =~= ids.push(id));
        assert forall|x: Seq<char>| #[trigger] ids.push(id).contains(x) implies (ids.contains(x)
            || x == id) by {
            let i = choose|i: int| 0 <= i < ids.push(id).len() && ids.push(id)[i] == x;
            if i < ids.len() {
                assert(ids[i] == x);
            }
        }
        assert forall|x: Seq<char>| ids.contains(x) implies #[trigger] ids.push(id).contains(
            x,
        ) by {
            let i = choose|i: int| 0 <= i < ids.len() && ids[i] == x;
            assert(ids.push(id)[i] == x);
        }
        assert(ids.push(id)[ids.len() as int] == id);
        assert(ids.push(id).contains(id));
        assert(ids.push(id).to_set() =~= ids.to_set().insert(id));
    }
}

/// Inserting an edge makes the identifier set exactly the old set plus the
/// two endpoints.  After any run of insertions on an empty graph, then, the
/// node count is the number of distinct identifiers that appeared as an
/// endpoint: this lemma accounts for each insertion, and
/// `lemma_node_count_is_distinct_ids` turns the set into the count.
pub proof fn lemma_add_edge_ids(g: GraphView, s: Seq<char>, t: Seq<char>)
    requires
        wf(g),
        g.edges < usize::MAX,
        g.nodes.len() + 2 <= usize::MAX,
    ensures
        node_ids(add_edge_spec(g, s, t).nodes).to_set() == node_ids(g.nodes).to_set().insert(
            s,
        ).insert(t),
{
    lemma_create_ids(g, s);
    let g1 = create_spec(g, s);
    lemma_create_ids(g1, t);
    let g2 = create_spec(g1, t);
    lemma_create_wf(g, s);
    lemma_create_wf(g1, t);
    lemma_create_contains(g, s);
    lemma_create_contains(g1, t);
    lemma_edge_update_wf(g2, s, t);
}

/// Whether a ranked sequence descends: no entry's score is below its
/// successor's.
pub open spec fn ranked_sorted(s: Seq<(Seq<char>, u64)>) -> bool {
    forall|i: int| #![trigger s[i]] 0 <= i && i + 1 < s.len() ==> !lt_bits(s[i].1, s[i + 1].1)
}

/// Stable insertion keeps a ranked sequence descending.
pub proof fn lemma_insert_ranked_sorted(t: Seq<(Seq<char>, u64)>, x: (Seq<char>, u64))
    requires
        ranked_sorted(t),
    ensures
        ranked_sorted(insert_ranked(t, x)),
    decreases t.len(),
{
    let r = insert_ranked(t, x);
    if t.len() == 0 {
        assert(r =~= seq![x]);
        assert(r.len() == 1);
        assert(ranked_sorted(r));
    } else if lt_bits(t[0].1, x.1) {
        crate::fp::lemma_lt_bits_asym(t[0].1, x.1);
        let c = seq![x] + t;
        assert(r == c);
        assert forall|i: int| #![trigger r[i]] 0 <= i && i + 1 < r.len() implies !lt_bits(
            r[i].1,
            r[i + 1].1,
        ) by {
            if i == 0 {
                assert(c[0] == x && c[1] == t[0]);
            } else {
                assert(c[i] == t[i - 1] && c[i + 1] == t[i]);
            }
        }
    } else {
        let d = t.drop_first();
        assert forall|i: int| #![trigger d[i]] 0 <= i && i + 1 < d.len() implies !lt_bits(
            d[i].1,
            d[i + 1].1,
        ) by {
            assert(d[i] == t[i + 1] && d[i + 1] == t[i + 2]);
        }
        lemma_insert_ranked_sorted(d, x);
        let e = insert_ranked(d, x);
        // the head of the inserted tail is either x or the old second entry
        if d.len() == 0 {
            assert(e =~= seq![x]);
            assert(e[0] == x);
        } else if lt_bits(d[0].1, x.1) {
            assert(e == seq![x] + d);
            assert((seq![x] + d)[0] == x);
        } else {
            assert(e == seq![d[0]] + insert_ranked(d.drop_first(), x));
            assert((seq![d[0]] + insert_ranked(d.drop_first(), x))[0] == d[0]);
            assert(d[0] == t[1]);
        }
        assert(e.len() > 0);
        assert(e[0] == x || e[0] == t[1]);
        let c = seq![t[0]] + e;
        assert(r == c);
        assert forall|i: int| #![trigger r[i]] 0 <= i && i + 1 < r.len() implies !lt_bits(
            r[i].1,
            r[i + 1].1,
        ) by {
            if i == 0 {
                assert(c[0] == t[0] && c[1] == e[0]);
            } else {
                assert(c[i] == e[i - 1] && c[i + 1] == e[i]);
            }
        }
    }
}

/// Stable insertion adds exactly the new entry to the multiset of entries.
pub proof fn lemma_insert_ranked_multiset(t: Seq<(Seq<char>, u64)>, x: (Seq<char>, u64))
    ensures
        insert_ranked(t, x).to_multiset() =~= t.to_multiset().insert(x),
    decreases t.len(),
{
    broadcast use vstd::seq_lib::group_to_multiset_ensures;

    let r = insert_ranked(t, x);
    if t.len() == 0 {
        assert(r =~= Seq::<(Seq<char>, u64)>::empty().push(x));
        assert(t.to_multiset() =~= Seq::<(Seq<char>, u64)>::empty().to_multiset());
    } else if lt_bits(t[0].1, x.1) {
        assert(r.remove(0) =~= t);
        assert(r[0] == x);
        assert(r.remove(0).to_multiset() =~= r.to_multiset().remove(x));
        assert(r.contains(x));
        assert(r.to_multiset().count(x) > 0);
        assert(r.to_multiset() =~= r.to_multiset().remove(x).insert(x));
    } else {
        let d = t.drop_first();
        lemma_insert_ranked_multiset(d, x);
        let e = insert_ranked(d, x);
        assert(r.remove(0) =~= e);
        assert(r[0] == t[0]);
        assert(r.remove(0).to_multiset() =~= r.to_multiset().remove(t[0]));
        assert(r.contains(t[0]));
        assert(r.to_multiset().count(t[0]) > 0);
        assert(r.to_multiset() =~= r.to_multiset().remove(t[0]).insert(t[0]));
        assert(r.to_multiset() =~= e.to_multiset().insert(t[0]));
        assert(t.remove(0) =~= d);
        assert(t.remove(0).to_multiset() =~= t.to_multiset().remove(t[0]));
        assert(t.contains(t[0]));
        assert(t.to_multiset().count(t[0]) > 0);
        assert(t.to_multiset() =~= d.to_multiset().insert(t[0]));
        assert(r.to_multiset() =~= d.to_multiset().insert(x).insert(t[0]));
        assert(d.to_multiset().insert(x).insert(t[0]) =~= d.to_multiset().insert(t[0]).insert(x));
    }
}

/// The ranked view is a permutation of the identifier-score pairs, descending
/// by score; entries of equal score keep creation order by construction of
/// `insert_ranked`.
pub proof fn lemma_ranked_spec_properties(g: GraphView)
    ensures
        ranked_spec(g).to_multiset() =~= pairs_of(g).to_multiset(),
        ranked_sorted(ranked_spec(g)),
        ranked_spec(g).len() == g.nodes.len(),
{
    lemma_sort_ranked_properties(pairs_of(g));
    broadcast use vstd::seq_lib::group_to_multiset_ensures;

    assert(pairs_of(g).len() == g.nodes.len());
}

/// Stable sorting keeps the multiset of entries and yields a descending
/// sequence.
pub proof fn lemma_sort_ranked_properties(s: Seq<(Seq<char>, u64)>)
    ensures
        sort_ranked(s).to_multiset() =~= s.to_multiset(),
        ranked_sorted(sort_ranked(s)),
        sort_ranked(s).len() == s.len(),
    decreases s.len(),
{
    broadcast use vstd::seq_lib::group_to_multiset_ensures;

    if s.len() == 0 {
    } else {
        let d = s.drop_last();
        lemma_sort_ranked_properties(d);
        lemma_insert_ranked_sorted(sort_ranked(d), s.last());
        lemma_insert_ranked_multiset(sort_ranked(d), s.last());
        assert(d.push(s.last()) =~= s);
        assert(d.push(s.last()).to_multiset() =~= d.to_multiset().insert(s.last()));
        assert(sort_ranked(s).len() == sort_ranked(s).to_multiset().len());
        assert(s.len() == s.to_multiset().len());
        assert(sort_ranked(s).to_multiset() == s.to_multiset());
    }
}

} // verus!
