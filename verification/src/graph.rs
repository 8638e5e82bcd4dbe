//! The engine: graph construction, the iterative solver and the ranked view.

use vstd::prelude::*;
use crate::fp::{
    sub_bits, div_bits, bits_of_usize, lt_bits, not_negative,
    fp_add, fp_sub, fp_mul, fp_div, fp_sqrt, fp_usize, score_lt,
    lemma_not_negative_not_below_zero, lemma_zero_not_negative,
};
use crate::model::{
    GraphView, NodeView, wf, find_id, contains_id, create_spec, add_edge_spec,
    edge_update_spec, with_damping, empty_graph, initial_score,
    default_threshold_bits, lemma_find_id, lemma_create_wf, lemma_create_contains,
    lemma_edge_update_wf, pair_views, share_sum, source_share, new_score, diff_term, diff_sq_sum,
    count_with_incoming, effective_incoming, metric_spec, step_spec, iterate_steps,
    lemma_count_with_incoming_bound, lemma_count_with_incoming_same, lemma_step_wf,
    pairs_of, insert_ranked, sort_ranked, ranked_spec, lemma_insert_ranked_split,
};

verus! {

/// One stored node: identifier, the positions of the sources of its incoming
/// edges (duplicates allowed), its outgoing-edge count, and its score as
/// IEEE-754 binary64 bits.
pub struct GraphNode {
    pub node: String,
    pub incoming_edges: Vec<usize>,
    pub outgoing_edges: usize,
    pub score: u64,
}

/// A PageRank engine over a directed multigraph built from an edge stream.
///
/// Nodes are created lazily, the first time an identifier appears as an edge
/// endpoint, and are addressed by dense positions in creation order; the
/// graph is append-only.  Scores are IEEE-754 binary64 bit patterns (see the
/// `fp` module); tests and callers turn them into floating point outside the
/// engine.
pub struct Pagerank {
    damping: u64,
    nodes: Vec<GraphNode>,
    edges: usize,
    nodes_with_incoming: Option<usize>,
}

impl View for Pagerank {
    type V = GraphView;

    closed spec fn view(&self) -> GraphView {
        GraphView {
            damping: self.damping,
            nodes: Seq::new(
                self.nodes@.len(),
                |i: int| NodeView {
                    id: self.nodes@[i].node@,
                    incoming: self.nodes@[i].incoming_edges@,
                    outgoing: self.nodes@[i].outgoing_edges,
                    score: self.nodes@[i].score,
                },
            ),
            edges: self.edges,
            cached_incoming: self.nodes_with_incoming,
        }
    }
}

impl Pagerank {
    /// Create an empty graph with the default damping factor of 85 percent.
    pub fn new() -> (r: Pagerank)
        ensures
            r@ == empty_graph(),
            wf(r@),
    {
        let r = Pagerank {
            damping: fp_div(fp_usize(85), fp_usize(100)),
            nodes: Vec::new(),
            edges: 0,
            nodes_with_incoming: None,
        };
        proof {
            assert(r@ =~= empty_graph());
        }
        r
    }

    /// The damping bits now in force.
    pub fn damping_bits(&self) -> (r: u64)
        ensures
            r == self@.damping,
    {
        self.damping
    }

    /// Set the damping factor to `factor` percent.  A factor of 100 or more
    /// is rejected and leaves the graph untouched; already created nodes keep
    /// their scores either way.
    pub fn set_damping_factor(&mut self, factor: u8) -> (r: Result<(), String>)
        ensures
            factor < 100 ==> r is Ok && final(self)@ == with_damping(
                old(self)@,
                div_bits(bits_of_usize(factor as usize), bits_of_usize(100)),
            ),
            factor >= 100 ==> r is Err && final(self)@ == old(self)@,
            wf(old(self)@) ==> wf(final(self)@),
    {
        if factor >= 100 {
            return Err("{val} needs to be bellow 100".to_string());
        }
        self.damping = fp_div(fp_usize(factor as usize), fp_usize(100));
        proof {
            assert(final(self)@ =~= with_damping(
                old(self)@,
                div_bits(bits_of_usize(factor as usize), bits_of_usize(100)),
            ));
        }
        Ok(())
    }

    /// Position of the node carrying `node`, if one exists.
    fn find_pos(&self, node: &String) -> (r: Option<usize>)
        ensures
            match r {
                Some(i) => i < self@.nodes.len() && find_id(self@.nodes, node@) == i,
                None => !contains_id(self@.nodes, node@),
            },
    {
        let n = self.nodes.len();
        let mut i: usize = 0;
        while i < n
            invariant
                n == self@.nodes.len(),
                i <= n,
                forall|k: int| 0 <= k < i ==> #[trigger] self@.nodes[k].id != node@,
            decreases n - i,
        {
            if self.nodes[i].node == *node {
                proof {
                    assert(self@.nodes[i as int].id == node@);
                    lemma_find_id(self@.nodes, node@);
                }
                return Some(i);
            }
            i += 1;
        }
        proof {
            lemma_find_id(self@.nodes, node@);
        }
        None
    }

    /// Resolve an identifier to its position, creating the node when the
    /// identifier is new: the fresh node has no edges, the score one minus
    /// damping, and its creation drops the cached incoming count.
    pub fn get_or_create_node(&mut self, node: String) -> (r: usize)
        requires
            wf(old(self)@),
        ensures
            final(self)@ == create_spec(old(self)@, node@),
            wf(final(self)@),
            find_id(final(self)@.nodes, node@) == r,
            r < final(self)@.nodes.len(),
            !contains_id(old(self)@.nodes, node@) ==> final(self)@.nodes[r as int].score
                == initial_score(old(self)@),
    {
        let ghost g0 = self@;
        match self.find_pos(&node) {
            Some(i) => i,
            None => {
                let id = self.nodes.len();
                let score = fp_sub(fp_usize(1), self.damping);
                self.nodes.push(
                    GraphNode {
                        node: node,
                        incoming_edges: Vec::new(),
                        outgoing_edges: 0,
                        score: score,
                    },
                );
                self.nodes_with_incoming = None;
                proof {
                    assert(self@.nodes[id as int].id == final(self).nodes@[id as int].node@);
                    assert(self@ =~= create_spec(g0, self@.nodes[id as int].id));
                    assert(g0.nodes.len() < usize::MAX) by {
                        assert(vstd::std_specs::vec::spec_vec_len(&self.nodes)
                            == self.nodes@.len());
                        assert(self.nodes@.len() == g0.nodes.len() + 1);
                    }
                    lemma_create_wf(g0, self@.nodes[id as int].id);
                    lemma_create_contains(g0, self@.nodes[id as int].id);
                    lemma_find_id(self@.nodes, self@.nodes[id as int].id);
                }
                id
            },
        }
    }

    /// Insert one directed edge.  Both endpoints are resolved (creating their
    /// nodes as needed), the source's outgoing count and the target's
    /// incoming list grow by one, and the edge is counted; nothing is
    /// deduplicated, and a self-loop is legal.
    pub fn add_edge(&mut self, source: String, target: String)
        requires
            wf(old(self)@),
            old(self)@.edges < usize::MAX,
        ensures
            final(self)@ == add_edge_spec(old(self)@, source@, target@),
            wf(final(self)@),
    {
        let ghost g0 = self@;
        let ghost s_id = source@;
        let ghost t_id = target@;
        let s = self.get_or_create_node(source);
        proof {
            lemma_create_contains(g0, s_id);
        }
        let t = self.get_or_create_node(target);
        let ghost g2 = self@;
        proof {
            lemma_create_contains(create_spec(g0, s_id), t_id);
            assert(contains_id(g2.nodes, s_id) && contains_id(g2.nodes, t_id));
            assert(find_id(g2.nodes, s_id) == s);
            assert(find_id(g2.nodes, t_id) == t);
            assert(g2.edges == g0.edges);
            assert(g2.nodes[s as int].outgoing <= g2.edges);
            assert(g2.nodes[t as int].incoming.len() <= g2.edges);
        }
        let o = self.nodes[s].outgoing_edges;
        self.nodes[s].outgoing_edges = o + 1;
        self.nodes[t].incoming_edges.push(s);
        let e = self.edges;
        self.edges = e + 1;
        proof {
            lemma_edge_update_wf(g2, s_id, t_id);
            let r = edge_update_spec(g2, s_id, t_id);
            assert forall|i: int| 0 <= i < self@.nodes.len() implies self@.nodes[i]
                == r.nodes[i] by {
                assert(self@.nodes[i].id == g2.nodes[i].id);
                if i == t {
                    if i == s {
                        assert(self@.nodes[i].incoming =~= g2.nodes[i].incoming.push(s));
                        assert(r.nodes[i].incoming =~= g2.nodes[i].incoming.push(s));
                    }
                    assert(self@.nodes[i] =~= r.nodes[i]);
                } else {
                    assert(self@.nodes[i] =~= r.nodes[i]);
                }
            }
            assert(self@ =~= r);
        }
    }

    /// Score bits of the node carrying `node`, or `None` for an unknown
    /// identifier.
    pub fn get_score(&self, node: String) -> (r: Option<u64>)
        ensures
            r == (if contains_id(self@.nodes, node@) {
                Some(self@.nodes[find_id(self@.nodes, node@)].score)
            } else {
                None::<u64>
            }),
    {
        match self.find_pos(&node) {
            Some(i) => Some(self.nodes[i].score),
            None => None,
        }
    }

    /// Number of incoming edges of the node carrying `node`, or `None` for
    /// an unknown identifier.
    pub fn get_incoming_edges(&self, node: String) -> (r: Option<usize>)
        ensures
            r == (if contains_id(self@.nodes, node@) {
                Some(self@.nodes[find_id(self@.nodes, node@)].incoming.len() as usize)
            } else {
                None::<usize>
            }),
    {
        match self.find_pos(&node) {
            Some(i) => Some(self.nodes[i].incoming_edges.len()),
            None => None,
        }
    }

    /// Number of outgoing edges of the node carrying `node`, or `None` for
    /// an unknown identifier.
    pub fn get_outgoing_edges(&self, node: String) -> (r: Option<usize>)
        ensures
            r == (if contains_id(self@.nodes, node@) {
                Some(self@.nodes[find_id(self@.nodes, node@)].outgoing)
            } else {
                None::<usize>
            }),
    {
        match self.find_pos(&node) {
            Some(i) => Some(self.nodes[i].outgoing_edges),
            None => None,
        }
    }

    /// Number of nodes in the graph.
    pub fn len(&self) -> (r: usize)
        ensures
            r == self@.nodes.len(),
    {
        self.nodes.len()
    }

    /// Number of edges inserted so far, duplicates counted.
    pub fn len_node(&self) -> (r: usize)
        ensures
            r == self@.edges,
    {
        self.edges
    }

    /// Whether the graph has no nodes.
    pub fn is_empty(&self) -> (r: bool)
        ensures
            r == (self@.nodes.len() == 0),
    {
        self.nodes.is_empty()
    }

    /// The metric's denominator: how many nodes have at least one incoming
    /// edge.  The count is computed on demand and cached; the cache is
    /// dropped only when a node is created, so an edge that reaches an
    /// existing node without incoming edges can leave a stale cached count,
    /// which is served as-is.
    pub fn len_nodes_with_incoming_edges(&mut self) -> (r: usize)
        ensures
            r == effective_incoming(old(self)@),
            final(self)@ == (GraphView { cached_incoming: Some(r), ..old(self)@ }),
    {
        let ghost g0 = self@;
        match self.nodes_with_incoming {
            Some(x) => {
                proof {
                    assert(final(self)@ =~= (GraphView { cached_incoming: Some(x), ..g0 }));
                }
                x
            },
            None => {
                let n = self.nodes.len();
                let mut total: usize = 0;
                let mut i: usize = 0;
                while i < n
                    invariant
                        self@ == g0,
                        n == g0.nodes.len(),
                        i <= n,
                        total == count_with_incoming(g0.nodes, i as int),
                        total <= i,
                    decreases n - i,
                {
                    proof {
                        lemma_count_with_incoming_bound(g0.nodes, i as int);
                    }
                    if self.nodes[i].incoming_edges.len() > 0 {
                        total = total + 1;
                    }
                    i += 1;
                }
                self.nodes_with_incoming = Some(total);
                proof {
                    assert(final(self)@ =~= (GraphView { cached_incoming: Some(total), ..g0 }));
                }
                total
            },
        }
    }

    /// One synchronous sweep.  Every node's score is recomputed as one minus
    /// damping, plus damping times the fold of its incoming shares, all
    /// shares read from the scores before the sweep (Jacobi semantics).  The
    /// returned convergence metric is the square root of the summed squared
    /// score changes, divided by the count of nodes with incoming edges; it
    /// is never below zero.
    pub fn calculate_step(&mut self) -> (r: u64)
        requires
            wf(old(self)@),
        ensures
            final(self)@ == step_spec(old(self)@),
            wf(final(self)@),
            r == metric_spec(old(self)@),
            !lt_bits(r, 0u64),
    {
        let ghost g0 = self@;
        let n = self.nodes.len();
        let mut new_scores: Vec<u64> = Vec::new();
        let mut i: usize = 0;
        while i < n
            invariant
                wf(g0),
                self@ == g0,
                n == g0.nodes.len(),
                i <= n,
                new_scores@.len() == i,
                forall|j: int| 0 <= j < i ==> #[trigger] new_scores@[j] == new_score(g0, j),
            decreases n - i,
        {
            let deg = self.nodes[i].incoming_edges.len();
            let mut acc: u64 = 0;
            let mut k: usize = 0;
            while k < deg
                invariant
                    wf(g0),
                    self@ == g0,
                    n == g0.nodes.len(),
                    i < n,
                    deg == g0.nodes[i as int].incoming.len(),
                    k <= deg,
                    acc == share_sum(g0, g0.nodes[i as int].incoming, k as int),
                decreases deg - k,
            {
                let p = self.nodes[i].incoming_edges[k];
                proof {
                    assert(g0.nodes[i as int].incoming[k as int] == p);
                    assert(p < g0.nodes.len() && g0.nodes[p as int].outgoing >= 1);
                }
                let t = fp_div(self.nodes[p].score, fp_usize(self.nodes[p].outgoing_edges));
                proof {
                    assert(t == source_share(g0, p));
                }
                acc = fp_add(acc, t);
                k += 1;
            }
            let base = fp_sub(fp_usize(1), self.damping);
            let ns = fp_add(base, fp_mul(self.damping, acc));
            proof {
                assert(ns == new_score(g0, i as int));
            }
            new_scores.push(ns);
            i += 1;
        }
        let mut acc: u64 = 0;
        proof {
            lemma_zero_not_negative();
        }
        let mut i: usize = 0;
        while i < n
            invariant
                n == g0.nodes.len(),
                self@.nodes.len() == n,
                self@.damping == g0.damping,
                self@.edges == g0.edges,
                self@.cached_incoming == g0.cached_incoming,
                i <= n,
                new_scores@.len() == n,
                forall|j: int| 0 <= j < n ==> #[trigger] new_scores@[j] == new_score(g0, j),
                forall|j: int| 0 <= j < n ==> #[trigger] self@.nodes[j] == (if j < i {
                    NodeView { score: new_score(g0, j), ..g0.nodes[j] }
                } else {
                    g0.nodes[j]
                }),
                acc == diff_sq_sum(g0, i as int),
                not_negative(acc),
            decreases n - i,
        {
            let d = fp_sub(self.nodes[i].score, new_scores[i]);
            proof {
                assert(self@.nodes[i as int] == g0.nodes[i as int]);
                assert(d == sub_bits(g0.nodes[i as int].score, new_score(g0, i as int)));
            }
            let sq = fp_mul(d, d);
            proof {
                assert(sq == diff_term(g0, i as int));
            }
            acc = fp_add(acc, sq);
            let ghost before = self@;
            self.nodes[i].score = new_scores[i];
            proof {
                assert forall|j: int| 0 <= j < n implies #[trigger] self@.nodes[j] == (if j
                    < i + 1 {
                    NodeView { score: new_score(g0, j), ..g0.nodes[j] }
                } else {
                    g0.nodes[j]
                }) by {
                    if j == i {
                        assert(self@.nodes[j].score == new_score(g0, j));
                        assert(self@.nodes[j].id == before.nodes[j].id);
                        assert(self@.nodes[j].incoming == before.nodes[j].incoming);
                        assert(self@.nodes[j].outgoing == before.nodes[j].outgoing);
                        assert(self@.nodes[j] =~= (NodeView {
                            score: new_score(g0, j),
                            ..g0.nodes[j]
                        }));
                    } else {
                        assert(self@.nodes[j] =~= before.nodes[j]);
                    }
                }
            }
            i += 1;
        }
        let ghost gm = self@;
        let count = self.len_nodes_with_incoming_edges();
        proof {
            assert(forall|j: int| 0 <= j < n ==> #[trigger] gm.nodes[j].incoming.len()
                == g0.nodes[j].incoming.len());
            lemma_count_with_incoming_same(gm.nodes, g0.nodes, n as int);
            assert(count == effective_incoming(g0));
        }
        let r = fp_div(fp_sqrt(acc), fp_usize(count));
        proof {
            lemma_not_negative_not_below_zero(r);
            assert(r == metric_spec(g0));
            assert(final(self)@.nodes =~= step_spec(g0).nodes);
            assert(final(self)@ =~= step_spec(g0));
            lemma_step_wf(g0);
        }
        r
    }

    /// Run sweeps until the metric drops below `convergence` (given as
    /// binary64 bits), and return how many sweeps fell short of it before the
    /// first one that reached it — 0 when the very first sweep already did.
    /// A threshold the metric never reaches would loop forever; against that
    /// liveness hazard the loop gives up after `i32::MAX` sweeps and returns
    /// `i32::MAX`.
    pub fn calculate_with_convergence(&mut self, convergence: u64) -> (r: i32)
        requires
            wf(old(self)@),
        ensures
            0 <= r <= i32::MAX,
            forall|k: int| 0 <= k < r ==> !lt_bits(
                metric_spec(#[trigger] iterate_steps(old(self)@, k as nat)),
                convergence,
            ),
            r < i32::MAX ==> lt_bits(metric_spec(iterate_steps(old(self)@, r as nat)), convergence)
                && final(self)@ == iterate_steps(old(self)@, (r + 1) as nat),
            r == i32::MAX ==> final(self)@ == iterate_steps(old(self)@, r as nat),
            wf(final(self)@),
    {
        let ghost g0 = self@;
        let mut iterations: i32 = 0;
        loop
            invariant
                g0 == old(self)@,
                wf(self@),
                0 <= iterations < i32::MAX,
                self@ == iterate_steps(g0, iterations as nat),
                forall|k: int| 0 <= k < iterations ==> !lt_bits(
                    metric_spec(#[trigger] iterate_steps(g0, k as nat)),
                    convergence,
                ),
            decreases i32::MAX - 1 - iterations,
        {
            let m = self.calculate_step();
            proof {
                assert(self@ == iterate_steps(g0, (iterations + 1) as nat));
            }
            if score_lt(m, convergence) {
                return iterations;
            }
            iterations = iterations + 1;
            if iterations == i32::MAX {
                return iterations;
            }
        }
    }

    /// Run sweeps with the default convergence threshold of one hundredth.
    pub fn calculate(&mut self) -> (r: i32)
        requires
            wf(old(self)@),
        ensures
            0 <= r <= i32::MAX,
            forall|k: int| 0 <= k < r ==> !lt_bits(
                metric_spec(#[trigger] iterate_steps(old(self)@, k as nat)),
                default_threshold_bits(),
            ),
            r < i32::MAX ==> lt_bits(
                metric_spec(iterate_steps(old(self)@, r as nat)),
                default_threshold_bits(),
            ) && final(self)@ == iterate_steps(old(self)@, (r + 1) as nat),
            r == i32::MAX ==> final(self)@ == iterate_steps(old(self)@, r as nat),
            wf(final(self)@),
    {
        let threshold = fp_div(fp_usize(1), fp_usize(100));
        self.calculate_with_convergence(threshold)
    }

    /// The identifiers paired with their score bits, sorted by descending
    /// score; entries of equal score keep creation order (the sort is
    /// stable).  The graph is not read destructively and not changed: the
    /// result is a function of the graph state alone, so two calls without a
    /// sweep or an edge insertion between them return the same sequence.
    pub fn nodes(&self) -> (r: Vec<(String, u64)>)
        ensures
            pair_views(r@) == ranked_spec(self@),
    {
        let n = self.nodes.len();
        let mut out: Vec<(String, u64)> = Vec::new();
        let mut m: usize = 0;
        proof {
            assert(pairs_of(self@).subrange(0, 0) =~= Seq::<(Seq<char>, u64)>::empty());
            assert(pair_views(out@) =~= sort_ranked(pairs_of(self@).subrange(0, 0)));
        }
        while m < n
            invariant
                n == self@.nodes.len(),
                m <= n,
                pair_views(out@) == sort_ranked(pairs_of(self@).subrange(0, m as int)),
                out@.len() <= m,
            decreases n - m,
        {
            let x_id = self.nodes[m].node.clone();
            let x_score = self.nodes[m].score;
            let ghost prev = pair_views(out@);
            let olen = out.len();
            let mut k: usize = 0;
            while k < olen
                invariant_except_break
                    k <= olen,
                    olen == out@.len(),
                    forall|j: int| 0 <= j < k ==> !lt_bits(#[trigger] out@[j].1, x_score),
                ensures
                    k <= olen,
                    olen == out@.len(),
                    forall|j: int| 0 <= j < k ==> !lt_bits(#[trigger] out@[j].1, x_score),
                    k < olen ==> lt_bits(out@[k as int].1, x_score),
                decreases olen - k,
            {
                if score_lt(out[k].1, x_score) {
                    break;
                }
                k += 1;
            }
            out.insert(k, (x_id, x_score));
            proof {
                let x_pair = (self@.nodes[m as int].id, x_score);
                assert(forall|j: int| 0 <= j < k ==> !lt_bits(#[trigger] prev[j].1, x_score));
                if k < prev.len() {
                    assert(lt_bits(prev[k as int].1, x_score));
                }
                lemma_insert_ranked_split(prev, x_pair, k as int);
                assert(pair_views(out@) =~= prev.subrange(0, k as int) + seq![x_pair]
                    + prev.subrange(k as int, prev.len() as int));
                assert(pair_views(out@) == insert_ranked(prev, x_pair));
                let sub1 = pairs_of(self@).subrange(0, m + 1);
                assert(sub1.drop_last() =~= pairs_of(self@).subrange(0, m as int));
                assert(sub1.last() == x_pair);
                assert(pair_views(out@) == sort_ranked(sub1));
            }
            m += 1;
        }
        proof {
            assert(pairs_of(self@).subrange(0, n as int) =~= pairs_of(self@));
        }
        out
    }
}

impl Default for Pagerank {
    /// An empty graph, as `new` builds it.
    fn default() -> (r: Self)
        ensures
            r@ == empty_graph(),
            wf(r@),
    {
        Pagerank::new()
    }
}

} // verus!
