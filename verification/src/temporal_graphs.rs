//! The temporal graph: a fixed set of integer-indexed nodes, each with an
//! owner attribute, and directed multi-edges whose availability at a time
//! step is decided by a compiled predicate.

use vstd::prelude::*;

use crate::formulae::{
    formula_holds, free_var_choice, free_vars, pred_holds, quantifier_free, Formula, Predicate,
};
use crate::parser::NodeAttr;

verus! {

/// A node is an index in `[0, node_count)`.
pub type Node = usize;

/// Whether a formula can be compiled into a predicate: it is quantifier
/// free and has at most one free variable.
pub open spec fn compilable(f: Formula) -> bool {
    quantifier_free(f) && free_vars(f).len() <= 1
}

/// When an edge built from `f` is available: at the times its formula
/// holds if the formula compiles, never otherwise.
pub open spec fn formula_available_at(f: Formula, t: usize) -> bool {
    if compilable(f) {
        formula_holds(f, free_var_choice(f), t)
    } else {
        false
    }
}

/// A directed edge carrying the constraint it was built from and the
/// predicate that constraint compiled to.
#[derive(Debug)]
pub struct Edge {
    pub source: Node,
    pub target: Node,
    pub formula: Formula,
    pub available_at: Predicate,
}

impl Edge {
    /// When the edge is available.
    pub open spec fn spec_available(self, t: usize) -> bool {
        pred_holds(self.available_at, t)
    }

    /// Whether the edge's availability agrees with its formula at every
    /// time: an edge whose formula does not compile is never available.
    pub open spec fn obeys_formula(self) -> bool {
        forall|t: usize| self.spec_available(t) == formula_available_at(self.formula, t)
    }

    /// Builds an edge whose availability is given by `formula`; if the
    /// formula does not compile, the edge is never available.
    pub fn new(source: Node, target: Node, formula: Formula) -> (e: Edge)
        ensures
            e.source == source,
            e.target == target,
            e.formula == formula,
            e.obeys_formula(),
    {
        let available_at = match formula.as_closure() {
            Ok(p) => p,
            Err(_) => Predicate::False,
        };
        let e = Edge { source, target, formula, available_at };
        proof {
            assert forall|t: usize|
                e.spec_available(t) == formula_available_at(e.formula, t) by {}
        }
        e
    }

    /// Builds an always-available edge.
    pub fn new_simple(source: Node, target: Node) -> (e: Edge)
        ensures
            e.source == source,
            e.target == target,
            e.formula == Formula::True,
            e.obeys_formula(),
            forall|t: usize| e.spec_available(t),
    {
        let e = Self::new(source, target, Formula::True);
        proof {
            assert(free_vars(Formula::True) =~= Set::<Seq<char>>::empty());
            assert(Set::<Seq<char>>::empty().len() == 0);
            assert(compilable(Formula::True));
        }
        e
    }

    /// The index of the node the edge leaves.
    pub fn source(&self) -> (r: Node)
        ensures
            r == self.source,
    {
        self.source
    }

    /// The index of the node the edge enters.
    pub fn target(&self) -> (r: Node)
        ensures
            r == self.target,
    {
        self.target
    }

    /// Whether the edge is available at the given time.
    pub fn is_available(&self, time: usize) -> (r: bool)
        ensures
            r == self.spec_available(time),
    {
        self.available_at.eval(time)
    }
}

/// A temporal graph: a node count, outgoing edges grouped by source node
/// in input order, per-node attributes, and a map from string node ids to
/// indices.
#[derive(Debug)]
pub struct TemporalGraph {
    /// The number of nodes in the graph.
    pub node_count: usize,
    /// The outgoing edges of each node, grouped by source.
    pub edges: Vec<Vec<Edge>>,
    /// The attributes of each node.
    pub node_attrs: Vec<Vec<NodeAttr>>,
    /// The pairing of string node ids with node indices.
    pub node_id_map: Vec<(String, Node)>,
}

impl TemporalGraph {
    /// The structural invariant: one edge bucket and one attribute list
    /// per node, every edge filed under its source, every endpoint a
    /// valid index.
    pub open spec fn well_formed(self) -> bool {
        &&& self.edges@.len() == self.node_count
        &&& self.node_attrs@.len() == self.node_count
        &&& forall|n: int, k: int|
            0 <= n < self.edges@.len() && 0 <= k < self.edges@[n]@.len()
                ==> (#[trigger] self.edges@[n]@[k]).source == n
                    && self.edges@[n]@[k].target < self.node_count
    }

    /// Creates a new TemporalGraph from a node count, id map, per-node
    /// attributes and a list of edges.  Every edge endpoint must be a
    /// valid node index and every node must have its attribute list.
    pub fn new(
        node_count: Node,
        node_id_map: Vec<(String, Node)>,
        node_attrs: Vec<Vec<NodeAttr>>,
        edges: Vec<Edge>,
    ) -> (g: TemporalGraph)
        requires
            node_attrs@.len() == node_count,
            forall|k: int| 0 <= k < edges@.len()
                ==> (#[trigger] edges@[k]).source < node_count
                    && edges@[k].target < node_count,
        ensures
            g.node_count == node_count,
            g.node_id_map == node_id_map,
            g.node_attrs == node_attrs,
            g.edges@.len() == node_count,
            forall|n: int| 0 <= n < node_count
                ==> #[trigger] g.edges@[n]@
                    == edges@.filter(|e: Edge| e.source == n),
            g.well_formed(),
    {
        let ghost all = edges@;
        let mut buckets: Vec<Vec<Edge>> = Vec::new();
        let mut n: usize = 0;
        while n < node_count
            invariant
                n <= node_count,
                buckets@.len() == n,
                forall|m: int| 0 <= m < n ==> #[trigger] buckets@[m]@ =~= Seq::<Edge>::empty(),
            decreases node_count - n,
        {
            buckets.push(Vec::new());
            n += 1;
        }
        proof {
            reveal(Seq::filter);
            assert forall|m: int| 0 <= m < node_count implies
                #[trigger] buckets@[m]@ == all.take(0).filter(|e: Edge| e.source == m) by {
                assert(all.take(0) =~= Seq::<Edge>::empty());
            }
        }
        let mut rest = edges;
        while rest.len() > 0
            invariant
                rest@.len() <= all.len(),
                rest@ == all.skip(all.len() - rest@.len()),
                buckets@.len() == node_count,
                forall|m: int| 0 <= m < node_count
                    ==> #[trigger] buckets@[m]@
                        == all.take(all.len() - rest@.len()).filter(|e: Edge| e.source == m),
                forall|m: int, k: int|
                    0 <= m < buckets@.len() && 0 <= k < buckets@[m]@.len()
                        ==> (#[trigger] buckets@[m]@[k]).source == m
                            && buckets@[m]@[k].target < node_count,
                forall|k: int| 0 <= k < all.len()
                    ==> (#[trigger] all[k]).source < node_count
                        && all[k].target < node_count,
            decreases rest@.len(),
        {
            let ghost j = all.len() - rest@.len();
            let e = rest.remove(0);
            proof {
                assert(e == all[j]);
                assert(rest@ =~= all.skip(j + 1));
            }
            let src: usize = e.source;
            let bucket = &mut buckets[src];
            bucket.push(e);
            proof {
                reveal(Seq::filter);
                assert forall|m: int| 0 <= m < node_count implies
                    #[trigger] buckets@[m]@
                        == all.take(j + 1).filter(|e: Edge| e.source == m) by {
                    assert(all.take(j + 1).drop_last() =~= all.take(j));
                    assert(all.take(j + 1).last() == all[j]);
                }
            }
        }
        proof {
            assert(all.take(all.len() as int) =~= all);
        }
        TemporalGraph { node_count, edges: buckets, node_attrs, node_id_map }
    }

    /// The outgoing edges of `from`, or nothing for an index outside the
    /// graph.
    pub open spec fn bucket_of(self, from: Node) -> Seq<Edge> {
        if from < self.edges@.len() {
            self.edges@[from as int]@
        } else {
            Seq::empty()
        }
    }

    /// The outgoing edges of `from` available at time `t`, in input order.
    pub open spec fn avail_edges(self, from: Node, t: usize) -> Seq<Edge> {
        self.bucket_of(from).filter(|e: Edge| e.spec_available(t))
    }

    /// The targets of the outgoing edges of `from` available at time `t`.
    pub open spec fn successors_spec(self, from: Node, t: usize) -> Seq<Node> {
        self.avail_edges(from, t).map_values(|e: Edge| e.target)
    }

    /// Returns references to all edges of the graph, bucket after bucket.
    #[verifier::loop_isolation(false)]
    pub fn edges(&self) -> (r: Vec<&Edge>)
        ensures
            r@.map_values(|e: &Edge| *e) == all_edges_of(self.edges@),
    {
        let mut out: Vec<&Edge> = Vec::new();
        let mut n: usize = 0;
        let count: usize = self.edges.len();
        proof {
            assert(all_edges_of(self.edges@.take(0)) =~= Seq::<Edge>::empty());
            assert(out@.map_values(|e: &Edge| *e) =~= Seq::<Edge>::empty());
        }
        while n < count
            invariant
                n <= count,
                out@.map_values(|e: &Edge| *e) == all_edges_of(self.edges@.take(n as int)),
            decreases count - n,
        {
            let bucket = &self.edges[n];
            let mut k: usize = 0;
            let len: usize = bucket.len();
            while k < len
                invariant
                    k <= len,
                    out@.map_values(|e: &Edge| *e)
                        == all_edges_of(self.edges@.take(n as int)) + bucket@.take(k as int),
                decreases len - k,
            {
                let ghost pre = out@;
                out.push(&bucket[k]);
                proof {
                    assert(out@.map_values(|e: &Edge| *e)
                        =~= pre.map_values(|e: &Edge| *e).push(bucket@[k as int]));
                    assert(bucket@.take(k + 1) =~= bucket@.take(k as int).push(bucket@[k as int]));
                }
                k += 1;
            }
            proof {
                assert(bucket@.take(len as int) =~= bucket@);
                assert(self.edges@.take(n + 1).drop_last() =~= self.edges@.take(n as int));
                assert(self.edges@.take(n + 1).last() == self.edges@[n as int]);
            }
            n += 1;
        }
        proof {
            assert(self.edges@.take(count as int) =~= self.edges@);
        }
        out
    }

    /// Returns references to all edges starting from the given node.
    #[verifier::loop_isolation(false)]
    pub fn edges_from(&self, from: Node) -> (r: Vec<&Edge>)
        ensures
            r@.map_values(|e: &Edge| *e) == self.bucket_of(from),
    {
        let mut out: Vec<&Edge> = Vec::new();
        proof {
            assert(out@.map_values(|e: &Edge| *e) =~= Seq::<Edge>::empty());
        }
        if from < self.edges.len() {
            let bucket = &self.edges[from];
            let mut k: usize = 0;
            let len: usize = bucket.len();
            while k < len
                invariant
                    k <= len,
                    out@.map_values(|e: &Edge| *e) == bucket@.take(k as int),
                decreases len - k,
            {
                let ghost pre = out@;
                out.push(&bucket[k]);
                proof {
                    assert(out@.map_values(|e: &Edge| *e)
                        =~= pre.map_values(|e: &Edge| *e).push(bucket@[k as int]));
                    assert(bucket@.take(k + 1) =~= bucket@.take(k as int).push(bucket@[k as int]));
                }
                k += 1;
            }
            proof {
                assert(bucket@.take(len as int) =~= bucket@);
            }
        }
        out
    }

    /// Returns references to the outgoing edges of the given node that are
    /// available at the given time.
    #[verifier::loop_isolation(false)]
    pub fn edges_from_at(&self, from: Node, time: usize) -> (r: Vec<&Edge>)
        ensures
            r@.map_values(|e: &Edge| *e) == self.avail_edges(from, time),
    {
        let mut out: Vec<&Edge> = Vec::new();
        proof {
            reveal(Seq::filter);
            assert(out@.map_values(|e: &Edge| *e) =~= Seq::<Edge>::empty());
            assert(Seq::<Edge>::empty().filter(|e: Edge| e.spec_available(time))
                =~= Seq::<Edge>::empty());
        }
        if from < self.edges.len() {
            let bucket = &self.edges[from];
            let mut k: usize = 0;
            let len: usize = bucket.len();
            proof {
                assert(bucket@.take(0) =~= Seq::<Edge>::empty());
            }
            while k < len
                invariant
                    k <= len,
                    out@.map_values(|e: &Edge| *e)
                        == bucket@.take(k as int).filter(|e: Edge| e.spec_available(time)),
                decreases len - k,
            {
                let ghost pre = out@;
                if bucket[k].is_available(time) {
                    out.push(&bucket[k]);
                    proof {
                        assert(out@.map_values(|e: &Edge| *e)
                            =~= pre.map_values(|e: &Edge| *e).push(bucket@[k as int]));
                    }
                }
                proof {
                    reveal(Seq::filter);
                    assert(bucket@.take(k + 1).drop_last() =~= bucket@.take(k as int));
                    assert(bucket@.take(k + 1).last() == bucket@[k as int]);
                }
                k += 1;
            }
            proof {
                assert(bucket@.take(len as int) =~= bucket@);
            }
        }
        out
    }

    /// Returns all node indices of the graph, in order.
    #[verifier::loop_isolation(false)]
    pub fn nodes(&self) -> (r: Vec<Node>)
        ensures
            r@.len() == self.node_count,
            forall|i: int| 0 <= i < r@.len() ==> r@[i] == i,
    {
        let mut out: Vec<Node> = Vec::new();
        let mut n: usize = 0;
        while n < self.node_count
            invariant
                n <= self.node_count,
                out@.len() == n,
                forall|i: int| 0 <= i < n ==> out@[i] == i,
            decreases self.node_count - n,
        {
            out.push(n);
            n += 1;
        }
        out
    }

    /// Returns the targets of the outgoing edges of the given node that
    /// are available at the given time; a target appears once for each
    /// such edge that enters it.
    #[verifier::loop_isolation(false)]
    pub fn successors_at(&self, from: Node, time: usize) -> (r: Vec<Node>)
        ensures
            r@ == self.successors_spec(from, time),
    {
        let mut out: Vec<Node> = Vec::new();
        proof {
            reveal(Seq::filter);
            assert(Seq::<Edge>::empty().filter(|e: Edge| e.spec_available(time))
                =~= Seq::<Edge>::empty());
            assert(out@ =~= Seq::<Edge>::empty().map_values(|e: Edge| e.target));
        }
        if from < self.edges.len() {
            let bucket = &self.edges[from];
            let mut k: usize = 0;
            let len: usize = bucket.len();
            proof {
                assert(bucket@.take(0) =~= Seq::<Edge>::empty());
            }
            while k < len
                invariant
                    k <= len,
                    out@ == bucket@.take(k as int).filter(|e: Edge| e.spec_available(time))
                        .map_values(|e: Edge| e.target),
                decreases len - k,
            {
                let ghost pre = bucket@.take(k as int).filter(|e: Edge| e.spec_available(time));
                if bucket[k].is_available(time) {
                    out.push(bucket[k].target);
                    proof {
                        assert(pre.push(bucket@[k as int]).map_values(|e: Edge| e.target)
                            =~= pre.map_values(|e: Edge| e.target)
                                .push(bucket@[k as int].target));
                    }
                }
                proof {
                    reveal(Seq::filter);
                    assert(bucket@.take(k + 1).drop_last() =~= bucket@.take(k as int));
                    assert(bucket@.take(k + 1).last() == bucket@[k as int]);
                }
                k += 1;
            }
            proof {
                assert(bucket@.take(len as int) =~= bucket@);
            }
        }
        out
    }

    /// Returns one boolean per node: true for the nodes whose attributes
    /// give them to player one, false by default.
    #[verifier::loop_isolation(false)]
    pub fn node_ownership(&self) -> (r: Vec<bool>)
        requires
            self.node_attrs@.len() == self.node_count,
        ensures
            r@.len() == self.node_count,
            forall|n: int| 0 <= n < self.node_count
                ==> r@[n] == owner_of(#[trigger] self.node_attrs@[n]@),
    {
        let mut out: Vec<bool> = Vec::new();
        let mut n: usize = 0;
        while n < self.node_count
            invariant
                n <= self.node_count,
                out@.len() == n,
                forall|m: int| 0 <= m < n
                    ==> out@[m] == owner_of(#[trigger] self.node_attrs@[m]@),
            decreases self.node_count - n,
        {
            out.push(owner_from_attrs(&self.node_attrs[n]));
            n += 1;
        }
        out
    }

    /// Looks up the index a string id maps to, if any.
    pub fn lookup_id(&self, id: &String) -> (r: Option<Node>)
        ensures
            r == id_index_of(self.node_id_map@, id@),
    {
        lookup_index(&self.node_id_map, id)
    }

    /// Given string node ids, returns one boolean per node, true at every
    /// index that some id of the list maps to; ids the graph does not know
    /// select nothing.
    #[verifier::loop_isolation(false)]
    pub fn nodes_selected_from_ids(&self, ids: &Vec<String>) -> (r: Vec<bool>)
        ensures
            r@.len() == self.node_count,
            forall|n: int| 0 <= n < self.node_count
                ==> (r@[n] <==> exists|i: int| 0 <= i < ids@.len()
                    && id_index_of(self.node_id_map@, (#[trigger] ids@[i])@)
                        == Some(n as Node)),
    {
        let mut selected: Vec<bool> = Vec::new();
        let mut n: usize = 0;
        while n < self.node_count
            invariant
                n <= self.node_count,
                selected@.len() == n,
                forall|m: int| 0 <= m < n ==> !(#[trigger] selected@[m]),
            decreases self.node_count - n,
        {
            selected.push(false);
            n += 1;
        }
        let mut i: usize = 0;
        let count: usize = ids.len();
        while i < count
            invariant
                i <= count,
                selected@.len() == self.node_count,
                forall|m: int| 0 <= m < self.node_count
                    ==> ((#[trigger] selected@[m]) <==> exists|i2: int| 0 <= i2 < i
                        && id_index_of(self.node_id_map@, (#[trigger] ids@[i2])@)
                            == Some(m as Node)),
            decreases count - i,
        {
            let ghost pre = selected@;
            match self.lookup_id(&ids[i]) {
                Some(nn) => {
                    if nn < self.node_count {
                        selected[nn] = true;
                    }
                },
                None => {},
            }
            proof {
                assert forall|m: int| 0 <= m < self.node_count implies
                    ((#[trigger] selected@[m]) <==> exists|i2: int| 0 <= i2 < i + 1
                        && id_index_of(self.node_id_map@, (#[trigger] ids@[i2])@)
                            == Some(m as Node)) by {
                    if selected@[m] {
                        if pre[m] {
                            let w = choose|i2: int| 0 <= i2 < i
                                && id_index_of(self.node_id_map@, (#[trigger] ids@[i2])@)
                                    == Some(m as Node);
                            assert(0 <= w < i + 1
                                && id_index_of(self.node_id_map@, ids@[w]@)
                                    == Some(m as Node));
                        } else {
                            assert(id_index_of(self.node_id_map@, ids@[i as int]@)
                                == Some(m as Node));
                        }
                    }
                }
            }
            i += 1;
        }
        selected
    }

    /// Returns the string ids of the nodes marked true in `v`, in the
    /// order the graph's id map lists them.
    #[verifier::loop_isolation(false)]
    pub fn ids_from_nodes_vec(&self, v: &[bool]) -> (r: Vec<String>)
        ensures
            r@.map_values(|s: String| s@)
                == self.node_id_map@
                    .filter(|p: (String, Node)| p.1 < v@.len() && v@[p.1 as int])
                    .map_values(|p: (String, Node)| p.0@),
    {
        let mut out: Vec<String> = Vec::new();
        let mut i: usize = 0;
        let len: usize = self.node_id_map.len();
        proof {
            reveal(Seq::filter);
            assert(self.node_id_map@.take(0) =~= Seq::<(String, Node)>::empty());
            assert(out@.map_values(|s: String| s@) =~= Seq::<Seq<char>>::empty());
            assert(Seq::<(String, Node)>::empty()
                .filter(|p: (String, Node)| p.1 < v@.len() && v@[p.1 as int])
                =~= Seq::<(String, Node)>::empty());
        }
        while i < len
            invariant
                i <= len,
                out@.map_values(|s: String| s@)
                    == self.node_id_map@.take(i as int)
                        .filter(|p: (String, Node)| p.1 < v@.len() && v@[p.1 as int])
                        .map_values(|p: (String, Node)| p.0@),
            decreases len - i,
        {
            let ghost prefiltered = self.node_id_map@.take(i as int)
                .filter(|p: (String, Node)| p.1 < v@.len() && v@[p.1 as int]);
            let pair = &self.node_id_map[i];
            if pair.1 < v.len() && v[pair.1] {
                let ghost preout = out@;
                out.push(pair.0.clone());
                proof {
                    assert(out@.map_values(|s: String| s@)
                        =~= preout.map_values(|s: String| s@).push(pair.0@));
                    assert(prefiltered.push(self.node_id_map@[i as int])
                        .map_values(|p: (String, Node)| p.0@)
                        =~= prefiltered.map_values(|p: (String, Node)| p.0@).push(pair.0@));
                }
            }
            proof {
                reveal(Seq::filter);
                assert(self.node_id_map@.take(i + 1).drop_last()
                    =~= self.node_id_map@.take(i as int));
                assert(self.node_id_map@.take(i + 1).last() == self.node_id_map@[i as int]);
            }
            i += 1;
        }
        proof {
            assert(self.node_id_map@.take(len as int) =~= self.node_id_map@);
        }
        out
    }
}

/// All edges of a bucket list, bucket after bucket.
pub open spec fn all_edges_of(buckets: Seq<Vec<Edge>>) -> Seq<Edge>
    decreases buckets.len(),
{
    if buckets.len() == 0 {
        Seq::empty()
    } else {
        all_edges_of(buckets.drop_last()) + buckets.last()@
    }
}

/// The owner a list of node attributes assigns: the value of its last
/// `Owner` attribute, player two (false) when there is none.
pub open spec fn owner_of(attrs: Seq<NodeAttr>) -> bool
    decreases attrs.len(),
{
    if attrs.len() == 0 {
        false
    } else {
        match attrs.last() {
            NodeAttr::Owner(b) => b,
            _ => owner_of(attrs.drop_last()),
        }
    }
}

/// The index that the first pair of `pairs` naming `id` maps it to.
pub open spec fn id_index_of(pairs: Seq<(String, Node)>, id: Seq<char>) -> Option<Node>
    decreases pairs.len(),
{
    if pairs.len() == 0 {
        None
    } else if pairs[0].0@ == id {
        Some(pairs[0].1)
    } else {
        id_index_of(pairs.drop_first(), id)
    }
}

/// Looks a string id up among the first components of `pairs`, returning
/// the index paired with the first match.
#[verifier::loop_isolation(false)]
pub fn lookup_index(pairs: &Vec<(String, Node)>, id: &String) -> (r: Option<Node>)
    ensures
        r == id_index_of(pairs@, id@),
{
    let mut i: usize = 0;
    let len: usize = pairs.len();
    proof {
        assert(pairs@.skip(0) =~= pairs@);
    }
    while i < len
        invariant
            i <= len,
            id_index_of(pairs@, id@) == id_index_of(pairs@.skip(i as int), id@),
        decreases len - i,
    {
        let pair = &pairs[i];
        proof {
            assert(pairs@.skip(i as int)[0] == pairs@[i as int]);
            assert(pairs@.skip(i as int).drop_first() =~= pairs@.skip(i + 1));
        }
        if pair.0 == *id {
            return Some(pair.1);
        }
        i += 1;
    }
    None
}

/// The owner given by a node's attribute list: its last `Owner` entry,
/// player two (false) when there is none.
#[verifier::loop_isolation(false)]
fn owner_from_attrs(attrs: &Vec<NodeAttr>) -> (r: bool)
    ensures
        r == owner_of(attrs@),
{
    let mut k: usize = attrs.len();
    proof {
        assert(attrs@.take(k as int) =~= attrs@);
    }
    while k > 0
        invariant
            k <= attrs@.len(),
            owner_of(attrs@) == owner_of(attrs@.take(k as int)),
        decreases k,
    {
        k -= 1;
        proof {
            assert(attrs@.take(k + 1).drop_last() =~= attrs@.take(k as int));
            assert(attrs@.take(k + 1).last() == attrs@[k as int]);
        }
        match &attrs[k] {
            NodeAttr::Owner(b) => {
                return *b;
            },
            _ => {},
        }
    }
    false
}

} // verus!
