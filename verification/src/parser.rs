//! The line-level graph description model: node and edge lines as an
//! external text parser hands them over, and their assembly into a
//! temporal graph.

use vstd::prelude::*;

use crate::formulae::Formula;
use crate::temporal_graphs::{id_index_of, Edge, Node, TemporalGraph};

verus! {

/// An attribute attached to a node line of a graph description.
#[derive(Debug)]
pub enum NodeAttr {
    Label(String),
    Owner(bool),
}

/// One line of a graph description: a node with its attributes, an edge
/// with an optional availability constraint, or nothing.
#[derive(Debug)]
pub enum ParsedLine {
    Node(String, Vec<NodeAttr>),
    Edge(String, String, Option<Formula>),
    Empty,
}

/// `ids` with `id` appended unless already present.
pub open spec fn distinct_push(ids: Seq<Seq<char>>, id: Seq<char>) -> Seq<Seq<char>> {
    if ids.contains(id) {
        ids
    } else {
        ids.push(id)
    }
}

/// The distinct ids of the node lines, in order of first occurrence.
pub open spec fn node_ids(lines: Seq<ParsedLine>) -> Seq<Seq<char>>
    decreases lines.len(),
{
    if lines.len() == 0 {
        Seq::empty()
    } else {
        let prev = node_ids(lines.drop_last());
        match lines.last() {
            ParsedLine::Node(id, _) => distinct_push(prev, id@),
            _ => prev,
        }
    }
}

/// The attributes that the last node line naming `id` carries; empty when
/// no node line names it.
pub open spec fn attrs_for(lines: Seq<ParsedLine>, id: Seq<char>) -> Seq<NodeAttr>
    decreases lines.len(),
{
    if lines.len() == 0 {
        Seq::empty()
    } else {
        match lines.last() {
            ParsedLine::Node(lid, attrs) => if lid@ == id {
                attrs@
            } else {
                attrs_for(lines.drop_last(), id)
            },
            _ => attrs_for(lines.drop_last(), id),
        }
    }
}

/// The constraint of an edge line: its formula, `True` when it has none.
pub open spec fn constraint_of(of: Option<Formula>) -> Formula {
    match of {
        Some(f) => f,
        None => Formula::True,
    }
}

/// The edge lines, in order, as (source id, target id, constraint).
pub open spec fn edge_entries(lines: Seq<ParsedLine>) -> Seq<(Seq<char>, Seq<char>, Formula)>
    decreases lines.len(),
{
    if lines.len() == 0 {
        Seq::empty()
    } else {
        let prev = edge_entries(lines.drop_last());
        match lines.last() {
            ParsedLine::Edge(f, t, of) => prev.push((f@, t@, constraint_of(of))),
            _ => prev,
        }
    }
}

/// The position of the first occurrence of `id` in `ids`.
pub open spec fn pos_of(ids: Seq<Seq<char>>, id: Seq<char>) -> int
    decreases ids.len(),
{
    if ids.len() == 0 {
        0
    } else if ids[0] == id {
        0
    } else {
        1 + pos_of(ids.drop_first(), id)
    }
}

/// Whether the edges `es` realise the edge lines `entries` under the node
/// indexing `ids`: one edge per entry, in order, endpoints resolved
/// through `ids`, each edge available exactly when its constraint holds.
pub open spec fn edges_match_entries(
    es: Seq<Edge>,
    entries: Seq<(Seq<char>, Seq<char>, Formula)>,
    ids: Seq<Seq<char>>,
) -> bool {
    &&& es.len() == entries.len()
    &&& forall|k: int| 0 <= k < es.len() ==> {
        &&& (#[trigger] es[k]).source == pos_of(ids, entries[k].0)
        &&& es[k].target == pos_of(ids, entries[k].1)
        &&& es[k].formula == entries[k].2
        &&& es[k].obeys_formula()
    }
}

/// The position of a contained id is an index holding that id.
pub proof fn lemma_pos_of_contained(ids: Seq<Seq<char>>, id: Seq<char>)
    requires
        ids.contains(id),
    ensures
        0 <= pos_of(ids, id) < ids.len(),
        ids[pos_of(ids, id)] == id,
    decreases ids.len(),
{
    if ids.len() > 0 && ids[0] != id {
        assert(ids.drop_first().contains(id)) by {
            let j = choose|j: int| 0 <= j < ids.len() && ids[j] == id;
            assert(ids.drop_first()[j - 1] == id);
        }
        lemma_pos_of_contained(ids.drop_first(), id);
    }
}

/// In a duplicate-free id list the position of an id is the only index
/// holding it.
pub proof fn lemma_pos_of_unique(ids: Seq<Seq<char>>, i: int)
    requires
        ids.no_duplicates(),
        0 <= i < ids.len(),
    ensures
        pos_of(ids, ids[i]) == i,
    decreases ids.len(),
{
    if i > 0 {
        assert(ids[0] != ids[i]);
        lemma_pos_of_unique(ids.drop_first(), i - 1);
        assert(ids.drop_first()[i - 1] == ids[i]);
        assert(forall|j: int|
            0 <= j < ids.drop_first().len() ==> #[trigger] ids.drop_first()[j] == ids[j + 1]);
    }
}

/// The node id list of any line sequence has no duplicates.
pub proof fn lemma_node_ids_no_duplicates(lines: Seq<ParsedLine>)
    ensures
        node_ids(lines).no_duplicates(),
    decreases lines.len(),
{
    if lines.len() > 0 {
        lemma_node_ids_no_duplicates(lines.drop_last());
    }
}

/// A pair list aligned with a duplicate-free id list looks ids up by
/// their position.
pub proof fn lemma_id_index_aligned(
    pairs: Seq<(String, Node)>,
    ids: Seq<Seq<char>>,
    id: Seq<char>,
)
    requires
        ids.no_duplicates(),
        pairs.len() == ids.len(),
        forall|i: int| 0 <= i < pairs.len()
            ==> (#[trigger] pairs[i]).0@ == ids[i] && pairs[i].1 == i,
    ensures
        ids.contains(id) ==> id_index_of(pairs, id) == Some(pos_of(ids, id) as Node),
        !ids.contains(id) ==> id_index_of(pairs, id) is None,
    decreases pairs.len(),
{
    lemma_id_index_shift(pairs, ids, id);
    if ids.contains(id) {
        lemma_pos_of_contained(ids, id);
    }
}

/// As `lemma_id_index_aligned`, for a pair list whose indices start at
/// any offset: looking up a contained id gives the pair at its position.
proof fn lemma_id_index_shift(pairs: Seq<(String, Node)>, ids: Seq<Seq<char>>, id: Seq<char>)
    requires
        ids.no_duplicates(),
        pairs.len() == ids.len(),
        forall|i: int| 0 <= i < pairs.len() ==> (#[trigger] pairs[i]).0@ == ids[i],
    ensures
        ids.contains(id) ==> id_index_of(pairs, id)
            == Some(pairs[pos_of(ids, id)].1),
        !ids.contains(id) ==> id_index_of(pairs, id) is None,
    decreases pairs.len(),
{
    if pairs.len() > 0 {
        if pairs[0].0@ == id {
            assert(ids.contains(id)) by {
                assert(ids[0] == id);
            }
            assert(pos_of(ids, id) == 0);
        } else {
            let spairs = pairs.drop_first();
            let sids = ids.drop_first();
            assert(forall|i: int|
                0 <= i < spairs.len() ==> (#[trigger] spairs[i]).0@ == sids[i]);
            lemma_id_index_shift(spairs, sids, id);
            if ids.contains(id) {
                assert(sids.contains(id)) by {
                    let j = choose|j: int| 0 <= j < ids.len() && ids[j] == id;
                    assert(sids[j - 1] == id);
                }
                lemma_pos_of_contained(sids, id);
                assert(pos_of(ids, id) == 1 + pos_of(sids, id));
                assert(spairs[pos_of(sids, id)] == pairs[pos_of(ids, id)]);
            } else {
                assert(!sids.contains(id)) by {
                    if sids.contains(id) {
                        let j = choose|j: int| 0 <= j < sids.len() && sids[j] == id;
                        assert(ids[j + 1] == id);
                    }
                }
            }
        }
    }
}

/// Builds a temporal graph from parsed description lines.  Nodes are
/// indexed in order of first occurrence among the node lines; the last
/// node line naming an id carries its attributes; every edge line becomes
/// one edge, its missing constraint read as `True`.  Every edge endpoint
/// must be named by some node line.
#[verifier::loop_isolation(false)]
pub fn temporal_graph_from_lines(lines: Vec<ParsedLine>) -> (g: TemporalGraph)
    requires
        forall|i: int| 0 <= i < lines@.len()
            ==> ((#[trigger] lines@[i]) matches ParsedLine::Edge(f, t, _)
                ==> node_ids(lines@).contains(f@) && node_ids(lines@).contains(t@)),
    ensures
        g.well_formed(),
        g.node_count == node_ids(lines@).len(),
        g.node_id_map@.len() == node_ids(lines@).len(),
        forall|i: int| 0 <= i < g.node_id_map@.len()
            ==> (#[trigger] g.node_id_map@[i]).0@ == node_ids(lines@)[i]
                && g.node_id_map@[i].1 == i,
        forall|n: int| 0 <= n < g.node_count
            ==> #[trigger] g.node_attrs@[n]@ == attrs_for(lines@, node_ids(lines@)[n]),
        exists|es: Seq<Edge>|
            edges_match_entries(es, edge_entries(lines@), node_ids(lines@))
                && (forall|n: int| 0 <= n < g.node_count
                    ==> #[trigger] g.edges@[n]@ == es.filter(|e: Edge| e.source == n)),
{
    let ghost lines0 = lines@;
    let mut rest = lines;
    let mut id_map: Vec<(String, Node)> = Vec::new();
    let mut node_attrs: Vec<Vec<NodeAttr>> = Vec::new();
    let mut edge_rows: Vec<(String, String, Option<Formula>)> = Vec::new();

    proof {
        assert(lines0.take(0) =~= Seq::<ParsedLine>::empty());
    }
    while rest.len() > 0
        invariant
            rest@.len() <= lines0.len(),
            rest@ == lines0.skip(lines0.len() - rest@.len()),
            id_map@.len() == node_ids(lines0.take(lines0.len() - rest@.len())).len(),
            forall|i: int| 0 <= i < id_map@.len()
                ==> (#[trigger] id_map@[i]).0@
                        == node_ids(lines0.take(lines0.len() - rest@.len()))[i]
                    && id_map@[i].1 == i,
            node_attrs@.len() == id_map@.len(),
            forall|n: int| 0 <= n < node_attrs@.len()
                ==> #[trigger] node_attrs@[n]@ == attrs_for(
                    lines0.take(lines0.len() - rest@.len()),
                    node_ids(lines0.take(lines0.len() - rest@.len()))[n],
                ),
            edge_rows@.len() == edge_entries(lines0.take(lines0.len() - rest@.len())).len(),
            forall|k: int| 0 <= k < edge_rows@.len() ==> {
                let en = edge_entries(lines0.take(lines0.len() - rest@.len()))[k];
                (#[trigger] edge_rows@[k]).0@ == en.0
                    && edge_rows@[k].1@ == en.1
                    && constraint_of(edge_rows@[k].2) == en.2
                    && node_ids(lines0).contains(en.0)
                    && node_ids(lines0).contains(en.1)
            },
        decreases rest@.len(),
    {
        let ghost j = lines0.len() - rest@.len();
        let ghost prev = lines0.take(j);
        let ghost previds = node_ids(prev);
        let line = rest.remove(0);
        proof {
            assert(line == lines0[j]);
            assert(rest@ =~= lines0.skip(j + 1));
            assert(lines0.take(j + 1).drop_last() =~= prev);
            assert(lines0.take(j + 1).last() == lines0[j]);
            lemma_node_ids_no_duplicates(prev);
        }
        match line {
            ParsedLine::Node(id, attrs) => {
                let ghost idv = id@;
                let ghost av = attrs@;
                let found = crate::temporal_graphs::lookup_index(&id_map, &id);
                proof {
                    lemma_id_index_aligned(id_map@, previds, idv);
                }
                match found {
                    Some(idx) => {
                        proof {
                            assert(previds.contains(idv));
                            lemma_pos_of_contained(previds, idv);
                            assert(0 <= pos_of(previds, idv) < previds.len());
                            vstd::std_specs::vec::axiom_spec_len(&id_map);
                            assert(previds.len() <= usize::MAX);
                            assert(idx == pos_of(previds, idv));
                            assert(node_ids(lines0.take(j + 1)) == previds);
                        }
                        let ghost attrs_pre = node_attrs@;
                        node_attrs[idx] = attrs;
                        proof {
                            assert forall|n: int| 0 <= n < node_attrs@.len() implies
                                #[trigger] node_attrs@[n]@ == attrs_for(
                                    lines0.take(j + 1), previds[n]) by {
                                if n == idx {
                                    assert(previds[n] == idv);
                                    assert(attrs_for(lines0.take(j + 1), previds[n]) == av);
                                } else {
                                    lemma_pos_of_unique(previds, n);
                                    assert(previds[n] != idv);
                                    assert(attrs_for(lines0.take(j + 1), previds[n])
                                        == attrs_for(prev, previds[n]));
                                }
                            }
                        }
                    },
                    None => {
                        proof {
                            assert(!previds.contains(idv));
                            assert(node_ids(lines0.take(j + 1)) == previds.push(idv));
                        }
                        let idx: usize = id_map.len();
                        id_map.push((id, idx));
                        node_attrs.push(attrs);
                        proof {
                            let newids = previds.push(idv);
                            assert forall|n: int| 0 <= n < node_attrs@.len() implies
                                #[trigger] node_attrs@[n]@ == attrs_for(
                                    lines0.take(j + 1), newids[n]) by {
                                if n < idx {
                                    assert(newids[n] == previds[n]);
                                    assert(previds.contains(previds[n]));
                                    assert(previds[n] != idv);
                                    assert(attrs_for(lines0.take(j + 1), previds[n])
                                        == attrs_for(prev, previds[n]));
                                } else {
                                    assert(newids[n] == idv);
                                    assert(attrs_for(lines0.take(j + 1), idv) == av);
                                }
                            }
                        }
                    },
                }
            },
            ParsedLine::Edge(f, t, of) => {
                proof {
                    assert(node_ids(lines0.take(j + 1)) == previds);
                    assert(edge_entries(lines0.take(j + 1))
                        == edge_entries(prev).push((f@, t@, constraint_of(of))));
                    assert(lines0[j] matches ParsedLine::Edge(ff, tt, _)
                        ==> node_ids(lines0).contains(ff@) && node_ids(lines0).contains(tt@));
                }
                edge_rows.push((f, t, of));
            },
            ParsedLine::Empty => {
                proof {
                    assert(node_ids(lines0.take(j + 1)) == previds);
                }
            },
        }
    }
    proof {
        assert(lines0.take(lines0.len() as int) =~= lines0);
    }
    let ghost ids = node_ids(lines0);
    let ghost entries = edge_entries(lines0);
    let node_count: usize = id_map.len();

    let mut edges: Vec<Edge> = Vec::new();
    let ghost rows0 = edge_rows@;
    while edge_rows.len() > 0
        invariant
            edge_rows@.len() <= rows0.len(),
            edge_rows@ == rows0.skip(rows0.len() - edge_rows@.len()),
            edges@.len() == rows0.len() - edge_rows@.len(),
            forall|k: int| 0 <= k < edges@.len() ==> {
                &&& (#[trigger] edges@[k]).source == pos_of(ids, entries[k].0)
                &&& edges@[k].source < node_count
                &&& edges@[k].target == pos_of(ids, entries[k].1)
                &&& edges@[k].target < node_count
                &&& edges@[k].formula == entries[k].2
                &&& edges@[k].obeys_formula()
            },
        decreases edge_rows@.len(),
    {
        let ghost k = rows0.len() - edge_rows@.len();
        let row = edge_rows.remove(0);
        proof {
            assert(row == rows0[k]);
            assert(edge_rows@ =~= rows0.skip(k + 1));
            lemma_node_ids_no_duplicates(lines0);
            lemma_id_index_aligned(id_map@, ids, rows0[k].0@);
            lemma_id_index_aligned(id_map@, ids, rows0[k].1@);
            lemma_pos_of_contained(ids, rows0[k].0@);
            lemma_pos_of_contained(ids, rows0[k].1@);
        }
        let (from_id, to_id, of) = row;
        let from = crate::temporal_graphs::lookup_index(&id_map, &from_id).unwrap();
        let to = crate::temporal_graphs::lookup_index(&id_map, &to_id).unwrap();
        let formula = match of {
            Some(fm) => fm,
            None => Formula::True,
        };
        let e = Edge::new(from, to, formula);
        edges.push(e);
    }
    proof {
        assert(rows0.skip(rows0.len() as int) =~= Seq::<(String, String, Option<Formula>)>::empty());
    }
    let ghost es = edges@;
    let g = TemporalGraph::new(node_count, id_map, node_attrs, edges);
    proof {
        assert(edges_match_entries(es, entries, ids));
        assert(forall|n: int| 0 <= n < g.node_count
            ==> #[trigger] g.edges@[n]@ == es.filter(|e: Edge| e.source == n));
    }
    g
}

} // verus!
