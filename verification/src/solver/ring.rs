//! The ring engine: builds the directed require-graph over entity names,
//! enumerates its simple cycles, and reports the rules riding on cycles of
//! length at least two. A multi-require is reported only once every one of
//! its target branches has been seen inside cycles; reports whose target is
//! not itself a conflicting source are pruned.

use vstd::prelude::*;

use crate::model::rule::{cmp_rule, dv_rules, EntityRule, RuleView};
use crate::order::eq_str;
use crate::solver::map::{dv_strings, EntityMap, EntityMapView};
use crate::solver::solver::{dv_conflicts, ConflictEntry, SolverOutput};

verus! {

/// What `simple_cycles` returns on a given graph. The enumeration is a
/// deterministic function of the node count and the edge list.
pub uninterp spec fn cycles_of(n: int, edges: Seq<(usize, usize)>) -> Seq<Seq<usize>>;

/// A simple directed cycle of the edge set: non-empty, nodes in bounds and
/// distinct, consecutive nodes and the wrap-around connected by edges.
pub open spec fn is_graph_cycle(n: int, edges: Seq<(usize, usize)>, c: Seq<usize>) -> bool {
    &&& c.len() >= 1
    &&& forall|i: int| 0 <= i < c.len() ==> (#[trigger] c[i]) < n
    &&& forall|i: int, j: int| 0 <= i < j < c.len() ==> c[i] != c[j]
    &&& forall|i: int|
        #![trigger c[i]]
        0 <= i < c.len() - 1 ==> edges.contains((c[i], c[i + 1]))
    &&& edges.contains((c[c.len() - 1], c[0]))
}

/// Relies on `graph_cycles::Cycles::cycles` (Johnson's algorithm over a
/// petgraph graph built from the edge list): it enumerates the simple
/// directed cycles of the graph, each as the list of its nodes in path
/// order, deterministically in the graph alone.
#[verifier::external_body]
fn simple_cycles(n: usize, edges: &Vec<(usize, usize)>) -> (r: Vec<Vec<usize>>)
    requires
        n < 0xffff_ffff,
        edges@.len() < 0xffff_ffff,
        forall|i: int|
            0 <= i < edges@.len() ==> (#[trigger] edges@[i]).0 < n && edges@[i].1 < n,
    ensures
        r.deep_view() == cycles_of(n as int, edges.deep_view()),
        forall|i: int|
            0 <= i < r.deep_view().len() ==> is_graph_cycle(
                n as int,
                edges.deep_view(),
                #[trigger] r.deep_view()[i],
            ),
{
    let mut g = petgraph::Graph::<(), ()>::new();
    for _ in 0..n {
        g.add_node(());
    }
    for (a, b) in edges.iter() {
        g.add_edge(petgraph::graph::NodeIndex::new(*a), petgraph::graph::NodeIndex::new(*b), ());
    }
    graph_cycles::Cycles::cycles(&g).into_iter().map(
        |c| c.into_iter().map(|x| x.index()).collect(),
    ).collect()
}

// ------------------------------------------------------------------
// The require graph
// ------------------------------------------------------------------
/// One require edge: node indices, the owning entity's name, and the rule
/// that induced the edge.
pub struct RingEdge {
    pub from: usize,
    pub to: usize,
    pub ename: String,
    pub rule: EntityRule,
}

#[verifier::ext_equal]
pub struct EdgeView {
    pub from: usize,
    pub to: usize,
    pub ename: Seq<char>,
    pub rule: RuleView,
}

impl View for RingEdge {
    type V = EdgeView;

    open spec fn view(&self) -> EdgeView {
        EdgeView { from: self.from, to: self.to, ename: self.ename@, rule: self.rule@ }
    }
}

/// The views of an edge vector.
pub open spec fn edges_view(s: Seq<RingEdge>) -> Seq<EdgeView> {
    Seq::new(s.len(), |k: int| s[k]@)
}

/// The graph: node names by index, and the labeled edges.
#[verifier::ext_equal]
pub struct GraphView {
    pub nodes: Seq<Seq<char>>,
    pub edges: Seq<EdgeView>,
}

/// The bare edge pairs handed to the cycle enumeration.
pub open spec fn plain_of(es: Seq<EdgeView>) -> Seq<(usize, usize)> {
    Seq::new(es.len(), |k: int| (es[k].from, es[k].to))
}

/// Adds a node name unless present.
pub open spec fn gv_add_node(ns: Seq<Seq<char>>, n: Seq<char>) -> Seq<Seq<char>> {
    if ns.contains(n) {
        ns
    } else {
        ns.push(n)
    }
}

/// The first index of a name in the node table.
pub open spec fn name_index(ns: Seq<Seq<char>>, n: Seq<char>) -> int
    decreases ns.len(),
{
    if ns.len() == 0 {
        0
    } else if ns[0] == n {
        0
    } else {
        1 + name_index(ns.drop_first(), n)
    }
}

/// Adds one edge per target, creating target nodes on first sight.
pub open spec fn gv_add_targets(
    g: GraphView,
    from: usize,
    ename: Seq<char>,
    rule: RuleView,
    ts: Seq<Seq<char>>,
) -> GraphView
    decreases ts.len(),
{
    if ts.len() == 0 {
        g
    } else {
        let ns2 = gv_add_node(g.nodes, ts[0]);
        let ti = name_index(ns2, ts[0]) as usize;
        gv_add_targets(
            GraphView {
                nodes: ns2,
                edges: g.edges.push(EdgeView { from, to: ti, ename, rule }),
            },
            from,
            ename,
            rule,
            ts.drop_first(),
        )
    }
}

/// Adds the edges of a list of require rules.
pub open spec fn gv_add_rules(
    g: GraphView,
    from: usize,
    ename: Seq<char>,
    rules: Seq<RuleView>,
) -> GraphView
    decreases rules.len(),
{
    if rules.len() == 0 {
        g
    } else {
        gv_add_rules(
            gv_add_targets(g, from, ename, rules[0], rules[0].targets),
            from,
            ename,
            rules.drop_first(),
        )
    }
}

/// Adds one entity: its name node, then one edge per require-rule target.
pub open spec fn gv_add_entity(g: GraphView, e: crate::model::entity::EntityView) -> GraphView {
    let ns2 = gv_add_node(g.nodes, e.name);
    let from = name_index(ns2, e.name) as usize;
    gv_add_rules(GraphView { nodes: ns2, edges: g.edges }, from, e.name, e.requires)
}

pub open spec fn gv_add_entities(
    g: GraphView,
    es: Seq<crate::model::entity::EntityView>,
) -> GraphView
    decreases es.len(),
{
    if es.len() == 0 {
        g
    } else {
        gv_add_entities(gv_add_entity(g, es[0]), es.drop_first())
    }
}

pub open spec fn empty_graph() -> GraphView {
    GraphView { nodes: Seq::empty(), edges: Seq::empty() }
}

/// The require graph of the map: one node per mentioned name, one edge per
/// (require rule, target) of every entity, in entity order.
pub open spec fn spec_graph(m: EntityMapView) -> GraphView {
    gv_add_entities(empty_graph(), m.entities)
}

/// The edge stems from a require rule of the entity named by it.
pub open spec fn edge_of_map(m: EntityMapView, ename: Seq<char>, r: RuleView) -> bool {
    exists|i: int, j: int|
        #![trigger m.entities[i].requires[j]]
        0 <= i < m.entities.len() && 0 <= j < m.entities[i].requires.len()
            && m.entities[i].name == ename && m.entities[i].requires[j] == r
}

/// Structural facts of the built graph: node names are distinct; every edge
/// is in bounds, runs from its entity's node to one of its rule's targets,
/// and stems from a require rule of the named entity.
pub open spec fn graph_wf(g: GraphView, m: EntityMapView) -> bool {
    &&& forall|a: int, b: int| 0 <= a < b < g.nodes.len() ==> g.nodes[a] != g.nodes[b]
    &&& forall|k: int|
        0 <= k < g.edges.len() ==> (#[trigger] g.edges[k]).from < g.nodes.len()
            && g.edges[k].to < g.nodes.len()
    &&& forall|k: int|
        0 <= k < g.edges.len() ==> g.nodes[(#[trigger] g.edges[k]).from as int] == g.edges[k].ename
    &&& forall|k: int|
        0 <= k < g.edges.len() ==> (#[trigger] g.edges[k]).rule.has_target(
            g.nodes[g.edges[k].to as int],
        )
    &&& forall|k: int|
        0 <= k < g.edges.len() ==> edge_of_map(m, (#[trigger] g.edges[k]).ename, g.edges[k].rule)
}

proof fn lemma_name_index_first(ns: Seq<Seq<char>>, n: Seq<char>, i: int)
    requires
        0 <= i < ns.len(),
        ns[i] == n,
        forall|j: int| 0 <= j < i ==> ns[j] != n,
    ensures
        name_index(ns, n) == i,
    decreases i,
{
    if i == 0 {
    } else {
        assert(ns[0] != n);
        assert(ns.drop_first()[i - 1] == n);
        assert(forall|j: int| 0 <= j < i - 1 ==> #[trigger] ns.drop_first()[j] == ns[j + 1]);
        lemma_name_index_first(ns.drop_first(), n, i - 1);
    }
}

/// A map without require rules has no edges.
pub proof fn lemma_spec_graph_no_requires(m: EntityMapView)
    requires
        forall|i: int| 0 <= i < m.entities.len() ==> (#[trigger] m.entities[i]).requires.len() == 0,
    ensures
        spec_graph(m).edges.len() == 0,
{
    lemma_gv_add_entities_empty(empty_graph(), m.entities, m);
}

proof fn lemma_gv_add_entities_empty(
    g: GraphView,
    es: Seq<crate::model::entity::EntityView>,
    m: EntityMapView,
)
    requires
        forall|i: int| 0 <= i < es.len() ==> (#[trigger] es[i]).requires.len() == 0,
    ensures
        gv_add_entities(g, es).edges == g.edges,
    decreases es.len(),
{
    if es.len() > 0 {
        assert(gv_add_entity(g, es[0]).edges == g.edges);
        assert(forall|i: int|
            0 <= i < es.drop_first().len() ==> (#[trigger] es.drop_first()[i]).requires.len()
                == 0) by {
            assert(forall|i: int|
                0 <= i < es.drop_first().len() ==> es.drop_first()[i] == #[trigger] es[i + 1]);
        }
        lemma_gv_add_entities_empty(gv_add_entity(g, es[0]), es.drop_first(), m);
    }
}

// ------------------------------------------------------------------
// The contract
// ------------------------------------------------------------------
/// The rule, asserted by the entity named `k`, rides an edge between two
/// distinct nodes of an enumerated simple cycle of length at least two of
/// the require graph.
pub open spec fn reported_on_cycle(g: GraphView, cys: Seq<Seq<usize>>, k: Seq<char>, r: RuleView)
    -> bool {
    exists|ei: int, ci: int|
        #![trigger g.edges[ei], cys[ci]]
        0 <= ei < g.edges.len() && 0 <= ci < cys.len() && g.edges[ei].ename == k
            && g.edges[ei].rule == r && r.source == k && g.edges[ei].from != g.edges[ei].to
            && cys[ci].len() >= 2 && cys[ci].contains(g.edges[ei].from) && cys[ci].contains(
            g.edges[ei].to,
        )
}

/// A mono require edge between two distinct nodes of an enumerated cycle of
/// length at least two, whose rule the owning entity asserts in its own
/// name.
pub open spec fn mono_span(g: GraphView, cys: Seq<Seq<usize>>, ei: int, ci: int) -> bool {
    &&& 0 <= ei < g.edges.len()
    &&& 0 <= ci < cys.len()
    &&& !g.edges[ei].rule.multi
    &&& g.edges[ei].rule.source == g.edges[ei].ename
    &&& g.edges[ei].from != g.edges[ei].to
    &&& cys[ci].len() >= 2
    &&& cys[ci].contains(g.edges[ei].from)
    &&& cys[ci].contains(g.edges[ei].to)
}

/// Two reportable mono cycle edges pointing at each other's entity.
pub open spec fn mutual_mono_pair(g: GraphView, cys: Seq<Seq<usize>>) -> bool {
    exists|ei: int, ci: int, ej: int, cj: int|
        #![trigger mono_span(g, cys, ei, ci), mono_span(g, cys, ej, cj)]
        mono_span(g, cys, ei, ci) && mono_span(g, cys, ej, cj) && g.nodes[g.edges[ei].to as int]
            == g.edges[ej].ename && g.nodes[g.edges[ej].to as int] == g.edges[ei].ename
}

/// The cycles the engine walks.
pub open spec fn spec_cycles(m: EntityMapView) -> Seq<Seq<usize>> {
    cycles_of(spec_graph(m).nodes.len() as int, plain_of(spec_graph(m).edges))
}

/// What the ring verdict guarantees: a map without require rules is
/// satisfiable; two reportable mono cycle edges pointing at each other force
/// a conflict; and every reported rule rides an enumerated require-cycle of
/// length at least two under its own entity's name.
pub open spec fn ring_sound(m: EntityMapView, r: crate::solver::solver::SolverOutputView) -> bool {
    &&& (forall|i: int|
        0 <= i < m.entities.len() ==> (#[trigger] m.entities[i]).requires.len() == 0) ==> r is Sat
    &&& (spec_graph(m).nodes.len() < 0xffff_ffff && spec_graph(m).edges.len() < 0xffff_ffff
        && mutual_mono_pair(spec_graph(m), spec_cycles(m))) ==> r is Conflict
    &&& match r {
        crate::solver::solver::SolverOutputView::Sat => true,
        crate::solver::solver::SolverOutputView::Conflict(cm) => cm.len() > 0 && forall|
            ki: int,
            j: int,
        |
            #![trigger cm[ki].1[j]]
            0 <= ki < cm.len() && 0 <= j < cm[ki].1.len() ==> reported_on_cycle(
                spec_graph(m),
                spec_cycles(m),
                cm[ki].0,
                cm[ki].1[j],
            ) && edge_of_map(m, cm[ki].0, cm[ki].1[j])
    }
}

fn cycle_contains(c: &Vec<usize>, x: usize) -> (r: bool)
    ensures
        r == c@.contains(x),
{
    let mut i: usize = 0;
    while i < c.len()
        invariant
            0 <= i <= c@.len(),
            forall|j: int| 0 <= j < i ==> c@[j] != x,
        decreases c@.len() - i,
    {
        if c[i] == x {
            return true;
        }
        i = i + 1;
    }
    proof {
        if c@.contains(x) {
            let j = choose|j: int| 0 <= j < c@.len() && c@[j] == x;
            assert(false);
        }
    }
    false
}

/// First index of the name, adding it when absent.
fn get_or_create_node(nodes: Vec<String>, name: &str) -> (r: (Vec<String>, usize))
    ensures
        dv_strings(r.0@) == gv_add_node(dv_strings(nodes@), name@),
        r.1 < r.0@.len(),
        r.1 as int == name_index(dv_strings(r.0@), name@),
        dv_strings(r.0@)[r.1 as int] == name@,
{
    let mut i: usize = 0;
    let n = nodes.len();
    while i < n
        invariant
            0 <= i <= n,
            n == nodes@.len(),
            forall|j: int| 0 <= j < i ==> dv_strings(nodes@)[j] != name@,
        decreases n - i,
    {
        proof {
            assert(dv_strings(nodes@)[i as int] == nodes@[i as int]@);
        }
        if eq_str(nodes[i].as_str(), name) {
            proof {
                assert(dv_strings(nodes@).contains(name@)) by {
                    assert(dv_strings(nodes@)[i as int] == name@);
                }
                lemma_name_index_first(dv_strings(nodes@), name@, i as int);
            }
            return (nodes, i);
        }
        i = i + 1;
    }
    proof {
        if dv_strings(nodes@).contains(name@) {
            let j = choose|j: int|
                0 <= j < dv_strings(nodes@).len() && dv_strings(nodes@)[j] == name@;
            assert(false);
        }
    }
    let ghost prev = dv_strings(nodes@);
    let mut nodes = nodes;
    nodes.push(name.to_owned());
    proof {
        assert(dv_strings(nodes@) =~= prev.push(name@));
        assert(dv_strings(nodes@)[prev.len() as int] == name@);
        lemma_name_index_first(dv_strings(nodes@), name@, prev.len() as int);
    }
    let idx = nodes.len() - 1;
    (nodes, idx)
}

// ------------------------------------------------------------------
// Building the graph
// ------------------------------------------------------------------
/// Builds the require graph, pinned to [`spec_graph`], with its structural
/// facts: distinct node names, edges in bounds, each edge running from its
/// entity's node to one of its rule's targets, each stemming from a require
/// rule of the named entity.
fn build_graph(map: &EntityMap) -> (r: (Vec<String>, Vec<RingEdge>))
    ensures
        dv_strings(r.0@) == spec_graph(map@).nodes,
        edges_view(r.1@) == spec_graph(map@).edges,
        graph_wf(spec_graph(map@), map@),
{
    let ghost m = map@;
    let mut nodes: Vec<String> = Vec::new();
    let mut edges: Vec<RingEdge> = Vec::new();
    let mut i: usize = 0;
    proof {
        assert(dv_strings(nodes@) =~= empty_graph().nodes);
        assert(edges_view(edges@) =~= empty_graph().edges);
        assert(GraphView { nodes: dv_strings(nodes@), edges: edges_view(edges@) }
            =~= empty_graph());
        assert(m.entities.skip(0) =~= m.entities);
    }
    while i < map.entities.len()
        invariant
            0 <= i <= map.entities@.len(),
            m == map@,
            m.entities.len() == map.entities@.len(),
            gv_add_entities(
                GraphView { nodes: dv_strings(nodes@), edges: edges_view(edges@) },
                m.entities.skip(i as int),
            ) == spec_graph(m),
            build_wf(dv_strings(nodes@), edges_view(edges@), m),
        decreases map.entities@.len() - i,
    {
        proof {
            assert(m.entities.skip(i as int)[0] == m.entities[i as int]);
            assert(m.entities[i as int] == map.entities@[i as int]@);
            assert(m.entities.skip(i as int).drop_first() =~= m.entities.skip(i as int + 1));
        }
        let e = &map.entities[i];
        let ghost st0 = GraphView { nodes: dv_strings(nodes@), edges: edges_view(edges@) };
        let ghost ev = m.entities[i as int];
        let pair = get_or_create_node(nodes, e.name.0.as_str());
        nodes = pair.0;
        let node = pair.1;
        proof {
            assert(dv_strings(nodes@) == gv_add_node(st0.nodes, ev.name));
            assert(node as int == name_index(dv_strings(nodes@), ev.name));
            assert(dv_strings(nodes@)[node as int] == ev.name);
            assert(gv_add_entity(st0, ev) == gv_add_rules(
                GraphView { nodes: dv_strings(nodes@), edges: edges_view(edges@) },
                node,
                ev.name,
                ev.requires,
            ));
            lemma_build_wf_nodes_grow(st0.nodes, ev.name, edges_view(edges@), m);
        }
        let mut j: usize = 0;
        proof {
            assert(ev.requires.skip(0) =~= ev.requires);
        }
        while j < e.requires.len()
            invariant
                0 <= j <= e.requires@.len(),
                m == map@,
                0 <= i < m.entities.len(),
                ev == m.entities[i as int],
                e@ == m.entities[i as int],
                ev == e@,
                ev.requires.len() == e.requires@.len(),
                node < nodes@.len(),
                dv_strings(nodes@)[node as int] == ev.name,
                gv_add_entities(
                    gv_add_rules(
                        GraphView { nodes: dv_strings(nodes@), edges: edges_view(edges@) },
                        node,
                        ev.name,
                        ev.requires.skip(j as int),
                    ),
                    m.entities.skip(i as int + 1),
                ) == spec_graph(m),
                build_wf(dv_strings(nodes@), edges_view(edges@), m),
            decreases e.requires@.len() - j,
        {
            proof {
                assert(ev.requires.skip(j as int)[0] == ev.requires[j as int]);
                assert(ev.requires[j as int] == e.requires@[j as int]@);
                assert(ev.requires.skip(j as int).drop_first() =~= ev.requires.skip(j as int + 1));
            }
            let rule = &e.requires[j];
            let targets = rule.targets();
            let mut t: usize = 0;
            proof {
                assert(rule@.targets.skip(0) =~= rule@.targets);
            }
            while t < targets.len()
                invariant
                    0 <= t <= targets@.len(),
                    m == map@,
                    0 <= i < m.entities.len(),
                    ev == m.entities[i as int],
                    ev == e@,
                    0 <= j < ev.requires.len(),
                    rule@ == ev.requires[j as int],
                    crate::model::rule::dv_names(targets@) == rule@.targets,
                    rule@.targets.len() == targets@.len(),
                    node < nodes@.len(),
                    dv_strings(nodes@)[node as int] == ev.name,
                    gv_add_entities(
                        gv_add_rules(
                            gv_add_targets(
                                GraphView {
                                    nodes: dv_strings(nodes@),
                                    edges: edges_view(edges@),
                                },
                                node,
                                ev.name,
                                rule@,
                                rule@.targets.skip(t as int),
                            ),
                            node,
                            ev.name,
                            ev.requires.skip(j as int + 1),
                        ),
                        m.entities.skip(i as int + 1),
                    ) == spec_graph(m),
                    build_wf(dv_strings(nodes@), edges_view(edges@), m),
                decreases targets@.len() - t,
            {
                proof {
                    assert(rule@.targets.skip(t as int)[0] == rule@.targets[t as int]);
                    assert(rule@.targets[t as int] == targets@[t as int]@);
                    assert(rule@.targets.skip(t as int).drop_first() =~= rule@.targets.skip(
                        t as int + 1,
                    ));
                }
                let ghost stt = GraphView {
                    nodes: dv_strings(nodes@),
                    edges: edges_view(edges@),
                };
                let pair = get_or_create_node(nodes, targets[t].0.as_str());
                nodes = pair.0;
                let tnode = pair.1;
                let ghost prevedges = edges@;
                edges.push(
                    RingEdge {
                        from: node,
                        to: tnode,
                        ename: e.name.0.clone(),
                        rule: rule.clone(),
                    },
                );
                proof {
                    assert(dv_strings(nodes@) == gv_add_node(stt.nodes, rule@.targets[t as int]));
                    assert(tnode as int == name_index(dv_strings(nodes@), rule@.targets[t as int]));
                    assert(dv_strings(nodes@)[tnode as int] == rule@.targets[t as int]);
                    assert(e.name.0@ == ev.name) by {
                        assert(ev == e@);
                    }
                    assert(edges_view(edges@) =~= stt.edges.push(
                        EdgeView { from: node, to: tnode, ename: ev.name, rule: rule@ },
                    ));
                    assert(gv_add_targets(stt, node, ev.name, rule@, rule@.targets.skip(t as int))
                        == gv_add_targets(
                        GraphView { nodes: dv_strings(nodes@), edges: edges_view(edges@) },
                        node,
                        ev.name,
                        rule@,
                        rule@.targets.skip(t as int + 1),
                    ));
                    lemma_build_wf_nodes_grow(stt.nodes, rule@.targets[t as int], stt.edges, m);
                    assert(build_wf(dv_strings(nodes@), edges_view(edges@), m)) by {
                        let ns = dv_strings(nodes@);
                        let es2 = edges_view(edges@);
                        assert(es2.len() == stt.edges.len() + 1);
                        assert(forall|k: int|
                            0 <= k < stt.edges.len() ==> #[trigger] es2[k] == stt.edges[k]);
                        assert(es2[stt.edges.len() as int] == EdgeView {
                            from: node,
                            to: tnode,
                            ename: ev.name,
                            rule: rule@,
                        });
                        assert forall|k: int| 0 <= k < es2.len() implies (#[trigger] es2[k]).from
                            < ns.len() && es2[k].to < ns.len() && ns[es2[k].from as int]
                            == es2[k].ename && es2[k].rule.has_target(ns[es2[k].to as int])
                            && edge_of_map(m, es2[k].ename, es2[k].rule) by {
                            if k < stt.edges.len() {
                                assert(es2[k] == stt.edges[k]);
                            } else {
                                assert(ns[node as int] == ev.name);
                                assert(ns[tnode as int] == rule@.targets[t as int]);
                                assert(rule@.has_target(rule@.targets[t as int]));
                                assert(edge_of_map(m, ev.name, rule@)) by {
                                    assert(m.entities[i as int].requires[j as int] == rule@);
                                }
                            }
                        }
                    }
                }
                t = t + 1;
            }
            proof {
                assert(rule@.targets.skip(targets@.len() as int) =~= Seq::<Seq<char>>::empty());
            }
            j = j + 1;
        }
        proof {
            assert(ev.requires.skip(e.requires@.len() as int) =~= Seq::<RuleView>::empty());
        }
        i = i + 1;
    }
    proof {
        assert(m.entities.skip(i as int) =~= Seq::<crate::model::entity::EntityView>::empty());
        assert(GraphView { nodes: dv_strings(nodes@), edges: edges_view(edges@) } == spec_graph(m));
        assert(graph_wf(spec_graph(m), m)) by {
            assert(spec_graph(m).nodes == dv_strings(nodes@));
            assert(spec_graph(m).edges == edges_view(edges@));
        }
    }
    (nodes, edges)
}

/// The running structural facts of the build: exactly the clauses of
/// [`graph_wf`], over the vectors being filled.
pub open spec fn build_wf(ns: Seq<Seq<char>>, es: Seq<EdgeView>, m: EntityMapView) -> bool {
    &&& forall|a: int, b: int| 0 <= a < b < ns.len() ==> ns[a] != ns[b]
    &&& forall|k: int|
        0 <= k < es.len() ==> (#[trigger] es[k]).from < ns.len() && es[k].to < ns.len()
    &&& forall|k: int| 0 <= k < es.len() ==> ns[(#[trigger] es[k]).from as int] == es[k].ename
    &&& forall|k: int|
        0 <= k < es.len() ==> (#[trigger] es[k]).rule.has_target(ns[es[k].to as int])
    &&& forall|k: int|
        0 <= k < es.len() ==> edge_of_map(m, (#[trigger] es[k]).ename, es[k].rule)
}

/// Adding a node name keeps the build facts: edges stay in bounds and their
/// node names are unchanged, and the names stay distinct.
proof fn lemma_build_wf_nodes_grow(
    ns: Seq<Seq<char>>,
    n: Seq<char>,
    es: Seq<EdgeView>,
    m: EntityMapView,
)
    requires
        build_wf(ns, es, m),
    ensures
        build_wf(gv_add_node(ns, n), es, m),
{
    let ns2 = gv_add_node(ns, n);
    if !ns.contains(n) {
        assert(ns2 == ns.push(n));
        assert(forall|q: int| 0 <= q < ns.len() ==> #[trigger] ns2[q] == ns[q]);
        assert forall|a: int, b: int| 0 <= a < b < ns2.len() implies ns2[a] != ns2[b] by {
            if b == ns.len() {
                assert(ns2[b] == n);
                assert(ns2[a] == ns[a]);
                if ns[a] == n {
                    assert(ns.contains(n));
                }
            }
        }
        assert forall|k: int| 0 <= k < es.len() implies (#[trigger] es[k]).from < ns2.len()
            && es[k].to < ns2.len() && ns2[es[k].from as int] == es[k].ename
            && es[k].rule.has_target(ns2[es[k].to as int]) by {
            assert(ns2[es[k].from as int] == ns[es[k].from as int]);
            assert(ns2[es[k].to as int] == ns[es[k].to as int]);
        }
    }
}

// ------------------------------------------------------------------
// The engine
// ------------------------------------------------------------------
/// The ring engine.
pub struct RingSolver;

/// A recorded report is present: key, paired target name, and rule.
pub open spec fn found_has(
    found: Seq<(String, Vec<(String, EntityRule)>)>,
    k: Seq<char>,
    t: Seq<char>,
    rv: RuleView,
) -> bool {
    exists|fi: int, pi: int|
        #![trigger found[fi].1@[pi]]
        0 <= fi < found.len() && found[fi].0@ == k && 0 <= pi < found[fi].1@.len()
            && found[fi].1@[pi].0@ == t && found[fi].1@[pi].1@ == rv
}

/// Every recorded pair stems from a reportable cycle edge.
pub open spec fn found_ok(
    g: GraphView,
    cys: Seq<Seq<usize>>,
    found: Seq<(String, Vec<(String, EntityRule)>)>,
) -> bool {
    forall|fi: int, pi: int|
        #![trigger found[fi].1@[pi]]
        0 <= fi < found.len() && 0 <= pi < found[fi].1@.len() ==> reported_on_cycle(
            g,
            cys,
            found[fi].0@,
            found[fi].1@[pi].1@,
        )
}

impl RingSolver {
    pub fn new() -> (r: Self)
        ensures
            true,
    {
        RingSolver
    }

    /// Detects require-cycles of length at least two and reports the rules
    /// riding on them, pruned to targets that are themselves conflicting
    /// sources.
    #[verifier::rlimit(100)]
    pub fn solve(&self, map: &EntityMap) -> (r: SolverOutput)
        ensures
            ring_sound(map@, r@),
    {
        let ghost m = map@;
        let pair = build_graph(map);
        let nodes = pair.0;
        let edges = pair.1;
        let ghost g = spec_graph(m);
        if nodes.len() >= 0xffff_ffff || edges.len() >= 0xffff_ffff {
            // A graph too large for node handles cannot be analyzed; report
            // nothing rather than a wrong conflict. Node and edge counts are
            // bounded by entity count times rule targets, so a map below the
            // stated entity bound never lands here.
            proof {
                if forall|ii: int|
                    0 <= ii < m.entities.len() ==> (#[trigger] m.entities[ii]).requires.len()
                        == 0 {
                    lemma_spec_graph_no_requires(m);
                }
                assert(g.nodes.len() == nodes@.len() && g.edges.len() == edges@.len());
            }
            return SolverOutput::new_ok();
        }
        proof {
            assert(g.nodes.len() == nodes@.len());
            assert(g.edges.len() == edges@.len());
            assert forall|kk: int|
                0 <= kk < edges@.len() implies (#[trigger] edges@[kk]).from < nodes@.len()
                && edges@[kk].to < nodes@.len() by {
                assert(edges_view(edges@)[kk] == edges@[kk]@);
                assert(g.edges[kk].from < g.nodes.len() && g.edges[kk].to < g.nodes.len());
            }
        }
        // Enumerate the cycles.
        let mut plain_edges: Vec<(usize, usize)> = Vec::new();
        let mut k: usize = 0;
        while k < edges.len()
            invariant
                0 <= k <= edges@.len(),
                nodes@.len() < 0xffff_ffff,
                edges@.len() < 0xffff_ffff,
                forall|kk: int|
                    0 <= kk < edges@.len() ==> (#[trigger] edges@[kk]).from < nodes@.len()
                        && edges@[kk].to < nodes@.len(),
                plain_edges@.len() == k,
                forall|kk: int|
                    0 <= kk < k ==> #[trigger] plain_edges@[kk] == (
                    edges@[kk].from,
                    edges@[kk].to,
                ),
            decreases edges@.len() - k,
        {
            plain_edges.push((edges[k].from, edges[k].to));
            k = k + 1;
        }
        proof {
            assert(plain_edges.deep_view() =~= plain_of(g.edges));
        }
        let cycles = simple_cycles(nodes.len(), &plain_edges);
        let ghost cys = spec_cycles(m);
        proof {
            assert(cycles.deep_view() == cys) by {
                assert(g.nodes.len() == nodes@.len());
            }
            if forall|ii: int|
                0 <= ii < m.entities.len() ==> (#[trigger] m.entities[ii]).requires.len() == 0 {
                lemma_spec_graph_no_requires(m);
                if cys.len() > 0 {
                    let c = cys[0];
                    assert(is_graph_cycle(nodes@.len() as int, plain_edges.deep_view(), c));
                    assert(plain_edges.deep_view().contains((c[c.len() - 1], c[0])));
                    let w = choose|w: int|
                        0 <= w < plain_edges.deep_view().len() && plain_edges.deep_view()[w] == (
                        c[c.len() - 1],
                        c[0],
                        );
                    assert(false);
                }
            }
        }
        if cycles.len() == 0 {
            proof {
                if mutual_mono_pair(g, cys) {
                    let (ei, ci, ej, cj) = choose|ei: int, ci: int, ej: int, cj: int|
                        #![trigger mono_span(g, cys, ei, ci), mono_span(g, cys, ej, cj)]
                        mono_span(g, cys, ei, ci) && mono_span(g, cys, ej, cj) && g.nodes[
                            g.edges[ei].to as int
                        ] == g.edges[ej].ename && g.nodes[g.edges[ej].to as int]
                            == g.edges[ei].ename;
                    assert(false);
                }
            }
            return SolverOutput::new_ok();
        }
        let found = walk_cycles(&cycles, &nodes, &edges, Ghost(m));
        let raw = filter_reports(&found, Ghost(g), Ghost(cys));
        if raw.len() == 0 {
            proof {
                if g.nodes.len() < 0xffff_ffff && g.edges.len() < 0xffff_ffff
                    && mutual_mono_pair(g, cys) {
                    let (ei, ci2, ej, cj) = choose|ei: int, ci2: int, ej: int, cj: int|
                        #![trigger mono_span(g, cys, ei, ci2), mono_span(g, cys, ej, cj)]
                        mono_span(g, cys, ei, ci2) && mono_span(g, cys, ej, cj) && g.nodes[
                            g.edges[ei].to as int
                        ] == g.edges[ej].ename && g.nodes[g.edges[ej].to as int]
                            == g.edges[ei].ename;
                    assert(found_has(
                        found@,
                        g.edges[ei].ename,
                        g.nodes[g.edges[ei].to as int],
                        g.edges[ei].rule,
                    ));
                    assert(found_has(
                        found@,
                        g.edges[ej].ename,
                        g.nodes[g.edges[ej].to as int],
                        g.edges[ej].rule,
                    ));
                    let (fi1, pi1) = choose|fi1: int, pi1: int|
                        #![trigger found@[fi1].1@[pi1]]
                        0 <= fi1 < found@.len() && found@[fi1].0@ == g.edges[ei].ename && 0 <= pi1
                            < found@[fi1].1@.len() && found@[fi1].1@[pi1].0@ == g.nodes[
                            g.edges[ei].to as int
                        ] && found@[fi1].1@[pi1].1@ == g.edges[ei].rule;
                    let (fi2, pi2) = choose|fi2: int, pi2: int|
                        #![trigger found@[fi2].1@[pi2]]
                        0 <= fi2 < found@.len() && found@[fi2].0@ == g.edges[ej].ename && 0 <= pi2
                            < found@[fi2].1@.len() && found@[fi2].1@[pi2].0@ == g.nodes[
                            g.edges[ej].to as int
                        ] && found@[fi2].1@[pi2].1@ == g.edges[ej].rule;
                    assert(found@[fi1].1@[pi1].0@ == found@[fi2].0@);
                    assert(raw@.len() > 0);
                    assert(false);
                }
            }
            SolverOutput::new_ok()
        } else {
            let r = SolverOutput::new_conflict(raw);
            proof {
                let rawv = dv_conflicts(raw@);
                let p = |k: Seq<char>, l: Seq<RuleView>|
                    forall|j: int|
                        0 <= j < l.len() ==> reported_on_cycle(g, cys, k, #[trigger] l[j]);
                assert forall|kk: Seq<char>, l: Seq<RuleView>| p(kk, l) implies #[trigger] p(
                    kk,
                    crate::model::rule::canon_rules(l),
                ) by {
                    lemma_reported_canon(g, cys, kk, l);
                }
                assert forall|kk: Seq<char>, l1: Seq<RuleView>, l2: Seq<RuleView>|
                    p(kk, l1) && p(kk, l2) implies #[trigger] p(
                    kk,
                    crate::model::rule::canon_rules(l1 + l2),
                ) by {
                    lemma_reported_union(g, cys, kk, l1, l2);
                }
                assert forall|ki: int|
                    0 <= ki < rawv.len() implies p((#[trigger] rawv[ki]).0, rawv[ki].1) by {}
                crate::solver::solver::lemma_canon_conflicts_entries(p, rawv);
                crate::solver::solver::lemma_canon_conflicts_nonempty(rawv);
                let cm = crate::solver::solver::canon_conflicts(rawv);
                assert forall|ki: int, j: int|
                    #![trigger cm[ki].1[j]]
                    0 <= ki < cm.len() && 0 <= j < cm[ki].1.len() implies reported_on_cycle(
                    g,
                    cys,
                    cm[ki].0,
                    cm[ki].1[j],
                ) && edge_of_map(m, cm[ki].0, cm[ki].1[j]) by {
                    assert(p(cm[ki].0, cm[ki].1));
                    assert(reported_on_cycle(g, cys, cm[ki].0, cm[ki].1[j]));
                    let (ew, cw) = choose|ew: int, cw: int|
                        #![trigger g.edges[ew], cys[cw]]
                        0 <= ew < g.edges.len() && 0 <= cw < cys.len() && g.edges[ew].ename == cm[
                            ki
                        ].0 && g.edges[ew].rule == cm[ki].1[j] && cm[ki].1[j].source == cm[ki].0
                            && g.edges[ew].from != g.edges[ew].to && cys[cw].len() >= 2 && cys[
                            cw
                        ].contains(g.edges[ew].from) && cys[cw].contains(g.edges[ew].to);
                    assert(edge_of_map(m, g.edges[ew].ename, g.edges[ew].rule));
                }
            }
            r
        }
    }
}

/// Records one offending rule under its source name; earlier records stay.
fn push_found(
    found: &mut Vec<(String, Vec<(String, EntityRule)>)>,
    source_name: &String,
    target_name: &String,
    edge: &RingEdge,
    Ghost(g): Ghost<GraphView>,
    Ghost(cys): Ghost<Seq<Seq<usize>>>,
)
    requires
        found_ok(g, cys, old(found)@),
        reported_on_cycle(g, cys, edge.ename@, edge.rule@),
        source_name@ == edge.ename@,
    ensures
        found_ok(g, cys, final(found)@),
        found_has(final(found)@, edge.ename@, target_name@, edge.rule@),
        forall|k: Seq<char>, t: Seq<char>, rv: RuleView|
            found_has(old(found)@, k, t, rv) ==> #[trigger] found_has(final(found)@, k, t, rv),
        forall|s2: int|
            0 <= s2 < old(found)@.len() ==> (#[trigger] final(found)@[s2]).0@ == old(found)@[
                s2
            ].0@,
        final(found)@.len() >= old(found)@.len(),
{
    let mut fi: usize = 0;
    let n = found.len();
    while fi < n
        invariant_except_break
            0 <= fi <= n,
            n == found@.len(),
            found@ == old(found)@,
        ensures
            found@ == old(found)@,
            fi <= n,
            fi < n ==> found@[fi as int].0@ == source_name@,
        decreases n - fi,
    {
        if eq_str(found[fi].0.as_str(), source_name.as_str()) {
            break ;
        }
        fi = fi + 1;
    }
    if fi < n {
        let mut entry = found.remove(fi);
        let ghost prevpairs = entry.1@;
        entry.1.push((target_name.clone(), edge.rule.clone()));
        let ghost newentry = entry;
        found.insert(fi, entry);
        proof {
            assert(found@.len() == old(found)@.len());
            assert forall|k2: int|
                0 <= k2 < found@.len() && k2 != fi implies #[trigger] found@[k2] == old(found)@[
                k2
            ] by {}
            assert(found@[fi as int] == newentry);
            assert(newentry.0@ == old(found)@[fi as int].0@);
            assert(newentry.1@.len() == prevpairs.len() + 1);
            assert(forall|pi: int|
                0 <= pi < prevpairs.len() ==> #[trigger] newentry.1@[pi] == prevpairs[pi]);
            assert(newentry.1@[prevpairs.len() as int].0@ == target_name@);
            assert(newentry.1@[prevpairs.len() as int].1@ == edge.rule@);
            assert(found_ok(g, cys, found@)) by {
                assert forall|f2: int, pi: int|
                    #![trigger found@[f2].1@[pi]]
                    0 <= f2 < found@.len() && 0 <= pi < found@[f2].1@.len() implies
                    reported_on_cycle(g, cys, found@[f2].0@, found@[f2].1@[pi].1@) by {
                    if f2 != fi {
                        assert(found@[f2] == old(found)@[f2]);
                    } else {
                        if pi < prevpairs.len() {
                            assert(found@[f2].1@[pi] == old(found)@[fi as int].1@[pi]);
                        } else {
                            assert(found@[f2].1@[pi].1@ == edge.rule@);
                            assert(found@[f2].0@ == edge.ename@);
                        }
                    }
                }
            }
            assert(found_has(found@, edge.ename@, target_name@, edge.rule@)) by {
                assert(found@[fi as int].1@[prevpairs.len() as int].0@ == target_name@);
            }
            assert forall|k: Seq<char>, t: Seq<char>, rv: RuleView|
                found_has(old(found)@, k, t, rv) implies #[trigger] found_has(
                found@,
                k,
                t,
                rv,
            ) by {
                let (f2, pi) = choose|f2: int, pi: int|
                    #![trigger old(found)@[f2].1@[pi]]
                    0 <= f2 < old(found)@.len() && old(found)@[f2].0@ == k && 0 <= pi < old(
                        found,
                    )@[f2].1@.len() && old(found)@[f2].1@[pi].0@ == t && old(found)@[f2].1@[pi].1@
                        == rv;
                if f2 != fi {
                    assert(found@[f2] == old(found)@[f2]);
                    assert(found@[f2].1@[pi].0@ == t);
                } else {
                    assert(found@[f2].1@[pi] == old(found)@[fi as int].1@[pi]);
                    assert(found@[f2].0@ == k);
                    assert(found@[f2].1@[pi].0@ == t);
                }
            }
        }
    } else {
        let mut pairs: Vec<(String, EntityRule)> = Vec::new();
        pairs.push((target_name.clone(), edge.rule.clone()));
        let ghost prevfound = found@;
        found.push((source_name.clone(), pairs));
        proof {
            assert(found@.len() == prevfound.len() + 1);
            assert(forall|k2: int|
                0 <= k2 < prevfound.len() ==> #[trigger] found@[k2] == prevfound[k2]);
            assert(found@[prevfound.len() as int].0@ == edge.ename@);
            assert(found@[prevfound.len() as int].1@.len() == 1);
            assert(found@[prevfound.len() as int].1@[0].0@ == target_name@);
            assert(found@[prevfound.len() as int].1@[0].1@ == edge.rule@);
            assert(found_ok(g, cys, found@)) by {
                assert forall|f2: int, pi: int|
                    #![trigger found@[f2].1@[pi]]
                    0 <= f2 < found@.len() && 0 <= pi < found@[f2].1@.len() implies
                    reported_on_cycle(g, cys, found@[f2].0@, found@[f2].1@[pi].1@) by {
                    if f2 < prevfound.len() {
                        assert(found@[f2] == prevfound[f2]);
                    }
                }
            }
            assert(found_has(found@, edge.ename@, target_name@, edge.rule@)) by {
                assert(found@[prevfound.len() as int].1@[0].0@ == target_name@);
            }
            assert forall|k: Seq<char>, t: Seq<char>, rv: RuleView|
                found_has(prevfound, k, t, rv) implies #[trigger] found_has(found@, k, t, rv) by {
                let (f2, pi) = choose|f2: int, pi: int|
                    #![trigger prevfound[f2].1@[pi]]
                    0 <= f2 < prevfound.len() && prevfound[f2].0@ == k && 0 <= pi < prevfound[
                        f2
                    ].1@.len() && prevfound[f2].1@[pi].0@ == t && prevfound[f2].1@[pi].1@ == rv;
                assert(found@[f2] == prevfound[f2]);
                assert(found@[f2].1@[pi].0@ == t);
            }
        }
    }
}

proof fn lemma_reported_canon(g: GraphView, cys: Seq<Seq<usize>>, k: Seq<char>, l: Seq<RuleView>)
    requires
        forall|j: int| 0 <= j < l.len() ==> reported_on_cycle(g, cys, k, #[trigger] l[j]),
    ensures
        forall|j: int|
            0 <= j < crate::model::rule::canon_rules(l).len() ==> reported_on_cycle(
                g,
                cys,
                k,
                #[trigger] crate::model::rule::canon_rules(l)[j],
            ),
{
    let cl = crate::model::rule::canon_rules(l);
    assert forall|j: int| 0 <= j < cl.len() implies reported_on_cycle(
        g,
        cys,
        k,
        #[trigger] cl[j],
    ) by {
        crate::model::rule::lemma_canon_rules_membership(l, cl[j]);
        assert(cl.contains(cl[j]));
        let w = choose|w: int| 0 <= w < l.len() && l[w] == cl[j];
        assert(reported_on_cycle(g, cys, k, l[w]));
    }
}

proof fn lemma_reported_union(
    g: GraphView,
    cys: Seq<Seq<usize>>,
    k: Seq<char>,
    l1: Seq<RuleView>,
    l2: Seq<RuleView>,
)
    requires
        forall|j: int| 0 <= j < l1.len() ==> reported_on_cycle(g, cys, k, #[trigger] l1[j]),
        forall|j: int| 0 <= j < l2.len() ==> reported_on_cycle(g, cys, k, #[trigger] l2[j]),
    ensures
        forall|j: int|
            0 <= j < crate::model::rule::canon_rules(l1 + l2).len() ==> reported_on_cycle(
                g,
                cys,
                k,
                #[trigger] crate::model::rule::canon_rules(l1 + l2)[j],
            ),
{
    let cl = crate::model::rule::canon_rules(l1 + l2);
    assert forall|j: int| 0 <= j < cl.len() implies reported_on_cycle(
        g,
        cys,
        k,
        #[trigger] cl[j],
    ) by {
        crate::model::rule::lemma_canon_rules_membership(l1 + l2, cl[j]);
        assert(cl.contains(cl[j]));
        crate::model::rule::lemma_rules_concat_membership(l1, l2, cl[j]);
        if l1.contains(cl[j]) {
            let w = choose|w: int| 0 <= w < l1.len() && l1[w] == cl[j];
            assert(reported_on_cycle(g, cys, k, l1[w]));
        } else {
            let w = choose|w: int| 0 <= w < l2.len() && l2[w] == cl[j];
            assert(reported_on_cycle(g, cys, k, l2[w]));
        }
    }
}


/// Walks the enumerated cycles and records each reportable cycle edge: a
/// mono rule at once, a multi rule once every branch target was seen.
fn walk_cycles(
    cycles: &Vec<Vec<usize>>,
    nodes: &Vec<String>,
    edges: &Vec<RingEdge>,
    Ghost(m): Ghost<EntityMapView>,
) -> (found: Vec<(String, Vec<(String, EntityRule)>)>)
    requires
        graph_wf(spec_graph(m), m),
        cycles.deep_view() == spec_cycles(m),
        dv_strings(nodes@) == spec_graph(m).nodes,
        edges_view(edges@) == spec_graph(m).edges,
    ensures
        found_ok(spec_graph(m), spec_cycles(m), found@),
        forall|ci2: int, ei2: int|
            #![trigger mono_span(spec_graph(m), spec_cycles(m), ei2, ci2)]
            mono_span(spec_graph(m), spec_cycles(m), ei2, ci2) ==> found_has(
                found@,
                spec_graph(m).edges[ei2].ename,
                spec_graph(m).nodes[spec_graph(m).edges[ei2].to as int],
                spec_graph(m).edges[ei2].rule,
            ),
{
    let ghost g = spec_graph(m);
    let ghost cys = spec_cycles(m);
    proof {
        assert(cycles.deep_view().len() == cycles@.len());
        assert(edges_view(edges@).len() == edges@.len());
        assert(g.nodes.len() == nodes@.len());
    }
    let mut ways: Vec<(EntityRule, Vec<String>)> = Vec::new();
    let mut found: Vec<(String, Vec<(String, EntityRule)>)> = Vec::new();
    let mut ci: usize = 0;
    while ci < cycles.len()
        invariant
            0 <= ci <= cycles@.len(),
            g == spec_graph(m),
            cys == spec_cycles(m),
            graph_wf(g, m),
            cycles.deep_view() == cys,
            cycles.deep_view().len() == cycles@.len(),
            dv_strings(nodes@) == g.nodes,
            edges_view(edges@) == g.edges,
            edges_view(edges@).len() == edges@.len(),
            g.nodes.len() == nodes@.len(),
            found_ok(g, cys, found@),
            forall|ci2: int, ei2: int|
                #![trigger mono_span(g, cys, ei2, ci2)]
                0 <= ci2 < ci && mono_span(g, cys, ei2, ci2) ==> found_has(
                    found@,
                    g.edges[ei2].ename,
                    g.nodes[g.edges[ei2].to as int],
                    g.edges[ei2].rule,
                ),
        decreases cycles@.len() - ci,
    {
        let cyc = &cycles[ci];
        proof {
            assert(cyc.deep_view() == cys[ci as int]) by {
                assert(cycles.deep_view()[ci as int] == cycles@[ci as int].deep_view());
            }
            assert(cyc.deep_view() =~= cyc@);
        }
        if cyc.len() <= 1 {
            proof {
                assert forall|ei2: int|
                    mono_span(g, cys, ei2, ci as int) implies found_has(
                    found@,
                    g.edges[ei2].ename,
                    g.nodes[g.edges[ei2].to as int],
                    g.edges[ei2].rule,
                ) by {
                    assert(cys[ci as int].len() >= 2);
                    assert(false);
                }
            }
            ci = ci + 1;
            continue ;
        }
        let mut ei: usize = 0;
        while ei < edges.len()
            invariant
                0 <= ei <= edges@.len(),
                g == spec_graph(m),
                cys == spec_cycles(m),
                graph_wf(g, m),
                cycles.deep_view() == cys,
                cycles.deep_view().len() == cycles@.len(),
                0 <= ci < cycles@.len(),
                cyc@ == cys[ci as int],
                cyc@.len() >= 2,
                dv_strings(nodes@) == g.nodes,
                edges_view(edges@) == g.edges,
                edges_view(edges@).len() == edges@.len(),
                g.nodes.len() == nodes@.len(),
                found_ok(g, cys, found@),
                forall|ci2: int, ei2: int|
                    #![trigger mono_span(g, cys, ei2, ci2)]
                    0 <= ci2 < ci && mono_span(g, cys, ei2, ci2) ==> found_has(
                        found@,
                        g.edges[ei2].ename,
                        g.nodes[g.edges[ei2].to as int],
                        g.edges[ei2].rule,
                    ),
                forall|ei2: int|
                    #![trigger mono_span(g, cys, ei2, ci as int)]
                    0 <= ei2 < ei && mono_span(g, cys, ei2, ci as int) ==> found_has(
                        found@,
                        g.edges[ei2].ename,
                        g.nodes[g.edges[ei2].to as int],
                        g.edges[ei2].rule,
                    ),
            decreases edges@.len() - ei,
        {
            let edge = &edges[ei];
            proof {
                assert(edge@ == g.edges[ei as int]) by {
                    assert(edges_view(edges@)[ei as int] == edges@[ei as int]@);
                }
                assert(edge.from < nodes@.len() && edge.to < nodes@.len());
                assert(g.nodes[edge.to as int] == nodes@[edge.to as int]@) by {
                    assert(dv_strings(nodes@)[edge.to as int] == nodes@[edge.to as int]@);
                }
            }
            if edge.from != edge.to && cycle_contains(cyc, edge.from) && cycle_contains(
                cyc,
                edge.to,
            ) {
                let source_name = &edge.ename;
                let target_name = &nodes[edge.to];
                if eq_str(source_name.as_str(), edge.rule.source().0.as_str())
                    && edge.rule.is_in_target(target_name.as_str()) {
                    let tcount = edge.rule.targets().len();
                    proof {
                        assert(reported_on_cycle(g, cys, edge.ename@, edge.rule@)) by {
                            assert(g.edges[ei as int].ename == edge.ename@);
                            assert(cys[ci as int].contains(g.edges[ei as int].from));
                            assert(cys[ci as int].contains(g.edges[ei as int].to));
                        }
                    }
                    if tcount > 1 {
                        // Record the branch; report once all branches
                        // are covered.
                        let mut wi: usize = 0;
                        let mut seen = false;
                        while wi < ways.len()
                            invariant_except_break
                                !seen,
                            invariant
                                0 <= wi <= ways@.len(),
                            ensures
                                seen ==> wi < ways@.len(),
                            decreases ways@.len() - wi,
                        {
                            if cmp_rule(&ways[wi].0, &edge.rule) == 0 {
                                seen = true;
                                break ;
                            }
                            wi = wi + 1;
                        }
                        if !seen {
                            let mut branch: Vec<String> = Vec::new();
                            branch.push(target_name.clone());
                            ways.push((edge.rule.clone(), branch));
                        } else {
                            let entry = ways.remove(wi);
                            let mut names = entry.1;
                            if !crate::solver::map::names_vec_contains(
                                &names,
                                target_name.as_str(),
                            ) {
                                names.push(target_name.clone());
                            }
                            let count = names.len();
                            ways.insert(wi, (entry.0, names));
                            if count >= tcount {
                                push_found(
                                    &mut found,
                                    source_name,
                                    target_name,
                                    edge,
                                    Ghost(g),
                                    Ghost(cys),
                                );
                            }
                        }
                    } else {
                        push_found(
                            &mut found,
                            source_name,
                            target_name,
                            edge,
                            Ghost(g),
                            Ghost(cys),
                        );
                    }
                }
            }
            proof {
                assert forall|ei2: int|
                    #![trigger mono_span(g, cys, ei2, ci as int)]
                    0 <= ei2 < ei + 1 && mono_span(g, cys, ei2, ci as int) implies found_has(
                    found@,
                    g.edges[ei2].ename,
                    g.nodes[g.edges[ei2].to as int],
                    g.edges[ei2].rule,
                ) by {
                    if ei2 == ei {
                        assert(g.edges[ei as int] == edge@);
                        assert(!edge.rule@.multi);
                        assert(edge.rule@.source == edge.ename@);
                        assert(cys[ci as int].contains(edge@.from));
                        assert(cys[ci as int].contains(edge@.to));
                    }
                }
            }
            ei = ei + 1;
        }
        ci = ci + 1;
    }
    found
}

/// Prunes the records to targets that are themselves conflicting sources,
/// dropping entities left with no rule.
fn filter_reports(
    found: &Vec<(String, Vec<(String, EntityRule)>)>,
    Ghost(g): Ghost<GraphView>,
    Ghost(cys): Ghost<Seq<Seq<usize>>>,
) -> (raw: Vec<ConflictEntry>)
    requires
        found_ok(g, cys, found@),
    ensures
        forall|ki: int, j: int|
            #![trigger dv_conflicts(raw@)[ki].1[j]]
            0 <= ki < dv_conflicts(raw@).len() && 0 <= j < dv_conflicts(raw@)[ki].1.len()
                ==> reported_on_cycle(
                g,
                cys,
                dv_conflicts(raw@)[ki].0,
                dv_conflicts(raw@)[ki].1[j],
            ),
        forall|fi2: int|
            #![trigger found@[fi2]]
            0 <= fi2 < found@.len() && (exists|pi: int, si: int|
                #![trigger found@[fi2].1@[pi], found@[si]]
                0 <= pi < found@[fi2].1@.len() && 0 <= si < found@.len() && found@[
                    fi2
                ].1@[pi].0@ == found@[si].0@) ==> raw@.len() > 0,
{
    let mut raw: Vec<ConflictEntry> = Vec::new();
    let mut fi: usize = 0;
    while fi < found.len()
        invariant
            0 <= fi <= found@.len(),
            found_ok(g, cys, found@),
            forall|ki: int, j: int|
                #![trigger dv_conflicts(raw@)[ki].1[j]]
                0 <= ki < dv_conflicts(raw@).len() && 0 <= j < dv_conflicts(raw@)[ki].1.len()
                    ==> reported_on_cycle(
                    g,
                    cys,
                    dv_conflicts(raw@)[ki].0,
                    dv_conflicts(raw@)[ki].1[j],
                ),
            forall|fi2: int|
                #![trigger found@[fi2]]
                0 <= fi2 < fi && (exists|pi: int, si: int|
                    #![trigger found@[fi2].1@[pi], found@[si]]
                    0 <= pi < found@[fi2].1@.len() && 0 <= si < found@.len() && found@[
                        fi2
                    ].1@[pi].0@ == found@[si].0@) ==> raw@.len() > 0,
        decreases found@.len() - fi,
    {
        let mut kept: Vec<EntityRule> = Vec::new();
        let mut pi: usize = 0;
        while pi < found[fi].1.len()
            invariant
                0 <= pi <= found@[fi as int].1@.len(),
                0 <= fi < found@.len(),
                found_ok(g, cys, found@),
                forall|j: int|
                    0 <= j < dv_rules(kept@).len() ==> reported_on_cycle(
                        g,
                        cys,
                        found@[fi as int].0@,
                        #[trigger] dv_rules(kept@)[j],
                    ),
                kept@.len() == 0 ==> forall|pi2: int, si: int|
                    #![trigger found@[fi as int].1@[pi2], found@[si]]
                    0 <= pi2 < pi && 0 <= si < found@.len() ==> found@[fi as int].1@[pi2].0@
                        != found@[si].0@,
            decreases found@[fi as int].1@.len() - pi,
        {
            // A target that is not itself a conflicting source is a
            // dead-end report.
            let target = found[fi].1[pi].0.as_str();
            let mut is_source = false;
            let mut si: usize = 0;
            while si < found.len()
                invariant_except_break
                    !is_source,
                invariant
                    0 <= si <= found@.len(),
                    target@ == found@[fi as int].1@[pi as int].0@,
                    0 <= fi < found@.len(),
                    0 <= pi < found@[fi as int].1@.len(),
                    forall|s2: int| 0 <= s2 < si ==> (#[trigger] found@[s2]).0@ != target@,
                ensures
                    is_source <==> exists|s2: int|
                        0 <= s2 < found@.len() && (#[trigger] found@[s2]).0@ == target@,
                decreases found@.len() - si,
            {
                if eq_str(found[si].0.as_str(), target) {
                    is_source = true;
                    proof {
                        assert((#[trigger] found@[si as int]).0@ == target@);
                    }
                    break ;
                }
                si = si + 1;
            }
            proof {
                if !is_source && exists|s2: int|
                    0 <= s2 < found@.len() && (#[trigger] found@[s2]).0@ == target@ {
                    let s2 = choose|s2: int|
                        0 <= s2 < found@.len() && (#[trigger] found@[s2]).0@ == target@;
                    assert(false);
                }
            }
            if is_source {
                let r = found[fi].1[pi].1.clone();
                let ghost prevkept = dv_rules(kept@);
                kept.push(r);
                proof {
                    assert(dv_rules(kept@) =~= prevkept.push(
                        found@[fi as int].1@[pi as int].1@,
                    ));
                    assert(reported_on_cycle(
                        g,
                        cys,
                        found@[fi as int].0@,
                        found@[fi as int].1@[pi as int].1@,
                    ));
                    assert forall|j: int|
                        0 <= j < dv_rules(kept@).len() implies reported_on_cycle(
                        g,
                        cys,
                        found@[fi as int].0@,
                        #[trigger] dv_rules(kept@)[j],
                    ) by {
                        if j < prevkept.len() {
                            assert(dv_rules(kept@)[j] == prevkept[j]);
                        }
                    }
                }
            }
            pi = pi + 1;
        }
        if kept.len() > 0 {
            let key = found[fi].0.clone();
            let ghost prevraw = dv_conflicts(raw@);
            raw.push((key, kept));
            proof {
                assert(dv_conflicts(raw@) =~= prevraw.push(
                    (raw@[raw@.len() - 1].0@, dv_rules(raw@[raw@.len() - 1].1@)),
                ));
                assert forall|ki: int, j: int|
                    #![trigger dv_conflicts(raw@)[ki].1[j]]
                    0 <= ki < dv_conflicts(raw@).len() && 0 <= j < dv_conflicts(
                        raw@,
                    )[ki].1.len() implies reported_on_cycle(
                    g,
                    cys,
                    dv_conflicts(raw@)[ki].0,
                    dv_conflicts(raw@)[ki].1[j],
                ) by {
                    if ki < prevraw.len() {
                        assert(dv_conflicts(raw@)[ki] == prevraw[ki]);
                    }
                }
            }
        }
        fi = fi + 1;
    }
    raw
}

} // verus!
