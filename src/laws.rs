use vstd::prelude::*;

use crate::ast::{Program, RuleModel};
use crate::graph::{
    add_body_edges, add_node, add_rule_edges, component_of, components_of, condensation, edges_in_range,
    graph_of, is_ordering, is_partition, lemma_component_of, lemma_component_of_node, lemma_node_of,
    node_of, respects_edges, topological_order_of, GraphModel,
};
use crate::planner::{execution_plan_of, rules_defining, strata_of, StratumModel};
use crate::validator::{
    component_names, dependencies, is_recursive, misplaced, offending_rules, positive_names, program_graph,
    rules_of,
};

verus! {

/// The relation `name` belongs to a recursive component.
pub open spec fn in_recursive_component(comps: Seq<Seq<int>>, g: GraphModel, name: Seq<char>) -> bool {
    exists|k: int|
        0 <= k < comps.len() && is_recursive(comps[k], g.edges) && #[trigger] component_names(
            comps[k],
            g.names,
        ).contains(name)
}

proof fn lemma_misplaced_empty(rules: Seq<(RuleModel, bool)>, relations: Seq<Seq<char>>)
    ensures
        misplaced(rules, relations).len() == 0 <==> forall|i: int|
            0 <= i < rules.len() && relations.contains(#[trigger] rules[i].0.head.name) ==> rules[i].1,
    decreases rules.len(),
{
    if rules.len() > 0 {
        let prev = rules.drop_last();
        lemma_misplaced_empty(prev, relations);
        if misplaced(rules, relations).len() == 0 {
            assert forall|i: int|
                0 <= i < rules.len() && relations.contains(#[trigger] rules[i].0.head.name) implies rules[i].1 by {
                if i < rules.len() - 1 {
                    assert(rules[i] == prev[i]);
                }
            }
        } else {
            if misplaced(prev, relations).len() > 0 {
                let i = choose|i: int|
                    0 <= i < prev.len() && relations.contains(#[trigger] prev[i].0.head.name) && !prev[i].1;
                assert(rules[i] == prev[i]);
            } else {
                let i = rules.len() - 1;
                assert(relations.contains(rules[i].0.head.name) && !rules[i].1);
            }
        }
    }
}

proof fn lemma_offending_empty(comps: Seq<Seq<int>>, g: GraphModel, rules: Seq<(RuleModel, bool)>)
    ensures
        offending_rules(comps, g, rules).len() == 0 <==> forall|i: int|
            0 <= i < rules.len() && in_recursive_component(comps, g, #[trigger] rules[i].0.head.name)
                ==> rules[i].1,
    decreases comps.len(),
{
    if comps.len() > 0 {
        let prev = comps.drop_last();
        let last = comps.last();
        let rel = component_names(last, g.names);
        lemma_offending_empty(prev, g, rules);
        lemma_misplaced_empty(rules, rel);
        if offending_rules(comps, g, rules).len() == 0 {
            assert forall|i: int|
                0 <= i < rules.len() && in_recursive_component(comps, g, #[trigger] rules[i].0.head.name)
                implies rules[i].1 by {
                let k = choose|k: int|
                    0 <= k < comps.len() && is_recursive(comps[k], g.edges) && #[trigger] component_names(
                        comps[k],
                        g.names,
                    ).contains(rules[i].0.head.name);
                if k < comps.len() - 1 {
                    assert(comps[k] == prev[k]);
                    assert(in_recursive_component(prev, g, rules[i].0.head.name));
                }
            }
        } else {
            if offending_rules(prev, g, rules).len() > 0 {
                let i = choose|i: int|
                    0 <= i < rules.len() && in_recursive_component(prev, g, #[trigger] rules[i].0.head.name)
                        && !rules[i].1;
                let k = choose|k: int|
                    0 <= k < prev.len() && is_recursive(prev[k], g.edges) && #[trigger] component_names(
                        prev[k],
                        g.names,
                    ).contains(rules[i].0.head.name);
                assert(comps[k] == prev[k]);
                assert(in_recursive_component(comps, g, rules[i].0.head.name));
            } else {
                assert(is_recursive(last, g.edges));
                let i = choose|i: int| 0 <= i < rules.len() && rel.contains(#[trigger] rules[i].0.head.name) && !rules[i].1;
                assert(comps[comps.len() - 1] == last);
                assert(in_recursive_component(comps, g, rules[i].0.head.name));
            }
        }
    }
}

/// Validation of a program reports no error exactly when every rule whose
/// head relation lies in a recursive strongly connected component was
/// declared inside an `.iterate` block.
pub proof fn law_recursion_validation(p: Program)
    ensures
        ({
            let g = program_graph(p);
            let comps = components_of(g.names.len(), g.edges);
            let rules = rules_of(p.statements@);
            offending_rules(comps, g, rules).len() == 0 <==> forall|i: int|
                0 <= i < rules.len() && in_recursive_component(comps, g, #[trigger] rules[i].0.head.name)
                    ==> rules[i].1
        }),
{
    let g = program_graph(p);
    lemma_offending_empty(components_of(g.names.len(), g.edges), g, rules_of(p.statements@));
}


/// `g2` starts with the names and the edges of `g1`.
pub open spec fn extends(g1: GraphModel, g2: GraphModel) -> bool {
    &&& g1.names.len() <= g2.names.len()
    &&& g2.names.subrange(0, g1.names.len() as int) == g1.names
    &&& g1.edges.len() <= g2.edges.len()
    &&& g2.edges.subrange(0, g1.edges.len() as int) == g1.edges
}

proof fn lemma_extends_trans(g1: GraphModel, g2: GraphModel, g3: GraphModel)
    requires
        extends(g1, g2),
        extends(g2, g3),
    ensures
        extends(g1, g3),
{
    assert(g3.names.subrange(0, g1.names.len() as int) =~= g2.names.subrange(0, g1.names.len() as int));
    assert(g3.edges.subrange(0, g1.edges.len() as int) =~= g2.edges.subrange(0, g1.edges.len() as int));
}

proof fn lemma_extends_keeps(g1: GraphModel, g2: GraphModel, n: Seq<char>, e: (int, int))
    requires
        extends(g1, g2),
    ensures
        node_of(g1.names, n) >= 0 ==> node_of(g2.names, n) == node_of(g1.names, n),
        g1.edges.contains(e) ==> g2.edges.contains(e),
{
    if node_of(g1.names, n) >= 0 {
        lemma_node_of_prefix(g1.names, g2.names, n);
    }
    if g1.edges.contains(e) {
        let k = choose|k: int| 0 <= k < g1.edges.len() && g1.edges[k] == e;
        assert(g2.edges.subrange(0, g1.edges.len() as int)[k] == g2.edges[k]);
    }
}

proof fn lemma_node_of_prefix(a: Seq<Seq<char>>, b: Seq<Seq<char>>, n: Seq<char>)
    requires
        node_of(a, n) >= 0,
        a.len() <= b.len(),
        b.subrange(0, a.len() as int) == a,
    ensures
        node_of(b, n) == node_of(a, n),
    decreases b.len(),
{
    if b.len() > a.len() {
        assert(b.drop_last().subrange(0, a.len() as int) =~= a);
        lemma_node_of_prefix(a, b.drop_last(), n);
    } else {
        assert(b =~= a);
    }
}

proof fn lemma_add_node_extends(g: GraphModel, n: Seq<char>)
    ensures
        extends(g, add_node(g, n)),
        node_of(add_node(g, n).names, n) >= 0,
{
    lemma_node_of(g.names, n);
    if node_of(g.names, n) < 0 {
        let names = g.names.push(n);
        assert(names.subrange(0, g.names.len() as int) =~= g.names);
        assert(g.edges.subrange(0, g.edges.len() as int) =~= g.edges);
        crate::graph::lemma_node_of_push(g.names, n, n);
    } else {
        assert(g.names.subrange(0, g.names.len() as int) =~= g.names);
        assert(g.edges.subrange(0, g.edges.len() as int) =~= g.edges);
    }
}

proof fn lemma_add_body_edges_extends(g: GraphModel, head: Seq<char>, bodies: Seq<Seq<char>>)
    ensures
        extends(g, add_body_edges(g, head, bodies)),
    decreases bodies.len(),
{
    if bodies.len() == 0 {
        assert(g.names.subrange(0, g.names.len() as int) =~= g.names);
        assert(g.edges.subrange(0, g.edges.len() as int) =~= g.edges);
    } else {
        let g0 = add_body_edges(g, head, bodies.drop_last());
        lemma_add_body_edges_extends(g, head, bodies.drop_last());
        let g1 = add_node(g0, bodies.last());
        lemma_add_node_extends(g0, bodies.last());
        let f = add_body_edges(g, head, bodies);
        assert(f.edges.subrange(0, g1.edges.len() as int) =~= g1.edges);
        assert(f.names.subrange(0, g1.names.len() as int) =~= g1.names);
        lemma_extends_trans(g0, g1, f);
        lemma_extends_trans(g, g0, f);
    }
}

proof fn lemma_body_edge_present(g: GraphModel, head: Seq<char>, bodies: Seq<Seq<char>>, j: int)
    requires
        node_of(g.names, head) >= 0,
        0 <= j < bodies.len(),
    ensures
        ({
            let f = add_body_edges(g, head, bodies);
            &&& node_of(f.names, bodies[j]) >= 0
            &&& node_of(f.names, head) >= 0
            &&& f.edges.contains((node_of(f.names, bodies[j]), node_of(f.names, head)))
        }),
    decreases bodies.len(),
{
    let f = add_body_edges(g, head, bodies);
    let g0 = add_body_edges(g, head, bodies.drop_last());
    let g1 = add_node(g0, bodies.last());
    lemma_add_body_edges_extends(g, head, bodies.drop_last());
    lemma_add_node_extends(g0, bodies.last());
    lemma_extends_trans(g, g0, g1);
    lemma_extends_keeps(g, g1, head, (0, 0));
    let e = (node_of(g1.names, bodies.last()), node_of(g1.names, head));
    assert(f.edges == g1.edges.push(e));
    assert(f.edges[f.edges.len() - 1] == e);
    if j < bodies.len() - 1 {
        lemma_body_edge_present(g, head, bodies.drop_last(), j);
        assert(bodies.drop_last()[j] == bodies[j]);
        let e0 = (node_of(g0.names, bodies[j]), node_of(g0.names, head));
        assert(extends(g1, f)) by {
            assert(f.names.subrange(0, g1.names.len() as int) =~= g1.names);
            assert(f.edges.subrange(0, g1.edges.len() as int) =~= g1.edges);
        }
        lemma_extends_trans(g0, g1, f);
        lemma_extends_keeps(g0, f, bodies[j], e0);
        lemma_extends_keeps(g0, f, head, e0);
    }
}

proof fn lemma_graph_of_extends(deps: Seq<(Seq<char>, Seq<Seq<char>>)>, k: int)
    requires
        0 <= k <= deps.len(),
    ensures
        extends(graph_of(deps.take(k)), graph_of(deps)),
    decreases deps.len(),
{
    if k == deps.len() {
        assert(deps.take(k) =~= deps);
        let g = graph_of(deps);
        assert(g.names.subrange(0, g.names.len() as int) =~= g.names);
        assert(g.edges.subrange(0, g.edges.len() as int) =~= g.edges);
    } else {
        let prev = deps.drop_last();
        assert(prev.take(k) =~= deps.take(k));
        lemma_graph_of_extends(prev, k);
        let g0 = graph_of(prev);
        let last = deps.last();
        lemma_add_node_extends(g0, last.0);
        lemma_add_body_edges_extends(add_node(g0, last.0), last.0, last.1);
        lemma_extends_trans(g0, add_node(g0, last.0), graph_of(deps));
        lemma_extends_trans(graph_of(deps.take(k)), g0, graph_of(deps));
    }
}

/// The dependency graph has an edge from the relation of every positive
/// body literal of every rule to that rule's head relation, and both are
/// nodes of it.
pub proof fn law_dependency_edges_complete(p: Program, i: int, j: int)
    requires
        0 <= i < rules_of(p.statements@).len(),
        0 <= j < positive_names(rules_of(p.statements@)[i].0.body).len(),
    ensures
        ({
            let g = program_graph(p);
            let r = rules_of(p.statements@)[i].0;
            let b = positive_names(r.body)[j];
            &&& node_of(g.names, b) >= 0
            &&& node_of(g.names, r.head.name) >= 0
            &&& g.edges.contains((node_of(g.names, b), node_of(g.names, r.head.name)))
        }),
{
    let rules = rules_of(p.statements@);
    let deps = dependencies(rules);
    let r = rules[i].0;
    let h = r.head.name;
    let bodies = positive_names(r.body);
    assert(deps[i] == (h, bodies));
    assert(deps.take(i + 1).drop_last() =~= deps.take(i));
    let g0 = graph_of(deps.take(i));
    let gh = add_node(g0, h);
    lemma_add_node_extends(g0, h);
    let f = graph_of(deps.take(i + 1));
    assert(f == add_rule_edges(g0, h, bodies));
    lemma_body_edge_present(gh, h, bodies, j);
    lemma_graph_of_extends(deps, i + 1);
    let e = (node_of(f.names, bodies[j]), node_of(f.names, h));
    lemma_extends_keeps(f, program_graph(p), bodies[j], e);
    lemma_extends_keeps(f, program_graph(p), h, e);
}

/// The node names of a graph built by `graph_of` are distinct.
proof fn lemma_names_distinct(deps: Seq<(Seq<char>, Seq<Seq<char>>)>)
    ensures
        ({
            let names = graph_of(deps).names;
            forall|a: int, b: int| 0 <= a < names.len() && 0 <= b < names.len() && a != b ==> #[trigger] names[a] != #[trigger] names[b]
        }),
    decreases deps.len(),
{
    if deps.len() > 0 {
        lemma_names_distinct(deps.drop_last());
        let last = deps.last();
        lemma_add_node_distinct(graph_of(deps.drop_last()), last.0);
        lemma_body_edges_distinct(add_node(graph_of(deps.drop_last()), last.0), last.0, last.1);
    }
}

pub open spec fn distinct_names(g: GraphModel) -> bool {
    forall|a: int, b: int| 0 <= a < g.names.len() && 0 <= b < g.names.len() && a != b ==> #[trigger] g.names[a] != #[trigger] g.names[b]
}

proof fn lemma_add_node_distinct(g: GraphModel, n: Seq<char>)
    requires
        distinct_names(g),
    ensures
        distinct_names(add_node(g, n)),
{
    lemma_node_of(g.names, n);
    if node_of(g.names, n) < 0 {
        let names = g.names.push(n);
        assert forall|a: int, b: int| 0 <= a < names.len() && 0 <= b < names.len() && a != b implies #[trigger] names[a]
            != #[trigger] names[b] by {
            if a == names.len() - 1 {
                assert(names[b] == g.names[b]);
            } else if b == names.len() - 1 {
                assert(names[a] == g.names[a]);
            } else {
                assert(names[a] == g.names[a] && names[b] == g.names[b]);
            }
        }
    }
}

proof fn lemma_body_edges_distinct(g: GraphModel, head: Seq<char>, bodies: Seq<Seq<char>>)
    requires
        distinct_names(g),
    ensures
        distinct_names(add_body_edges(g, head, bodies)),
    decreases bodies.len(),
{
    if bodies.len() > 0 {
        lemma_body_edges_distinct(g, head, bodies.drop_last());
        lemma_add_node_distinct(add_body_edges(g, head, bodies.drop_last()), bodies.last());
    }
}

/// The head relation of every rule is a node of the dependency graph.
proof fn lemma_head_is_node(p: Program, i: int)
    requires
        0 <= i < rules_of(p.statements@).len(),
    ensures
        node_of(program_graph(p).names, rules_of(p.statements@)[i].0.head.name) >= 0,
{
    let rules = rules_of(p.statements@);
    let deps = dependencies(rules);
    let h = rules[i].0.head.name;
    assert(deps[i].0 == h);
    assert(deps.take(i + 1).drop_last() =~= deps.take(i));
    let g0 = graph_of(deps.take(i));
    lemma_add_node_extends(g0, h);
    lemma_add_body_edges_extends(add_node(g0, h), h, deps[i].1);
    let f = graph_of(deps.take(i + 1));
    lemma_extends_keeps(add_node(g0, h), f, h, (0, 0));
    lemma_graph_of_extends(deps, i + 1);
    lemma_extends_keeps(f, program_graph(p), h, (0, 0));
}

proof fn lemma_rules_defining_has(rules: Seq<(RuleModel, bool)>, names: Seq<Seq<char>>, i: int)
    requires
        0 <= i < rules.len(),
        names.contains(rules[i].0.head.name),
    ensures
        rules_defining(rules, names).contains(rules[i].0),
    decreases rules.len(),
{
    if i < rules.len() - 1 {
        lemma_rules_defining_has(rules.drop_last(), names, i);
        let prev = rules_defining(rules.drop_last(), names);
        let k = choose|k: int| 0 <= k < prev.len() && prev[k] == rules[i].0;
        assert(rules_defining(rules, names)[k] == prev[k]);
    } else {
        let r = rules_defining(rules, names);
        assert(r[r.len() - 1] == rules[i].0);
    }
}

/// The stratum a plan entry gives when it defines a rule.
pub open spec fn stratum_at(plan: Seq<Seq<int>>, g: GraphModel, rules: Seq<(RuleModel, bool)>, t: int) -> Option<StratumModel> {
    let c = plan[t];
    let names = component_names(c, g.names);
    let defined = rules_defining(rules, names);
    if defined.len() > 0 {
        Some(StratumModel { is_recursive: is_recursive(c, g.edges), relation_names: names, rules: defined })
    } else {
        None
    }
}

/// How many strata the plan entries before `t` give.
pub open spec fn strata_before(plan: Seq<Seq<int>>, g: GraphModel, rules: Seq<(RuleModel, bool)>, t: int) -> int {
    strata_of(plan.take(t), g, rules).len() as int
}

proof fn lemma_strata_step(plan: Seq<Seq<int>>, g: GraphModel, rules: Seq<(RuleModel, bool)>, t: int)
    requires
        0 <= t < plan.len(),
    ensures
        strata_of(plan.take(t + 1), g, rules) == strata_of(plan.take(t), g, rules) + match stratum_at(plan, g, rules, t) {
            Some(s) => seq![s],
            None => Seq::empty(),
        },
{
    assert(plan.take(t + 1).drop_last() =~= plan.take(t));
    assert(plan.take(t + 1).last() == plan[t]);
}

proof fn lemma_strata_prefix(plan: Seq<Seq<int>>, g: GraphModel, rules: Seq<(RuleModel, bool)>, t: int, u: int)
    requires
        0 <= t <= u <= plan.len(),
    ensures
        strata_before(plan, g, rules, t) <= strata_before(plan, g, rules, u),
        strata_of(plan.take(u), g, rules).subrange(0, strata_before(plan, g, rules, t)) == strata_of(plan.take(t), g, rules),
    decreases u - t,
{
    if t == u {
        let s = strata_of(plan.take(t), g, rules);
        assert(s.subrange(0, s.len() as int) =~= s);
    } else {
        lemma_strata_prefix(plan, g, rules, t, u - 1);
        lemma_strata_step(plan, g, rules, u - 1);
        let a = strata_of(plan.take(u - 1), g, rules);
        let b = strata_of(plan.take(u), g, rules);
        assert(b.subrange(0, strata_before(plan, g, rules, t)) =~= a.subrange(0, strata_before(plan, g, rules, t)));
    }
}

/// Plan entry `t`, when it defines a rule, stands at index
/// `strata_before(t)` of the strata.
proof fn lemma_stratum_index(plan: Seq<Seq<int>>, g: GraphModel, rules: Seq<(RuleModel, bool)>, t: int)
    requires
        0 <= t < plan.len(),
        stratum_at(plan, g, rules, t) is Some,
    ensures
        strata_before(plan, g, rules, t) < strata_of(plan, g, rules).len(),
        strata_of(plan, g, rules)[strata_before(plan, g, rules, t)] == stratum_at(plan, g, rules, t)->0,
        forall|u: int| t < u <= plan.len() ==> strata_before(plan, g, rules, t) < #[trigger] strata_before(plan, g, rules, u),
{
    lemma_strata_step(plan, g, rules, t);
    assert(plan.take(plan.len() as int) =~= plan);
    lemma_strata_prefix(plan, g, rules, t + 1, plan.len() as int);
    let full = strata_of(plan, g, rules);
    let upto = strata_of(plan.take(t + 1), g, rules);
    assert(full.subrange(0, upto.len() as int)[strata_before(plan, g, rules, t)] == upto[strata_before(plan, g, rules, t)]);
    assert forall|u: int| t < u <= plan.len() implies strata_before(plan, g, rules, t) < #[trigger] strata_before(
        plan,
        g,
        rules,
        u,
    ) by {
        lemma_strata_prefix(plan, g, rules, t + 1, u);
    }
}

/// Every stratum comes from a plan entry.
proof fn lemma_stratum_source(plan: Seq<Seq<int>>, g: GraphModel, rules: Seq<(RuleModel, bool)>, s: int)
    requires
        0 <= s < strata_of(plan, g, rules).len(),
    ensures
        exists|t: int|
            0 <= t < plan.len() && stratum_at(plan, g, rules, t) is Some && #[trigger] strata_before(plan, g, rules, t) == s,
    decreases plan.len(),
{
    let prev = plan.drop_last();
    let t = plan.len() - 1;
    assert(plan.take(t) =~= prev);
    assert(plan.take(plan.len() as int) =~= plan);
    lemma_strata_step(plan, g, rules, t);
    if s < strata_of(prev, g, rules).len() {
        lemma_stratum_source(prev, g, rules, s);
        let t0 = choose|t0: int|
            0 <= t0 < prev.len() && stratum_at(prev, g, rules, t0) is Some && #[trigger] strata_before(prev, g, rules, t0) == s;
        assert(prev.take(t0) =~= plan.take(t0));
        assert(prev[t0] == plan[t0]);
        assert(strata_before(plan, g, rules, t0) == s);
    } else {
        assert(strata_before(plan, g, rules, t) == s);
    }
}

proof fn lemma_names_has_node(c: Seq<int>, names: Seq<Seq<char>>, h: Seq<char>)
    requires
        component_names(c, names).contains(h),
    ensures
        exists|i: int| 0 <= i < c.len() && names[#[trigger] c[i]] == h,
{
    let i = choose|i: int| 0 <= i < component_names(c, names).len() && component_names(c, names)[i] == h;
    assert(names[c[i]] == h);
}

proof fn lemma_body_edges_in_range(g: GraphModel, head: Seq<char>, bodies: Seq<Seq<char>>)
    requires
        edges_in_range(g),
        node_of(g.names, head) >= 0,
    ensures
        edges_in_range(add_body_edges(g, head, bodies)),
    decreases bodies.len(),
{
    if bodies.len() > 0 {
        let g0 = add_body_edges(g, head, bodies.drop_last());
        lemma_body_edges_in_range(g, head, bodies.drop_last());
        lemma_add_body_edges_extends(g, head, bodies.drop_last());
        let g1 = add_node(g0, bodies.last());
        lemma_add_node_extends(g0, bodies.last());
        lemma_extends_trans(g, g0, g1);
        lemma_extends_keeps(g, g1, head, (0, 0));
        lemma_node_of(g1.names, head);
        lemma_node_of(g1.names, bodies.last());
        let f = add_body_edges(g, head, bodies);
        assert forall|k: int| 0 <= k < f.edges.len() implies 0 <= (#[trigger] f.edges[k]).0 < f.names.len() && 0
            <= f.edges[k].1 < f.names.len() by {
            if k < g1.edges.len() {
                assert(f.edges[k] == g1.edges[k]);
                assert(g1.edges == g0.edges);
            }
        }
    }
}

/// Every edge of a graph built by `graph_of` joins two of its nodes.
proof fn lemma_graph_edges_in_range(deps: Seq<(Seq<char>, Seq<Seq<char>>)>)
    ensures
        edges_in_range(graph_of(deps)),
    decreases deps.len(),
{
    if deps.len() > 0 {
        lemma_graph_edges_in_range(deps.drop_last());
        let g0 = graph_of(deps.drop_last());
        let last = deps.last();
        lemma_add_node_extends(g0, last.0);
        let gh = add_node(g0, last.0);
        assert(edges_in_range(gh)) by {
            assert forall|k: int| 0 <= k < gh.edges.len() implies 0 <= (#[trigger] gh.edges[k]).0 < gh.names.len() && 0
                <= gh.edges[k].1 < gh.names.len() by {
                assert(gh.edges == g0.edges);
            }
        }
        lemma_body_edges_in_range(gh, last.0, last.1);
    }
}

/// An edge between two components gives their pair in the condensation.
proof fn lemma_condensation_has(comps: Seq<Seq<int>>, edges: Seq<(int, int)>, e: int)
    requires
        0 <= e < edges.len(),
        component_of(comps, edges[e].0) != component_of(comps, edges[e].1),
    ensures
        condensation(comps, edges).contains((component_of(comps, edges[e].0), component_of(comps, edges[e].1))),
    decreases edges.len(),
{
    let pair = (component_of(comps, edges[e].0), component_of(comps, edges[e].1));
    if e < edges.len() - 1 {
        assert(edges.drop_last()[e] == edges[e]);
        lemma_condensation_has(comps, edges.drop_last(), e);
        let prev = condensation(comps, edges.drop_last());
        let k = choose|k: int| 0 <= k < prev.len() && prev[k] == pair;
        assert(condensation(comps, edges)[k] == prev[k]);
    } else {
        let c = condensation(comps, edges);
        assert(c[c.len() - 1] == pair);
    }
}

/// The validity of the components and their order, as the calls of
/// `tarjan_scc` and `toposort` guarantee them.
pub open spec fn plan_valid(g: GraphModel) -> bool {
    let comps = components_of(g.names.len(), g.edges);
    let cond = condensation(comps, g.edges);
    let order = topological_order_of(comps.len(), cond);
    &&& is_partition(comps, g.names.len() as int)
    &&& is_ordering(order, comps.len() as int)
    &&& respects_edges(order, cond)
}

/// The plan entry that holds node `x`, when the stratum of entry `t` names
/// the relation of `x`.
proof fn lemma_stratum_entry(g: GraphModel, rules: Seq<(RuleModel, bool)>, x: int, t: int)
    requires
        plan_valid(g),
        distinct_names(g),
        0 <= x < g.names.len(),
        0 <= t < execution_plan_of(components_of(g.names.len(), g.edges), g.edges).len(),
        component_names(execution_plan_of(components_of(g.names.len(), g.edges), g.edges)[t], g.names).contains(
            g.names[x],
        ),
    ensures
        ({
            let comps = components_of(g.names.len(), g.edges);
            let order = topological_order_of(comps.len(), condensation(comps, g.edges));
            order[t] == component_of(comps, x)
        }),
{
    let comps = components_of(g.names.len(), g.edges);
    let order = topological_order_of(comps.len(), condensation(comps, g.edges));
    let plan = execution_plan_of(comps, g.edges);
    assert(plan[t] == comps[order[t]]);
    lemma_names_has_node(plan[t], g.names, g.names[x]);
    let iy = choose|iy: int| 0 <= iy < plan[t].len() && g.names[#[trigger] plan[t][iy]] == g.names[x];
    let y = plan[t][iy];
    assert(0 <= y < g.names.len());
    assert(y == x);
    lemma_component_of(comps, g.names.len() as int, order[t], iy);
}

/// Each rule lands in exactly one stratum of the plan: the one whose
/// relations hold its head relation, and that stratum lists the rule.
pub proof fn law_stratum_coverage(p: Program, i: int)
    requires
        plan_valid(program_graph(p)),
        0 <= i < rules_of(p.statements@).len(),
    ensures
        ({
            let g = program_graph(p);
            let rules = rules_of(p.statements@);
            let strata = strata_of(execution_plan_of(components_of(g.names.len(), g.edges), g.edges), g, rules);
            let h = rules[i].0.head.name;
            &&& exists|s: int|
                0 <= s < strata.len() && (#[trigger] strata[s]).relation_names.contains(h) && strata[s].rules.contains(
                    rules[i].0,
                )
            &&& forall|s1: int, s2: int|
                0 <= s1 < strata.len() && 0 <= s2 < strata.len() && (#[trigger] strata[s1]).relation_names.contains(h)
                    && (#[trigger] strata[s2]).relation_names.contains(h) ==> s1 == s2
        }),
{
    let g = program_graph(p);
    let rules = rules_of(p.statements@);
    let comps = components_of(g.names.len(), g.edges);
    let order = topological_order_of(comps.len(), condensation(comps, g.edges));
    let plan = execution_plan_of(comps, g.edges);
    let strata = strata_of(plan, g, rules);
    let h = rules[i].0.head.name;
    lemma_names_distinct(dependencies(rules));
    lemma_head_is_node(p, i);
    lemma_node_of(g.names, h);
    let x = node_of(g.names, h);
    lemma_component_of_node(comps, g.names.len() as int, x);
    let k = component_of(comps, x);
    assert(order.contains(k));
    let t = choose|t: int| 0 <= t < order.len() && order[t] == k;
    assert(plan[t] == comps[k]);
    let ix = choose|ix: int| 0 <= ix < comps[k].len() && comps[k][ix] == x;
    let names_t = component_names(plan[t], g.names);
    assert(names_t[ix] == h);
    assert(names_t.contains(h));
    lemma_rules_defining_has(rules, names_t, i);
    assert(stratum_at(plan, g, rules, t) is Some);
    lemma_stratum_index(plan, g, rules, t);
    let s = strata_before(plan, g, rules, t);
    assert(strata[s].relation_names.contains(h) && strata[s].rules.contains(rules[i].0));
    assert forall|s1: int, s2: int|
        0 <= s1 < strata.len() && 0 <= s2 < strata.len() && (#[trigger] strata[s1]).relation_names.contains(h)
            && (#[trigger] strata[s2]).relation_names.contains(h) implies s1 == s2 by {
        lemma_stratum_source(plan, g, rules, s1);
        lemma_stratum_source(plan, g, rules, s2);
        let t1 = choose|t1: int|
            0 <= t1 < plan.len() && stratum_at(plan, g, rules, t1) is Some && #[trigger] strata_before(plan, g, rules, t1) == s1;
        let t2 = choose|t2: int|
            0 <= t2 < plan.len() && stratum_at(plan, g, rules, t2) is Some && #[trigger] strata_before(plan, g, rules, t2) == s2;
        lemma_stratum_index(plan, g, rules, t1);
        lemma_stratum_index(plan, g, rules, t2);
        lemma_stratum_entry(g, rules, x, t1);
        lemma_stratum_entry(g, rules, x, t2);
        assert(order[t1] == order[t2]);
    }
}

/// For a dependency edge `u -> v` between two different components, the
/// stratum that names `u` comes before the stratum that names `v`.
pub proof fn law_topological_order(p: Program, e: int, s1: int, s2: int)
    requires
        plan_valid(program_graph(p)),
        0 <= e < program_graph(p).edges.len(),
        ({
            let g = program_graph(p);
            let comps = components_of(g.names.len(), g.edges);
            component_of(comps, g.edges[e].0) != component_of(comps, g.edges[e].1)
        }),
        ({
            let g = program_graph(p);
            let strata = strata_of(
                execution_plan_of(components_of(g.names.len(), g.edges), g.edges),
                g,
                rules_of(p.statements@),
            );
            &&& 0 <= s1 < strata.len()
            &&& 0 <= s2 < strata.len()
            &&& strata[s1].relation_names.contains(g.names[g.edges[e].0])
            &&& strata[s2].relation_names.contains(g.names[g.edges[e].1])
        }),
    ensures
        s1 < s2,
{
    let g = program_graph(p);
    let rules = rules_of(p.statements@);
    let comps = components_of(g.names.len(), g.edges);
    let cond = condensation(comps, g.edges);
    let order = topological_order_of(comps.len(), cond);
    let plan = execution_plan_of(comps, g.edges);
    let strata = strata_of(plan, g, rules);
    let (u, v) = g.edges[e];
    lemma_names_distinct(dependencies(rules));
    lemma_graph_edges_in_range(dependencies(rules));
    lemma_stratum_source(plan, g, rules, s1);
    lemma_stratum_source(plan, g, rules, s2);
    let t1 = choose|t1: int|
        0 <= t1 < plan.len() && stratum_at(plan, g, rules, t1) is Some && #[trigger] strata_before(plan, g, rules, t1) == s1;
    let t2 = choose|t2: int|
        0 <= t2 < plan.len() && stratum_at(plan, g, rules, t2) is Some && #[trigger] strata_before(plan, g, rules, t2) == s2;
    lemma_stratum_index(plan, g, rules, t1);
    lemma_stratum_index(plan, g, rules, t2);
    lemma_stratum_entry(g, rules, u, t1);
    lemma_stratum_entry(g, rules, v, t2);
    lemma_condensation_has(comps, g.edges, e);
    let pair = (component_of(comps, u), component_of(comps, v));
    let ce = choose|ce: int| 0 <= ce < cond.len() && cond[ce] == pair;
    assert(cond[ce] == (order[t1], order[t2]));
    assert(t1 < t2);
}
} // verus!
