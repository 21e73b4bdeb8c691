use vstd::prelude::*;

use crate::ast::{ReadDirective, ReadModel, Rule, RuleModel, Statement, WriteDirective};
use crate::graph::{
    components_model, ids, components_of, condensation, component_of, edge_model, edges_in_range,
    in_reverse_topological_order, is_ordering, is_partition, lemma_component_of_node,
    lemma_descending_acyclic, respects_edges, topological_order, topological_order_of, GraphModel,
};
use crate::validator::{component_names, infos_model, is_recursive, names_contain, rules_of, Validator};

verus! {

/// One evaluation unit: a strongly connected group of relations and the
/// rules that define them.
#[derive(Debug)]
pub struct Stratum {
    pub is_recursive: bool,
    pub relation_names: Vec<String>,
    pub rules: Vec<Rule>,
}

pub struct StratumModel {
    pub is_recursive: bool,
    pub relation_names: Seq<Seq<char>>,
    pub rules: Seq<RuleModel>,
}

impl View for Stratum {
    type V = StratumModel;

    open spec fn view(&self) -> StratumModel {
        StratumModel {
            is_recursive: self.is_recursive,
            relation_names: self.relation_names@.map_values(|s: String| s@),
            rules: self.rules@.map_values(|r: Rule| r@),
        }
    }
}

/// The plan handed to an execution backend: the inputs, the strata in an
/// order in which they can run, and the outputs.
#[derive(Debug)]
pub struct OrderedProgram {
    pub inputs: Vec<ReadDirective>,
    pub strata: Vec<Stratum>,
    pub outputs: Vec<WriteDirective>,
}

/// The `.read` directives of a program, in order.
pub open spec fn reads_of(statements: Seq<Statement>) -> Seq<ReadModel>
    decreases statements.len(),
{
    if statements.len() == 0 {
        Seq::empty()
    } else {
        reads_of(statements.drop_last()) + match statements.last() {
            Statement::Read(d) => seq![d@],
            _ => Seq::empty(),
        }
    }
}

/// The `.write` directives of a program, in order.
pub open spec fn writes_of(statements: Seq<Statement>) -> Seq<WriteDirective>
    decreases statements.len(),
{
    if statements.len() == 0 {
        Seq::empty()
    } else {
        writes_of(statements.drop_last()) + match statements.last() {
            Statement::Write(d) => seq![d],
            _ => Seq::empty(),
        }
    }
}

/// The rules whose head is one of `relations`, in program order.
pub open spec fn rules_defining(rules: Seq<(RuleModel, bool)>, relations: Seq<Seq<char>>) -> Seq<RuleModel>
    decreases rules.len(),
{
    if rules.len() == 0 {
        Seq::empty()
    } else {
        rules_defining(rules.drop_last(), relations) + if relations.contains(rules.last().0.head.name) {
            seq![rules.last().0]
        } else {
            Seq::empty()
        }
    }
}

/// The components in the order the backend runs them: the topological
/// order that `toposort` gives the condensation.
pub open spec fn execution_plan_of(comps: Seq<Seq<int>>, edges: Seq<(int, int)>) -> Seq<Seq<int>> {
    topological_order_of(comps.len(), condensation(comps, edges)).map_values(|k: int| comps[k])
}

/// The strata of a plan: one for each component that defines at least one
/// rule, in the plan's order.
pub open spec fn strata_of(plan: Seq<Seq<int>>, g: GraphModel, rules: Seq<(RuleModel, bool)>) -> Seq<
    StratumModel,
>
    decreases plan.len(),
{
    if plan.len() == 0 {
        Seq::empty()
    } else {
        let c = plan.last();
        let names = component_names(c, g.names);
        let defined = rules_defining(rules, names);
        strata_of(plan.drop_last(), g, rules) + if defined.len() > 0 {
            seq![StratumModel { is_recursive: is_recursive(c, g.edges), relation_names: names, rules: defined }]
        } else {
            Seq::empty()
        }
    }
}

/// What the planner needs of a list of components: they are those that
/// `tarjan_scc` gives the validator's graph.
pub open spec fn components_ok(v: Validator, comps: Seq<Seq<int>>) -> bool {
    let g = v.dependency_graph@;
    &&& v.wf()
    &&& g.names.len() < u32::MAX
    &&& g.edges.len() < u32::MAX
    &&& comps == components_of(g.names.len(), g.edges)
    &&& comps.len() <= g.names.len()
    &&& is_partition(comps, g.names.len() as int)
    &&& in_reverse_topological_order(comps, g.edges)
}

/// Orders the strongly connected components of a validated program and
/// groups its rules into strata.
pub struct Planner<'a> {
    valid_program: &'a Validator<'a>,
    sccs: Vec<Vec<usize>>,
}

impl<'a> Planner<'a> {
    pub closed spec fn validator(&self) -> Validator<'a> {
        *self.valid_program
    }

    pub closed spec fn components(&self) -> Seq<Seq<int>> {
        components_model(self.sccs@)
    }

    pub fn new(valid_program: &'a Validator<'a>, sccs: Vec<Vec<usize>>) -> (r: Planner<'a>)
        requires
            components_ok(*valid_program, components_model(sccs@)),
        ensures
            r.validator() == *valid_program,
            r.components() == components_model(sccs@),
    {
        Planner { valid_program, sccs }
    }
}


impl<'a> Planner<'a> {
    /// The components in execution order: the condensation of the
    /// dependency graph, sorted topologically.
    pub fn make_execution_plan(&self) -> (r: Vec<Vec<usize>>)
        requires
            components_ok(self.validator(), self.components()),
        ensures
            components_model(r@) == execution_plan_of(
                self.components(),
                self.validator().dependency_graph@.edges,
            ),
            is_ordering(
                topological_order_of(
                    self.components().len(),
                    condensation(self.components(), self.validator().dependency_graph@.edges),
                ),
                self.components().len() as int,
            ),
            respects_edges(
                topological_order_of(
                    self.components().len(),
                    condensation(self.components(), self.validator().dependency_graph@.edges),
                ),
                condensation(self.components(), self.validator().dependency_graph@.edges),
            ),
    {
        let graph = &self.valid_program.dependency_graph;
        let ghost g = graph@;
        let ghost comps = self.components();
        let n = graph.node_count();
        let sccs = &self.sccs;
        let mut node_to_scc: Vec<usize> = vec![0; n];
        let mut k: usize = 0;
        while k < sccs.len()
            invariant
                k <= sccs.len(),
                n == g.names.len(),
                comps == components_model(sccs@),
                is_partition(comps, n as int),
                node_to_scc.len() == n,
                forall|k2: int, i2: int|
                    0 <= k2 < k && 0 <= i2 < comps[k2].len() ==> node_to_scc@[#[trigger] comps[k2][i2]] == k2,
            decreases sccs.len() - k,
        {
            let scc = &sccs[k];
            let mut i: usize = 0;
            while i < scc.len()
                invariant
                    k < sccs.len(),
                    i <= scc.len(),
                    scc == &sccs@[k as int],
                    n == g.names.len(),
                    comps == components_model(sccs@),
                    is_partition(comps, n as int),
                    node_to_scc.len() == n,
                    forall|k2: int, i2: int|
                        (0 <= k2 < k && 0 <= i2 < comps[k2].len()) || (k2 == k && 0 <= i2 < i)
                            ==> node_to_scc@[#[trigger] comps[k2][i2]] == k2,
                decreases scc.len() - i,
            {
                assert(comps[k as int][i as int] == scc@[i as int] as int);
                let x = scc[i];
                proof {
                    assert forall|k2: int, i2: int|
                        (0 <= k2 < k && 0 <= i2 < comps[k2].len()) || (k2 == k && 0 <= i2 < i)
                        implies comps[k2][i2] != x as int by {
                        assert(comps[k2][i2] == comps[k as int][i as int] ==> k2 == k && i2 == i);
                    }
                }
                node_to_scc.set(x, k);
                i = i + 1;
            }
            k = k + 1;
        }
        proof {
            assert forall|x: int| 0 <= x < n implies node_to_scc@[x] == component_of(comps, x) by {
                lemma_component_of_node(comps, n as int, x);
                let c = component_of(comps, x);
                let i = choose|i: int| 0 <= i < comps[c].len() && comps[c][i] == x;
                assert(node_to_scc@[comps[c][i]] == c);
            }
        }
        proof {
            graph.lemma_wf_edges();
        }
        let edges = graph.edges();
        let mut scc_edges: Vec<(usize, usize)> = Vec::new();
        let mut e: usize = 0;
        proof {
            assert(edge_model(edges@) == g.edges);
            assert(g.edges.take(0) =~= Seq::<(int, int)>::empty());
            assert(edge_model(scc_edges@) =~= Seq::<(int, int)>::empty());
        }
        while e < edges.len()
            invariant
                e <= edges.len(),
                n == g.names.len(),
                edge_model(edges@) == g.edges,
                edges_in_range(g),
                comps == components_model(sccs@),
                is_partition(comps, n as int),
                in_reverse_topological_order(comps, g.edges),
                node_to_scc.len() == n,
                forall|x: int| 0 <= x < n ==> node_to_scc@[x] == component_of(comps, x),
                edge_model(scc_edges@) == condensation(comps, g.edges.take(e as int)),
                scc_edges.len() <= e,
                forall|j: int|
                    0 <= j < scc_edges.len() ==> (#[trigger] scc_edges@[j]).1 < scc_edges@[j].0 < comps.len(),
            decreases edges.len() - e,
        {
            let (u, v) = edges[e];
            proof {
                assert(g.edges[e as int] == (u as int, v as int));
                assert(g.edges.take(e + 1).drop_last() =~= g.edges.take(e as int));
            }
            let cu = node_to_scc[u];
            let cv = node_to_scc[v];
            if cu != cv {
                proof {
                    lemma_component_of_node(comps, n as int, u as int);
                    lemma_component_of_node(comps, n as int, v as int);
                    let iu = choose|i: int| 0 <= i < comps[cu as int].len() && comps[cu as int][i] == u as int;
                    let iv = choose|i: int| 0 <= i < comps[cv as int].len() && comps[cv as int][i] == v as int;
                    assert(g.edges[e as int] == (comps[cu as int][iu], comps[cv as int][iv]));
                }
                let ghost before = scc_edges@;
                scc_edges.push((cu, cv));
                proof {
                    assert(edge_model(scc_edges@) =~= edge_model(before).push((cu as int, cv as int)));
                }
            }
            e = e + 1;
        }
        proof {
            assert(g.edges.take(edges.len() as int) =~= g.edges);
            let cm = edge_model(scc_edges@);
            assert forall|j: int| 0 <= j < cm.len() implies (#[trigger] cm[j]).1 < cm[j].0 by {
                assert(cm[j] == (scc_edges@[j].0 as int, scc_edges@[j].1 as int));
            }
            assert(edges_in_range(
                GraphModel { names: Seq::new(sccs.len() as nat, |i: int| Seq::empty()), edges: cm },
            )) by {
                assert forall|j: int| 0 <= j < cm.len() implies 0 <= (#[trigger] cm[j]).0 < sccs.len() && 0
                    <= cm[j].1 < sccs.len() by {
                    assert(cm[j] == (scc_edges@[j].0 as int, scc_edges@[j].1 as int));
                }
            }
        }
        match topological_order(sccs.len(), &scc_edges) {
            Ok(order) => {
                let ghost om = ids(order@);
                let mut plan: Vec<Vec<usize>> = Vec::new();
                let mut j: usize = 0;
                while j < order.len()
                    invariant
                        j <= order.len(),
                        om == ids(order@),
                        is_ordering(om, sccs.len() as int),
                        comps == components_model(sccs@),
                        components_model(plan@) == om.take(j as int).map_values(|k: int| comps[k]),
                    decreases order.len() - j,
                {
                    assert(om[j as int] == order@[j as int] as int);
                    let c = sccs[order[j]].clone();
                    let ghost before = plan@;
                    proof {
                        assert(c@ =~= sccs@[order@[j as int] as int]@);
                    }
                    plan.push(c);
                    proof {
                        let cm = ids(c@);
                        assert(comps[om[j as int]] == cm);
                        assert(components_model(plan@) =~= components_model(before).push(cm));
                        assert(om.take(j + 1).map_values(|k: int| comps[k]) =~= om.take(j as int).map_values(
                            |k: int| comps[k],
                        ).push(comps[om[j as int]]));
                    }
                    j = j + 1;
                }
                proof {
                    assert(om.take(order.len() as int) =~= om);
                }
                plan
            },
            Err(_) => {
                proof {
                    lemma_descending_acyclic(edge_model(scc_edges@));
                }
                Vec::new()
            },
        }
    }
}

/// Every node id in the components is below `n`.
pub open spec fn ids_below(comps: Seq<Seq<int>>, n: int) -> bool {
    forall|k: int, i: int| 0 <= k < comps.len() && 0 <= i < comps[k].len() ==> 0 <= #[trigger] comps[k][i] < n
}

impl<'a> Planner<'a> {
    /// One stratum for each component of the plan that defines a rule.
    fn make_strata(&self, execution_plan: Vec<Vec<usize>>) -> (r: Vec<Stratum>)
        requires
            self.validator().wf(),
            ids_below(components_model(execution_plan@), self.validator().dependency_graph@.names.len() as int),
        ensures
            r@.map_values(|s: Stratum| s@) == strata_of(
                components_model(execution_plan@),
                self.validator().dependency_graph@,
                rules_of(self.validator().ast.statements@),
            ),
    {
        let v = self.valid_program;
        let ghost g = v.dependency_graph@;
        let ghost plan = components_model(execution_plan@);
        let all_rules = v.find_all_rules();
        let ghost rules = infos_model(all_rules@);
        let mut strata: Vec<Stratum> = Vec::new();
        let mut t: usize = 0;
        proof {
            assert(plan.take(0) =~= Seq::<Seq<int>>::empty());
            assert(strata@.map_values(|s: Stratum| s@) =~= Seq::<StratumModel>::empty());
        }
        while t < execution_plan.len()
            invariant
                t <= execution_plan.len(),
                v == self.valid_program,
                v.wf(),
                g == v.dependency_graph@,
                plan == components_model(execution_plan@),
                ids_below(plan, g.names.len() as int),
                rules == infos_model(all_rules@),
                rules == rules_of(v.ast.statements@),
                strata@.map_values(|s: Stratum| s@) == strata_of(plan.take(t as int), g, rules),
            decreases execution_plan.len() - t,
        {
            let scc = &execution_plan[t];
            let ghost c = ids(scc@);
            proof {
                assert(plan[t as int] == c);
                assert forall|i: int| 0 <= i < scc@.len() implies (#[trigger] scc@[i]) < g.names.len() by {
                    assert(plan[t as int][i] == scc@[i] as int);
                }
                assert(plan.take(t + 1).drop_last() =~= plan.take(t as int));
            }
            let is_recursive = v.is_recursive_component(scc);
            let relation_names = v.relation_names_of(scc);
            let ghost names = component_names(c, g.names);
            let mut stratum_rules: Vec<Rule> = Vec::new();
            let mut j: usize = 0;
            proof {
                assert(rules.take(0) =~= Seq::<(RuleModel, bool)>::empty());
                assert(stratum_rules@.map_values(|r: Rule| r@) =~= Seq::<RuleModel>::empty());
            }
            while j < all_rules.len()
                invariant
                    j <= all_rules.len(),
                    rules == infos_model(all_rules@),
                    relation_names@.map_values(|s: String| s@) == names,
                    stratum_rules@.map_values(|r: Rule| r@) == rules_defining(rules.take(j as int), names),
                decreases all_rules.len() - j,
            {
                let info = &all_rules[j];
                proof {
                    assert(rules.take(j + 1).drop_last() =~= rules.take(j as int));
                    assert(rules[j as int] == (info.rule@, info.in_iterate_block));
                }
                if names_contain(&relation_names, &info.rule.head.name.0) {
                    let ghost before = stratum_rules@;
                    let cloned = info.rule.clone();
                    stratum_rules.push(cloned);
                    proof {
                        assert(stratum_rules@.map_values(|r: Rule| r@) =~= before.map_values(|r: Rule| r@).push(
                            info.rule@,
                        ));
                    }
                }
                j = j + 1;
            }
            proof {
                assert(rules.take(all_rules.len() as int) =~= rules);
            }
            if stratum_rules.len() > 0 {
                let ghost before = strata@;
                let stratum = Stratum { is_recursive, relation_names, rules: stratum_rules };
                strata.push(stratum);
                proof {
                    assert(strata@.map_values(|s: Stratum| s@) =~= before.map_values(|s: Stratum| s@).push(
                        stratum@,
                    ));
                }
            }
            t = t + 1;
        }
        proof {
            assert(plan.take(execution_plan.len() as int) =~= plan);
        }
        strata
    }
}

impl<'a> Planner<'a> {
    /// The ordered program: the `.read` and `.write` directives in source
    /// order, and one stratum for each component that defines a rule, in
    /// execution order.
    pub fn plan(&self) -> (r: OrderedProgram)
        requires
            components_ok(self.validator(), self.components()),
        ensures
            r.inputs@.map_values(|d: ReadDirective| d@) == reads_of(self.validator().ast.statements@),
            r.outputs@ == writes_of(self.validator().ast.statements@),
            r.strata@.map_values(|s: Stratum| s@) == strata_of(
                execution_plan_of(self.components(), self.validator().dependency_graph@.edges),
                self.validator().dependency_graph@,
                rules_of(self.validator().ast.statements@),
            ),
            crate::laws::plan_valid(self.validator().dependency_graph@),
    {
        let execution_plan = self.make_execution_plan();
        proof {
            let comps = self.components();
            let g = self.validator().dependency_graph@;
            let order = topological_order_of(comps.len(), condensation(comps, g.edges));
            let plan = components_model(execution_plan@);
            assert forall|k: int, i: int| 0 <= k < plan.len() && 0 <= i < plan[k].len() implies 0
                <= #[trigger] plan[k][i] < g.names.len() by {
                assert(plan[k] == comps[order[k]]);
            }
        }
        let statements = &self.valid_program.ast.statements;
        let mut inputs: Vec<ReadDirective> = Vec::new();
        let mut outputs: Vec<WriteDirective> = Vec::new();
        let mut i: usize = 0;
        proof {
            assert(statements@.take(0) =~= Seq::<Statement>::empty());
            assert(inputs@.map_values(|d: ReadDirective| d@) =~= Seq::<ReadModel>::empty());
            assert(outputs@ =~= Seq::<WriteDirective>::empty());
        }
        while i < statements.len()
            invariant
                i <= statements.len(),
                statements == &self.validator().ast.statements,
                inputs@.map_values(|d: ReadDirective| d@) == reads_of(statements@.take(i as int)),
                outputs@ == writes_of(statements@.take(i as int)),
            decreases statements.len() - i,
        {
            proof {
                assert(statements@.take(i + 1).drop_last() =~= statements@.take(i as int));
            }
            let ghost ins = inputs@;
            let ghost outs = outputs@;
            match &statements[i] {
                Statement::Read(d) => {
                    inputs.push(d.clone());
                    assert(inputs@.map_values(|d: ReadDirective| d@) =~= ins.map_values(|d: ReadDirective| d@).push(
                        d@,
                    ));
                    assert(outputs@ =~= writes_of(statements@.take(i + 1)));
                },
                Statement::Write(d) => {
                    outputs.push(d.clone());
                    assert(outputs@ =~= outs.push(*d));
                    assert(inputs@.map_values(|d: ReadDirective| d@) =~= reads_of(statements@.take(i + 1)));
                },
                _ => {
                    assert(inputs@.map_values(|d: ReadDirective| d@) =~= reads_of(statements@.take(i + 1)));
                    assert(outputs@ =~= writes_of(statements@.take(i + 1)));
                },
            }
            i = i + 1;
        }
        proof {
            assert(statements@.take(statements.len() as int) =~= statements@);
        }
        let strata = self.make_strata(execution_plan);
        OrderedProgram { inputs, strata, outputs }
    }
}
} // verus!
