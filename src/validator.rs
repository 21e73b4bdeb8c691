use vstd::prelude::*;

use crate::ast::{
    Literal, LiteralModel, Program, ReadDirective, Rule, RuleModel, RuleOrFact, RuleSpan, Statement,
};
use crate::graph::{
    components_model, components_of, graph_of, ids, is_partition, strongly_connected_components,
    DependencyGraph, GraphModel,
};
use crate::planner::{
    components_ok, execution_plan_of, reads_of, strata_of, writes_of, OrderedProgram, Planner, Stratum,
};

verus! {

/// The relations of the positive literals of a rule body, in order.
pub open spec fn positive_names(body: Seq<LiteralModel>) -> Seq<Seq<char>>
    decreases body.len(),
{
    if body.len() == 0 {
        Seq::empty()
    } else {
        positive_names(body.drop_last()) + match body.last() {
            LiteralModel::Positive(a) => seq![a.name],
            _ => Seq::empty(),
        }
    }
}

/// The rules of an iteration block, each marked as declared inside one.
pub open spec fn block_rules(items: Seq<RuleOrFact>) -> Seq<(RuleModel, bool)>
    decreases items.len(),
{
    if items.len() == 0 {
        Seq::empty()
    } else {
        block_rules(items.drop_last()) + match items.last() {
            RuleOrFact::Rule(r) => seq![(r@, true)],
            RuleOrFact::Fact(_) => Seq::empty(),
        }
    }
}

pub open spec fn statement_rules(s: Statement) -> Seq<(RuleModel, bool)> {
    match s {
        Statement::Rule(r) => seq![(r@, false)],
        Statement::Iterate(b) => block_rules(b.rules@),
        _ => Seq::empty(),
    }
}

/// Every rule of the program in order of appearance, top-level and inside
/// iteration blocks, with whether it was declared inside a block.
pub open spec fn rules_of(statements: Seq<Statement>) -> Seq<(RuleModel, bool)>
    decreases statements.len(),
{
    if statements.len() == 0 {
        Seq::empty()
    } else {
        rules_of(statements.drop_last()) + statement_rules(statements.last())
    }
}

/// Each rule as its head relation and its positive body relations.
pub open spec fn dependencies(rules: Seq<(RuleModel, bool)>) -> Seq<(Seq<char>, Seq<Seq<char>>)> {
    rules.map_values(|x: (RuleModel, bool)| (x.0.head.name, positive_names(x.0.body)))
}

/// The relation dependency graph of a program.
pub open spec fn program_graph(p: Program) -> GraphModel {
    graph_of(dependencies(rules_of(p.statements@)))
}

/// A component is recursive when it has more than one node or its one node
/// has an edge to itself.
pub open spec fn is_recursive(c: Seq<int>, edges: Seq<(int, int)>) -> bool {
    c.len() > 1 || (c.len() == 1 && edges.contains((c[0], c[0])))
}

/// The names of a component's nodes, in the component's order.
pub open spec fn component_names(c: Seq<int>, names: Seq<Seq<char>>) -> Seq<Seq<char>> {
    c.map_values(|i: int| names[i])
}

/// The rules declared outside an iteration block whose head is one of
/// `relations`, in order.
pub open spec fn misplaced(rules: Seq<(RuleModel, bool)>, relations: Seq<Seq<char>>) -> Seq<RuleModel>
    decreases rules.len(),
{
    if rules.len() == 0 {
        Seq::empty()
    } else {
        misplaced(rules.drop_last(), relations) + if !rules.last().1 && relations.contains(
            rules.last().0.head.name,
        ) {
            seq![rules.last().0]
        } else {
            Seq::empty()
        }
    }
}

/// The rules that validation reports, component by component.
pub open spec fn offending_rules(
    comps: Seq<Seq<int>>,
    g: GraphModel,
    rules: Seq<(RuleModel, bool)>,
) -> Seq<RuleModel>
    decreases comps.len(),
{
    if comps.len() == 0 {
        Seq::empty()
    } else {
        offending_rules(comps.drop_last(), g, rules) + if is_recursive(comps.last(), g.edges) {
            misplaced(rules, component_names(comps.last(), g.names))
        } else {
            Seq::empty()
        }
    }
}

/// A rule that belongs to a recursive definition but was declared outside
/// an `.iterate` block, and the lines it spans.
#[derive(Debug)]
pub struct ValidationError {
    pub error_message: String,
    pub span: RuleSpan,
}

/// A rule of the program, and whether it was declared in an iteration block.
pub struct RuleInfo<'a> {
    pub rule: &'a Rule,
    pub in_iterate_block: bool,
}

/// The relations a rule connects: its head and its positive body atoms.
pub struct RuleDependencies {
    pub head_name: String,
    pub body_names: Vec<String>,
}

/// Builds the dependency graph of a program and checks that recursion is
/// declared inside `.iterate` blocks.
pub struct Validator<'a> {
    pub ast: &'a Program,
    pub dependency_graph: DependencyGraph,
}

impl<'a> Validator<'a> {
    /// The graph is the dependency graph of the program.
    pub open spec fn wf(&self) -> bool {
        &&& self.dependency_graph.wf()
        &&& self.dependency_graph@ == program_graph(*self.ast)
    }

    pub fn extract_deps_from_rule(&self, rule: &Rule) -> (r: RuleDependencies)
        ensures
            r.head_name@ == rule@.head.name,
            r.body_names@.map_values(|s: String| s@) == positive_names(rule@.body),
    {
        let head_name = rule.head.name.0.clone();
        let mut body_names: Vec<String> = Vec::new();
        let mut i: usize = 0;
        while i < rule.body.len()
            invariant
                i <= rule.body.len(),
                body_names@.map_values(|s: String| s@) == positive_names(rule@.body.take(i as int)),
            decreases rule.body.len() - i,
        {
            let ghost before = body_names@;
            proof {
                assert(rule@.body.take(i + 1).drop_last() =~= rule@.body.take(i as int));
                assert(rule@.body.take(i + 1).last() == rule.body@[i as int]@);
            }
            if let Literal::Positive(p) = &rule.body[i] {
                body_names.push(p.name.0.clone());
                assert(body_names@.map_values(|s: String| s@) =~= before.map_values(|s: String| s@).push(p.name.0@));
            }
            i = i + 1;
        }
        assert(rule@.body.take(rule.body.len() as int) =~= rule@.body);
        RuleDependencies { head_name, body_names }
    }
}


/// The rule list of `rules_of` as plain pairs.
pub open spec fn infos_model(infos: Seq<RuleInfo>) -> Seq<(RuleModel, bool)> {
    infos.map_values(|ri: RuleInfo| (ri.rule@, ri.in_iterate_block))
}

pub open spec fn deps_model(deps: Seq<RuleDependencies>) -> Seq<(Seq<char>, Seq<Seq<char>>)> {
    deps.map_values(|d: RuleDependencies| (d.head_name@, d.body_names@.map_values(|s: String| s@)))
}

impl<'a> Validator<'a> {
    pub fn new(ast: &'a Program) -> (r: Validator<'a>)
        ensures
            r.ast == ast,
            r.wf(),
    {
        let mut validator = Validator { ast, dependency_graph: DependencyGraph::new() };
        validator.build_dependency_graph();
        validator
    }

    /// Every rule of the program in order, with whether it was declared in
    /// an iteration block.
    pub fn find_all_rules(&self) -> (r: Vec<RuleInfo<'a>>)
        ensures
            infos_model(r@) == rules_of(self.ast.statements@),
    {
        let statements = &self.ast.statements;
        let mut rules_list: Vec<RuleInfo<'a>> = Vec::new();
        let mut i: usize = 0;
        assert(infos_model(rules_list@) =~= rules_of(statements@.take(0)));
        while i < statements.len()
            invariant
                i <= statements.len(),
                statements == &self.ast.statements,
                infos_model(rules_list@) == rules_of(statements@.take(i as int)),
            decreases statements.len() - i,
        {
            proof {
                assert(statements@.take(i + 1).drop_last() =~= statements@.take(i as int));
            }
            let ghost before = rules_list@;
            match &statements[i] {
                Statement::Rule(rule) => {
                    rules_list.push(RuleInfo { rule, in_iterate_block: false });
                    assert(infos_model(rules_list@) =~= infos_model(before) + seq![(rule@, false)]);
                },
                Statement::Iterate(block) => {
                    let items = &block.rules;
                    let mut j: usize = 0;
                    assert(infos_model(rules_list@) =~= infos_model(before) + block_rules(items@.take(0)));
                    while j < items.len()
                        invariant
                            j <= items.len(),
                            infos_model(rules_list@) == infos_model(before) + block_rules(items@.take(j as int)),
                        decreases items.len() - j,
                    {
                        proof {
                            assert(items@.take(j + 1).drop_last() =~= items@.take(j as int));
                        }
                        let ghost mid = rules_list@;
                        if let RuleOrFact::Rule(rule) = &items[j] {
                            rules_list.push(RuleInfo { rule, in_iterate_block: true });
                            assert(infos_model(rules_list@) =~= infos_model(mid) + seq![(rule@, true)]);
                        } else {
                            assert(block_rules(items@.take(j + 1)) =~= block_rules(items@.take(j as int)));
                        }
                        j = j + 1;
                    }
                    assert(items@.take(items.len() as int) =~= items@);
                },
                _ => {
                    assert(statement_rules(statements@[i as int]) =~= Seq::<(RuleModel, bool)>::empty());
                    assert(infos_model(rules_list@) =~= infos_model(before));
                },
            }
            i = i + 1;
        }
        assert(statements@.take(statements.len() as int) =~= statements@);
        rules_list
    }

    pub fn collect_rule_dependencies(&self) -> (r: Vec<RuleDependencies>)
        ensures
            deps_model(r@) == dependencies(rules_of(self.ast.statements@)),
    {
        let infos = self.find_all_rules();
        let mut all_deps: Vec<RuleDependencies> = Vec::new();
        let mut i: usize = 0;
        while i < infos.len()
            invariant
                i <= infos.len(),
                infos_model(infos@) == rules_of(self.ast.statements@),
                deps_model(all_deps@) == dependencies(infos_model(infos@).take(i as int)),
            decreases infos.len() - i,
        {
            let ghost before = all_deps@;
            let d = self.extract_deps_from_rule(infos[i].rule);
            let ghost dm = (d.head_name@, d.body_names@.map_values(|s: String| s@));
            all_deps.push(d);
            proof {
                assert(infos_model(infos@)[i as int] == (infos@[i as int].rule@, infos@[i as int].in_iterate_block));
                assert(deps_model(all_deps@) =~= deps_model(before).push(dm));
                assert(dependencies(infos_model(infos@).take(i + 1)) =~= dependencies(infos_model(infos@).take(i as int)).push(dm));
                assert(deps_model(all_deps@) =~= dependencies(infos_model(infos@).take(i + 1)));
            }
            i = i + 1;
        }
        assert(infos_model(infos@).take(infos.len() as int) =~= infos_model(infos@));
        all_deps
    }

    fn build_dependency_graph(&mut self)
        requires
            old(self).dependency_graph.wf(),
            old(self).dependency_graph@ == (GraphModel { names: Seq::empty(), edges: Seq::empty() }),
        ensures
            final(self).ast == old(self).ast,
            final(self).wf(),
    {
        let all = self.collect_rule_dependencies();
        let ghost deps = deps_model(all@);
        let mut k: usize = 0;
        proof {
            assert(deps.take(0) =~= Seq::<(Seq<char>, Seq<Seq<char>>)>::empty());
        }
        while k < all.len()
            invariant
                k <= all.len(),
                deps == deps_model(all@),
                deps == dependencies(rules_of(self.ast.statements@)),
                self.ast == old(self).ast,
                self.dependency_graph.wf(),
                self.dependency_graph@ == graph_of(deps.take(k as int)),
            decreases all.len() - k,
        {
            let d = &all[k];
            let ghost g0 = self.dependency_graph@;
            let head_idx = self.dependency_graph.get_or_create_node(&d.head_name);
            let ghost g1 = self.dependency_graph@;
            let ghost bodies = d.body_names@.map_values(|s: String| s@);
            let mut j: usize = 0;
            proof {
                assert(bodies.take(0) =~= Seq::<Seq<char>>::empty());
                crate::graph::lemma_node_of(g1.names, d.head_name@);
            }
            while j < d.body_names.len()
                invariant
                    j <= d.body_names.len(),
                    bodies == d.body_names@.map_values(|s: String| s@),
                    self.dependency_graph.wf(),
                    self.dependency_graph@ == crate::graph::add_body_edges(g1, d.head_name@, bodies.take(j as int)),
                    head_idx as int == crate::graph::node_of(self.dependency_graph@.names, d.head_name@),
                    0 <= head_idx < self.dependency_graph@.names.len(),
                    self.ast == old(self).ast,
                decreases d.body_names.len() - j,
            {
                let ghost ga = self.dependency_graph@;
                let body_idx = self.dependency_graph.get_or_create_node(&d.body_names[j]);
                proof {
                    let gb = self.dependency_graph@;
                    crate::graph::lemma_node_of(gb.names, d.body_names@[j as int]@);
                    if crate::graph::node_of(ga.names, d.body_names@[j as int]@) < 0 {
                        crate::graph::lemma_node_of_push(ga.names, d.body_names@[j as int]@, d.head_name@);
                    }
                    assert(bodies.take(j + 1).drop_last() =~= bodies.take(j as int));
                }
                self.dependency_graph.add_edge(body_idx, head_idx);
                j = j + 1;
            }
            proof {
                assert(bodies.take(d.body_names.len() as int) =~= bodies);
                assert(deps.take(k + 1).drop_last() =~= deps.take(k as int));
                assert(deps[k as int] == (d.head_name@, bodies));
            }
            k = k + 1;
        }
        proof {
            assert(deps.take(all.len() as int) =~= deps);
        }
    }
}

/// The message reported for a misplaced rule with head relation `head`.
pub open spec fn error_message_for(head: Seq<char>) -> Seq<char> {
    "The rule defining '"@ + head + "' is part of a recursive definition. Should be in a '.iterate' block."@
}

/// An error as its message and span.
pub open spec fn errors_model(errors: Seq<ValidationError>) -> Seq<(Seq<char>, RuleSpan)> {
    errors.map_values(|e: ValidationError| (e.error_message@, e.span))
}

/// The errors reported for a list of rules.
pub open spec fn errors_for(rules: Seq<RuleModel>) -> Seq<(Seq<char>, RuleSpan)> {
    rules.map_values(|r: RuleModel| (error_message_for(r.head.name), r.span))
}

/// Whether `n` is one of `names`.
pub fn names_contain(names: &Vec<String>, n: &String) -> (r: bool)
    ensures
        r == names@.map_values(|s: String| s@).contains(n@),
{
    let ghost m = names@.map_values(|s: String| s@);
    let mut i: usize = 0;
    while i < names.len()
        invariant
            i <= names.len(),
            m == names@.map_values(|s: String| s@),
            forall|j: int| 0 <= j < i ==> m[j] != n@,
        decreases names.len() - i,
    {
        if names[i].eq(n) {
            assert(m[i as int] == n@);
            return true;
        }
        i = i + 1;
    }
    false
}

impl<'a> Validator<'a> {
    /// Whether a component, given as node ids, is recursive.
    pub fn is_recursive_component(&self, scc: &Vec<usize>) -> (r: bool)
        ensures
            r == is_recursive(ids(scc@), self.dependency_graph@.edges),
    {
        let ghost c = ids(scc@);
        if scc.len() > 1 {
            true
        } else if scc.len() == 1 {
            self.dependency_graph.has_edge(scc[0], scc[0])
        } else {
            false
        }
    }

    /// The names of the relations of a component, in the component's order.
    pub fn relation_names_of(&self, scc: &Vec<usize>) -> (r: Vec<String>)
        requires
            self.dependency_graph.wf(),
            forall|i: int| 0 <= i < scc@.len() ==> (#[trigger] scc@[i]) < self.dependency_graph@.names.len(),
        ensures
            r@.map_values(|s: String| s@) == component_names(
                ids(scc@),
                self.dependency_graph@.names,
            ),
    {
        let ghost g = self.dependency_graph@;
        let mut relation_names: Vec<String> = Vec::new();
        let mut i: usize = 0;
        while i < scc.len()
            invariant
                i <= scc.len(),
                g == self.dependency_graph@,
                forall|k: int| 0 <= k < scc@.len() ==> (#[trigger] scc@[k]) < g.names.len(),
                relation_names@.map_values(|s: String| s@) == component_names(
                    ids(scc@),
                    g.names,
                ).take(i as int),
            decreases scc.len() - i,
        {
            let name = self.dependency_graph.name(scc[i]).clone();
            let ghost before = relation_names@;
            relation_names.push(name);
            proof {
                let c = ids(scc@);
                assert(c[i as int] == scc@[i as int] as int);
                assert(component_names(c, g.names)[i as int] == g.names[scc@[i as int] as int]);
                assert(relation_names@.map_values(|s: String| s@) =~= before.map_values(|s: String| s@).push(name@));
                assert(relation_names@.map_values(|s: String| s@) =~= component_names(
                    ids(scc@),
                    g.names,
                ).take(i + 1));
            }
            i = i + 1;
        }
        let ghost rel = component_names(ids(scc@), g.names);
        proof {
            assert(rel.take(scc.len() as int) =~= rel);
        }
        relation_names
    }

    /// Reports each rule declared outside an iteration block whose head is
    /// a relation of the component `scc`.
    fn validate_recursive_scc(&self, scc: &Vec<usize>, errors: &mut Vec<ValidationError>)
        requires
            self.wf(),
            forall|i: int| 0 <= i < scc@.len() ==> (#[trigger] scc@[i]) < self.dependency_graph@.names.len(),
        ensures
            errors_model(final(errors)@) == errors_model(old(errors)@) + errors_for(
                misplaced(
                    rules_of(self.ast.statements@),
                    component_names(ids(scc@), self.dependency_graph@.names),
                ),
            ),
    {
        let ghost g = self.dependency_graph@;
        let relation_names = self.relation_names_of(scc);
        let ghost rel = component_names(ids(scc@), g.names);
        let all_rules = self.find_all_rules();
        let ghost rules = infos_model(all_rules@);
        let ghost start = errors@;
        let mut j: usize = 0;
        proof {
            assert(rules.take(0) =~= Seq::<(RuleModel, bool)>::empty());
            assert(errors_model(errors@) =~= errors_model(start) + errors_for(misplaced(rules.take(0), rel)));
        }
        while j < all_rules.len()
            invariant
                j <= all_rules.len(),
                rules == infos_model(all_rules@),
                relation_names@.map_values(|s: String| s@) == rel,
                errors_model(errors@) == errors_model(start) + errors_for(misplaced(rules.take(j as int), rel)),
            decreases all_rules.len() - j,
        {
            let info = &all_rules[j];
            proof {
                assert(rules.take(j + 1).drop_last() =~= rules.take(j as int));
                assert(rules[j as int] == (info.rule@, info.in_iterate_block));
            }
            let ghost mid = errors@;
            if !info.in_iterate_block && names_contain(&relation_names, &info.rule.head.name.0) {
                let mut error_message = String::from_str("The rule defining '");
                error_message.append(info.rule.head.name.0.as_str());
                error_message.append("' is part of a recursive definition. Should be in a '.iterate' block.");
                errors.push(ValidationError { error_message, span: info.rule.span });
                proof {
                    assert(errors_model(errors@) =~= errors_model(mid).push(
                        (error_message_for(info.rule@.head.name), info.rule.span),
                    ));
                    assert(errors_for(misplaced(rules.take(j + 1), rel)) =~= errors_for(
                        misplaced(rules.take(j as int), rel),
                    ).push((error_message_for(info.rule@.head.name), info.rule.span)));
                }
            } else {
                proof {
                    assert(misplaced(rules.take(j + 1), rel) =~= misplaced(rules.take(j as int), rel));
                }
            }
            j = j + 1;
        }
        proof {
            assert(rules.take(all_rules.len() as int) =~= rules);
        }
    }
}

impl<'a> Validator<'a> {
    /// The errors for every recursive component, component by component.
    fn check_recursion(&self, sccs: &Vec<Vec<usize>>) -> (r: Vec<ValidationError>)
        requires
            self.wf(),
            is_partition(components_model(sccs@), self.dependency_graph@.names.len() as int),
        ensures
            errors_model(r@) == errors_for(
                offending_rules(components_model(sccs@), self.dependency_graph@, rules_of(self.ast.statements@)),
            ),
    {
        let ghost comps = components_model(sccs@);
        let ghost g = self.dependency_graph@;
        let ghost rules = rules_of(self.ast.statements@);
        let mut errors: Vec<ValidationError> = Vec::new();
        let mut k: usize = 0;
        proof {
            assert(comps.take(0) =~= Seq::<Seq<int>>::empty());
            assert(errors_model(errors@) =~= Seq::<(Seq<char>, RuleSpan)>::empty());
        }
        while k < sccs.len()
            invariant
                k <= sccs.len(),
                self.wf(),
                g == self.dependency_graph@,
                rules == rules_of(self.ast.statements@),
                comps == components_model(sccs@),
                is_partition(comps, g.names.len() as int),
                errors_model(errors@) == errors_for(offending_rules(comps.take(k as int), g, rules)),
            decreases sccs.len() - k,
        {
            let scc = &sccs[k];
            let ghost c = ids(scc@);
            proof {
                assert(comps[k as int] == c);
                assert forall|i: int| 0 <= i < scc@.len() implies (#[trigger] scc@[i]) < g.names.len() by {
                    assert(comps[k as int][i] == scc@[i] as int);
                }
                assert(comps.take(k + 1).drop_last() =~= comps.take(k as int));
                assert(comps.take(k + 1).last() == c);
            }
            let ghost before = errors@;
            if self.is_recursive_component(scc) {
                self.validate_recursive_scc(scc, &mut errors);
                proof {
                    let m = misplaced(rules, component_names(c, g.names));
                    assert(offending_rules(comps.take(k + 1), g, rules) == offending_rules(comps.take(k as int), g, rules) + m);
                    assert(errors_for(offending_rules(comps.take(k + 1), g, rules)) =~= errors_for(
                        offending_rules(comps.take(k as int), g, rules),
                    ) + errors_for(m));

                }
            } else {
                assert(offending_rules(comps.take(k + 1), g, rules) =~= offending_rules(comps.take(k as int), g, rules));
                assert(errors_model(errors@) == errors_for(offending_rules(comps.take(k + 1), g, rules)));
            }
            k = k + 1;
        }
        proof {
            assert(comps.take(sccs.len() as int) =~= comps);
        }
        errors
    }

    /// Finds the strongly connected components of the dependency graph and
    /// checks that every rule of a recursive one was declared inside an
    /// `.iterate` block. Returns a planner over the components, or every
    /// misplaced rule's error.
    pub fn validate(&self) -> (r: Result<Planner<'_>, Vec<ValidationError>>)
        requires
            self.wf(),
            self.dependency_graph@.names.len() < u32::MAX,
            self.dependency_graph@.edges.len() < u32::MAX,
        ensures
            ({
                let g = self.dependency_graph@;
                let comps = components_of(g.names.len(), g.edges);
                let offending = offending_rules(comps, g, rules_of(self.ast.statements@));
                &&& r is Err <==> offending.len() > 0
                &&& r matches Err(errors) ==> errors_model(errors@) == errors_for(offending)
                &&& r matches Ok(planner) ==> planner.validator() == *self && planner.components() == comps
                &&& r matches Ok(planner) ==> components_ok(*self, comps)
            }),
    {
        let sccs = self.scc_list();
        let errors = self.check_recursion(&sccs);
        proof {
            assert(errors_model(errors@).len() == errors@.len());
        }
        if errors.len() > 0 {
            Err(errors)
        } else {
            Ok(Planner::new(self, sccs))
        }
    }

    /// Validates as `validate` does, and returns the components in
    /// execution order.
    pub fn validate_plan(&self) -> (r: Result<Vec<Vec<usize>>, Vec<ValidationError>>)
        requires
            self.wf(),
            self.dependency_graph@.names.len() < u32::MAX,
            self.dependency_graph@.edges.len() < u32::MAX,
        ensures
            ({
                let g = self.dependency_graph@;
                let comps = components_of(g.names.len(), g.edges);
                let offending = offending_rules(comps, g, rules_of(self.ast.statements@));
                &&& r is Err <==> offending.len() > 0
                &&& r matches Err(errors) ==> errors_model(errors@) == errors_for(offending)
                &&& r matches Ok(plan) ==> components_model(plan@) == execution_plan_of(comps, g.edges)
                &&& r is Ok ==> crate::laws::plan_valid(g)
            }),
    {
        match self.validate() {
            Ok(planner) => Ok(planner.make_execution_plan()),
            Err(errors) => Err(errors),
        }
    }

    /// The strongly connected components of the dependency graph.
    fn scc_list(&self) -> (r: Vec<Vec<usize>>)
        requires
            self.wf(),
            self.dependency_graph@.names.len() < u32::MAX,
            self.dependency_graph@.edges.len() < u32::MAX,
        ensures
            components_ok(*self, components_model(r@)),
            components_model(r@) == components_of(self.dependency_graph@.names.len(), self.dependency_graph@.edges),
    {
        let graph = &self.dependency_graph;
        proof {
            graph.lemma_wf_edges();
        }
        let edges = graph.edges();
        let n = graph.node_count();
        proof {
            assert(crate::graph::edge_model(edges@) == graph@.edges);
        }
        strongly_connected_components(n, edges)
    }
}

impl<'a> Validator<'a> {
    /// Validates the program and, when no rule is misplaced, plans it.
    pub fn validate_and_plan(&self) -> (r: Result<OrderedProgram, Vec<ValidationError>>)
        requires
            self.wf(),
            self.dependency_graph@.names.len() < u32::MAX,
            self.dependency_graph@.edges.len() < u32::MAX,
        ensures
            ({
                let g = self.dependency_graph@;
                let comps = components_of(g.names.len(), g.edges);
                let rules = rules_of(self.ast.statements@);
                let offending = offending_rules(comps, g, rules);
                &&& r is Err <==> offending.len() > 0
                &&& r matches Err(errors) ==> errors_model(errors@) == errors_for(offending)
                &&& r matches Ok(p) ==> p.inputs@.map_values(|d: ReadDirective| d@) == reads_of(
                    self.ast.statements@,
                )
                &&& r matches Ok(p) ==> p.outputs@ == writes_of(self.ast.statements@)
                &&& r matches Ok(p) ==> p.strata@.map_values(|s: Stratum| s@) == strata_of(
                    execution_plan_of(comps, g.edges),
                    g,
                    rules,
                )
                &&& r is Ok ==> crate::laws::plan_valid(g)
            }),
    {
        match self.validate() {
            Ok(planner) => Ok(planner.plan()),
            Err(errors) => Err(errors),
        }
    }
}
} // verus!
