//! Dependency cycles and the navigation contract between settings.

use vstd::prelude::*;
use crate::graph::{Graph, find_cycles, names_contain, reachable, reaches};
use crate::ids::{id_prefix, spec_id_prefix};
use crate::kinds::Kind;
use crate::locate::locate_scalar;
use crate::model::{Context, Definition, Finding, Item, added_findings, appended, contains_string, emit, error, error_at, error_if,
    finding_if, findings_over, kind_in, lemma_added_findings_none, lemma_added_findings_one, lemma_added_findings_trans,
    lemma_findings_over_step, lemma_take_all, warning_at, warning_if};
use crate::references::string_views;
use crate::report::{Diagnostic, Severity};
use crate::text::{cat, cat3, joined, lemma_joined_step, owned, seq_less, str_eq, str_less};
use crate::yaml::{YamlValue, bool_field, contains_key, get, map_get, spec_as_mapping, spec_as_sequence, spec_as_str, spec_bool_field,
    spec_string_field, spec_string_list_field, string_field, string_list_field};

verus! {

/// The string under `inner` of the mapping under `outer`.
pub open spec fn spec_nested_string(m: Seq<(YamlValue, YamlValue)>, outer: Seq<char>, inner: Seq<char>) -> Option<Seq<char>> {
    match map_get(m, outer) {
        Some(v) => match spec_as_mapping(v) {
            Some(mm) => spec_string_field(mm, inner),
            None => None,
        },
        None => None,
    }
}

/// `nested_string_field(mapping, [outer, inner])`.
fn nested_string<'a>(mapping: &'a Vec<(YamlValue, YamlValue)>, outer: &str, inner: &str) -> (r: Option<&'a str>)
    ensures
        opt_str_view(r) == spec_nested_string(mapping@, outer@, inner@),
{
    match get(mapping, outer) {
        Some(v) => match v.as_mapping() {
            Some(m) => string_field(m, inner),
            None => None,
        },
        None => None,
    }
}

/// The view of an optional string slice.
pub open spec fn opt_str_view(s: Option<&str>) -> Option<Seq<char>> {
    match s {
        Some(v) => Some(v@),
        None => None,
    }
}

/// The string operands of `predicate` among the conditions `conds`.
pub open spec fn predicate_operands(conds: Seq<YamlValue>, predicate: Seq<char>) -> Seq<Seq<char>>
    decreases conds.len(),
{
    if conds.len() == 0 {
        Seq::empty()
    } else {
        let rest = predicate_operands(conds.drop_last(), predicate);
        match spec_as_mapping(conds.last()) {
            Some(c) => match map_get(c, predicate) {
                Some(v) => match spec_as_str(v) {
                    Some(id) => rest.push(id),
                    None => rest,
                },
                None => rest,
            },
            None => rest,
        }
    }
}

/// The conditions of `when.all`, if it is a sequence.
pub open spec fn when_all(m: Seq<(YamlValue, YamlValue)>) -> Seq<YamlValue> {
    match map_get(m, "when"@) {
        Some(w) => match spec_as_mapping(w) {
            Some(wm) => match map_get(wm, "all"@) {
                Some(a) => match spec_as_sequence(a) {
                    Some(items) => items,
                    None => Seq::empty(),
                },
                None => Seq::empty(),
            },
            None => Seq::empty(),
        },
        None => Seq::empty(),
    }
}

/// The operands of `predicate` in `when.all`.
fn persistent_predicate_ids(mapping: &Vec<(YamlValue, YamlValue)>, predicate: &str) -> (r: Vec<String>)
    ensures
        r@.map_values(|s: String| s@) == predicate_operands(when_all(mapping@), predicate@),
{
    let mut result: Vec<String> = Vec::new();
    let all = match get(mapping, "when") {
        Some(w) => match w.as_mapping() {
            Some(m) => match get(m, "all") { Some(a) => a.as_sequence(), None => None },
            None => None,
        },
        None => None,
    };
    proof {
        reveal_strlit("when");
        reveal_strlit("all");
    }
    match all {
        Some(conditions) => {
            let mut i: usize = 0;
            while i < conditions.len()
                invariant
                    0 <= i <= conditions@.len(),
                    result@.map_values(|s: String| s@) == predicate_operands(conditions@.subrange(0, i as int), predicate@),
                decreases conditions@.len() - i,
            {
                proof {
                    assert(conditions@.subrange(0, i + 1).drop_last() =~= conditions@.subrange(0, i as int));
                }
                if let Some(condition) = conditions[i].as_mapping() {
                    if let Some(value) = get(condition, predicate) {
                        if let Some(id) = value.as_str() {
                            result.push(owned(id));
                            proof {
                                assert(result@.map_values(|s: String| s@)
                                    =~= predicate_operands(conditions@.subrange(0, i as int), predicate@).push(id@));
                            }
                        }
                    }
                }
                i += 1;
            }
            proof {
                assert(conditions@.subrange(0, conditions@.len() as int) =~= conditions@);
            }
        },
        None => {
            proof {
                assert(result@.map_values(|s: String| s@) =~= Seq::<Seq<char>>::empty());
            }
        },
    }
    result
}

/// The IDs among `ids` whose prefix is `prefix`, in order.
pub open spec fn spec_with_prefix(ids: Seq<Seq<char>>, prefix: Seq<char>) -> Seq<Seq<char>>
    decreases ids.len(),
{
    if ids.len() == 0 {
        Seq::empty()
    } else {
        let rest = spec_with_prefix(ids.drop_last(), prefix);
        if spec_id_prefix(ids.last()) == Some(prefix) { rest.push(ids.last()) } else { rest }
    }
}

/// Keeps the strings whose ID prefix is `prefix`.
fn with_prefix(ids: Vec<String>, prefix: &str) -> (r: Vec<String>)
    ensures
        r@.map_values(|s: String| s@) == spec_with_prefix(ids@.map_values(|s: String| s@), prefix@),
{
    let ghost views = ids@.map_values(|s: String| s@);
    let mut result: Vec<String> = Vec::new();
    let mut i: usize = 0;
    while i < ids.len()
        invariant
            0 <= i <= ids@.len(),
            views == ids@.map_values(|s: String| s@),
            result@.map_values(|s: String| s@) == spec_with_prefix(views.subrange(0, i as int), prefix@),
        decreases ids@.len() - i,
    {
        proof {
            assert(views.subrange(0, i + 1).drop_last() =~= views.subrange(0, i as int));
            assert(views.subrange(0, i + 1).last() == ids@[i as int]@);
        }
        let keep = match id_prefix(ids[i].as_str()) { Some(p) => str_eq(p.as_str(), prefix), None => false };
        if keep {
            result.push(ids[i].clone());
            proof {
                assert(result@.map_values(|s: String| s@)
                    =~= spec_with_prefix(views.subrange(0, i as int), prefix@).push(ids@[i as int]@));
            }
        }
        i += 1;
    }
    proof {
        assert(views.subrange(0, ids@.len() as int) =~= views);
    }
    result
}

/// The strings in ascending order without repeats (a `BTreeSet`'s iteration): the same
/// texts as `ids`.
fn sorted_unique(ids: &Vec<String>) -> (r: Vec<String>)
    ensures
        forall|b: Seq<char>| names_contain(r@, b) <==> names_contain(ids@, b),
{
    let mut result: Vec<String> = Vec::new();
    let mut i: usize = 0;
    while i < ids.len()
        invariant
            0 <= i <= ids@.len(),
            forall|b: Seq<char>| names_contain(result@, b) <==> names_contain(ids@.subrange(0, i as int), b),
        decreases ids@.len() - i,
    {
        let ghost before = result@;
        if !contains_string(&result, ids[i].as_str()) {
            let mut pos: usize = 0;
            while pos < result.len() && str_less(result[pos].as_str(), ids[i].as_str())
                invariant
                    0 <= pos <= result@.len(),
                decreases result@.len() - pos,
            {
                pos += 1;
            }
            result.insert(pos, ids[i].clone());
        }
        proof {
            let prefix = ids@.subrange(0, i + 1);
            assert forall|b: Seq<char>| names_contain(result@, b) <==> names_contain(prefix, b) by {
                if names_contain(result@, b) {
                    let y = choose|y: int| 0 <= y < result@.len() && (#[trigger] result@[y])@ == b;
                    if b == ids@[i as int]@ {
                        assert(prefix[i as int]@ == b);
                    } else {
                        assert(names_contain(before, b)) by {
                            if result@ != before {
                                let pos = choose|pos: int| 0 <= pos <= before.len() && result@ == before.insert(pos, ids@[i as int]);
                                if y < pos {
                                    assert(before[y] == result@[y]);
                                } else if y > pos {
                                    assert(before[y - 1] == result@[y]);
                                }
                            } else {
                                assert(before[y] == result@[y]);
                            }
                        }
                        let z = choose|z: int| 0 <= z < i && (#[trigger] ids@.subrange(0, i as int)[z])@ == b;
                        assert(prefix[z] == ids@.subrange(0, i as int)[z]);
                    }
                }
                if names_contain(prefix, b) {
                    let z = choose|z: int| 0 <= z < prefix.len() && (#[trigger] prefix[z])@ == b;
                    if z == i {
                        if result@ == before {
                            assert(names_contain(before, b));
                            let y = choose|y: int| 0 <= y < before.len() && (#[trigger] before[y])@ == b;
                            assert(result@[y]@ == b);
                        } else {
                            let pos = choose|pos: int| 0 <= pos <= before.len() && result@ == before.insert(pos, ids@[i as int]);
                            assert(result@[pos]@ == b);
                        }
                    } else {
                        assert(ids@.subrange(0, i as int)[z] == prefix[z]);
                        assert(names_contain(before, b));
                        let y = choose|y: int| 0 <= y < before.len() && (#[trigger] before[y])@ == b;
                        if result@ == before {
                            assert(result@[y]@ == b);
                        } else {
                            let pos = choose|pos: int| 0 <= pos <= before.len() && result@ == before.insert(pos, ids@[i as int]);
                            if y < pos {
                                assert(result@[y] == before[y]);
                            } else {
                                assert(result@[y + 1] == before[y]);
                            }
                        }
                    }
                }
            }
        }
        i += 1;
    }
    proof {
        assert(ids@.subrange(0, ids@.len() as int) =~= ids@);
    }
    result
}

/// The dependencies that a rule reads off one item: `None` when the item adds no entry.
pub type DepRule = spec_fn(Item) -> Option<Seq<Seq<char>>>;

/// The dependencies recorded for `a` by the last item with ID `a` that has an entry: a
/// later entry for the same ID replaces an earlier one.
pub open spec fn last_deps(items: Seq<Item>, rule: DepRule, a: Seq<char>) -> Option<Seq<Seq<char>>>
    decreases items.len(),
{
    if items.len() == 0 {
        None
    } else if items.last().id@ == a && rule(items.last()) is Some {
        rule(items.last())
    } else {
        last_deps(items.drop_last(), rule, a)
    }
}

/// `a` depends on `b` in the graph that `rule` builds from `items`.
pub open spec fn dep_edge(items: Seq<Item>, rule: DepRule, a: Seq<char>, b: Seq<char>) -> bool {
    match last_deps(items, rule, a) {
        Some(ds) => ds.contains(b),
        None => false,
    }
}

/// `w` follows dependencies from its first to its last element.
pub open spec fn dep_walk(items: Seq<Item>, rule: DepRule, w: Seq<Seq<char>>) -> bool {
    &&& w.len() >= 1
    &&& forall|k: int| 0 <= k < w.len() - 1 ==> dep_edge(items, rule, #[trigger] w[k], w[k + 1])
}

/// Some chain of dependencies comes back to where it started.
pub open spec fn dep_cycle(items: Seq<Item>, rule: DepRule) -> bool {
    exists|w: Seq<Seq<char>>| #[trigger] dep_walk(items, rule, w) && w.len() >= 2 && w[0] == w[w.len() - 1]
}

/// A closed chain of dependencies that starts and ends at its least ID and visits every
/// other ID once: the shape in which dependency cycles are reported.
pub open spec fn dep_reported_cycle(items: Seq<Item>, rule: DepRule, c: Seq<Seq<char>>) -> bool {
    &&& c.len() >= 2
    &&& dep_walk(items, rule, c)
    &&& c[0] == c[c.len() - 1]
    &&& forall|k: int| 0 <= k < c.len() - 1 ==> !seq_less(#[trigger] c[k], c[0])
    &&& forall|i: int, j: int| 0 <= i < j < c.len() - 1 ==> #[trigger] c[i] != #[trigger] c[j]
}

/// `d` has, as its subject, the first ID of a reported dependency cycle.
pub open spec fn names_dep_cycle(items: Seq<Item>, rule: DepRule, d: Diagnostic) -> bool {
    exists|c: Seq<Seq<char>>| #[trigger] dep_reported_cycle(items, rule, c) && opt_view(d.subject_id) == Some(c[0])
}

/// The graph's edges are the dependencies that `rule` reads off `items`.
pub open spec fn graph_of(g: Graph, items: Seq<Item>, rule: DepRule) -> bool {
    &&& g.wf()
    &&& forall|a: Seq<char>, b: Seq<char>| #[trigger] g.has_edge(a, b) <==> dep_edge(items, rule, a, b)
}

/// A reported cycle of a graph built from a rule is a reported cycle of the rule's dependencies.
proof fn lemma_reported_cycle_deps(g: Graph, items: Seq<Item>, rule: DepRule, c: Seq<Seq<char>>)
    requires
        graph_of(g, items, rule),
        g.is_reported_cycle(c),
    ensures
        dep_reported_cycle(items, rule, c),
{
    assert forall|k: int| 0 <= k < c.len() - 1 implies dep_edge(items, rule, #[trigger] c[k], c[k + 1]) by {
        assert(g.has_edge(c[k], c[k + 1]));
    }
}

/// A diagnostic about a cycle of a graph built from a rule names a cycle of its dependencies.
proof fn lemma_about_cycle_names(g: Graph, items: Seq<Item>, rule: DepRule, defs: Seq<(String, Definition)>, code: Seq<char>,
    d: Diagnostic)
    requires
        graph_of(g, items, rule),
        about_cycle(g, defs, code, d),
    ensures
        names_dep_cycle(items, rule, d),
{
    let c = choose|c: Seq<Seq<char>>| #[trigger] g.is_reported_cycle(c) && cycle_diagnostic(defs, code, c, d);
    lemma_reported_cycle_deps(g, items, rule, c);
}

/// The diagnostics of `out[lo..hi]`, each about a cycle of a graph built from a rule, name
/// cycles of the rule's dependencies.
proof fn lemma_names_run(out: Seq<Diagnostic>, lo: int, hi: int, g: Graph, items: Seq<Item>, rule: DepRule,
    defs: Seq<(String, Definition)>, code: Seq<char>)
    requires
        graph_of(g, items, rule),
        forall|k: int| lo <= k < hi ==> #[trigger] about_cycle(g, defs, code, out[k]),
    ensures
        forall|k: int| lo <= k < hi ==> #[trigger] names_dep_cycle(items, rule, out[k]),
{
    assert forall|k: int| lo <= k < hi implies #[trigger] names_dep_cycle(items, rule, out[k]) by {
        lemma_about_cycle_names(g, items, rule, defs, code, out[k]);
    }
}

/// Each cycle diagnostic of `validate_graphs`, by its code, names a reported cycle of the
/// matching dependencies.
pub open spec fn names_its_cycle(d: Diagnostic, settings: Seq<Item>, entities: Seq<Item>, facts: Seq<Item>, triggers: Seq<Item>,
    clues: Seq<Item>, deductions: Seq<Item>, defs: Seq<(String, Definition)>) -> bool {
    if d.code@ == "setting.parent_cycle"@ {
        names_dep_cycle(settings, parent_rule(), d)
    } else if d.code@ == "entity.containment_cycle"@ {
        names_dep_cycle(entities, containment_rule(defs), d)
    } else if d.code@ == "fact.requirement_cycle"@ {
        names_dep_cycle(facts, fact_rule(), d)
    } else if d.code@ == "trigger.reference_cycle"@ {
        names_dep_cycle(triggers, trigger_rule(), d)
    } else if d.code@ == "clue.dependency_cycle"@ {
        names_dep_cycle(clues, field_rule("requires"@), d)
    } else {
        names_dep_cycle(deductions, deduction_rule(), d)
    }
}

/// A graph built from a rule has a cycle exactly when the rule's dependencies do.
proof fn lemma_graph_cycle(g: Graph, items: Seq<Item>, rule: DepRule)
    requires
        graph_of(g, items, rule),
    ensures
        g.has_cycle() <==> dep_cycle(items, rule),
{
    if g.has_cycle() {
        let w = choose|w: Seq<Seq<char>>| #[trigger] g.is_walk(w) && w.len() >= 2 && w[0] == w[w.len() - 1];
        assert forall|k: int| 0 <= k < w.len() - 1 implies dep_edge(items, rule, #[trigger] w[k], w[k + 1]) by {
            assert(g.has_edge(w[k], w[k + 1]));
        }
        assert(dep_walk(items, rule, w));
    }
    if dep_cycle(items, rule) {
        let w = choose|w: Seq<Seq<char>>| #[trigger] dep_walk(items, rule, w) && w.len() >= 2 && w[0] == w[w.len() - 1];
        assert forall|k: int| 0 <= k < w.len() - 1 implies g.has_edge(#[trigger] w[k], w[k + 1]) by {
            assert(dep_edge(items, rule, w[k], w[k + 1]));
        }
        assert(g.is_walk(w));
    }
}

/// A list of strings names exactly the texts of its views.
proof fn lemma_names_views(v: Seq<String>, ds: Seq<Seq<char>>)
    requires
        v.map_values(|s: String| s@) == ds,
    ensures
        forall|b: Seq<char>| names_contain(v, b) <==> ds.contains(b),
{
    assert forall|b: Seq<char>| names_contain(v, b) <==> ds.contains(b) by {
        if names_contain(v, b) {
            let y = choose|y: int| 0 <= y < v.len() && (#[trigger] v[y])@ == b;
            assert(ds[y] == b);
        }
        if ds.contains(b) {
            let y = choose|y: int| 0 <= y < ds.len() && ds[y] == b;
            assert(v[y]@ == b);
        }
    }
}

/// Inserting the entry of item `i` extends the graph of the first `i` items to the first
/// `i + 1`.
proof fn lemma_graph_step(before: Graph, after: Graph, items: Seq<Item>, rule: DepRule, i: int, deps: Seq<String>)
    requires
        0 <= i < items.len(),
        graph_of(before, items.subrange(0, i), rule),
        after.wf(),
        rule(items[i]) is Some,
        forall|b: Seq<char>| names_contain(deps, b) <==> rule(items[i])->0.contains(b),
        forall|b: Seq<char>| after.has_edge(items[i].id@, b) <==> names_contain(deps, b),
        forall|a: Seq<char>, b: Seq<char>| a != items[i].id@ ==> (after.has_edge(a, b) <==> before.has_edge(a, b)),
    ensures
        graph_of(after, items.subrange(0, i + 1), rule),
{
    let next = items.subrange(0, i + 1);
    assert(next.drop_last() =~= items.subrange(0, i));
    assert(next.last() == items[i]);
    assert forall|a: Seq<char>, b: Seq<char>| #[trigger] after.has_edge(a, b) <==> dep_edge(next, rule, a, b) by {
        if a != items[i].id@ {
            assert(last_deps(next, rule, a) == last_deps(items.subrange(0, i), rule, a));
            assert(before.has_edge(a, b) <==> dep_edge(items.subrange(0, i), rule, a, b));
        } else {
            assert(last_deps(next, rule, a) == rule(items[i]));
            assert(after.has_edge(a, b) <==> names_contain(deps, b));
            assert(names_contain(deps, b) <==> rule(items[i])->0.contains(b));
        }
    }
}

/// An item that adds no entry leaves the graph of the first `i` items that of the first
/// `i + 1`.
proof fn lemma_graph_skip(g: Graph, items: Seq<Item>, rule: DepRule, i: int)
    requires
        0 <= i < items.len(),
        graph_of(g, items.subrange(0, i), rule),
        rule(items[i]) is None,
    ensures
        graph_of(g, items.subrange(0, i + 1), rule),
{
    let next = items.subrange(0, i + 1);
    assert(next.drop_last() =~= items.subrange(0, i));
    assert(next.last() == items[i]);
    assert forall|a: Seq<char>, b: Seq<char>| #[trigger] g.has_edge(a, b) <==> dep_edge(next, rule, a, b) by {
        assert(g.has_edge(a, b) <==> dep_edge(items.subrange(0, i), rule, a, b));
    }
}

/// The empty graph is the graph of no items.
proof fn lemma_graph_empty(g: Graph, items: Seq<Item>, rule: DepRule)
    requires
        g.wf(),
        g.nodes@.len() == 0,
    ensures
        graph_of(g, items.subrange(0, 0), rule),
{
    assert forall|a: Seq<char>, b: Seq<char>| #[trigger] g.has_edge(a, b) <==> dep_edge(items.subrange(0, 0), rule, a, b) by {
        assert(!g.has_edge(a, b));
    }
}

/// A fact depends on the fact IDs that its `when.all` requires it to know.
pub open spec fn fact_rule() -> DepRule {
    |it: Item| Some(spec_with_prefix(predicate_operands(when_all(it.mapping@), "knows"@), "fact"@))
}

/// A trigger depends on the IDs that its `when.all` requires to be completed.
pub open spec fn trigger_rule() -> DepRule {
    |it: Item| Some(predicate_operands(when_all(it.mapping@), "completed"@))
}

/// An item depends on the strings listed under `field`.
pub open spec fn field_rule(field: Seq<char>) -> DepRule {
    |it: Item| Some(spec_string_list_field(it.mapping@, field))
}

/// A deduction depends on its `requires` and on the deduction IDs among its `inputs`.
pub open spec fn deduction_rule() -> DepRule {
    |it: Item| Some(spec_string_list_field(it.mapping@, "requires"@)
        + spec_with_prefix(spec_string_list_field(it.mapping@, "inputs"@), "deduction"@))
}

/// A setting depends on its `parent`, when it names one.
pub open spec fn parent_rule() -> DepRule {
    |it: Item| match spec_string_field(it.mapping@, "parent"@) {
        Some(p) => Some(seq![p]),
        None => None,
    }
}

/// An entity depends on its initial container, when that names a defined entity.
pub open spec fn containment_rule(defs: Seq<(String, Definition)>) -> DepRule {
    |it: Item| match spec_nested_string(it.mapping@, "initial"@, "container"@) {
        Some(c) => if kind_in(defs, c) == Some(Kind::Entity) { Some(seq![c]) } else { None },
        None => None,
    }
}

/// Each fact depends on the facts its `when` requires it to know.
fn fact_dependency_graph(facts: &Vec<Item>) -> (g: Graph)
    ensures
        graph_of(g, facts@, fact_rule()),
{
    let mut g = Graph::new();
    proof { lemma_graph_empty(g, facts@, fact_rule()); }
    let mut i: usize = 0;
    while i < facts.len()
        invariant
            0 <= i <= facts@.len(),
            graph_of(g, facts@.subrange(0, i as int), fact_rule()),
        decreases facts@.len() - i,
    {
        let ids = persistent_predicate_ids(&facts[i].mapping, "knows");
        let deps = with_prefix(ids, "fact");
        let ghost before = g;
        g.insert(facts[i].id.clone(), deps);
        proof {
            lemma_names_views(deps@, (fact_rule())(facts@[i as int])->0);
            lemma_graph_step(before, g, facts@, fact_rule(), i as int, deps@);
        }
        i += 1;
    }
    proof { assert(facts@.subrange(0, facts@.len() as int) =~= facts@); }
    g
}

/// Each trigger depends on the triggers its `when` requires
/// to be completed.
fn trigger_dependency_graph(triggers: &Vec<Item>) -> (g: Graph)
    ensures
        graph_of(g, triggers@, trigger_rule()),
{
    let mut g = Graph::new();
    proof { lemma_graph_empty(g, triggers@, trigger_rule()); }
    let mut i: usize = 0;
    while i < triggers.len()
        invariant
            0 <= i <= triggers@.len(),
            graph_of(g, triggers@.subrange(0, i as int), trigger_rule()),
        decreases triggers@.len() - i,
    {
        let deps = persistent_predicate_ids(&triggers[i].mapping, "completed");
        let ghost before = g;
        g.insert(triggers[i].id.clone(), deps);
        proof {
            lemma_names_views(deps@, (trigger_rule())(triggers@[i as int])->0);
            lemma_graph_step(before, g, triggers@, trigger_rule(), i as int, deps@);
        }
        i += 1;
    }
    proof { assert(triggers@.subrange(0, triggers@.len() as int) =~= triggers@); }
    g
}

/// `dependency_graph(items, field)`: each item depends on the strings listed in `field`.
fn dependency_graph(items: &Vec<Item>, field: &str) -> (g: Graph)
    ensures
        graph_of(g, items@, field_rule(field@)),
{
    let mut g = Graph::new();
    proof { lemma_graph_empty(g, items@, field_rule(field@)); }
    let mut i: usize = 0;
    while i < items.len()
        invariant
            0 <= i <= items@.len(),
            graph_of(g, items@.subrange(0, i as int), field_rule(field@)),
        decreases items@.len() - i,
    {
        let deps = string_list_field(&items[i].mapping, field);
        let ghost before = g;
        g.insert(items[i].id.clone(), deps);
        proof {
            lemma_names_views(deps@, (field_rule(field@))(items@[i as int])->0);
            lemma_graph_step(before, g, items@, field_rule(field@), i as int, deps@);
        }
        i += 1;
    }
    proof { assert(items@.subrange(0, items@.len() as int) =~= items@); }
    g
}

/// A deduction depends on its `requires` and on the
/// deductions among its `inputs`, in sorted order without repeats.
fn deduction_dependency_graph(deductions: &Vec<Item>) -> (g: Graph)
    ensures
        graph_of(g, deductions@, deduction_rule()),
{
    let mut g = Graph::new();
    proof { lemma_graph_empty(g, deductions@, deduction_rule()); }
    let mut i: usize = 0;
    while i < deductions.len()
        invariant
            0 <= i <= deductions@.len(),
            graph_of(g, deductions@.subrange(0, i as int), deduction_rule()),
        decreases deductions@.len() - i,
    {
        let mut deps = string_list_field(&deductions[i].mapping, "requires");
        let inputs = with_prefix(string_list_field(&deductions[i].mapping, "inputs"), "deduction");
        let ghost first = deps@.map_values(|s: String| s@);
        let mut k: usize = 0;
        while k < inputs.len()
            invariant
                0 <= k <= inputs@.len(),
                deps@.map_values(|s: String| s@) == first + inputs@.map_values(|s: String| s@).subrange(0, k as int),
            decreases inputs@.len() - k,
        {
            let input = inputs[k].clone();
            let ghost mid = deps@;
            deps.push(input);
            proof {
                assert(input@ == inputs@[k as int]@);
                assert(deps@ == mid.push(input));
                assert(deps@.map_values(|s: String| s@) =~= mid.map_values(|s: String| s@).push(input@));
                assert(deps@.map_values(|s: String| s@) =~= first + inputs@.map_values(|s: String| s@).subrange(0, k + 1));
            }
            k += 1;
        }
        let unique = sorted_unique(&deps);
        let ghost before = g;
        g.insert(deductions[i].id.clone(), unique);
        proof {
            assert(inputs@.map_values(|s: String| s@).subrange(0, inputs@.len() as int) =~= inputs@.map_values(|s: String| s@));
            lemma_names_views(deps@, (deduction_rule())(deductions@[i as int])->0);
            lemma_graph_step(before, g, deductions@, deduction_rule(), i as int, unique@);
        }
        i += 1;
    }
    proof { assert(deductions@.subrange(0, deductions@.len() as int) =~= deductions@); }
    g
}

/// `cycle.join(" -> ")`.
fn join_cycle(cycle: &Vec<String>) -> (r: String)
    ensures
        r@ == joined(cycle@.map_values(|s: String| s@), " -> "@),
{
    let ghost parts = cycle@.map_values(|s: String| s@);
    let mut text = String::new();
    let mut i: usize = 0;
    proof { assert(text@ =~= joined(parts.subrange(0, 0), " -> "@)); }
    while i < cycle.len()
        invariant
            0 <= i <= cycle@.len(),
            parts == cycle@.map_values(|s: String| s@),
            text@ == joined(parts.subrange(0, i as int), " -> "@),
        decreases cycle@.len() - i,
    {
        proof { lemma_joined_step(parts, " -> "@, i as int, text@); }
        if i > 0 {
            text.append(" -> ");
        }
        text.append(cycle[i].as_str());
        i += 1;
    }
    proof { assert(parts.subrange(0, cycle@.len() as int) =~= parts); }
    text
}

/// The view of an optional string.
pub open spec fn opt_view(s: Option<String>) -> Option<Seq<char>> {
    match s {
        Some(v) => Some(v@),
        None => None,
    }
}

/// A diagnostic for the reported cycle `c` of `g`: an error with `code`, about the cycle's
/// first ID and at that ID's definition when it has one.
pub open spec fn cycle_diagnostic(defs: Seq<(String, Definition)>, code: Seq<char>, c: Seq<Seq<char>>, d: Diagnostic) -> bool {
    &&& d.severity == Severity::Error
    &&& d.code@ == code
    &&& opt_view(d.subject_id) == Some(c[0])
    &&& opt_view(d.pointer) == match definition_pointer(defs, c[0]) {
        Some(p) => Some(p),
        None => None,
    }
}

/// The pointer of the definition of `id`, if it is defined.
pub open spec fn definition_pointer(defs: Seq<(String, Definition)>, id: Seq<char>) -> Option<Seq<char>> {
    match crate::model::lookup(defs, id) {
        Some(d) => Some(d.pointer@),
        None => None,
    }
}

/// `d` is a diagnostic for some reported cycle of `g`.
pub open spec fn about_cycle(g: Graph, defs: Seq<(String, Definition)>, code: Seq<char>, d: Diagnostic) -> bool {
    exists|c: Seq<Seq<char>>| #[trigger] g.is_reported_cycle(c) && cycle_diagnostic(defs, code, c, d)
}

/// One diagnostic per cycle, located at its first ID's definition. Some
/// diagnostic is added exactly when the graph has a cycle, and each is about a cycle of it.
fn validate_cycles(cx: &Context, out: &mut Vec<Diagnostic>, g: &Graph, code: &str, label: &str)
    requires
        g.wf(),
    ensures
        appended(old(out)@, final(out)@),
        final(out)@.len() > old(out)@.len() <==> g.has_cycle(),
        forall|k: int| old(out)@.len() <= k < final(out)@.len() ==> #[trigger] about_cycle(*g, cx.definitions@, code@, final(out)@[k]),
        errors_with(final(out)@, old(out)@.len() as int, final(out)@.len() as int, code@),
{
    let cycles = find_cycles(g);
    let mut c: usize = 0;
    while c < cycles.len()
        invariant
            g.wf(),
            0 <= c <= cycles@.len(),
            appended(old(out)@, out@),
            out@.len() == old(out)@.len() + c,
            forall|k: int| 0 <= k < cycles@.len() ==> g.is_reported_cycle((#[trigger] cycles@[k])@.map_values(|s: String| s@)),
            forall|k: int| old(out)@.len() <= k < out@.len() ==> #[trigger] about_cycle(*g, cx.definitions@, code@, out@[k]),
            errors_with(out@, old(out)@.len() as int, out@.len() as int, code@),
        decreases cycles@.len() - c,
    {
        let cycle = &cycles[c];
        let ghost names = cycle@.map_values(|s: String| s@);
        proof {
            assert(g.is_reported_cycle(names));
        }
        let message = cat3(label, " contains a cycle: ", join_cycle(cycle).as_str());
        let ghost b = out@;
        let subject = cycle[0].clone();
        match cx.definition(subject.as_str()) {
            Some(d) => {
                error(out, code, message, d.path.as_str(), Some(d.pointer.clone()), d.range, Some(subject));
            },
            None => {
                error(out, code, message, "", None, None, Some(subject));
            },
        }
        proof {
            crate::model::lemma_appended_trans(old(out)@, b, out@);
            assert(names[0] == cycle@[0]@);
            assert(cycle_diagnostic(cx.definitions@, code@, names, out@[out@.len() - 1]));
            assert forall|k: int| old(out)@.len() <= k < out@.len() implies #[trigger] about_cycle(*g, cx.definitions@, code@, out@[k]) by {
                if k < out@.len() - 1 {
                    assert(out@[k] == b[k]);
                    assert(about_cycle(*g, cx.definitions@, code@, b[k]));
                }
            }
            assert forall|k: int| old(out)@.len() <= k < out@.len() implies #[trigger] out@[k].code@ == code@
                && out@[k].severity == Severity::Error by {
                if k < out@.len() - 1 {
                    assert(out@[k] == b[k]);
                    assert(b[k].code@ == code@);
                } else {
                    assert(out@[k] == out@.last());
                }
            }
            assert(errors_with(out@, old(out)@.len() as int, out@.len() as int, code@));
        }
        c += 1;
    }
}

/// The diagnostics of `out` from `lo` up to `hi` are errors with `code`.
pub open spec fn errors_with(out: Seq<Diagnostic>, lo: int, hi: int, code: Seq<char>) -> bool {
    &&& 0 <= lo <= hi <= out.len()
    &&& forall|k: int| lo <= k < hi ==> #[trigger] out[k].code@ == code && out[k].severity == Severity::Error
}

/// Some diagnostic of `out` from `lo` up to `hi` has `code`.
pub open spec fn has_code_in(out: Seq<Diagnostic>, lo: int, hi: int, code: Seq<char>) -> bool {
    exists|k: int| lo <= k < hi && #[trigger] out[k].code@ == code
}

/// The codes of the dependency-cycle rules.
pub open spec fn cycle_codes() -> Seq<Seq<char>> {
    seq!["setting.parent_cycle"@, "entity.containment_cycle"@, "fact.requirement_cycle"@,
        "trigger.reference_cycle"@, "clue.dependency_cycle"@, "deduction.dependency_cycle"@]
}

#[verifier::spinoff_prover]
proof fn lemma_errors_kept(a: Seq<Diagnostic>, b: Seq<Diagnostic>, lo: int, hi: int, code: Seq<char>)
    requires
        errors_with(a, lo, hi, code),
        appended(a, b),
    ensures
        errors_with(b, lo, hi, code),
{
    assert forall|k: int| lo <= k < hi implies #[trigger] b[k].code@ == code && b[k].severity == Severity::Error by {
        assert(b[k] == a[k]);
        assert(a[k].code@ == code);
    }
}

/// A run of errors with one code holds another code only if the codes agree.
proof fn lemma_has_code_run(out: Seq<Diagnostic>, lo: int, hi: int, code: Seq<char>, x: Seq<char>)
    requires
        errors_with(out, lo, hi, code),
    ensures
        has_code_in(out, lo, hi, x) <==> (x == code && lo < hi),
{
    if lo < hi && x == code {
        assert(out[lo].code@ == code);
    }
}

proof fn lemma_has_code_split(out: Seq<Diagnostic>, lo: int, mid: int, hi: int, x: Seq<char>)
    requires
        lo <= mid <= hi,
    ensures
        has_code_in(out, lo, hi, x) <==> (has_code_in(out, lo, mid, x) || has_code_in(out, mid, hi, x)),
{
    if has_code_in(out, lo, hi, x) {
        let k = choose|k: int| lo <= k < hi && #[trigger] out[k].code@ == x;
        if k < mid {
            assert(has_code_in(out, lo, mid, x));
        } else {
            assert(has_code_in(out, mid, hi, x));
        }
    }
}

/// Cycles in setting parents, entity containment, fact requirements and
/// trigger completions (format 3) or clue requirements (format 1), and deductions. Every
/// diagnostic is an error with one of the cycle codes, a code is reported exactly when
/// its dependencies have a cycle, and each diagnostic has as its subject the least ID of a
/// cycle of the dependencies its code names.
#[verifier::rlimit(60)]
#[verifier::spinoff_prover]
pub fn validate_graphs(
    cx: &Context,
    out: &mut Vec<Diagnostic>,
    settings: &Vec<Item>,
    entities: &Vec<Item>,
    clues: &Vec<Item>,
    facts: &Vec<Item>,
    deductions: &Vec<Item>,
    triggers: &Vec<Item>,
    claims: bool,
)
    ensures
        appended(old(out)@, final(out)@),
        forall|k: int| old(out)@.len() <= k < final(out)@.len() ==> (#[trigger] final(out)@[k]).severity == Severity::Error
            && cycle_codes().contains(final(out)@[k].code@),
        has_code_in(final(out)@, old(out)@.len() as int, final(out)@.len() as int, "setting.parent_cycle"@)
            <==> dep_cycle(settings@, parent_rule()),
        has_code_in(final(out)@, old(out)@.len() as int, final(out)@.len() as int, "entity.containment_cycle"@)
            <==> dep_cycle(entities@, containment_rule(cx.definitions@)),
        has_code_in(final(out)@, old(out)@.len() as int, final(out)@.len() as int, "fact.requirement_cycle"@)
            <==> claims && dep_cycle(facts@, fact_rule()),
        has_code_in(final(out)@, old(out)@.len() as int, final(out)@.len() as int, "trigger.reference_cycle"@)
            <==> claims && dep_cycle(triggers@, trigger_rule()),
        has_code_in(final(out)@, old(out)@.len() as int, final(out)@.len() as int, "clue.dependency_cycle"@)
            <==> !claims && dep_cycle(clues@, field_rule("requires"@)),
        has_code_in(final(out)@, old(out)@.len() as int, final(out)@.len() as int, "deduction.dependency_cycle"@)
            <==> dep_cycle(deductions@, deduction_rule()),
        forall|k: int| old(out)@.len() <= k < final(out)@.len() ==> #[trigger] names_its_cycle(final(out)@[k], settings@,
            entities@, facts@, triggers@, clues@, deductions@, cx.definitions@),
{
    proof {
        reveal_strlit("setting.parent_cycle");
        reveal_strlit("entity.containment_cycle");
        reveal_strlit("fact.requirement_cycle");
        reveal_strlit("trigger.reference_cycle");
        reveal_strlit("clue.dependency_cycle");
        reveal_strlit("deduction.dependency_cycle");
        reveal_strlit("parent");
        reveal_strlit("initial");
        reveal_strlit("container");
        reveal_strlit("requires");
    }
    let mut parents = Graph::new();
    proof { lemma_graph_empty(parents, settings@, parent_rule()); }
    let mut i: usize = 0;
    while i < settings.len()
        invariant
            0 <= i <= settings@.len(),
            graph_of(parents, settings@.subrange(0, i as int), parent_rule()),
        decreases settings@.len() - i,
    {
        match string_field(&settings[i].mapping, "parent") {
            Some(parent) => {
                let mut deps: Vec<String> = Vec::new();
                deps.push(owned(parent));
                let ghost before = parents;
                parents.insert(settings[i].id.clone(), deps);
                proof {
                    assert(deps@.map_values(|s: String| s@) =~= seq![parent@]);
                    lemma_names_views(deps@, (parent_rule())(settings@[i as int])->0);
                    lemma_graph_step(before, parents, settings@, parent_rule(), i as int, deps@);
                }
            },
            None => {
                proof { lemma_graph_skip(parents, settings@, parent_rule(), i as int); }
            },
        }
        i += 1;
    }
    proof {
        assert(settings@.subrange(0, settings@.len() as int) =~= settings@);
        lemma_graph_cycle(parents, settings@, parent_rule());
    }
    let ghost s0 = out@;
    validate_cycles(cx, out, &parents, "setting.parent_cycle", "setting parent hierarchy");
    let ghost s1 = out@;
    proof {
        lemma_names_run(s1, s0.len() as int, s1.len() as int, parents, settings@, parent_rule(), cx.definitions@,
            "setting.parent_cycle"@);
    }
    let mut containment = Graph::new();
    proof { lemma_graph_empty(containment, entities@, containment_rule(cx.definitions@)); }
    let mut e: usize = 0;
    while e < entities.len()
        invariant
            0 <= e <= entities@.len(),
            graph_of(containment, entities@.subrange(0, e as int), containment_rule(cx.definitions@)),
        decreases entities@.len() - e,
    {
        let mut added = false;
        if let Some(container) = nested_string(&entities[e].mapping, "initial", "container") {
            if cx.kind_of(container) == Some(Kind::Entity) {
                let mut deps: Vec<String> = Vec::new();
                deps.push(owned(container));
                let ghost before = containment;
                containment.insert(entities[e].id.clone(), deps);
                proof {
                    assert(deps@.map_values(|s: String| s@) =~= seq![container@]);
                    lemma_names_views(deps@, (containment_rule(cx.definitions@))(entities@[e as int])->0);
                    lemma_graph_step(before, containment, entities@, containment_rule(cx.definitions@), e as int, deps@);
                }
                added = true;
            }
        }
        if !added {
            proof { lemma_graph_skip(containment, entities@, containment_rule(cx.definitions@), e as int); }
        }
        e += 1;
    }
    proof {
        assert(entities@.subrange(0, entities@.len() as int) =~= entities@);
        lemma_graph_cycle(containment, entities@, containment_rule(cx.definitions@));
    }
    let cycles = find_cycles(&containment);
    let mut c: usize = 0;
    while c < cycles.len()
        invariant
            0 <= c <= cycles@.len(),
            appended(s1, out@),
            out@.len() == s1.len() + c,
            errors_with(out@, s1.len() as int, out@.len() as int, "entity.containment_cycle"@),
            graph_of(containment, entities@, containment_rule(cx.definitions@)),
            forall|k: int| 0 <= k < cycles@.len() ==> containment.is_reported_cycle((#[trigger] cycles@[k])@.map_values(|s: String| s@)),
            forall|k: int| s1.len() <= k < out@.len()
                ==> #[trigger] names_dep_cycle(entities@, containment_rule(cx.definitions@), out@[k]),
        decreases cycles@.len() - c,
    {
        let cycle = &cycles[c];
        let ghost names = cycle@.map_values(|s: String| s@);
        proof {
            assert(containment.is_reported_cycle(names));
            lemma_reported_cycle_deps(containment, entities@, containment_rule(cx.definitions@), names);
        }
        let message = cat("entity containment contains a cycle: ", join_cycle(cycle).as_str());
        let subject: Option<String> = if cycle.len() > 0 { Some(cycle[0].clone()) } else { None };
        let mut item: Option<usize> = None;
        if let Some(s) = &subject {
            let mut k: usize = 0;
            while k < entities.len() && item.is_none()
                invariant
                    0 <= k <= entities@.len(),
                    match item { Some(j) => j < entities@.len(), None => true },
                decreases entities@.len() - k,
            {
                if str_eq(entities[k].id.as_str(), s.as_str()) {
                    item = Some(k);
                }
                k += 1;
            }
        }
        let ghost b = out@;
        match item {
            Some(j) => {
                let entity = &entities[j];
                let range = match nested_string(&entity.mapping, "initial", "container") {
                    Some(container) => locate_scalar(entity.source.as_str(), container),
                    None => None,
                };
                error(out, "entity.containment_cycle", message, entity.path.as_str(),
                    Some(cat(entity.pointer.as_str(), "/initial/container")), range, subject);
            },
            None => {
                error(out, "entity.containment_cycle", message, "", None, None, subject);
            },
        }
        proof {
            crate::model::lemma_appended_trans(s1, b, out@);
            assert(names[0] == cycle@[0]@);
            assert forall|k: int| s1.len() <= k < out@.len()
                implies #[trigger] names_dep_cycle(entities@, containment_rule(cx.definitions@), out@[k]) by {
                if k < out@.len() - 1 {
                    assert(out@[k] == b[k]);
                } else {
                    assert(out@[k] == out@.last());
                    assert(opt_view(out@[k].subject_id) == Some(names[0]));
                    assert(dep_reported_cycle(entities@, containment_rule(cx.definitions@), names));
                }
            }
            assert forall|k: int| s1.len() <= k < out@.len() implies #[trigger] out@[k].code@ == "entity.containment_cycle"@
                && out@[k].severity == Severity::Error by {
                if k < out@.len() - 1 {
                    assert(out@[k] == b[k]);
                    assert(b[k].code@ == "entity.containment_cycle"@);
                } else {
                    assert(out@[k] == out@.last());
                }
            }
        }
        c += 1;
    }
    let ghost s2 = out@;
    let ghost s3;
    let ghost t;
    if claims {
        let facts_graph = fact_dependency_graph(facts);
        proof { lemma_graph_cycle(facts_graph, facts@, fact_rule()); }
        validate_cycles(cx, out, &facts_graph, "fact.requirement_cycle", "fact requirement");
        proof {
            t = out@;
            lemma_names_run(t, s2.len() as int, t.len() as int, facts_graph, facts@, fact_rule(), cx.definitions@,
                "fact.requirement_cycle"@);
        }
        let trigger_graph = trigger_dependency_graph(triggers);
        proof { lemma_graph_cycle(trigger_graph, triggers@, trigger_rule()); }
        validate_cycles(cx, out, &trigger_graph, "trigger.reference_cycle", "trigger completion dependency");
        proof {
            crate::model::lemma_appended_trans(s2, t, out@);
            s3 = out@;
            lemma_names_run(s3, t.len() as int, s3.len() as int, trigger_graph, triggers@, trigger_rule(), cx.definitions@,
                "trigger.reference_cycle"@);
        }
    } else {
        proof { t = out@; }
        let clue_graph = dependency_graph(clues, "requires");
        proof { lemma_graph_cycle(clue_graph, clues@, field_rule("requires"@)); }
        validate_cycles(cx, out, &clue_graph, "clue.dependency_cycle", "clue dependency");
        proof {
            s3 = out@;
            lemma_names_run(s3, t.len() as int, s3.len() as int, clue_graph, clues@, field_rule("requires"@), cx.definitions@,
                "clue.dependency_cycle"@);
        }
    }
    let deduction_graph = deduction_dependency_graph(deductions);
    proof { lemma_graph_cycle(deduction_graph, deductions@, deduction_rule()); }
    validate_cycles(cx, out, &deduction_graph, "deduction.dependency_cycle", "deduction dependency");
    proof {
        let f = out@;
        let o = old(out)@;
        lemma_names_run(f, s3.len() as int, f.len() as int, deduction_graph, deductions@, deduction_rule(), cx.definitions@,
            "deduction.dependency_cycle"@);
        crate::model::lemma_appended_trans(s0, s1, s2);
        crate::model::lemma_appended_trans(s0, s2, s3);
        crate::model::lemma_appended_trans(s0, s3, f);
        crate::model::lemma_appended_trans(o, s0, f);
        crate::model::lemma_appended_trans(s1, s2, s3);
        crate::model::lemma_appended_trans(s1, s3, f);
        crate::model::lemma_appended_trans(s2, s3, f);
        lemma_errors_kept(s1, f, s0.len() as int, s1.len() as int, "setting.parent_cycle"@);
        lemma_errors_kept(s2, f, s1.len() as int, s2.len() as int, "entity.containment_cycle"@);
        if claims {
            crate::model::lemma_appended_trans(t, s3, f);
            lemma_errors_kept(t, f, s2.len() as int, t.len() as int, "fact.requirement_cycle"@);
            lemma_errors_kept(s3, f, t.len() as int, s3.len() as int, "trigger.reference_cycle"@);
        } else {
            lemma_errors_kept(s3, f, s2.len() as int, s3.len() as int, "clue.dependency_cycle"@);
        }
        lemma_cycle_report(f, s0.len() as int, s1.len() as int, s2.len() as int, t.len() as int, s3.len() as int,
            claims, dep_cycle(settings@, parent_rule()), dep_cycle(entities@, containment_rule(cx.definitions@)),
            dep_cycle(facts@, fact_rule()), dep_cycle(triggers@, trigger_rule()),
            dep_cycle(clues@, field_rule("requires"@)), dep_cycle(deductions@, deduction_rule()));
        assert forall|k: int| o.len() <= k < f.len() implies #[trigger] names_its_cycle(f[k], settings@,
            entities@, facts@, triggers@, clues@, deductions@, cx.definitions@) by {
            reveal_strlit("setting.parent_cycle");
            reveal_strlit("entity.containment_cycle");
            reveal_strlit("fact.requirement_cycle");
            reveal_strlit("trigger.reference_cycle");
            reveal_strlit("clue.dependency_cycle");
            reveal_strlit("deduction.dependency_cycle");
            assert("setting.parent_cycle"@.len() == 20 && "entity.containment_cycle"@.len() == 24);
            assert("fact.requirement_cycle"@.len() == 22 && "trigger.reference_cycle"@.len() == 23);
            assert("clue.dependency_cycle"@.len() == 21 && "deduction.dependency_cycle"@.len() == 26);
            if k < s1.len() {
                assert(f[k] == s1[k]);
                assert(f[k].code@ == "setting.parent_cycle"@);
            } else if k < s2.len() {
                assert(f[k] == s2[k]);
                assert(f[k].code@ == "entity.containment_cycle"@);
            } else if k < s3.len() {
                if claims {
                    if k < t.len() {
                        assert(f[k] == t[k]);
                        assert(f[k].code@ == "fact.requirement_cycle"@);
                    } else {
                        assert(f[k] == s3[k]);
                        assert(f[k].code@ == "trigger.reference_cycle"@);
                    }
                } else {
                    assert(f[k] == s3[k]);
                    assert(f[k].code@ == "clue.dependency_cycle"@);
                }
            } else {
                assert(f[k].code@ == "deduction.dependency_cycle"@);
            }
        }
    }
}

/// How the runs of cycle diagnostics make up what `validate_graphs` reports.
proof fn lemma_cycle_report(f: Seq<Diagnostic>, lo: int, a: int, b: int, t: int, c: int,
    claims: bool, cp: bool, cc: bool, cf: bool, ct: bool, cl: bool, cd: bool)
    requires
        lo <= a <= b <= t <= c <= f.len(),
        errors_with(f, lo, a, "setting.parent_cycle"@),
        a > lo <==> cp,
        errors_with(f, a, b, "entity.containment_cycle"@),
        b > a <==> cc,
        claims ==> errors_with(f, b, t, "fact.requirement_cycle"@) && (t > b <==> cf)
            && errors_with(f, t, c, "trigger.reference_cycle"@) && (c > t <==> ct),
        !claims ==> t == b && errors_with(f, b, c, "clue.dependency_cycle"@) && (c > b <==> cl),
        errors_with(f, c, f.len() as int, "deduction.dependency_cycle"@),
        f.len() > c <==> cd,
    ensures
        forall|k: int| lo <= k < f.len() ==> (#[trigger] f[k]).severity == Severity::Error
            && cycle_codes().contains(f[k].code@),
        has_code_in(f, lo, f.len() as int, "setting.parent_cycle"@) <==> cp,
        has_code_in(f, lo, f.len() as int, "entity.containment_cycle"@) <==> cc,
        has_code_in(f, lo, f.len() as int, "fact.requirement_cycle"@) <==> claims && cf,
        has_code_in(f, lo, f.len() as int, "trigger.reference_cycle"@) <==> claims && ct,
        has_code_in(f, lo, f.len() as int, "clue.dependency_cycle"@) <==> !claims && cl,
        has_code_in(f, lo, f.len() as int, "deduction.dependency_cycle"@) <==> cd,
{
    reveal_strlit("setting.parent_cycle");
    reveal_strlit("entity.containment_cycle");
    reveal_strlit("fact.requirement_cycle");
    reveal_strlit("trigger.reference_cycle");
    reveal_strlit("clue.dependency_cycle");
    reveal_strlit("deduction.dependency_cycle");
    let codes = cycle_codes();
    let hi = f.len() as int;
    assert(codes[0].len() == 20 && codes[1].len() == 24 && codes[2].len() == 22);
    assert(codes[3].len() == 23 && codes[4].len() == 21 && codes[5].len() == 26);
    assert forall|x: Seq<char>| #[trigger] codes.contains(x) implies
        (has_code_in(f, lo, hi, x) <==> (
            (x == codes[0] && cp) || (x == codes[1] && cc)
            || (claims && x == codes[2] && cf) || (claims && x == codes[3] && ct)
            || (!claims && x == codes[4] && cl) || (x == codes[5] && cd))) by {
        lemma_has_code_split(f, lo, a, hi, x);
        lemma_has_code_split(f, a, b, hi, x);
        lemma_has_code_split(f, b, t, hi, x);
        lemma_has_code_split(f, t, c, hi, x);
        lemma_has_code_run(f, lo, a, codes[0], x);
        lemma_has_code_run(f, a, b, codes[1], x);
        lemma_has_code_run(f, c, hi, codes[5], x);
        if claims {
            lemma_has_code_run(f, b, t, codes[2], x);
            lemma_has_code_run(f, t, c, codes[3], x);
        } else {
            lemma_has_code_run(f, b, c, codes[4], x);
            assert(!has_code_in(f, b, t, x));
        }
    }
    assert(codes.contains(codes[0]));
    assert(codes.contains(codes[1]));
    assert(codes.contains(codes[2]));
    assert(codes.contains(codes[3]));
    assert(codes.contains(codes[4]));
    assert(codes.contains(codes[5]));
    assert forall|k: int| lo <= k < f.len() implies (#[trigger] f[k]).severity == Severity::Error
        && cycle_codes().contains(f[k].code@) by {
        if k < a {
            assert(f[k].code@ == codes[0]);
        } else if k < b {
            assert(f[k].code@ == codes[1]);
        } else if k < c {
            if claims {
                if k < t {
                    assert(f[k].code@ == codes[2]);
                } else {
                    assert(f[k].code@ == codes[3]);
                }
            } else {
                assert(f[k].code@ == codes[4]);
            }
        } else {
            assert(f[k].code@ == codes[5]);
        }
    }
}

/// Whether a setting takes part in navigation: `navigable` when given, otherwise every
/// type but `island`.
pub open spec fn spec_navigable(setting: Item) -> bool {
    match spec_bool_field(setting.mapping@, "navigable"@) {
        Some(b) => b,
        None => spec_string_field(setting.mapping@, "type"@) != Some("island"@),
    }
}

/// Whether a setting takes part in navigation: `navigable` when given, otherwise every
/// type but `island`.
fn is_navigable(setting: &Item) -> (r: bool)
    ensures
        r == spec_navigable(*setting),
{
    match bool_field(&setting.mapping, "navigable") {
        Some(b) => b,
        None => match string_field(&setting.mapping, "type") {
            Some(t) => !str_eq(t, "island"),
            None => true,
        },
    }
}

/// `a` is the ID of a navigable setting.
pub open spec fn nav_node(settings: Seq<Item>, a: Seq<char>) -> bool {
    exists|i: int| 0 <= i < settings.len() && spec_navigable(#[trigger] settings[i]) && settings[i].id@ == a
}

/// The `from` and `to` IDs of a route.
pub open spec fn route_ends(route: Item) -> Option<(Seq<char>, Seq<char>)> {
    match (spec_string_field(route.mapping@, "from"@), spec_string_field(route.mapping@, "to"@)) {
        (Some(f), Some(t)) => Some((f, t)),
        _ => None,
    }
}

/// The route leads from `a` to `b` between navigable settings (both ways when
/// bidirectional).
pub open spec fn route_edge(settings: Seq<Item>, route: Item, a: Seq<char>, b: Seq<char>) -> bool {
    route_ends(route) matches Some(ends) && nav_node(settings, ends.0) && nav_node(settings, ends.1)
        && ((a == ends.0 && b == ends.1)
            || (spec_bool_field(route.mapping@, "bidirectional"@) == Some(true) && a == ends.1 && b == ends.0))
}

/// Some route leads from `a` to `b`.
pub open spec fn nav_edge(settings: Seq<Item>, routes: Seq<Item>, a: Seq<char>, b: Seq<char>) -> bool {
    exists|r: int| 0 <= r < routes.len() && #[trigger] route_edge(settings, routes[r], a, b)
}

/// `w` follows routes (against their direction when `backwards`).
pub open spec fn nav_walk(settings: Seq<Item>, routes: Seq<Item>, w: Seq<Seq<char>>, backwards: bool) -> bool {
    &&& w.len() >= 1
    &&& forall|k: int| 0 <= k < w.len() - 1 ==> (if backwards { nav_edge(settings, routes, w[k + 1], #[trigger] w[k]) }
        else { nav_edge(settings, routes, #[trigger] w[k], w[k + 1]) })
}

/// `b` can be reached from one of `starts` along routes (or, `backwards`, one of `starts`
/// can be reached from `b`).
pub open spec fn nav_reaches(settings: Seq<Item>, routes: Seq<Item>, starts: Seq<Seq<char>>, b: Seq<char>, backwards: bool) -> bool {
    exists|w: Seq<Seq<char>>| #[trigger] nav_walk(settings, routes, w, backwards) && starts.contains(w[0]) && w.last() == b
}

/// The least navigable ID.
pub open spec fn least_nav_node(settings: Seq<Item>) -> Seq<char> {
    choose|a: Seq<char>| nav_node(settings, a) && forall|b: Seq<char>| nav_node(settings, b) && b != a ==> seq_less(a, b)
}

/// Whether the first case declares a navigation contract.
pub open spec fn has_contract(cases: Seq<Item>) -> bool {
    cases.len() > 0 && (map_get(cases[0].mapping@, "entry_settings"@) is Some || map_get(cases[0].mapping@, "exit_settings"@) is Some)
}

/// The IDs the first case lists under `field`.
pub open spec fn listed_settings(cases: Seq<Item>, field: Seq<char>) -> Seq<Seq<char>> {
    if cases.len() > 0 { spec_string_list_field(cases[0].mapping@, field) } else { Seq::empty() }
}

/// The navigable IDs among `listed`, in order.
pub open spec fn navigable_among(settings: Seq<Item>, listed: Seq<Seq<char>>) -> Seq<Seq<char>> {
    listed.filter(|a: Seq<char>| nav_node(settings, a))
}

/// The entries: the listed navigable settings, or, without a list or contract, the least
/// navigable setting.
pub open spec fn entry_selection(settings: Seq<Item>, cases: Seq<Item>) -> Seq<Seq<char>> {
    let listed = listed_settings(cases, "entry_settings"@);
    if listed.len() == 0 {
        if !has_contract(cases) { seq![least_nav_node(settings)] } else { Seq::empty() }
    } else if !has_contract(cases) {
        navigable_among(settings, listed)
    } else {
        navigable_among(settings, listed)
    }
}

/// The exits: the listed navigable settings; without a contract, every listed exit, or the
/// entries when none is listed.
pub open spec fn exit_selection(settings: Seq<Item>, cases: Seq<Item>) -> Seq<Seq<char>> {
    let listed = listed_settings(cases, "exit_settings"@);
    if listed.len() == 0 && !has_contract(cases) {
        entry_selection(settings, cases)
    } else if listed.len() == 0 {
        Seq::empty()
    } else if !has_contract(cases) {
        listed
    } else {
        navigable_among(settings, listed)
    }
}

/// The finding of one route.
pub open spec fn route_findings(defs: Seq<(String, Definition)>, settings: Seq<Item>, route: Item) -> Seq<Finding> {
    match route_ends(route) {
        Some(ends) => finding_if(!(nav_node(settings, ends.0) && nav_node(settings, ends.1))
            && (kind_in(defs, ends.0) == Some(Kind::Setting) || kind_in(defs, ends.1) == Some(Kind::Setting)),
            error_at("route.non_navigable_endpoint"@, route.pointer@)),
        None => Seq::empty(),
    }
}

/// The finding of a missing entry or exit: at the first case's `field`.
pub open spec fn case_navigation_finding(cases: Seq<Item>, code: Seq<char>, field: Seq<char>) -> Finding {
    (Severity::Error, code, if cases.len() > 0 { Some(cases[0].pointer@ + "/"@ + field) } else { None })
}

/// The findings of one setting's reachability.
pub open spec fn setting_navigation_findings(settings: Seq<Item>, routes: Seq<Item>, entries: Seq<Seq<char>>, exits: Seq<Seq<char>>,
    setting: Item) -> Seq<Finding> {
    if nav_node(settings, setting.id@) {
        finding_if(entries.len() > 0 && !nav_reaches(settings, routes, entries, setting.id@, false),
            error_at("navigation.unreachable"@, setting.pointer@))
        + finding_if(exits.len() > 0 && !nav_reaches(settings, routes, exits, setting.id@, true),
            error_at("navigation.no_exit"@, setting.pointer@))
    } else {
        Seq::empty()
    }
}

/// A case without `entry_settings` and `exit_settings`: an error in format 3, which needs an
/// explicit navigation contract; a warning for the compatibility mode of format 1.
pub open spec fn implicit_contract_finding(format_3: bool, pointer: Seq<char>) -> Finding {
    (if format_3 { Severity::Error } else { Severity::Warning }, "navigation.implicit_contract"@, Some(pointer))
}

/// The findings of `validate_navigation` (`format_3`: the story uses format 3).
pub open spec fn navigation_findings(defs: Seq<(String, Definition)>, format_3: bool, cases: Seq<Item>, settings: Seq<Item>,
    routes: Seq<Item>) -> Seq<Finding> {
    let entries = entry_selection(settings, cases);
    let exits = exit_selection(settings, cases);
    if !exists|a: Seq<char>| #[trigger] nav_node(settings, a) {
        Seq::empty()
    } else {
        findings_over(routes, |r: Item| route_findings(defs, settings, r))
        + finding_if(!has_contract(cases) && cases.len() > 0, implicit_contract_finding(format_3, cases[0].pointer@))
        + (if has_contract(cases) && entries.len() == 0 {
            seq![case_navigation_finding(cases, "navigation.entry_missing"@, "entry_settings"@)] } else { Seq::empty() })
        + (if has_contract(cases) && exits.len() == 0 {
            seq![case_navigation_finding(cases, "navigation.exit_missing"@, "exit_settings"@)] } else { Seq::empty() })
        + findings_over(settings, |s: Item| setting_navigation_findings(settings, routes, entries, exits, s))
    }
}

/// The graph has exactly the navigable settings as nodes.
pub open spec fn nodes_are_navigable(g: Graph, settings: Seq<Item>) -> bool {
    forall|a: Seq<char>| #[trigger] g.has_node(a) <==> nav_node(settings, a)
}

/// The graph's edges are the routes, forward or (`backwards`) reversed.
pub open spec fn edges_are_routes(g: Graph, settings: Seq<Item>, routes: Seq<Item>, backwards: bool) -> bool {
    forall|a: Seq<char>, b: Seq<char>| #[trigger] g.has_edge(a, b)
        <==> (if backwards { nav_edge(settings, routes, b, a) } else { nav_edge(settings, routes, a, b) })
}

/// A walk of a graph whose edges are the routes follows the routes.
proof fn lemma_walks_follow_routes(g: Graph, settings: Seq<Item>, routes: Seq<Item>, backwards: bool, w: Seq<Seq<char>>)
    requires
        edges_are_routes(g, settings, routes, backwards),
    ensures
        g.is_walk(w) <==> nav_walk(settings, routes, w, backwards),
{
    if g.is_walk(w) {
        assert forall|k: int| 0 <= k < w.len() - 1 implies (if backwards { nav_edge(settings, routes, w[k + 1], #[trigger] w[k]) }
            else { nav_edge(settings, routes, #[trigger] w[k], w[k + 1]) }) by {
            assert(g.has_edge(w[k], w[k + 1]));
        }
    }
    if nav_walk(settings, routes, w, backwards) {
        assert forall|k: int| 0 <= k < w.len() - 1 implies g.has_edge(#[trigger] w[k], w[k + 1]) by {
            if backwards {
                assert(nav_edge(settings, routes, w[k + 1], w[k]));
            } else {
                assert(nav_edge(settings, routes, w[k], w[k + 1]));
            }
        }
    }
}

/// A route joins navigable settings.
proof fn lemma_route_ends_navigable(settings: Seq<Item>, routes: Seq<Item>, a: Seq<char>, b: Seq<char>)
    requires
        nav_edge(settings, routes, a, b),
    ensures
        nav_node(settings, a),
        nav_node(settings, b),
{
    let r = choose|r: int| 0 <= r < routes.len() && #[trigger] route_edge(settings, routes[r], a, b);
    assert(route_edge(settings, routes[r], a, b));
}

/// Marks that contain the starts and are closed under edges cover every walk from a start.
proof fn lemma_marked_walk(g: Graph, settings: Seq<Item>, routes: Seq<Item>, backwards: bool, starts: Seq<String>, marks: Seq<bool>,
    w: Seq<Seq<char>>)
    requires
        g.wf(),
        marks.len() == g.nodes@.len(),
        nodes_are_navigable(g, settings),
        edges_are_routes(g, settings, routes, backwards),
        forall|s: int, i: int| 0 <= s < starts.len() && 0 <= i < g.nodes@.len()
            && (#[trigger] starts[s])@ == (#[trigger] g.nodes@[i])@ ==> marks[i],
        forall|i: int, j: int| 0 <= i < g.nodes@.len() && 0 <= j < g.nodes@.len() && marks[i]
            && g.has_edge(#[trigger] g.nodes@[i]@, #[trigger] g.nodes@[j]@) ==> marks[j],
        g.is_walk(w),
        names_contain(starts, w[0]),
        g.has_node(w.last()),
    ensures
        forall|i: int| 0 <= i < g.nodes@.len() && (#[trigger] g.nodes@[i])@ == w.last() ==> marks[i],
    decreases w.len(),
{
    if w.len() == 1 {
        let s = choose|s: int| 0 <= s < starts.len() && (#[trigger] starts[s])@ == w[0];
        assert forall|i: int| 0 <= i < g.nodes@.len() && (#[trigger] g.nodes@[i])@ == w.last() implies marks[i] by {
            assert(starts[s]@ == g.nodes@[i]@);
        }
    } else {
        let v = w.drop_last();
        assert forall|k: int| 0 <= k < v.len() - 1 implies g.has_edge(#[trigger] v[k], v[k + 1]) by {
            assert(v[k] == w[k] && v[k + 1] == w[k + 1]);
        }
        let n = w.len() - 2;
        assert(g.has_edge(w[n], w[n + 1]));
        assert(w[n] == v.last());
        if backwards {
            lemma_route_ends_navigable(settings, routes, w[n + 1], w[n]);
        } else {
            lemma_route_ends_navigable(settings, routes, w[n], w[n + 1]);
        }
        assert(g.has_node(v.last()));
        lemma_marked_walk(g, settings, routes, backwards, starts, marks, v);
        let p = choose|p: int| 0 <= p < g.nodes@.len() && (#[trigger] g.nodes@[p])@ == v.last();
        assert forall|i: int| 0 <= i < g.nodes@.len() && (#[trigger] g.nodes@[i])@ == w.last() implies marks[i] by {
            assert(marks[p]);
            assert(g.has_edge(g.nodes@[p]@, g.nodes@[i]@));
        }
    }
}

/// What `reachable` marks on a graph of the routes is exactly what the routes reach.
proof fn lemma_reachable_is_nav_reaches(g: Graph, settings: Seq<Item>, routes: Seq<Item>, backwards: bool, starts: Seq<String>,
    marks: Seq<bool>, i: int)
    requires
        g.wf(),
        0 <= i < g.nodes@.len(),
        marks.len() == g.nodes@.len(),
        nodes_are_navigable(g, settings),
        edges_are_routes(g, settings, routes, backwards),
        forall|s: int, i: int| 0 <= s < starts.len() && 0 <= i < g.nodes@.len()
            && (#[trigger] starts[s])@ == (#[trigger] g.nodes@[i])@ ==> marks[i],
        forall|i: int, j: int| 0 <= i < g.nodes@.len() && 0 <= j < g.nodes@.len() && marks[i]
            && g.has_edge(#[trigger] g.nodes@[i]@, #[trigger] g.nodes@[j]@) ==> marks[j],
        forall|i: int| 0 <= i < g.nodes@.len() && #[trigger] marks[i] ==> reaches(g, starts, g.nodes@[i]@),
    ensures
        marks[i] == nav_reaches(settings, routes, starts.map_values(|s: String| s@), g.nodes@[i]@, backwards),
{
    let views = starts.map_values(|s: String| s@);
    let b = g.nodes@[i]@;
    if marks[i] {
        assert(reaches(g, starts, b));
        let w = choose|w: Seq<Seq<char>>| #[trigger] g.is_walk(w) && names_contain(starts, w[0]) && w.last() == b;
        lemma_walks_follow_routes(g, settings, routes, backwards, w);
        let s = choose|s: int| 0 <= s < starts.len() && (#[trigger] starts[s])@ == w[0];
        assert(views[s] == w[0]);
        assert(nav_walk(settings, routes, w, backwards) && views.contains(w[0]) && w.last() == b);
    }
    if nav_reaches(settings, routes, views, b, backwards) {
        let w = choose|w: Seq<Seq<char>>| #[trigger] nav_walk(settings, routes, w, backwards) && views.contains(w[0]) && w.last() == b;
        lemma_walks_follow_routes(g, settings, routes, backwards, w);
        let s = choose|s: int| 0 <= s < views.len() && views[s] == w[0];
        assert(starts[s]@ == w[0]);
        assert(g.has_node(b));
        lemma_marked_walk(g, settings, routes, backwards, starts, marks, w);
    }
}

/// The least node of a sorted graph is the least navigable ID.
proof fn lemma_first_node_least(g: Graph, settings: Seq<Item>)
    requires
        g.wf(),
        g.nodes@.len() > 0,
        nodes_are_navigable(g, settings),
    ensures
        g.nodes@[0]@ == least_nav_node(settings),
{
    let a = g.nodes@[0]@;
    assert(g.has_node(a));
    assert forall|b: Seq<char>| nav_node(settings, b) && b != a implies seq_less(a, b) by {
        assert(g.has_node(b));
        let j = choose|j: int| 0 <= j < g.nodes@.len() && (#[trigger] g.nodes@[j])@ == b;
        assert(j != 0);
        assert(seq_less(g.nodes@[0]@, g.nodes@[j]@));
    }
    let c = least_nav_node(settings);
    assert(nav_node(settings, c) && forall|b: Seq<char>| nav_node(settings, b) && b != c ==> seq_less(c, b));
    if c != a {
        assert(seq_less(a, c));
        assert(seq_less(c, a));
        crate::text::lemma_seq_less_transitive(a, c, a);
        crate::text::lemma_seq_less_irreflexive(a);
    }
}

/// The node index of `id`.
fn node_index(g: &Graph, id: &String) -> (r: Option<usize>)
    requires
        g.wf(),
    ensures
        match r {
            Some(i) => i < g.nodes@.len() && g.nodes@[i as int]@ == id@,
            None => !g.has_node(id@),
        },
{
    g.index_of(id)
}

/// The navigable settings as nodes without edges.
fn navigable_nodes(settings: &Vec<Item>) -> (g: Graph)
    ensures
        g.wf(),
        nodes_are_navigable(g, settings@),
        forall|a: Seq<char>, b: Seq<char>| !(#[trigger] g.has_edge(a, b)),
{
    let mut g = Graph::new();
    let mut i: usize = 0;
    while i < settings.len()
        invariant
            0 <= i <= settings@.len(),
            g.wf(),
            forall|a: Seq<char>| #[trigger] g.has_node(a) <==> nav_node(settings@.take(i as int), a),
            forall|a: Seq<char>, b: Seq<char>| !(#[trigger] g.has_edge(a, b)),
        decreases settings@.len() - i,
    {
        let ghost before = g;
        if is_navigable(&settings[i]) {
            let none: Vec<String> = Vec::new();
            proof { assert forall|b: Seq<char>| !names_contain(none@, b) by {} }
            g.insert(owned(settings[i].id.as_str()), none);
            proof {
                assert forall|a: Seq<char>, b: Seq<char>| !(#[trigger] g.has_edge(a, b)) by {
                    if a == settings@[i as int].id@ {
                        assert(!names_contain(none@, b));
                    } else {
                        assert(!before.has_edge(a, b));
                    }
                }
            }
        }
        proof {
            let now = settings@.take(i + 1);
            let was = settings@.take(i as int);
            assert forall|a: Seq<char>| #[trigger] g.has_node(a) <==> nav_node(now, a) by {
                if nav_node(now, a) {
                    let k = choose|k: int| 0 <= k < now.len() && spec_navigable(#[trigger] now[k]) && now[k].id@ == a;
                    if k < i {
                        assert(was[k] == now[k]);
                        assert(nav_node(was, a));
                    }
                }
                if nav_node(was, a) {
                    let k = choose|k: int| 0 <= k < was.len() && spec_navigable(#[trigger] was[k]) && was[k].id@ == a;
                    assert(now[k] == was[k]);
                }
                if spec_navigable(settings@[i as int]) && a == settings@[i as int].id@ {
                    assert(now[i as int] == settings@[i as int]);
                }
            }
        }
        i += 1;
    }
    proof {
        assert(settings@.take(settings@.len() as int) =~= settings@);
    }
    g
}

/// Adds the routes between navigable settings to the forward and reverse graphs, and
/// reports the routes that touch a non-navigable setting.
fn add_routes(cx: &Context, out: &mut Vec<Diagnostic>, settings: &Vec<Item>, routes: &Vec<Item>, fwd_g: &mut Graph, rev_g: &mut Graph)
    requires
        old(fwd_g).wf(),
        old(rev_g).wf(),
        old(fwd_g).nodes@.len() > 0,
        nodes_are_navigable(*old(fwd_g), settings@),
        nodes_are_navigable(*old(rev_g), settings@),
        forall|a: Seq<char>, b: Seq<char>| !(#[trigger] old(fwd_g).has_edge(a, b)),
        forall|a: Seq<char>, b: Seq<char>| !(#[trigger] old(rev_g).has_edge(a, b)),
    ensures
        final(fwd_g).wf(),
        final(rev_g).wf(),
        final(fwd_g).nodes@ == old(fwd_g).nodes@,
        nodes_are_navigable(*final(fwd_g), settings@),
        nodes_are_navigable(*final(rev_g), settings@),
        edges_are_routes(*final(fwd_g), settings@, routes@, false),
        edges_are_routes(*final(rev_g), settings@, routes@, true),
        appended(old(out)@, final(out)@),
        added_findings(old(out)@, final(out)@) == findings_over(routes@, |r: Item| route_findings(cx.definitions@, settings@, r)),
{
    proof {
        lemma_added_findings_none(out@);
        assert(routes@.take(0).len() == 0);
        assert forall|x: Seq<char>, y: Seq<char>| #[trigger] fwd_g.has_edge(x, y) <==> nav_edge(settings@, routes@.take(0), x, y) by {}
        assert forall|x: Seq<char>, y: Seq<char>| #[trigger] rev_g.has_edge(x, y) <==> nav_edge(settings@, routes@.take(0), y, x) by {}
    }
    let ghost nodes0 = fwd_g.nodes@;
    let ghost defs = cx.definitions@;
    let ghost f = |r: Item| route_findings(defs, settings@, r);
    let mut r: usize = 0;
    while r < routes.len()
        invariant
            0 <= r <= routes@.len(),
            defs == cx.definitions@,
            f == (|r: Item| route_findings(defs, settings@, r)),
            fwd_g.wf(),
            rev_g.wf(),
            fwd_g.nodes@.len() > 0,
            fwd_g.nodes@ == nodes0,
            nodes_are_navigable(*fwd_g, settings@),
            nodes_are_navigable(*rev_g, settings@),
            edges_are_routes(*fwd_g, settings@, routes@.take(r as int), false),
            edges_are_routes(*rev_g, settings@, routes@.take(r as int), true),
            appended(old(out)@, out@),
            added_findings(old(out)@, out@) == findings_over(routes@.take(r as int), f),
        decreases routes@.len() - r,
    {
        let route = &routes[r];
        let ghost b = out@;
        let ghost fw = *fwd_g;
        let ghost rv = *rev_g;
        let from = string_field(&route.mapping, "from");
        let to = string_field(&route.mapping, "to");
        let ghost bidi = spec_bool_field(route.mapping@, "bidirectional"@) == Some(true);
        match (from, to) {
            (Some(from), Some(to)) => {
                let from_s = owned(from);
                let to_s = owned(to);
                let f_fwd = node_index(fwd_g, &from_s);
                let t_fwd = node_index(fwd_g, &to_s);
                let f_rev = node_index(rev_g, &from_s);
                let t_rev = node_index(rev_g, &to_s);
                proof {
                    assert(route_ends(routes@[r as int]) == Some((from@, to@)));
                    assert(fwd_g.has_node(from@) <==> rev_g.has_node(from@));
                    assert(fwd_g.has_node(to@) <==> rev_g.has_node(to@));
                }
                match (f_fwd, t_fwd, f_rev, t_rev) {
                    (Some(ff), Some(tf), Some(fr), Some(tr)) => {
                        proof {
                            assert(fwd_g.has_node(from@));
                            assert(fwd_g.has_node(to@));
                        }
                        fwd_g.push_edge(ff, owned(to));
                        rev_g.push_edge(tr, owned(from));
                        let both_ways = bool_field(&route.mapping, "bidirectional") == Some(true);
                        if both_ways {
                            fwd_g.push_edge(tf, owned(from));
                            rev_g.push_edge(fr, owned(to));
                        }
                        proof {
                            lemma_added_findings_none(b);
                            assert forall|x: Seq<char>, y: Seq<char>| fwd_g.has_edge(x, y)
                                <==> (fw.has_edge(x, y) || route_edge(settings@, routes@[r as int], x, y)) by {}
                            assert forall|x: Seq<char>, y: Seq<char>| rev_g.has_edge(x, y)
                                <==> (rv.has_edge(x, y) || route_edge(settings@, routes@[r as int], y, x)) by {}
                        }
                    },
                    _ => {
                        proof {
                            assert(!(nav_node(settings@, from@) && nav_node(settings@, to@)));
                            assert forall|x: Seq<char>, y: Seq<char>| !route_edge(settings@, routes@[r as int], x, y) by {}
                        }
                        let endpoint_setting = cx.kind_of(from) == Some(Kind::Setting) || cx.kind_of(to) == Some(Kind::Setting);
                        error_if(out, endpoint_setting, "route.non_navigable_endpoint",
                            cat3("route `", route.id.as_str(), "` connects a setting marked non-navigable"), route.path.as_str(),
                            route.pointer.clone(), None, Some(route.id.clone()));
                    },
                }
            },
            _ => {
                proof {
                    lemma_added_findings_none(b);
                    assert(route_ends(routes@[r as int]) is None);
                    assert forall|x: Seq<char>, y: Seq<char>| !route_edge(settings@, routes@[r as int], x, y) by {}
                }
            },
        }
        proof {
            let was = routes@.take(r as int);
            let now = routes@.take(r + 1);
            assert(now[r as int] == routes@[r as int]);
            assert forall|k: int| 0 <= k < was.len() implies now[k] == was[k] by {}
            assert forall|x: Seq<char>, y: Seq<char>| nav_edge(settings@, now, x, y)
                <==> (nav_edge(settings@, was, x, y) || route_edge(settings@, routes@[r as int], x, y)) by {
                if nav_edge(settings@, now, x, y) {
                    let k = choose|k: int| 0 <= k < now.len() && #[trigger] route_edge(settings@, now[k], x, y);
                    if k < r { assert(route_edge(settings@, was[k], x, y)); }
                }
                if nav_edge(settings@, was, x, y) {
                    let k = choose|k: int| 0 <= k < was.len() && #[trigger] route_edge(settings@, was[k], x, y);
                    assert(route_edge(settings@, now[k], x, y));
                }
                if route_edge(settings@, routes@[r as int], x, y) {
                    assert(route_edge(settings@, now[r as int], x, y));
                }
            }
            assert forall|x: Seq<char>, y: Seq<char>| #[trigger] fwd_g.has_edge(x, y) <==> nav_edge(settings@, now, x, y) by {
                assert(fwd_g.has_edge(x, y) <==> (fw.has_edge(x, y) || route_edge(settings@, routes@[r as int], x, y)));
                assert(fw.has_edge(x, y) <==> nav_edge(settings@, was, x, y));
            }
            assert forall|x: Seq<char>, y: Seq<char>| #[trigger] rev_g.has_edge(x, y) <==> nav_edge(settings@, now, y, x) by {
                assert(rev_g.has_edge(x, y) <==> (rv.has_edge(x, y) || route_edge(settings@, routes@[r as int], y, x)));
                assert(rv.has_edge(x, y) <==> nav_edge(settings@, was, y, x));
            }
            assert forall|a: Seq<char>| #[trigger] fwd_g.has_node(a) <==> nav_node(settings@, a) by {
                assert(fwd_g.has_node(a) <==> fw.has_node(a));
            }
            assert forall|a: Seq<char>| #[trigger] rev_g.has_node(a) <==> nav_node(settings@, a) by {
                assert(rev_g.has_node(a) <==> rv.has_node(a));
            }
            lemma_added_findings_trans(old(out)@, b, out@);
            lemma_findings_over_step(routes@, f, r as int);
        }
        r += 1;
    }
    proof { lemma_take_all(routes@); }
}

/// Reports every navigable setting that no entry reaches or that reaches no exit.
fn report_settings(out: &mut Vec<Diagnostic>, settings: &Vec<Item>, routes: &Vec<Item>, forward: &Graph, reverse: &Graph,
    entries: &Vec<String>, exits: &Vec<String>)
    requires
        forward.wf(),
        reverse.wf(),
        nodes_are_navigable(*forward, settings@),
        nodes_are_navigable(*reverse, settings@),
        edges_are_routes(*forward, settings@, routes@, false),
        edges_are_routes(*reverse, settings@, routes@, true),
    ensures
        appended(old(out)@, final(out)@),
        added_findings(old(out)@, final(out)@) == findings_over(settings@,
            |s: Item| setting_navigation_findings(settings@, routes@, string_views(entries@), string_views(exits@), s)),
{
    let from_entry = reachable(forward, &entries);
    let to_exit = reachable(reverse, &exits);
    let ghost ev = string_views(entries@);
    let ghost xv = string_views(exits@);
    let ghost g = |s: Item| setting_navigation_findings(settings@, routes@, ev, xv, s);
    let mut k: usize = 0;
    proof {
        lemma_added_findings_none(out@);
        assert forall|i: int| 0 <= i < forward.nodes@.len() implies from_entry@[i]
            == nav_reaches(settings@, routes@, ev, forward.nodes@[i]@, false) by {
            lemma_reachable_is_nav_reaches(*forward, settings@, routes@, false, entries@, from_entry@, i);
        }
        assert forall|i: int| 0 <= i < reverse.nodes@.len() implies to_exit@[i]
            == nav_reaches(settings@, routes@, xv, reverse.nodes@[i]@, true) by {
            lemma_reachable_is_nav_reaches(*reverse, settings@, routes@, true, exits@, to_exit@, i);
        }
    }
    while k < settings.len()
        invariant
            0 <= k <= settings@.len(),
            forward.wf(),
            reverse.wf(),
            nodes_are_navigable(*forward, settings@),
            nodes_are_navigable(*reverse, settings@),
            edges_are_routes(*forward, settings@, routes@, false),
            edges_are_routes(*reverse, settings@, routes@, true),
            from_entry@.len() == forward.nodes@.len(),
            to_exit@.len() == reverse.nodes@.len(),
            ev == string_views(entries@),
            xv == string_views(exits@),
            forall|i: int| 0 <= i < forward.nodes@.len() ==> from_entry@[i]
                == nav_reaches(settings@, routes@, ev, forward.nodes@[i]@, false),
            forall|i: int| 0 <= i < reverse.nodes@.len() ==> to_exit@[i]
                == nav_reaches(settings@, routes@, xv, reverse.nodes@[i]@, true),
            g == (|s: Item| setting_navigation_findings(settings@, routes@, ev, xv, s)),
            appended(old(out)@, out@),
            added_findings(old(out)@, out@) == findings_over(settings@.take(k as int), g),
        decreases settings@.len() - k,
    {
        let setting = &settings[k];
        let ghost b = out@;
        match node_index(forward, &setting.id) {
            Some(fi) => {
                error_if(out, entries.len() > 0 && !from_entry[fi], "navigation.unreachable",
                    cat3("setting `", setting.id.as_str(), "` cannot be reached from an entry"),
                    setting.path.as_str(), setting.pointer.clone(),
                    locate_scalar(setting.source.as_str(), setting.id.as_str()), Some(setting.id.clone()));
                let ghost b2 = out@;
                let exits_reach = match node_index(reverse, &setting.id) { Some(ri) => to_exit[ri], None => false };
                proof { assert(forward.has_node(setting.id@)); assert(nav_node(settings@, setting.id@)); assert(reverse.has_node(setting.id@)); }
                error_if(out, exits.len() > 0 && !exits_reach, "navigation.no_exit",
                    cat3("setting `", setting.id.as_str(), "` cannot reach an exit"),
                    setting.path.as_str(), setting.pointer.clone(),
                    locate_scalar(setting.source.as_str(), setting.id.as_str()), Some(setting.id.clone()));
                proof { lemma_added_findings_trans(b, b2, out@); }
            },
            None => { proof { lemma_added_findings_none(b); } },
        }
        proof {
            lemma_added_findings_trans(old(out)@, b, out@);
            lemma_findings_over_step(settings@, g, k as int);
        }
        k += 1;
    }
    proof { lemma_take_all(settings@); }
}

/// With navigable settings, every one must be reachable from an
/// entry and able to reach an exit over the routes; the case declares the entries and
/// exits (or compatibility mode uses the first navigable setting).
pub fn validate_navigation(cx: &Context, out: &mut Vec<Diagnostic>, cases: &Vec<Item>, settings: &Vec<Item>, routes: &Vec<Item>)
    ensures
        appended(old(out)@, final(out)@),
        added_findings(old(out)@, final(out)@) == navigation_findings(cx.definitions@,
            crate::version::spec_is_format_3_from(cx.format_version, 0), cases@, settings@, routes@),
{
    proof { lemma_added_findings_none(out@); }
    let mut forward = navigable_nodes(settings);
    let mut reverse = navigable_nodes(settings);
    if forward.nodes.len() == 0 {
        proof {
            if exists|a: Seq<char>| #[trigger] nav_node(settings@, a) {
                let a = choose|a: Seq<char>| #[trigger] nav_node(settings@, a);
                assert(forward.has_node(a));
            }
        }
        return;
    }
    proof { assert(forward.has_node(forward.nodes@[0]@)); }
    add_routes(cx, out, settings, routes, &mut forward, &mut reverse);
    let ghost s1 = out@;
    let contract = cases.len() > 0 && (contains_key(&cases[0].mapping, "entry_settings") || contains_key(&cases[0].mapping, "exit_settings"));
    let (explicit_entries, explicit_exits) = if cases.len() > 0 {
        (string_list_field(&cases[0].mapping, "entry_settings"), string_list_field(&cases[0].mapping, "exit_settings"))
    } else {
        (Vec::new(), Vec::new())
    };
    proof {
        assert(string_views(explicit_entries@) == listed_settings(cases@, "entry_settings"@));
        assert(string_views(explicit_exits@) == listed_settings(cases@, "exit_settings"@));
    }
    if !contract && cases.len() > 0 {
        let case = &cases[0];
        if cx.is_format_3() {
            error_if(out, true, "navigation.implicit_contract",
                owned("format 3 requires an explicit navigation contract: add `entry_settings` and `exit_settings`"),
                case.path.as_str(), case.pointer.clone(), None, Some(case.id.clone()));
        } else {
            warning_if(out, true, "navigation.implicit_contract",
                owned("add `entry_settings` and `exit_settings`; compatibility mode requires every navigable setting to reach every other"),
                case.path.as_str(), case.pointer.clone(), None, Some(case.id.clone()));
        }
    } else {
        proof { lemma_added_findings_none(s1); }
    }
    let ghost s2 = out@;
    proof { lemma_first_node_least(forward, settings@); }
    let entries = navigable_selection(&forward, &explicit_entries, contract, true, Ghost(settings@));
    let exits = if explicit_exits.len() == 0 && !contract {
        navigable_selection(&forward, &entries, contract, false, Ghost(settings@))
    } else {
        navigable_selection(&forward, &explicit_exits, contract, false, Ghost(settings@))
    };
    proof {
        assert(string_views(entries@) == entry_selection(settings@, cases@));
        assert(string_views(exits@) == exit_selection(settings@, cases@));
    }
    if contract && entries.len() == 0 {
        push_case_navigation_error(out, cases, "navigation.entry_missing", "at least one valid, navigable entry setting is required",
            "entry_settings");
    } else {
        proof { lemma_added_findings_none(s2); }
    }
    let ghost s3 = out@;
    if contract && exits.len() == 0 {
        push_case_navigation_error(out, cases, "navigation.exit_missing", "at least one valid, navigable exit setting is required",
            "exit_settings");
    } else {
        proof { lemma_added_findings_none(s3); }
    }
    let ghost s4 = out@;
    report_settings(out, settings, routes, &forward, &reverse, &entries, &exits);
    proof {
        lemma_added_findings_trans(old(out)@, s1, s2);
        lemma_added_findings_trans(old(out)@, s2, s3);
        lemma_added_findings_trans(old(out)@, s3, s4);
        lemma_added_findings_trans(old(out)@, s4, out@);
    }
}

/// The entries (or exits): the listed navigable settings in order, or, with no list and no
/// declared contract, the first navigable setting (for entries) or the given list (exits).
fn navigable_selection(g: &Graph, listed: &Vec<String>, has_contract: bool, entries: bool, Ghost(settings): Ghost<Seq<Item>>)
    -> (r: Vec<String>)
    requires
        g.wf(),
        g.nodes@.len() > 0,
        nodes_are_navigable(*g, settings),
        g.nodes@[0]@ == least_nav_node(settings),
    ensures
        string_views(r@) == if listed@.len() == 0 {
            if !has_contract && entries { seq![least_nav_node(settings)] } else { Seq::empty() }
        } else if !has_contract && !entries {
            string_views(listed@)
        } else {
            navigable_among(settings, string_views(listed@))
        },
{
    let mut result: Vec<String> = Vec::new();
    if listed.len() == 0 {
        if !has_contract && entries && g.nodes.len() > 0 {
            result.push(owned(g.nodes[0].as_str()));
            proof { assert(string_views(result@) =~= seq![least_nav_node(settings)]); }
        } else {
            proof { assert(string_views(result@) =~= Seq::<Seq<char>>::empty()); }
        }
        return result;
    }
    let ghost lv = string_views(listed@);
    if !has_contract && !entries {
        let mut i: usize = 0;
        while i < listed.len()
            invariant
                0 <= i <= listed@.len(),
                lv == string_views(listed@),
                string_views(result@) == lv.take(i as int),
            decreases listed@.len() - i,
        {
            result.push(owned(listed[i].as_str()));
            proof { assert(string_views(result@) =~= lv.take(i + 1)); }
            i += 1;
        }
        proof { lemma_take_all(lv); }
        return result;
    }
    let mut i: usize = 0;
    proof { assert(string_views(result@) =~= navigable_among(settings, lv.take(0))); }
    while i < listed.len()
        invariant
            0 <= i <= listed@.len(),
            g.wf(),
            nodes_are_navigable(*g, settings),
            lv == string_views(listed@),
            string_views(result@) == navigable_among(settings, lv.take(i as int)),
        decreases listed@.len() - i,
    {
        proof {
            assert(lv.take(i + 1).drop_last() =~= lv.take(i as int));
            assert(lv.take(i + 1).last() == listed@[i as int]@);
            lemma_filter_push(lv.take(i as int), listed@[i as int]@, |a: Seq<char>| nav_node(settings, a));
            assert(lv.take(i + 1) =~= lv.take(i as int).push(listed@[i as int]@));
        }
        let ghost before = string_views(result@);
        if g.index_of(&listed[i]).is_some() {
            proof { assert(g.has_node(listed@[i as int]@)); }
            result.push(owned(listed[i].as_str()));
            proof { assert(string_views(result@) =~= before.push(listed@[i as int]@)); }
        } else {
            proof { assert(!nav_node(settings, listed@[i as int]@)); }
        }
        i += 1;
    }
    proof { lemma_take_all(lv); }
    result
}

/// Filtering a sequence extended by one element.
proof fn lemma_filter_push(s: Seq<Seq<char>>, x: Seq<char>, p: spec_fn(Seq<char>) -> bool)
    ensures
        s.push(x).filter(p) == if p(x) { s.filter(p).push(x) } else { s.filter(p) },
{
    reveal(Seq::filter);
    assert(s.push(x).drop_last() =~= s);
}

/// `push_case_navigation_error`.
fn push_case_navigation_error(out: &mut Vec<Diagnostic>, cases: &Vec<Item>, code: &str, message: &str, field: &str)
    ensures
        appended(old(out)@, final(out)@),
        added_findings(old(out)@, final(out)@) == seq![case_navigation_finding(cases@, code@, field@)],
{
    let ghost before = out@;
    if cases.len() > 0 {
        let case = &cases[0];
        error(out, code, owned(message), case.path.as_str(), Some(cat3(case.pointer.as_str(), "/", field)), None,
            Some(case.id.clone()));
    } else {
        error(out, code, owned(message), "", None, None, None);
    }
    proof {
        reveal_strlit("/");
        lemma_added_findings_one(before, out@);
    }
}

} // verus!
