//! Structured action matching (`on`) and persistent conditions (`when.all`).

use vstd::prelude::*;
use crate::commands::{ParameterShape, command_parameter_types, parameter_nodes, shape_view, spec_parameter_shape};
use crate::ids::{spec_escape_pointer, spec_valid_time, valid_time};
use crate::kinds::{CommandParameterType, Kind, kind_prefix, parameter_type_kind};
use crate::pointers::occurs_at;
use crate::locate::locate_scalar;
use crate::model::{Context, Definition, Finding, Item, added_findings, appended, child, child_index, contains_string, error,
    error_at, error_if, finding_if, findings_indexed, findings_over, kind_in, lemma_added_findings_none, lemma_added_findings_trans,
    lemma_findings_indexed_step, lemma_findings_over_step, lemma_take_all, one_of};
use crate::report::Diagnostic;
use crate::text::{cat, cat3, cat4, cat5, chars_of, decimal, has_text, joined, lemma_joined_step, nonblank, owned, seq_less, str_eq,
    str_less, string_from_chars, usize_to_decimal};
use crate::values::is_text;
use crate::yaml::{YamlValue, get, map_get, spec_as_mapping, spec_as_sequence, spec_as_str, spec_string_field, string_field};

verus! {

/// The last position at or before `j` where `t` occurs in `s`.
pub open spec fn last_occurrence(s: Seq<char>, t: Seq<char>, j: int) -> Option<int>
    decreases j + 1,
{
    if j < 0 {
        None
    } else if occurs_at(s, t, j) {
        Some(j)
    } else {
        last_occurrence(s, t, j - 1)
    }
}

/// The part of a pointer before its last `/facts/`.
pub open spec fn spec_owner_pointer(pointer: Seq<char>) -> Option<Seq<char>> {
    match last_occurrence(pointer, "/facts/"@, pointer.len() - "/facts/"@.len()) {
        Some(j) => Some(pointer.subrange(0, j)),
        None => None,
    }
}

/// The part of `pointer` before the last `/facts/` (`rsplit_once("/facts/")`).
pub fn owner_pointer_of(pointer: &str) -> (r: Option<String>)
    ensures
        match r {
            Some(o) => spec_owner_pointer(pointer@) == Some(o@),
            None => spec_owner_pointer(pointer@) is None,
        },
{
    let p = chars_of(pointer);
    let pattern = chars_of("/facts/");
    proof { reveal_strlit("/facts/"); }
    let n = p.len();
    let m = pattern.len();
    if n < m {
        proof {
            assert(last_occurrence(pointer@, "/facts/"@, n - m) is None);
        }
        return None;
    }
    let limit = n - m;
    let mut last: Option<usize> = None;
    let mut i: usize = 0;
    while i <= limit
        invariant
            0 <= i <= limit + 1,
            limit + m == n,
            m == 7,
            p@ == pointer@,
            pattern@ == "/facts/"@,
            match last { Some(j) => j <= limit && last_occurrence(p@, pattern@, i - 1) == Some(j as int),
                None => last_occurrence(p@, pattern@, i - 1) is None },
        decreases limit + 1 - i,
    {
        if crate::pointers::occurs_at_exec(p.as_slice(), pattern.as_slice(), i) {
            last = Some(i);
        }
        if i == limit {
            i += 1;
            break;
        }
        i += 1;
    }
    match last {
        Some(j) => Some(string_from_chars(&p.as_slice()[0..j])),
        None => None,
    }
}

/// The index of the first definition, among those at `pointer`, with the least ID.
pub open spec fn least_owner(defs: Seq<(String, Definition)>, pointer: Seq<char>, n: int) -> Option<int>
    decreases n,
{
    if n <= 0 {
        None
    } else {
        let best = least_owner(defs, pointer, n - 1);
        let i = n - 1;
        if defs[i].1.pointer@ == pointer && (best matches Some(b) ==> seq_less(defs[i].0@, defs[b].0@)) {
            Some(i)
        } else {
            best
        }
    }
}

/// The definition that owns a nested fact: the one at the fact's owner pointer with the
/// least ID (the first of them when IDs tie).
pub open spec fn spec_fact_owner(defs: Seq<(String, Definition)>, fact: Item) -> Option<Definition> {
    match spec_owner_pointer(fact.pointer@) {
        Some(p) => match least_owner(defs, p, defs.len() as int) {
            Some(i) => Some(defs[i].1),
            None => None,
        },
        None => None,
    }
}

/// The kind of a nested fact's owner.
pub open spec fn fact_owner_kind(defs: Seq<(String, Definition)>, fact: Item) -> Option<Kind> {
    match spec_fact_owner(defs, fact) {
        Some(d) => Some(d.kind),
        None => None,
    }
}

/// The definition whose pointer is the owner of a nested fact; among
/// several, the one with the least ID, as an ordered map would yield it first.
pub fn fact_owner(cx: &Context, fact: &Item) -> (r: Option<Definition>)
    ensures
        match r {
            Some(d) => spec_fact_owner(cx.definitions@, *fact) matches Some(o)
                && d.kind == o.kind && d.path@ == o.path@ && d.pointer@ == o.pointer@ && d.range == o.range,
            None => spec_fact_owner(cx.definitions@, *fact) is None,
        },
{
    let owner_pointer = match owner_pointer_of(fact.pointer.as_str()) { Some(p) => p, None => { return None; } };
    let mut best: Option<usize> = None;
    let mut i: usize = 0;
    while i < cx.definitions.len()
        invariant
            0 <= i <= cx.definitions@.len(),
            match best {
                Some(b) => b < cx.definitions@.len() && least_owner(cx.definitions@, owner_pointer@, i as int) == Some(b as int),
                None => least_owner(cx.definitions@, owner_pointer@, i as int) is None,
            },
        decreases cx.definitions@.len() - i,
    {
        if str_eq(cx.definitions[i].1.pointer.as_str(), owner_pointer.as_str()) {
            let better = match best {
                None => true,
                Some(b) => str_less(cx.definitions[i].0.as_str(), cx.definitions[b].0.as_str()),
            };
            if better {
                best = Some(i);
            }
        }
        i += 1;
    }
    match best {
        Some(b) => Some(cx.definitions[b].1.copy()),
        None => None,
    }
}

/// The first command with `id`.
pub open spec fn command_for(commands: Seq<Item>, id: Seq<char>) -> Option<Item>
    decreases commands.len(),
{
    if commands.len() == 0 {
        None
    } else if commands[0].id@ == id {
        Some(commands[0])
    } else {
        command_for(commands.drop_first(), id)
    }
}

/// The named shapes of a list of parameter nodes: each mapping with a string `name` and a
/// usable shape, in order.
pub open spec fn named_shapes_of(parameters: Seq<YamlValue>) -> Seq<(Seq<char>, (Seq<CommandParameterType>, int, int))>
    decreases parameters.len(),
{
    if parameters.len() == 0 {
        Seq::empty()
    } else {
        named_shapes_of(parameters.drop_last()) + match spec_as_mapping(parameters.last()) {
            Some(p) => match (spec_string_field(p, "name"@), spec_parameter_shape(parameters.last())) {
                (Some(n), Some(shape)) => seq![(n, shape)],
                _ => Seq::empty(),
            },
            None => Seq::empty(),
        }
    }
}

/// The named parameter shapes of the command `command_id` names.
pub open spec fn spec_named_shapes(commands: Seq<Item>, command_id: Option<Seq<char>>) -> Seq<(Seq<char>, (Seq<CommandParameterType>, int, int))> {
    match command_id {
        Some(id) => match command_for(commands, id) {
            Some(c) => named_shapes_of(parameter_nodes(c)),
            None => Seq::empty(),
        },
        None => Seq::empty(),
    }
}

/// The views of named shapes.
pub open spec fn named_shape_views(shapes: Seq<(String, ParameterShape)>) -> Seq<(Seq<char>, (Seq<CommandParameterType>, int, int))> {
    shapes.map_values(|e: (String, ParameterShape)| (e.0@, (e.1.types@, e.1.min as int, e.1.max as int)))
}

/// The named parameter shapes of `command_id`'s declaration: each parameter with a
/// string `name` and a usable shape, in declaration order.
pub(crate) fn named_parameter_shapes(commands: &Vec<Item>, command_id: Option<&str>) -> (r: Vec<(String, ParameterShape)>)
    ensures
        named_shape_views(r@) == spec_named_shapes(commands@, match command_id { Some(c) => Some(c@), None => None }),
{
    let mut result: Vec<(String, ParameterShape)> = Vec::new();
    proof { assert(named_shape_views(result@) =~= Seq::<(Seq<char>, (Seq<CommandParameterType>, int, int))>::empty()); }
    let id = match command_id { Some(id) => id, None => { return result; } };
    let mut found: Option<usize> = None;
    let mut c: usize = 0;
    proof { assert(commands@.subrange(0, commands@.len() as int) =~= commands@); }
    while c < commands.len() && found.is_none()
        invariant
            0 <= c <= commands@.len(),
            match found {
                Some(j) => j < commands@.len() && command_for(commands@, id@) == Some(commands@[j as int]),
                None => command_for(commands@, id@) == command_for(commands@.subrange(c as int, commands@.len() as int), id@),
            },
        decreases commands@.len() - c,
    {
        proof {
            assert(commands@.subrange(c as int, commands@.len() as int).drop_first()
                =~= commands@.subrange(c + 1, commands@.len() as int));
        }
        if str_eq(commands[c].id.as_str(), id) {
            found = Some(c);
        }
        c += 1;
    }
    let command = match found { Some(j) => &commands[j], None => { return result; } };
    let shapes = command_parameter_types(command);
    let parameters = match get(&command.mapping, "parameters") {
        Some(v) => match v.as_sequence() { Some(p) => p, None => { return result; } },
        None => { return result; },
    };
    let mut index: usize = 0;
    while index < parameters.len()
        invariant
            0 <= index <= parameters@.len(),
            parameters@ == parameter_nodes(*command),
            shapes@.len() == parameters@.len(),
            forall|i: int| 0 <= i < shapes@.len() ==> #[trigger] shape_view(shapes@[i]) == spec_parameter_shape(parameters@[i]),
            named_shape_views(result@) == named_shapes_of(parameters@.take(index as int)),
        decreases parameters@.len() - index,
    {
        proof {
            assert(parameters@.take(index + 1).drop_last() =~= parameters@.take(index as int));
            assert(parameters@.take(index + 1).last() == parameters@[index as int]);
            assert(shape_view(shapes@[index as int]) == spec_parameter_shape(parameters@[index as int]));
        }
        let ghost before = result@;
        if let Some(parameter) = parameters[index].as_mapping() {
            if let Some(name) = string_field(parameter, "name") {
                if let Some(shape) = &shapes[index] {
                    result.push((owned(name), shape.copy()));
                    proof { assert(named_shape_views(result@) =~= named_shape_views(before).push(named_shape_views(result@).last())); }
                }
            }
        }
        proof { assert(named_shape_views(result@) =~= named_shapes_of(parameters@.take(index + 1))); }
        index += 1;
    }
    proof { assert(parameters@.take(parameters@.len() as int) =~= parameters@); }
    result
}

/// The shape bound to `name`: the last one declared.
pub open spec fn last_shape(shapes: Seq<(Seq<char>, (Seq<CommandParameterType>, int, int))>, name: Seq<char>) -> Option<(Seq<CommandParameterType>, int, int)>
    decreases shapes.len(),
{
    if shapes.len() == 0 {
        None
    } else if shapes.last().0 == name {
        Some(shapes.last().1)
    } else {
        last_shape(shapes.drop_last(), name)
    }
}

/// The shape bound to `name`; the last declaration wins, as in an ordered map.
pub(crate) fn shape_named<'a>(shapes: &'a Vec<(String, ParameterShape)>, name: &str) -> (r: Option<&'a ParameterShape>)
    ensures
        match r {
            Some(s) => last_shape(named_shape_views(shapes@), name@) == Some((s.types@, s.min as int, s.max as int)),
            None => last_shape(named_shape_views(shapes@), name@) is None,
        },
{
    let ghost views = named_shape_views(shapes@);
    let mut i: usize = shapes.len();
    proof { assert(views.take(shapes@.len() as int) =~= views); }
    while i > 0
        invariant
            i <= shapes@.len(),
            views == named_shape_views(shapes@),
            last_shape(views, name@) == last_shape(views.take(i as int), name@),
        decreases i,
    {
        proof {
            assert(views.take(i as int).drop_last() =~= views.take(i - 1));
            assert(views.take(i as int).last() == views[i - 1]);
        }
        if str_eq(shapes[i - 1].0.as_str(), name) {
            return Some(&shapes[i - 1].1);
        }
        i -= 1;
    }
    None
}

/// Some accepted type of a shape is of `kind`.
pub open spec fn shape_accepts(types: Seq<CommandParameterType>, kind: Kind) -> bool {
    exists|t: int| 0 <= t < types.len() && parameter_type_kind(#[trigger] types[t]) == kind
}

/// Whether `shape` accepts objects of `kind`.
fn shape_accepts_kind(shape: &ParameterShape, kind: Kind) -> (r: bool)
    ensures
        r == shape_accepts(shape.types@, kind),
{
    let mut t: usize = 0;
    while t < shape.types.len()
        invariant
            0 <= t <= shape.types@.len(),
            forall|k: int| 0 <= k < t ==> parameter_type_kind(#[trigger] shape.types@[k]) != kind,
        decreases shape.types@.len() - t,
    {
        if shape.types[t].kind() == kind {
            return true;
        }
        t += 1;
    }
    false
}

/// The values a binding selects: one non-blank ID, or a non-empty list of non-blank IDs.
pub open spec fn binding_values(b: YamlValue) -> Option<Seq<Seq<char>>> {
    match b {
        YamlValue::String(v) => if has_text(v@) { Some(seq![v@]) } else { None },
        YamlValue::Sequence(entries) => if entries@.len() > 0
            && forall|i: int| 0 <= i < entries@.len() ==> (#[trigger] text_of(entries@[i])) is Some {
            Some(entries@.map_values(|e: YamlValue| text_of(e)->0))
        } else {
            None
        },
        _ => None,
    }
}

/// The finding for the `i`-th value `r` of a binding whose parameter has `types`.
pub open spec fn binding_value_findings(
    defs: Seq<(String, Definition)>,
    owner: Option<Kind>,
    types: Seq<CommandParameterType>,
    values: Seq<Seq<char>>,
    i: int,
    r: Seq<char>,
    p: Seq<char>,
) -> Seq<Finding> {
    if values.take(i).contains(r) {
        seq![error_at("list.duplicate_reference"@, p)]
    } else {
        match operand_kind(defs, owner, r) {
            Some(k) => finding_if(!shape_accepts(types, k), error_at("reference.wrong_type"@, p)),
            None => if r == "owner"@ {
                seq![error_at("action_match.owner_unavailable"@, p)]
            } else {
                seq![error_at("reference.unknown"@, p)]
            },
        }
    }
}

/// Where the `i`-th value of a binding is reported: at the binding for a single ID, at
/// the list entry otherwise.
pub open spec fn value_pointer(binding: YamlValue, np: Seq<char>, i: int) -> Seq<char> {
    if binding is String { np } else { np + seq!['/'] + decimal(i as nat) }
}

/// The findings of one `on.parameters` binding.
pub open spec fn binding_findings(
    defs: Seq<(String, Definition)>,
    owner: Option<Kind>,
    shapes: Seq<(Seq<char>, (Seq<CommandParameterType>, int, int))>,
    raw_name: YamlValue,
    binding: YamlValue,
    bp: Seq<char>,
) -> Seq<Finding> {
    match text_of(raw_name) {
        None => seq![error_at("action_match.parameter_name"@, bp)],
        Some(name) => {
            let np = bp + seq!['/'] + spec_escape_pointer(name);
            match last_shape(shapes, name) {
                None => seq![error_at("action_match.parameter_unknown"@, np)],
                Some(shape) => match binding_values(binding) {
                    None => seq![error_at("action_match.parameter_binding"@, np)],
                    Some(values) =>
                        finding_if(values.len() > shape.2, error_at("action_match.parameter_cardinality"@, np))
                        + findings_indexed(values, |i: int, r: Seq<char>| binding_value_findings(defs, owner, shape.0, values, i, r,
                            value_pointer(binding, np, i))),
                },
            }
        },
    }
}

/// A binding that names `owner`.
pub open spec fn binds_owner(shapes: Seq<(Seq<char>, (Seq<CommandParameterType>, int, int))>, entry: (YamlValue, YamlValue)) -> bool {
    &&& text_of(entry.0) matches Some(name)
    &&& last_shape(shapes, name) is Some
    &&& binding_values(entry.1) matches Some(values)
    &&& values.contains("owner"@)
}

/// The command an action match names: a non-blank `command` string.
pub open spec fn command_id_of(on: Seq<(YamlValue, YamlValue)>) -> Option<Seq<char>> {
    match spec_string_field(on, "command"@) {
        Some(id) => if has_text(id) { Some(id) } else { None },
        None => None,
    }
}

/// A string key of an action match other than `command`, `parameters` and `actor`.
pub open spec fn action_field_findings(entry: (YamlValue, YamlValue), pointer: Seq<char>) -> Seq<Finding> {
    match spec_as_str(entry.0) {
        Some(key) => finding_if(!(key == "command"@ || key == "parameters"@ || key == "actor"@),
            error_at("action_match.unknown_field"@, pointer + seq!['/'] + spec_escape_pointer(key))),
        None => Seq::empty(),
    }
}

/// The findings of `on.command`.
pub open spec fn action_command_findings(defs: Seq<(String, Definition)>, on: Seq<(YamlValue, YamlValue)>, p: Seq<char>) -> Seq<Finding> {
    match command_id_of(on) {
        None => seq![error_at("action_match.command"@, p + "/command"@)],
        Some(id) => match kind_in(defs, id) {
            Some(k) => finding_if(k != Kind::Command, error_at("reference.wrong_type"@, p + "/command"@)),
            None => seq![error_at("reference.unknown"@, p + "/command"@)],
        },
    }
}

/// `on.actor` is present but not a non-blank string; the match is not read further.
pub open spec fn actor_malformed(on: Seq<(YamlValue, YamlValue)>) -> bool {
    map_get(on, "actor"@) matches Some(a) && text_of(a) is None
}

/// The findings of `on.actor`.
pub open spec fn action_actor_findings(defs: Seq<(String, Definition)>, on: Seq<(YamlValue, YamlValue)>, p: Seq<char>) -> Seq<Finding> {
    match map_get(on, "actor"@) {
        None => Seq::empty(),
        Some(a) => match text_of(a) {
            None => seq![error_at("action_match.actor"@, p + "/actor"@)],
            Some(actor) => match kind_in(defs, actor) {
                Some(k) => finding_if(k != Kind::Character, error_at("reference.wrong_type"@, p + "/actor"@)),
                None => seq![error_at("reference.unknown"@, p + "/actor"@)],
            },
        },
    }
}

/// The findings of `on.parameters`.
pub open spec fn action_binding_findings(
    defs: Seq<(String, Definition)>,
    owner: Option<Kind>,
    commands: Seq<Item>,
    on: Seq<(YamlValue, YamlValue)>,
    p: Seq<char>,
) -> Seq<Finding> {
    let bp = p + "/parameters"@;
    match map_get(on, "parameters"@) {
        None => Seq::empty(),
        Some(b) => match spec_as_mapping(b) {
            None => seq![error_at("action_match.parameters_type"@, bp)],
            Some(bindings) => {
                let shapes = spec_named_shapes(commands, command_id_of(on));
                findings_over(bindings, |e: (YamlValue, YamlValue)| binding_findings(defs, owner, shapes, e.0, e.1, bp))
                + finding_if(owner is Some && !(exists|i: int| 0 <= i < bindings.len() && #[trigger] binds_owner(shapes, bindings[i])),
                    error_at("fact.source_unbound"@, bp))
            },
        },
    }
}

/// The findings of an item's `on` action match.
pub open spec fn action_match_findings(
    defs: Seq<(String, Definition)>,
    owner: Option<Kind>,
    required: bool,
    commands: Seq<Item>,
    item: Item,
) -> Seq<Finding> {
    let p = item.pointer@ + "/on"@;
    match map_get(item.mapping@, "on"@) {
        None => finding_if(required, error_at("action_match.missing"@, p)),
        Some(v) => match spec_as_mapping(v) {
            None => seq![error_at("action_match.type"@, p)],
            Some(on) =>
                findings_over(on, |e: (YamlValue, YamlValue)| action_field_findings(e, p))
                + action_command_findings(defs, on, p)
                + action_actor_findings(defs, on, p)
                + if actor_malformed(on) { Seq::empty() } else { action_binding_findings(defs, owner, commands, on, p) },
        },
    }
}

/// `on` names a command, an optional character `actor`, and
/// `parameters` bindings typed by the command's declarations; an owner-nested fact must
/// bind its `owner`.
pub fn validate_action_match(
    cx: &Context,
    out: &mut Vec<Diagnostic>,
    item: &Item,
    owner: Option<&Definition>,
    required: bool,
    commands: &Vec<Item>,
)
    ensures
        appended(old(out)@, final(out)@),
        added_findings(old(out)@, final(out)@)
            == action_match_findings(cx.definitions@, owner_kind(owner), required, commands@, *item),
{
    let path = item.path.as_str();
    let pointer = cat(item.pointer.as_str(), "/on");
    let ghost s00 = out@;
    let value = match get(&item.mapping, "on") {
        Some(v) => v,
        None => {
            error_if(out, required, "action_match.missing", owned("`on` must identify the command this trigger matches"), path,
                pointer, None, Some(item.id.clone()));
            return;
        },
    };
    let on = match value.as_mapping() {
        Some(on) => on,
        None => {
            error_if(out, true, "action_match.type", owned("`on` must be a mapping with `command` and optional `parameters` or `actor`"),
                path, pointer, None, Some(item.id.clone()));
            return;
        },
    };
    let ghost s0 = out@;
    let mut k: usize = 0;
    proof { lemma_added_findings_none(s0); }
    while k < on.len()
        invariant
            0 <= k <= on@.len(),
            appended(s0, out@),
            added_findings(s0, out@) == findings_over(on@.take(k as int),
                |e: (YamlValue, YamlValue)| action_field_findings(e, pointer@)),
        decreases on@.len() - k,
    {
        let ghost b = out@;
        match on[k].0.as_str() {
            Some(key) => {
                let known = str_eq(key, "command") || str_eq(key, "parameters") || str_eq(key, "actor");
                error_if(out, !known, "action_match.unknown_field", cat3("unknown action-match field `", key, "`"), path,
                    child(pointer.as_str(), key), None, Some(item.id.clone()));
            },
            None => {
                proof { lemma_added_findings_none(b); }
            },
        }
        proof {
            lemma_added_findings_trans(s0, b, out@);
            lemma_findings_over_step(on@, |e: (YamlValue, YamlValue)| action_field_findings(e, pointer@), k as int);
        }
        k += 1;
    }
    proof { lemma_take_all(on@); }
    let ghost s1 = out@;
    let command_id = match string_field(on, "command") { Some(id) => if nonblank(id) { Some(id) } else { None }, None => None };
    match command_id {
        None => {
            error_if(out, true, "action_match.command", owned("`on.command` must be a command ID"), path,
                cat(pointer.as_str(), "/command"), None, Some(item.id.clone()));
        },
        Some(id) => {
            match cx.kind_of(id) {
                Some(kind) => {
                    error_if(out, kind != Kind::Command, "reference.wrong_type", cat3("`", id, "` must refer to a command"), path,
                        cat(pointer.as_str(), "/command"), locate_scalar(item.source.as_str(), id), Some(owned(id)));
                },
                None => {
                    error_if(out, true, "reference.unknown", cat3("`", id, "` must refer to a command"), path,
                        cat(pointer.as_str(), "/command"), locate_scalar(item.source.as_str(), id), Some(owned(id)));
                },
            }
        },
    }
    let ghost s2 = out@;
    proof { lemma_added_findings_trans(s0, s1, s2); }
    if let Some(actor) = get(on, "actor") {
        let actor_pointer = cat(pointer.as_str(), "/actor");
        let actor = match actor.as_str() { Some(a) => if nonblank(a) { Some(a) } else { None }, None => None };
        match actor {
            None => {
                error_if(out, true, "action_match.actor", owned("`on.actor` must be an authored character ID"), path,
                    actor_pointer, None, Some(item.id.clone()));
                proof {
                    lemma_added_findings_trans(s0, s2, out@);
                    let t = added_findings(s0, out@);
                    assert(t + Seq::<Finding>::empty() =~= t);
                }
                return;
            },
            Some(actor) => {
                match cx.kind_of(actor) {
                    Some(kind) => {
                        error_if(out, kind != Kind::Character, "reference.wrong_type",
                            cat3("`", actor, "` must refer to a character actor"), path,
                            actor_pointer, locate_scalar(item.source.as_str(), actor), Some(owned(actor)));
                    },
                    None => {
                        error_if(out, true, "reference.unknown", cat3("reference `", actor, "` is not defined"), path,
                            actor_pointer, locate_scalar(item.source.as_str(), actor), Some(owned(actor)));
                    },
                }
            },
        }
    } else {
        proof { lemma_added_findings_none(s2); }
    }
    let ghost s3 = out@;
    proof { lemma_added_findings_trans(s0, s2, s3); }
    validate_action_bindings(cx, out, item, owner, commands, on, command_id, &pointer);
    proof { lemma_added_findings_trans(s0, s3, out@); }
}

/// The `on.parameters` bindings of an action match.
fn validate_action_bindings(
    cx: &Context,
    out: &mut Vec<Diagnostic>,
    item: &Item,
    owner: Option<&Definition>,
    commands: &Vec<Item>,
    on: &Vec<(YamlValue, YamlValue)>,
    command_id: Option<&str>,
    pointer: &String,
)
    requires
        (match command_id { Some(c) => Some(c@), None => None }) == command_id_of(on@),
    ensures
        appended(old(out)@, final(out)@),
        added_findings(old(out)@, final(out)@)
            == action_binding_findings(cx.definitions@, owner_kind(owner), commands@, on@, pointer@),
{
    let path = item.path.as_str();
    let ghost s3 = out@;
    let bindings_pointer = cat(pointer.as_str(), "/parameters");
    let raw_bindings = match get(on, "parameters") {
        Some(b) => b,
        None => {
            proof { lemma_added_findings_none(s3); }
            return;
        },
    };
    let bindings = match raw_bindings.as_mapping() {
        Some(b) => b,
        None => {
            error_if(out, true, "action_match.parameters_type",
                owned("`on.parameters` must map semantic command parameter names to an ID, `owner`, or a non-empty ID list"),
                path, bindings_pointer, None, Some(item.id.clone()));
            return;
        },
    };
    let shapes = named_parameter_shapes(commands, command_id);
    let ghost shape_views = named_shape_views(shapes@);
    let ghost okind = owner_kind(owner);
    let mut owner_bound = false;
    let mut b: usize = 0;
    proof { lemma_added_findings_none(s3); }
    while b < bindings.len()
        invariant
            0 <= b <= bindings@.len(),
            shape_views == named_shape_views(shapes@),
            appended(s3, out@),
            added_findings(s3, out@) == findings_over(bindings@.take(b as int),
                |e: (YamlValue, YamlValue)| binding_findings(cx.definitions@, okind, shape_views, e.0, e.1, bindings_pointer@)),
            owner_bound == exists|i: int| 0 <= i < b && #[trigger] binds_owner(shape_views, bindings@[i]),
        decreases bindings@.len() - b,
    {
        let ghost t0 = out@;
        let bound_owner = validate_binding(cx, out, item, owner, &shapes, command_id, &bindings[b].0, &bindings[b].1,
            bindings_pointer.as_str());
        if bound_owner {
            owner_bound = true;
        }
        proof {
            lemma_added_findings_trans(s3, t0, out@);
            lemma_findings_over_step(bindings@,
                |e: (YamlValue, YamlValue)| binding_findings(cx.definitions@, okind, shape_views, e.0, e.1, bindings_pointer@), b as int);
            if bound_owner {
                assert(binds_owner(shape_views, bindings@[b as int]));
            }
        }
        b += 1;
    }
    proof { lemma_take_all(bindings@); }
    let ghost s4 = out@;
    error_if(out, owner.is_some() && !owner_bound, "fact.source_unbound",
        owned("an action-discovered fact must bind one semantic parameter to its nesting `owner`; move the fact to its actual discovery source or use `owner`"),
        path, bindings_pointer, None, Some(item.id.clone()));
    proof { lemma_added_findings_trans(s3, s4, out@); }
}

/// One `on.parameters` binding; returns whether it names `owner`.
fn validate_binding(
    cx: &Context,
    out: &mut Vec<Diagnostic>,
    item: &Item,
    owner: Option<&Definition>,
    shapes: &Vec<(String, ParameterShape)>,
    command_id: Option<&str>,
    raw_name: &YamlValue,
    raw_binding: &YamlValue,
    bindings_pointer: &str,
) -> (r: bool)
    ensures
        appended(old(out)@, final(out)@),
        added_findings(old(out)@, final(out)@) == binding_findings(cx.definitions@, owner_kind(owner),
            named_shape_views(shapes@), *raw_name, *raw_binding, bindings_pointer@),
        r == binds_owner(named_shape_views(shapes@), (*raw_name, *raw_binding)),
{
    let path = item.path.as_str();
    let ghost views = named_shape_views(shapes@);
    let name = match raw_name.as_str() { Some(n) => if nonblank(n) { Some(n) } else { None }, None => None };
    let name = match name {
        Some(n) => n,
        None => {
            error_if(out, true, "action_match.parameter_name", owned("action parameter binding names must be non-empty strings"), path,
                owned(bindings_pointer), None, Some(item.id.clone()));
            return false;
        },
    };
    let binding_pointer = child(bindings_pointer, name);
    let shape = match shape_named(shapes, name) {
        Some(s) => s,
        None => {
            let command_name = match command_id { Some(c) => c, None => "the command" };
            error_if(out, true, "action_match.parameter_unknown", cat5("`", name, "` is not a parameter of `", command_name, "`"), path,
                binding_pointer, None, Some(item.id.clone()));
            return false;
        },
    };
    let mut values: Vec<&str> = Vec::new();
    let well_formed = match raw_binding {
        YamlValue::String(v) => {
            if nonblank(v.as_str()) {
                values.push(v.as_str());
                proof { assert(values@.map_values(|s: &str| s@) =~= seq![v@]); }
                true
            } else {
                false
            }
        },
        YamlValue::Sequence(entries) => {
            if entries.len() == 0 {
                false
            } else {
                let mut ok = true;
                let mut i: usize = 0;
                while i < entries.len()
                    invariant
                        0 <= i <= entries@.len(),
                        ok == forall|k: int| 0 <= k < i ==> (#[trigger] text_of(entries@[k])) is Some,
                        ok ==> values@.map_values(|s: &str| s@) == entries@.take(i as int).map_values(|e: YamlValue| text_of(e)->0),
                    decreases entries@.len() - i,
                {
                    let ghost old_values = values@;
                    match entries[i].as_str() {
                        Some(s) => {
                            if nonblank(s) {
                                values.push(s);
                                proof {
                                    assert(text_of(entries@[i as int]) == Some(s@));
                                    if ok {
                                        assert(values@ == old_values.push(s));
                                        assert(values@.map_values(|s: &str| s@) =~= old_values.map_values(|s: &str| s@).push(s@));
                                        assert(entries@.take(i + 1) =~= entries@.take(i as int).push(entries@[i as int]));
                                        assert(entries@.take(i + 1).map_values(|e: YamlValue| text_of(e)->0)
                                            =~= entries@.take(i as int).map_values(|e: YamlValue| text_of(e)->0).push(s@));
                                    }
                                }
                            } else {
                                ok = false;
                            }
                        },
                        None => { ok = false; },
                    }
                    proof {
                        if ok {
                            assert forall|k: int| 0 <= k < i + 1 implies (#[trigger] text_of(entries@[k])) is Some by {}
                        }
                    }
                    i += 1;
                }
                proof { assert(entries@.take(entries@.len() as int) =~= entries@); }
                ok
            }
        },
        _ => false,
    };
    if !well_formed {
        error_if(out, true, "action_match.parameter_binding", cat3("binding `", name, "` must be an ID, `owner`, or a non-empty ID list"),
            path, binding_pointer, None, Some(item.id.clone()));
        return false;
    }
    let ghost vals = values@.map_values(|s: &str| s@);
    proof { assert(binding_values(*raw_binding) == Some(vals)); }
    let ghost s0 = out@;
    let head = cat4("binding `", name, "` selects ", usize_to_decimal(values.len()).as_str());
    error_if(out, values.len() > shape.max, "action_match.parameter_cardinality",
        cat3(head.as_str(), " values, but the command accepts at most ", usize_to_decimal(shape.max).as_str()), path,
        binding_pointer.clone(), None, Some(item.id.clone()));
    let ghost s1 = out@;
    let single_scalar = values.len() == 1 && raw_binding.as_str().is_some();
    proof { assert(single_scalar == (*raw_binding is String)); }
    let mut owner_bound = false;
    let mut seen: Vec<String> = Vec::new();
    let mut index: usize = 0;
    proof { lemma_added_findings_none(s1); }
    while index < values.len()
        invariant
            0 <= index <= values@.len(),
            vals == values@.map_values(|s: &str| s@),
            appended(s1, out@),
            added_findings(s1, out@) == findings_indexed(vals.take(index as int), |i: int, r: Seq<char>|
                binding_value_findings(cx.definitions@, owner_kind(owner), shape.types@, vals, i, r,
                    value_pointer(*raw_binding, binding_pointer@, i))),
            owner_bound == vals.take(index as int).contains("owner"@),
            forall|x: Seq<char>| #![trigger vals.take(index as int).contains(x)]
                (exists|m: int| 0 <= m < seen@.len() && (#[trigger] seen@[m])@ == x) <==> vals.take(index as int).contains(x),
        decreases values@.len() - index,
    {
        let reference = values[index];
        let ghost old_seen = seen@;
        proof {
            assert(vals[index as int] == reference@);
            assert(vals.take(index + 1) =~= vals.take(index as int).push(reference@));
        }
        let is_owner = str_eq(reference, "owner");
        if is_owner {
            owner_bound = true;
        }
        let entry_pointer = if single_scalar { binding_pointer.clone() } else { child_index(binding_pointer.as_str(), index) };
        let ghost t0 = out@;
        if contains_string(&seen, reference) {
            error_if(out, true, "list.duplicate_reference", cat3("`", reference, "` occurs more than once in this binding"), path,
                entry_pointer, locate_scalar(item.source.as_str(), reference), Some(owned(reference)));
        } else {
            seen.push(owned(reference));
            let actual_kind = if is_owner {
                match owner { Some(d) => Some(d.kind), None => None }
            } else {
                cx.kind_of(reference)
            };
            match actual_kind {
                Some(kind) => {
                    let wrong = !shape_accepts_kind(shape, kind);
                    let kind_name = kind.name();
                    let head = cat4("`", reference, "` is a ", kind_name.as_str());
                    error_if(out, wrong, "reference.wrong_type",
                        cat5(head.as_str(), "; parameter `", name, "` accepts ", shape.type_names().as_str()), path,
                        entry_pointer, locate_scalar(item.source.as_str(), reference), Some(owned(reference)));
                },
                None => {
                    if is_owner {
                        error_if(out, true, "action_match.owner_unavailable", owned("`owner` is available only for owner-nested facts"),
                            path, entry_pointer, locate_scalar(item.source.as_str(), reference), Some(owned(reference)));
                    } else {
                        error_if(out, true, "reference.unknown", cat3("reference `", reference, "` is not defined"), path,
                            entry_pointer, locate_scalar(item.source.as_str(), reference), Some(owned(reference)));
                    }
                },
            }
        }
        proof {
            lemma_added_findings_trans(s1, t0, out@);
            lemma_findings_indexed_step(vals, |i: int, r: Seq<char>|
                binding_value_findings(cx.definitions@, owner_kind(owner), shape.types@, vals, i, r,
                    value_pointer(*raw_binding, binding_pointer@, i)),
                index as int);
            assert forall|x: Seq<char>| #![trigger vals.take(index + 1).contains(x)]
                (exists|m: int| 0 <= m < seen@.len() && (#[trigger] seen@[m])@ == x) <==> vals.take(index + 1).contains(x) by {
                if vals.take(index + 1).contains(x) {
                    let j = choose|j: int| 0 <= j < index + 1 && #[trigger] vals.take(index + 1)[j] == x;
                    if j < index || vals.take(index as int).contains(x) {
                        if j < index {
                            assert(vals.take(index as int)[j] == x);
                        }
                        assert(vals.take(index as int).contains(x));
                        let m = choose|m: int| 0 <= m < old_seen.len() && (#[trigger] old_seen[m])@ == x;
                        assert(seen@[m] == old_seen[m]);
                    } else {
                        assert(seen@[seen@.len() - 1]@ == x);
                    }
                }
                if exists|m: int| 0 <= m < seen@.len() && (#[trigger] seen@[m])@ == x {
                    let m = choose|m: int| 0 <= m < seen@.len() && (#[trigger] seen@[m])@ == x;
                    if m < old_seen.len() {
                        assert(old_seen[m] == seen@[m]);
                        assert(vals.take(index as int).contains(x));
                        let j = choose|j: int| 0 <= j < index && #[trigger] vals.take(index as int)[j] == x;
                        assert(vals.take(index + 1)[j] == x);
                    } else {
                        assert(vals.take(index + 1)[index as int] == x);
                    }
                }
            }
        }
        index += 1;
    }
    proof {
        lemma_take_all(vals);
        lemma_added_findings_trans(s0, s1, out@);
        assert(text_of(*raw_name) == Some(name@));
        assert(binding_pointer@ == bindings_pointer@ + seq!['/'] + spec_escape_pointer(name@));
        assert(last_shape(views, name@) == Some((shape.types@, shape.min as int, shape.max as int)));
    }
    owner_bound
}

/// The kinds a persistent predicate accepts, by predicate name.
pub open spec fn spec_predicate_kinds(kind: Seq<char>) -> Option<Seq<Kind>> {
    if kind == "at"@ {
        Some(seq![Kind::Setting])
    } else if kind == "owns"@ {
        Some(seq![Kind::Entity])
    } else if kind == "knows"@ {
        Some(seq![Kind::Fact, Kind::Deduction])
    } else if kind == "flag"@ {
        Some(seq![Kind::Flag])
    } else if kind == "completed"@ {
        Some(seq![Kind::Trigger])
    } else {
        None
    }
}

/// The kinds a persistent predicate accepts, by predicate name.
fn predicate_kinds(kind: &str) -> (r: Option<Vec<Kind>>)
    ensures
        match r {
            Some(v) => spec_predicate_kinds(kind@) == Some(v@),
            None => spec_predicate_kinds(kind@) is None,
        },
{
    if str_eq(kind, "at") {
        Some(vec![Kind::Setting])
    } else if str_eq(kind, "owns") {
        Some(vec![Kind::Entity])
    } else if str_eq(kind, "knows") {
        Some(vec![Kind::Fact, Kind::Deduction])
    } else if str_eq(kind, "flag") {
        Some(vec![Kind::Flag])
    } else if str_eq(kind, "completed") {
        Some(vec![Kind::Trigger])
    } else {
        None
    }
}

/// Kind names joined with ` or `.
fn kind_names(kinds: &Vec<Kind>) -> (r: String)
    ensures
        r@ == joined(kinds@.map_values(|k: Kind| kind_prefix(k)), " or "@),
{
    let ghost parts = kinds@.map_values(|k: Kind| kind_prefix(k));
    let mut text = String::new();
    let mut i: usize = 0;
    proof { assert(text@ =~= joined(parts.subrange(0, 0), " or "@)); }
    while i < kinds.len()
        invariant
            0 <= i <= kinds@.len(),
            parts == kinds@.map_values(|k: Kind| kind_prefix(k)),
            text@ == joined(parts.subrange(0, i as int), " or "@),
        decreases kinds@.len() - i,
    {
        proof { lemma_joined_step(parts, " or "@, i as int, text@); }
        if i > 0 {
            text.append(" or ");
        }
        let name = kinds[i].name();
        text.append(name.as_str());
        i += 1;
    }
    proof { assert(parts.subrange(0, kinds@.len() as int) =~= parts); }
    text
}

/// A non-blank string node.
pub open spec fn text_of(v: YamlValue) -> Option<Seq<char>> {
    match spec_as_str(v) {
        Some(s) => if has_text(s) { Some(s) } else { None },
        None => None,
    }
}

/// The kind of the object an operand names: the owner's kind for `owner`, else the kind
/// of the defined ID.
pub open spec fn operand_kind(defs: Seq<(String, Definition)>, owner: Option<Kind>, reference: Seq<char>) -> Option<Kind> {
    if reference == "owner"@ { owner } else { kind_in(defs, reference) }
}

/// A `time` comparison with only `relation` (`before`, `at` or `after`) and an exact
/// `value`.
pub open spec fn valid_time_comparison(t: Seq<(YamlValue, YamlValue)>) -> bool {
    &&& t.len() == 2
    &&& spec_string_field(t, "relation"@) matches Some(r) && (r == "before"@ || r == "at"@ || r == "after"@)
    &&& spec_string_field(t, "value"@) matches Some(v) && spec_valid_time(v)
}

/// The findings of one persistent predicate at `p`.
pub open spec fn predicate_findings(defs: Seq<(String, Definition)>, owner: Option<Kind>, v: YamlValue, p: Seq<char>) -> Seq<Finding> {
    match spec_as_mapping(v) {
        Some(m) => if m.len() != 1 {
            seq![error_at("condition.predicate_type"@, p)]
        } else {
            match spec_as_str(m[0].0) {
                None => seq![error_at("condition.predicate_kind"@, p)],
                Some(kind) => {
                    let op = p + seq!['/'] + spec_escape_pointer(kind);
                    if kind == "time"@ {
                        match spec_as_mapping(m[0].1) {
                            None => seq![error_at("condition.time_type"@, op)],
                            Some(t) => finding_if(!valid_time_comparison(t), error_at("condition.time_value"@, op)),
                        }
                    } else {
                        match spec_predicate_kinds(kind) {
                            None => seq![error_at("condition.predicate_kind"@, op)],
                            Some(expected) => match text_of(m[0].1) {
                                None => seq![error_at("condition.predicate_operand"@, op)],
                                Some(r) => match operand_kind(defs, owner, r) {
                                    Some(k) => finding_if(!expected.contains(k), error_at("reference.wrong_type"@, op)),
                                    None => if r == "owner"@ {
                                        seq![error_at("condition.owner_unavailable"@, op)]
                                    } else {
                                        seq![error_at("reference.unknown"@, op)]
                                    },
                                },
                            },
                        }
                    }
                },
            }
        },
        None => seq![error_at("condition.predicate_type"@, p)],
    }
}

/// The non-empty `all` list of a condition.
pub open spec fn all_list(condition: Seq<(YamlValue, YamlValue)>) -> Option<Seq<YamlValue>> {
    match map_get(condition, "all"@) {
        Some(v) => match spec_as_sequence(v) {
            Some(p) => if p.len() > 0 { Some(p) } else { None },
            None => None,
        },
        None => None,
    }
}

/// A string key of a condition other than `all`.
pub open spec fn condition_field_findings(entry: (YamlValue, YamlValue), pointer: Seq<char>) -> Seq<Finding> {
    match spec_as_str(entry.0) {
        Some(key) => finding_if(key != "all"@, error_at("condition.unknown_field"@, pointer + seq!['/'] + spec_escape_pointer(key))),
        None => Seq::empty(),
    }
}

/// The findings of the `when` condition of a mapping at `item_pointer`.
pub open spec fn when_findings(defs: Seq<(String, Definition)>, owner: Option<Kind>, mapping: Seq<(YamlValue, YamlValue)>, item_pointer: Seq<char>) -> Seq<Finding> {
    let p = item_pointer + "/when"@;
    match map_get(mapping, "when"@) {
        None => Seq::empty(),
        Some(v) => match spec_as_mapping(v) {
            None => seq![error_at("condition.type"@, p)],
            Some(condition) =>
                findings_over(condition, |e: (YamlValue, YamlValue)| condition_field_findings(e, p))
                + match all_list(condition) {
                    None => seq![error_at("condition.all_type"@, p + "/all"@)],
                    Some(predicates) => findings_indexed(predicates, |i: int, q: YamlValue|
                        predicate_findings(defs, owner, q, p + "/all"@ + seq!['/'] + decimal(i as nat))),
                },
        },
    }
}

/// The kind of an optional owner.
pub open spec fn owner_kind(owner: Option<&Definition>) -> Option<Kind> {
    match owner {
        Some(d) => Some(d.kind),
        None => None,
    }
}

/// `when` is a mapping with a non-empty `all` list of one-key
/// predicates (`at`, `owns`, `knows`, `flag`, `completed`, or a `time` comparison) whose
/// operands name objects of the right kind (`owner` for owner-nested facts).
pub fn validate_persistent_when(
    cx: &Context,
    out: &mut Vec<Diagnostic>,
    mapping: &Vec<(YamlValue, YamlValue)>,
    path: &str,
    item_pointer: &str,
    subject: &str,
    owner: Option<&Definition>,
)
    ensures
        appended(old(out)@, final(out)@),
        added_findings(old(out)@, final(out)@) == when_findings(cx.definitions@, owner_kind(owner), mapping@, item_pointer@),
{
    let ghost s00 = out@;
    let value = match get(mapping, "when") {
        Some(v) => v,
        None => {
            proof { lemma_added_findings_none(s00); }
            return;
        },
    };
    let pointer = cat(item_pointer, "/when");
    let condition = match value.as_mapping() {
        Some(w) => w,
        None => {
            error_if(out, true, "condition.type", owned("`when` must be a mapping containing a non-empty `all` list"), path,
                pointer, None, Some(owned(subject)));
            return;
        },
    };
    let ghost s0 = out@;
    let mut k: usize = 0;
    proof { lemma_added_findings_none(s0); }
    while k < condition.len()
        invariant
            0 <= k <= condition@.len(),
            appended(s0, out@),
            added_findings(s0, out@) == findings_over(condition@.take(k as int),
                |e: (YamlValue, YamlValue)| condition_field_findings(e, pointer@)),
        decreases condition@.len() - k,
    {
        let ghost b = out@;
        match condition[k].0.as_str() {
            Some(key) => {
                error_if(out, !str_eq(key, "all"), "condition.unknown_field",
                    cat3("unknown persistent-condition field `", key, "`; use `when.all`"),
                    path, child(pointer.as_str(), key), None, Some(owned(subject)));
            },
            None => {
                proof { lemma_added_findings_none(b); }
            },
        }
        proof {
            lemma_added_findings_trans(s0, b, out@);
            lemma_findings_over_step(condition@, |e: (YamlValue, YamlValue)| condition_field_findings(e, pointer@), k as int);
        }
        k += 1;
    }
    proof { lemma_take_all(condition@); }
    let ghost s1 = out@;
    let predicates = match get(condition, "all") {
        Some(v) => match v.as_sequence() { Some(p) => if p.len() > 0 { Some(p) } else { None }, None => None },
        None => None,
    };
    let all_pointer = cat(pointer.as_str(), "/all");
    let predicates = match predicates {
        Some(p) => p,
        None => {
            error_if(out, true, "condition.all_type", owned("`when.all` must be a non-empty sequence of persistent predicate mappings"),
                path, all_pointer, None, Some(owned(subject)));
            proof { lemma_added_findings_trans(s0, s1, out@); }
            return;
        },
    };
    let mut index: usize = 0;
    proof { lemma_added_findings_none(s1); }
    while index < predicates.len()
        invariant
            0 <= index <= predicates@.len(),
            appended(s1, out@),
            added_findings(s1, out@) == findings_indexed(predicates@.take(index as int), |i: int, q: YamlValue|
                predicate_findings(cx.definitions@, owner_kind(owner), q, all_pointer@ + seq!['/'] + decimal(i as nat))),
        decreases predicates@.len() - index,
    {
        let predicate_pointer = child_index(all_pointer.as_str(), index);
        let ghost t0 = out@;
        validate_predicate(cx, out, &predicates[index], path, predicate_pointer.as_str(), subject, owner);
        proof {
            lemma_added_findings_trans(s1, t0, out@);
            lemma_findings_indexed_step(predicates@, |i: int, q: YamlValue|
                predicate_findings(cx.definitions@, owner_kind(owner), q, all_pointer@ + seq!['/'] + decimal(i as nat)), index as int);
        }
        index += 1;
    }
    proof {
        lemma_take_all(predicates@);
        lemma_added_findings_trans(s0, s1, out@);
    }
}

/// One persistent predicate of `when.all`.
fn validate_predicate(
    cx: &Context,
    out: &mut Vec<Diagnostic>,
    predicate: &YamlValue,
    path: &str,
    predicate_pointer: &str,
    subject: &str,
    owner: Option<&Definition>,
)
    ensures
        appended(old(out)@, final(out)@),
        added_findings(old(out)@, final(out)@)
            == predicate_findings(cx.definitions@, owner_kind(owner), *predicate, predicate_pointer@),
{
    let predicate = match predicate.as_mapping() {
        Some(m) => if m.len() == 1 { Some(m) } else { None },
        None => None,
    };
    let predicate = match predicate {
        Some(p) => p,
        None => {
            error_if(out, true, "condition.predicate_type",
                owned("each persistent predicate must be a mapping with exactly one of `at`, `owns`, `knows`, `flag`, `completed`, or `time`"),
                path, owned(predicate_pointer), None, Some(owned(subject)));
            return;
        },
    };
    let operand = &predicate[0].1;
    let kind = match predicate[0].0.as_str() {
        Some(k) => k,
        None => {
            error_if(out, true, "condition.predicate_kind", owned("persistent predicate names must be strings"), path,
                owned(predicate_pointer), None, Some(owned(subject)));
            return;
        },
    };
    let operand_pointer = child(predicate_pointer, kind);
    if str_eq(kind, "time") {
        match operand.as_mapping() {
            None => {
                error_if(out, true, "condition.time_type", owned("`time` must contain `relation` and quoted `value`"), path,
                    operand_pointer, None, Some(owned(subject)));
            },
            Some(time) => {
                let relation_ok = match string_field(time, "relation") {
                    Some(r) => str_eq(r, "before") || str_eq(r, "at") || str_eq(r, "after"),
                    None => false,
                };
                let value_ok = match string_field(time, "value") { Some(v) => valid_time(v), None => false };
                error_if(out, time.len() != 2 || !relation_ok || !value_ok, "condition.time_value",
                    owned("`time` requires only `relation` (`before`, `at`, or `after`) and a quoted HH:MM `value`"), path,
                    operand_pointer, None, Some(owned(subject)));
            },
        }
        return;
    }
    let expected = match predicate_kinds(kind) {
        Some(e) => e,
        None => {
            error_if(out, true, "condition.predicate_kind", cat3("`", kind, "` is not a supported persistent predicate kind"), path,
                operand_pointer, None, Some(owned(subject)));
            return;
        },
    };
    let reference = match operand.as_str() { Some(r) => if nonblank(r) { Some(r) } else { None }, None => None };
    let reference = match reference {
        Some(r) => r,
        None => {
            error_if(out, true, "condition.predicate_operand", cat3("`", kind, "` must contain one authored ID"), path,
                operand_pointer, None, Some(owned(subject)));
            return;
        },
    };
    let is_owner = str_eq(reference, "owner");
    let actual = if is_owner {
        match owner { Some(d) => Some(d.kind), None => None }
    } else {
        cx.kind_of(reference)
    };
    match actual {
        Some(k) => {
            let wrong = !crate::commands::kinds_contain(expected.as_slice(), k);
            let name = k.name();
            let head = cat4("`", reference, "` is a ", name.as_str());
            error_if(out, wrong, "reference.wrong_type", cat5(head.as_str(), "; `", kind, "` expects ", kind_names(&expected).as_str()),
                path, operand_pointer, None, Some(owned(reference)));
        },
        None => {
            if is_owner {
                error_if(out, true, "condition.owner_unavailable", owned("`owner` is available only for owner-nested facts"), path,
                    operand_pointer, None, Some(owned(reference)));
            } else {
                error_if(out, true, "reference.unknown", cat3("reference `", reference, "` is not defined"), path,
                    operand_pointer, None, Some(owned(reference)));
            }
        },
    }
}

} // verus!
