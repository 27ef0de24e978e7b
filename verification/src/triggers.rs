//! Triggers: structured format-3 matching and the legacy format-1 fields.

use vstd::prelude::*;
use crate::commands::{ParameterShape, ShapeView, command_parameter_types, parameter_nodes, shape_view, shape_views,
    spec_parameter_shape, validate_world_effects, world_effects_findings};
use crate::conditions::{action_match_findings, command_for, last_shape, named_parameter_shapes, named_shape_views,
    owner_kind, shape_named, spec_named_shapes, validate_action_match, validate_persistent_when, when_findings};
use crate::ids::{spec_escape_pointer, spec_valid_delay, spec_valid_time, valid_delay, valid_time};
use crate::kinds::{CommandParameterType, Kind, parameter_type_kind};
use crate::locate::locate_scalar;
use crate::model::{Context, Definition, Finding, Item, ParsedFile, added_findings, appended, child, child_index, concat_over,
    contains_string, error_at, error_if, finding_if, findings_indexed, findings_over, kind_in, lemma_added_findings_none,
    lemma_added_findings_trans, lemma_concat_over_step, lemma_findings_indexed_step, lemma_findings_over_step, lemma_take_all};
use crate::references::{completed_in, completed_trigger_references, string_views};
use crate::report::Diagnostic;
use crate::text::{cat, cat3, cat4, cat5, decimal, has_text, nonblank, owned, str_eq};
use crate::values::{is_text, present_not_bool, spec_is_text, spec_present_not_bool};
use crate::yaml::{YamlValue, contains_key, get, map_get, spec_as_mapping, spec_as_sequence, spec_as_str, spec_string_field,
    string_field, untag};

verus! {

/// The command whose ID is `id`, if any: the first one.
fn find_command<'a>(commands: &'a Vec<Item>, id: Option<&str>) -> (r: Option<&'a Item>)
    ensures
        match id {
            Some(i) => match r {
                Some(c) => command_for(commands@, i@) == Some(*c),
                None => command_for(commands@, i@) is None,
            },
            None => r is None,
        },
{
    let id = match id { Some(id) => id, None => { return None; } };
    let mut c: usize = 0;
    proof { assert(commands@.subrange(0, commands@.len() as int) =~= commands@); }
    while c < commands.len()
        invariant
            0 <= c <= commands@.len(),
            command_for(commands@, id@) == command_for(commands@.subrange(c as int, commands@.len() as int), id@),
        decreases commands@.len() - c,
    {
        proof {
            assert(commands@.subrange(c as int, commands@.len() as int).drop_first()
                =~= commands@.subrange(c + 1, commands@.len() as int));
        }
        if str_eq(commands[c].id.as_str(), id) {
            return Some(&commands[c]);
        }
        c += 1;
    }
    None
}

/// The parameter shapes of the command `id` names (none when there is no such command).
pub open spec fn command_shapes(commands: Seq<Item>, id: Option<Seq<char>>) -> Seq<ShapeView> {
    match id {
        Some(i) => match command_for(commands, i) {
            Some(c) => Seq::new(parameter_nodes(c).len(), |k: int| spec_parameter_shape(parameter_nodes(c)[k])),
            None => Seq::empty(),
        },
        None => Seq::empty(),
    }
}

/// The parameter shapes of the command `id` names.
fn shapes_of_command(commands: &Vec<Item>, id: Option<&str>) -> (r: Vec<Option<ParameterShape>>)
    ensures
        shape_views(r@) == command_shapes(commands@, match id { Some(i) => Some(i@), None => None }),
{
    match find_command(commands, id) {
        Some(command) => {
            let shapes = command_parameter_types(command);
            proof {
                let nodes = parameter_nodes(*command);
                assert(shape_views(shapes@) =~= Seq::new(nodes.len(), |k: int| spec_parameter_shape(nodes[k])));
            }
            shapes
        },
        None => {
            let shapes: Vec<Option<ParameterShape>> = Vec::new();
            proof { assert(shape_views(shapes@) =~= Seq::<ShapeView>::empty()); }
            shapes
        },
    }
}

/// A sequence under `key` with at least one entry.
pub open spec fn spec_nonempty_sequence(m: Seq<(YamlValue, YamlValue)>, key: Seq<char>) -> bool {
    map_get(m, key) matches Some(v) && (spec_as_sequence(v) matches Some(s) && s.len() > 0)
}

/// A sequence under `key` with at least one entry.
fn nonempty_sequence(mapping: &Vec<(YamlValue, YamlValue)>, key: &str) -> (r: bool)
    ensures
        r == spec_nonempty_sequence(mapping@, key@),
{
    match get(mapping, key) {
        Some(v) => match v.as_sequence() { Some(s) => s.len() > 0, None => false },
        None => false,
    }
}

/// The IDs that `completed` names anywhere in the repository's files.
pub open spec fn completion_ids(parsed: Seq<ParsedFile>) -> Seq<Seq<char>> {
    concat_over(parsed, |f: ParsedFile| concat_over(f.root@, |e: (YamlValue, YamlValue)| completed_in(e.1, spec_as_str(e.0))))
}

/// The format-3 match fields that moved into `on` and `when`.
pub open spec fn legacy_match_fields() -> Seq<&'static str> {
    seq!["command", "parameters", "time", "location", "any_of", "all_of"]
}

/// The `command` that a structured trigger's `on` names.
pub open spec fn on_command(m: Seq<(YamlValue, YamlValue)>) -> Option<Seq<char>> {
    match map_get(m, "on"@) {
        Some(on) => match spec_as_mapping(on) {
            Some(o) => spec_string_field(o, "command"@),
            None => None,
        },
        None => None,
    }
}

/// A positive `after` delay.
pub open spec fn delayed(m: Seq<(YamlValue, YamlValue)>) -> bool {
    map_get(m, "after"@) matches Some(a) && (spec_as_str(a) matches Some(s) && spec_valid_delay(s))
}

/// The findings of one format-3 trigger.
pub open spec fn structured_trigger_findings(defs: Seq<(String, Definition)>, commands: Seq<Item>, completions: Seq<Seq<char>>,
    trigger: Item) -> Seq<Finding> {
    let m = trigger.mapping@;
    let p = trigger.pointer@;
    let has_effect = spec_nonempty_sequence(m, "effects"@);
    let has_result = spec_nonempty_sequence(m, "facts"@);
    findings_over(legacy_match_fields(), |k: &str| finding_if(map_get(m, k@) is Some,
        error_at("trigger.legacy_match_field"@, p + seq!['/'] + spec_escape_pointer(k@))))
    + action_match_findings(defs, None, true, commands, trigger)
    + when_findings(defs, None, m, p)
    + finding_if(map_get(m, "after"@) is Some && !delayed(m), error_at("trigger.after"@, p + "/after"@))
    + finding_if(delayed(m) && has_effect, error_at("trigger.delayed_effects"@, p + "/effects"@))
    + finding_if(!has_effect && !has_result && !completions.contains(trigger.id@), error_at("trigger.no_observable_result"@, p))
    + world_effects_findings(defs, trigger, command_shapes(commands, on_command(m)))
}

/// The findings of one format-1 trigger.
pub open spec fn legacy_trigger_findings(defs: Seq<(String, Definition)>, commands: Seq<Item>, trigger: Item) -> Seq<Finding> {
    let m = trigger.mapping@;
    let p = trigger.pointer@;
    let command = spec_string_field(m, "command"@);
    finding_if(!(command matches Some(c) && has_text(c)), error_at("trigger.missing_command"@, p + "/command"@))
    + finding_if(spec_present_not_bool(m, "once"@), error_at("trigger.once_type"@, p + "/once"@))
    + finding_if(map_get(m, "conditions"@) is Some, error_at("trigger.conditions_removed"@, p + "/conditions"@))
    + time_findings(trigger)
    + location_findings(trigger)
    + gate_list_findings(trigger, "any_of"@)
    + gate_list_findings(trigger, "all_of"@)
    + trigger_parameters_findings(defs, spec_named_shapes(commands, command), trigger)
    + world_effects_findings(defs, trigger, command_shapes(commands, command))
}

/// The findings of `validate_trigger_values`.
pub open spec fn trigger_findings(defs: Seq<(String, Definition)>, parsed: Seq<ParsedFile>, commands: Seq<Item>, claims: bool,
    triggers: Seq<Item>) -> Seq<Finding> {
    if claims {
        findings_over(triggers, |t: Item| structured_trigger_findings(defs, commands, completion_ids(parsed), t))
    } else {
        findings_over(triggers, |t: Item| legacy_trigger_findings(defs, commands, t))
    }
}

/// In format 3, legacy match fields are removed and triggers
/// use `on`/`when`, `after` delays, and must have an observable result; in format 1 the
/// legacy `command`, `once`, `time`, `location`, gates and parameter bindings are checked.
/// Both share the world-effect contract.
pub fn validate_trigger_values(cx: &Context, out: &mut Vec<Diagnostic>, triggers: &Vec<Item>, commands: &Vec<Item>, claims: bool)
    ensures
        appended(old(out)@, final(out)@),
        added_findings(old(out)@, final(out)@) == trigger_findings(cx.definitions@, cx.parsed@, commands@, claims, triggers@),
{
    proof { lemma_added_findings_none(out@); }
    if claims {
        let completions = collect_completions(cx);
        let ghost f = |t: Item| structured_trigger_findings(cx.definitions@, commands@, completion_ids(cx.parsed@), t);
        let mut i: usize = 0;
        while i < triggers.len()
            invariant
                0 <= i <= triggers@.len(),
                string_views(completions@) == completion_ids(cx.parsed@),
                f == (|t: Item| structured_trigger_findings(cx.definitions@, commands@, completion_ids(cx.parsed@), t)),
                appended(old(out)@, out@),
                added_findings(old(out)@, out@) == findings_over(triggers@.take(i as int), f),
            decreases triggers@.len() - i,
        {
            let ghost s0 = out@;
            validate_structured_trigger(cx, out, &triggers[i], commands, &completions);
            proof {
                lemma_added_findings_trans(old(out)@, s0, out@);
                lemma_findings_over_step(triggers@, f, i as int);
            }
            i += 1;
        }
        proof { lemma_take_all(triggers@); }
        return;
    }
    let ghost f = |t: Item| legacy_trigger_findings(cx.definitions@, commands@, t);
    let mut i: usize = 0;
    while i < triggers.len()
        invariant
            0 <= i <= triggers@.len(),
            f == (|t: Item| legacy_trigger_findings(cx.definitions@, commands@, t)),
            appended(old(out)@, out@),
            added_findings(old(out)@, out@) == findings_over(triggers@.take(i as int), f),
        decreases triggers@.len() - i,
    {
        let ghost s0 = out@;
        validate_legacy_trigger(cx, out, &triggers[i], commands);
        proof {
            lemma_added_findings_trans(old(out)@, s0, out@);
            lemma_findings_over_step(triggers@, f, i as int);
        }
        i += 1;
    }
    proof { lemma_take_all(triggers@); }
}

/// Every ID that `completed` names in the repository's files, in file order.
fn collect_completions(cx: &Context) -> (r: Vec<String>)
    ensures
        string_views(r@) == completion_ids(cx.parsed@),
{
    let ghost g = |f: ParsedFile| concat_over(f.root@, |e: (YamlValue, YamlValue)| completed_in(e.1, spec_as_str(e.0)));
    let mut completions: Vec<String> = Vec::new();
    let mut f: usize = 0;
    proof { assert(string_views(completions@) =~= Seq::<Seq<char>>::empty()); }
    while f < cx.parsed.len()
        invariant
            0 <= f <= cx.parsed@.len(),
            g == (|f: ParsedFile| concat_over(f.root@, |e: (YamlValue, YamlValue)| completed_in(e.1, spec_as_str(e.0)))),
            string_views(completions@) == concat_over(cx.parsed@.take(f as int), g),
        decreases cx.parsed@.len() - f,
    {
        let root = &cx.parsed[f].root;
        let ghost start = string_views(completions@);
        let ghost h = |e: (YamlValue, YamlValue)| completed_in(e.1, spec_as_str(e.0));
        let mut k: usize = 0;
        proof { assert(start + concat_over(root@.take(0), h) =~= start); }
        while k < root.len()
            invariant
                0 <= k <= root@.len(),
                h == (|e: (YamlValue, YamlValue)| completed_in(e.1, spec_as_str(e.0))),
                string_views(completions@) == start + concat_over(root@.take(k as int), h),
            decreases root@.len() - k,
        {
            completed_trigger_references(&root[k].1, root[k].0.as_str(), &mut completions);
            proof {
                lemma_concat_over_step(root@, h, k as int);
                assert(string_views(completions@) =~= start + concat_over(root@.take(k + 1), h));
            }
            k += 1;
        }
        proof {
            lemma_take_all(root@);
            lemma_concat_over_step(cx.parsed@, g, f as int);
            assert(string_views(completions@) =~= concat_over(cx.parsed@.take(f + 1), g));
        }
        f += 1;
    }
    proof { lemma_take_all(cx.parsed@); }
    completions
}

/// The format-3 checks of one trigger.
fn validate_structured_trigger(cx: &Context, out: &mut Vec<Diagnostic>, trigger: &Item, commands: &Vec<Item>, completions: &Vec<String>)
    requires
        string_views(completions@) == completion_ids(cx.parsed@),
    ensures
        appended(old(out)@, final(out)@),
        added_findings(old(out)@, final(out)@)
            == structured_trigger_findings(cx.definitions@, commands@, completion_ids(cx.parsed@), *trigger),
{
    let path = trigger.path.as_str();
    let m = &trigger.mapping;
    let ghost s0 = out@;
    validate_legacy_match_fields(out, trigger);
    let ghost s1 = out@;
    validate_action_match(cx, out, trigger, None, true, commands);
    let ghost s2 = out@;
    validate_persistent_when(cx, out, m, path, trigger.pointer.as_str(), trigger.id.as_str(), None);
    let ghost s3 = out@;
    let after = match get(m, "after") { Some(v) => v.as_str(), None => None };
    let is_delayed = match after { Some(a) => valid_delay(a), None => false };
    proof { reveal_strlit("/after"); reveal_strlit("/effects"); }
    error_if(out, contains_key(m, "after") && !is_delayed, "trigger.after",
        owned("trigger `after` must be a positive delay such as `20m`, `1h`, or `2turns`"), path,
        cat(trigger.pointer.as_str(), "/after"), None, Some(trigger.id.clone()));
    let ghost s4 = out@;
    let has_effect = nonempty_sequence(m, "effects");
    error_if(out, is_delayed && has_effect, "trigger.delayed_effects",
        owned("trigger `after` currently delays nested result facts only; immediate `effects` must be omitted"), path,
        cat(trigger.pointer.as_str(), "/effects"), None, Some(trigger.id.clone()));
    let ghost s5 = out@;
    let has_result = nonempty_sequence(m, "facts");
    let completed = contains_string(completions, trigger.id.as_str());
    proof {
        let views = string_views(completions@);
        if completed {
            let k = choose|k: int| 0 <= k < completions@.len() && (#[trigger] completions@[k])@ == trigger.id@;
            assert(views[k] == trigger.id@);
        }
        if views.contains(trigger.id@) {
            let k = choose|k: int| 0 <= k < views.len() && views[k] == trigger.id@;
            assert(completions@[k]@ == trigger.id@);
        }
    }
    error_if(out, !has_effect && !has_result && !completed, "trigger.no_observable_result",
        owned("trigger must have an effect, a nested result fact, or a completion identity referenced by `completed`"), path,
        trigger.pointer.clone(), None, Some(trigger.id.clone()));
    let ghost s6 = out@;
    let command_id = match get(m, "on") {
        Some(on) => match on.as_mapping() { Some(o) => string_field(o, "command"), None => None },
        None => None,
    };
    let shapes = shapes_of_command(commands, command_id);
    validate_world_effects(cx, out, trigger, &shapes);
    proof {
        lemma_added_findings_trans(s0, s1, s2);
        lemma_added_findings_trans(s0, s2, s3);
        lemma_added_findings_trans(s0, s3, s4);
        lemma_added_findings_trans(s0, s4, s5);
        lemma_added_findings_trans(s0, s5, s6);
        lemma_added_findings_trans(s0, s6, out@);
    }
}

/// The format-3 removed match fields of one trigger.
fn validate_legacy_match_fields(out: &mut Vec<Diagnostic>, trigger: &Item)
    ensures
        appended(old(out)@, final(out)@),
        added_findings(old(out)@, final(out)@) == findings_over(legacy_match_fields(), |k: &str| finding_if(
            map_get(trigger.mapping@, k@) is Some, error_at("trigger.legacy_match_field"@, trigger.pointer@ + seq!['/'] + spec_escape_pointer(k@)))),
{
    let legacy: [&str; 6] = ["command", "parameters", "time", "location", "any_of", "all_of"];
    proof { assert(legacy@ == legacy_match_fields()); }
    let ghost f = |k: &str| finding_if(map_get(trigger.mapping@, k@) is Some,
        error_at("trigger.legacy_match_field"@, trigger.pointer@ + seq!['/'] + spec_escape_pointer(k@)));
    let mut i: usize = 0;
    proof { lemma_added_findings_none(out@); }
    while i < 6
        invariant
            0 <= i <= 6,
            legacy@ == legacy_match_fields(),
            f == (|k: &str| finding_if(map_get(trigger.mapping@, k@) is Some,
                error_at("trigger.legacy_match_field"@, trigger.pointer@ + seq!['/'] + spec_escape_pointer(k@)))),
            appended(old(out)@, out@),
            added_findings(old(out)@, out@) == findings_over(legacy@.take(i as int), f),
        decreases 6 - i,
    {
        let ghost b = out@;
        let present = contains_key(&trigger.mapping, legacy[i]);
        let message = if present { cat3("trigger `", legacy[i], "` has moved into structured `on` or `when.all`") } else { String::new() };
        error_if(out, present, "trigger.legacy_match_field", message, trigger.path.as_str(),
            child(trigger.pointer.as_str(), legacy[i]), None, Some(trigger.id.clone()));
        proof {
            lemma_added_findings_trans(old(out)@, b, out@);
            lemma_findings_over_step(legacy@, f, i as int);
        }
        i += 1;
    }
    proof { lemma_take_all(legacy@); }
}

/// The format-1 checks of one trigger.
fn validate_legacy_trigger(cx: &Context, out: &mut Vec<Diagnostic>, trigger: &Item, commands: &Vec<Item>)
    ensures
        appended(old(out)@, final(out)@),
        added_findings(old(out)@, final(out)@) == legacy_trigger_findings(cx.definitions@, commands@, *trigger),
{
    let path = trigger.path.as_str();
    let m = &trigger.mapping;
    let command_id = string_field(m, "command");
    let ghost s0 = out@;
    proof { reveal_strlit("/command"); reveal_strlit("/once"); reveal_strlit("/conditions"); }
    let command_named = match command_id { Some(c) => nonblank(c), None => false };
    error_if(out, !command_named, "trigger.missing_command", owned("trigger `command` must be a command ID"), path,
        cat(trigger.pointer.as_str(), "/command"), None, Some(trigger.id.clone()));
    let ghost s1 = out@;
    error_if(out, present_not_bool(m, "once"), "trigger.once_type", owned("trigger `once` must be a boolean"), path,
        cat(trigger.pointer.as_str(), "/once"), None, Some(trigger.id.clone()));
    let ghost s2 = out@;
    error_if(out, contains_key(m, "conditions"), "trigger.conditions_removed",
        owned("trigger `conditions` has been replaced by `time`, `location`, `any_of`, and `all_of`"), path,
        cat(trigger.pointer.as_str(), "/conditions"), None, Some(trigger.id.clone()));
    let ghost s3 = out@;
    validate_trigger_time(out, trigger);
    let ghost s4 = out@;
    validate_trigger_location(out, trigger);
    let ghost s5 = out@;
    validate_trigger_gate_list(out, trigger, "any_of");
    let ghost s6 = out@;
    validate_trigger_gate_list(out, trigger, "all_of");
    let ghost s7 = out@;
    let named = named_parameter_shapes(commands, command_id);
    validate_trigger_parameters(cx, out, trigger, &named);
    let ghost s8 = out@;
    let shapes = shapes_of_command(commands, command_id);
    validate_world_effects(cx, out, trigger, &shapes);
    proof {
        lemma_added_findings_trans(s0, s1, s2);
        lemma_added_findings_trans(s0, s2, s3);
        lemma_added_findings_trans(s0, s3, s4);
        lemma_added_findings_trans(s0, s4, s5);
        lemma_added_findings_trans(s0, s5, s6);
        lemma_added_findings_trans(s0, s6, s7);
        lemma_added_findings_trans(s0, s7, s8);
        lemma_added_findings_trans(s0, s8, out@);
    }
}

/// A non-blank string node.
pub open spec fn nonblank_text(v: YamlValue) -> Option<Seq<char>> {
    match spec_as_str(v) {
        Some(s) => if has_text(s) { Some(s) } else { None },
        None => None,
    }
}

/// Whether a shape accepts an object of kind `kind`.
pub open spec fn shape_accepts_kind(types: Seq<CommandParameterType>, kind: Kind) -> bool {
    exists|t: int| 0 <= t < types.len() && parameter_type_kind(#[trigger] types[t]) == kind
}

/// The findings of one parameter binding of a format-1 trigger.
pub open spec fn binding_findings(defs: Seq<(String, Definition)>, named: Seq<(Seq<char>, (Seq<CommandParameterType>, int, int))>,
    entry: (YamlValue, YamlValue), p: Seq<char>) -> Seq<Finding> {
    match nonblank_text(entry.0) {
        None => seq![error_at("trigger.parameter_name"@, p)],
        Some(name) => {
            let bp = p + seq!['/'] + spec_escape_pointer(name);
            match last_shape(named, name) {
                None => seq![error_at("trigger.parameter_unknown"@, bp)],
                Some(shape) => match nonblank_text(entry.1) {
                    None => seq![error_at("trigger.parameter_reference"@, bp)],
                    Some(r) => match kind_in(defs, r) {
                        Some(kind) => finding_if(!shape_accepts_kind(shape.0, kind), error_at("reference.wrong_type"@, bp)),
                        None => seq![error_at("reference.unknown"@, bp)],
                    },
                },
            }
        },
    }
}

/// The findings of a format-1 trigger's `parameters` bindings.
pub open spec fn trigger_parameters_findings(defs: Seq<(String, Definition)>,
    named: Seq<(Seq<char>, (Seq<CommandParameterType>, int, int))>, trigger: Item) -> Seq<Finding> {
    let p = trigger.pointer@ + "/parameters"@;
    match map_get(trigger.mapping@, "parameters"@) {
        None => Seq::empty(),
        Some(v) => match spec_as_mapping(v) {
            None => seq![error_at("trigger.parameters_type"@, p)],
            Some(bindings) => findings_over(bindings, |e: (YamlValue, YamlValue)| binding_findings(defs, named, e, p)),
        },
    }
}

/// Bindings from the trigger command's parameter names to
/// authored IDs of an accepted type.
fn validate_trigger_parameters(cx: &Context, out: &mut Vec<Diagnostic>, trigger: &Item, named: &Vec<(String, ParameterShape)>)
    ensures
        appended(old(out)@, final(out)@),
        added_findings(old(out)@, final(out)@) == trigger_parameters_findings(cx.definitions@, named_shape_views(named@), *trigger),
{
    proof { lemma_added_findings_none(out@); }
    let value = match get(&trigger.mapping, "parameters") { Some(v) => v, None => { return; } };
    let path = trigger.path.as_str();
    let pointer = cat(trigger.pointer.as_str(), "/parameters");
    proof { reveal_strlit("/parameters"); }
    let bindings = match value.as_mapping() {
        Some(b) => b,
        None => {
            error_if(out, true, "trigger.parameters_type",
                owned("trigger `parameters` must be a mapping from command parameter names to authored IDs"), path,
                pointer, None, Some(trigger.id.clone()));
            return;
        },
    };
    let command_name = match string_field(&trigger.mapping, "command") { Some(c) => c, None => "the trigger command" };
    let ghost views = named_shape_views(named@);
    let ghost f = |e: (YamlValue, YamlValue)| binding_findings(cx.definitions@, views, e, pointer@);
    let mut b: usize = 0;
    while b < bindings.len()
        invariant
            0 <= b <= bindings@.len(),
            views == named_shape_views(named@),
            f == (|e: (YamlValue, YamlValue)| binding_findings(cx.definitions@, views, e, pointer@)),
            appended(old(out)@, out@),
            added_findings(old(out)@, out@) == findings_over(bindings@.take(b as int), f),
        decreases bindings@.len() - b,
    {
        let ghost s0 = out@;
        let name = match bindings[b].0.as_str() { Some(n) => if nonblank(n) { Some(n) } else { None }, None => None };
        match name {
            None => {
                error_if(out, true, "trigger.parameter_name", owned("trigger parameter binding names must be non-empty strings"), path,
                    pointer.clone(), None, Some(trigger.id.clone()));
            },
            Some(name) => {
                let binding_pointer = child(pointer.as_str(), name);
                match shape_named(named, name) {
                    None => {
                        error_if(out, true, "trigger.parameter_unknown", cat5("`", name, "` is not a parameter of `", command_name, "`"),
                            path, binding_pointer, None, Some(trigger.id.clone()));
                    },
                    Some(expected) => {
                        let reference = match bindings[b].1.as_str() { Some(r) => if nonblank(r) { Some(r) } else { None }, None => None };
                        match reference {
                            None => {
                                error_if(out, true, "trigger.parameter_reference",
                                    cat3("trigger parameter `", name, "` must bind to a non-empty authored ID"), path,
                                    binding_pointer, None, Some(trigger.id.clone()));
                            },
                            Some(reference) => {
                                match cx.kind_of(reference) {
                                    Some(kind) => {
                                        let mut accepted = false;
                                        let mut t: usize = 0;
                                        while t < expected.types.len()
                                            invariant
                                                0 <= t <= expected.types@.len(),
                                                accepted == exists|j: int| 0 <= j < t
                                                    && parameter_type_kind(#[trigger] expected.types@[j]) == kind,
                                            decreases expected.types@.len() - t,
                                        {
                                            if expected.types[t].kind() == kind {
                                                accepted = true;
                                            }
                                            t += 1;
                                        }
                                        let message = if accepted {
                                            String::new()
                                        } else {
                                            let kind_name = kind.name();
                                            let head = cat4("`", reference, "` refers to a ", kind_name.as_str());
                                            cat5(head.as_str(), "; parameter `", name, "` expects ", expected.type_names().as_str())
                                        };
                                        error_if(out, !accepted, "reference.wrong_type", message, path, binding_pointer,
                                            locate_scalar(trigger.source.as_str(), reference), Some(owned(reference)));
                                    },
                                    None => {
                                        error_if(out, true, "reference.unknown", cat3("reference `", reference, "` is not defined"), path,
                                            binding_pointer, locate_scalar(trigger.source.as_str(), reference), Some(owned(reference)));
                                    },
                                }
                            },
                        }
                    },
                }
            },
        }
        proof {
            lemma_added_findings_trans(old(out)@, s0, out@);
            lemma_findings_over_step(bindings@, f, b as int);
        }
        b += 1;
    }
    proof { lemma_take_all(bindings@); }
}

/// The finding of one key of a legacy `time` mapping.
pub open spec fn time_key_findings(entry: (YamlValue, YamlValue), p: Seq<char>) -> Seq<Finding> {
    match spec_as_str(entry.0) {
        None => seq![error_at("trigger.time_field"@, p)],
        Some(k) => finding_if(!(k == "relation"@ || k == "value"@), error_at("trigger.time_unknown_field"@, p + seq!['/'] + spec_escape_pointer(k))),
    }
}

/// The findings of a legacy trigger `time`.
pub open spec fn time_findings(trigger: Item) -> Seq<Finding> {
    let p = trigger.pointer@ + "/time"@;
    match map_get(trigger.mapping@, "time"@) {
        None => Seq::empty(),
        Some(v) => if untag(v) is Null {
            Seq::empty()
        } else {
            match spec_as_mapping(v) {
                None => seq![error_at("trigger.time_type"@, p)],
                Some(t) => findings_over(t, |e: (YamlValue, YamlValue)| time_key_findings(e, p))
                    + finding_if(!(spec_string_field(t, "relation"@) matches Some(r) && (r == "before"@ || r == "at"@ || r == "after"@)),
                        error_at("trigger.time_relation"@, p + "/relation"@))
                    + finding_if(!(spec_string_field(t, "value"@) matches Some(s) && spec_valid_time(s)),
                        error_at("trigger.time_value"@, p + "/value"@)),
            }
        },
    }
}

/// A null or a mapping with `relation` and `value`.
fn validate_trigger_time(out: &mut Vec<Diagnostic>, trigger: &Item)
    ensures
        appended(old(out)@, final(out)@),
        added_findings(old(out)@, final(out)@) == time_findings(*trigger),
{
    proof { lemma_added_findings_none(out@); }
    let time = match get(&trigger.mapping, "time") { Some(t) => t, None => { return; } };
    if let YamlValue::Null = crate::yaml::YamlValue::untagged(time) {
        return;
    }
    let path = trigger.path.as_str();
    let pointer = cat(trigger.pointer.as_str(), "/time");
    proof { reveal_strlit("/time"); reveal_strlit("/relation"); reveal_strlit("/value"); }
    let time = match time.as_mapping() {
        Some(t) => t,
        None => {
            error_if(out, true, "trigger.time_type", owned("trigger `time` must be a mapping with `relation` and `value`"), path,
                pointer, None, Some(trigger.id.clone()));
            return;
        },
    };
    let ghost f = |e: (YamlValue, YamlValue)| time_key_findings(e, pointer@);
    let mut k: usize = 0;
    while k < time.len()
        invariant
            0 <= k <= time@.len(),
            f == (|e: (YamlValue, YamlValue)| time_key_findings(e, pointer@)),
            appended(old(out)@, out@),
            added_findings(old(out)@, out@) == findings_over(time@.take(k as int), f),
        decreases time@.len() - k,
    {
        let ghost b = out@;
        match time[k].0.as_str() {
            None => {
                error_if(out, true, "trigger.time_field", owned("trigger `time` field names must be strings"), path,
                    pointer.clone(), None, Some(trigger.id.clone()));
            },
            Some(key) => {
                let known = str_eq(key, "relation") || str_eq(key, "value");
                let message = if known { String::new() } else { cat3("`", key, "` is not valid in trigger `time`") };
                error_if(out, !known, "trigger.time_unknown_field", message, path, child(pointer.as_str(), key), None,
                    Some(trigger.id.clone()));
            },
        }
        proof {
            lemma_added_findings_trans(old(out)@, b, out@);
            lemma_findings_over_step(time@, f, k as int);
        }
        k += 1;
    }
    proof { lemma_take_all(time@); }
    let ghost s1 = out@;
    let relation_ok = match string_field(time, "relation") {
        Some(r) => str_eq(r, "before") || str_eq(r, "at") || str_eq(r, "after"),
        None => false,
    };
    error_if(out, !relation_ok, "trigger.time_relation", owned("trigger `time.relation` must be `before`, `at`, or `after`"), path,
        cat(pointer.as_str(), "/relation"), None, Some(trigger.id.clone()));
    let ghost s2 = out@;
    let value_ok = match string_field(time, "value") { Some(v) => valid_time(v), None => false };
    error_if(out, !value_ok, "trigger.time_value", owned("trigger `time.value` must be a quoted 24-hour HH:MM value"), path,
        cat(pointer.as_str(), "/value"), None, Some(trigger.id.clone()));
    proof {
        lemma_added_findings_trans(old(out)@, s1, s2);
        lemma_added_findings_trans(old(out)@, s2, out@);
    }
}

/// The findings of a legacy trigger `location`.
pub open spec fn location_findings(trigger: Item) -> Seq<Finding> {
    match map_get(trigger.mapping@, "location"@) {
        None => Seq::empty(),
        Some(v) => finding_if(!(untag(v) is Null || spec_as_str(v) is Some),
            error_at("trigger.location_type"@, trigger.pointer@ + "/location"@)),
    }
}

/// A setting ID, blank, or null.
fn validate_trigger_location(out: &mut Vec<Diagnostic>, trigger: &Item)
    ensures
        appended(old(out)@, final(out)@),
        added_findings(old(out)@, final(out)@) == location_findings(*trigger),
{
    proof { lemma_added_findings_none(out@); }
    let location = match get(&trigger.mapping, "location") { Some(l) => l, None => { return; } };
    let is_null = match crate::yaml::YamlValue::untagged(location) { YamlValue::Null => true, _ => false };
    proof { reveal_strlit("/location"); }
    error_if(out, !(is_null || location.as_str().is_some()), "trigger.location_type",
        owned("trigger `location` must be a setting ID or blank"), trigger.path.as_str(),
        cat(trigger.pointer.as_str(), "/location"), None, Some(trigger.id.clone()));
}

/// The findings of a legacy `any_of`/`all_of` gate list.
pub open spec fn gate_list_findings(trigger: Item, field: Seq<char>) -> Seq<Finding> {
    let p = trigger.pointer@;
    match map_get(trigger.mapping@, field) {
        None => Seq::empty(),
        Some(v) => match spec_as_sequence(v) {
            None => seq![error_at("trigger."@ + field + "_type"@, p + seq!['/'] + spec_escape_pointer(field))],
            Some(values) => findings_indexed(values, |i: int, e: YamlValue| finding_if(!spec_is_text(e),
                error_at("trigger."@ + field + "_reference"@, p + "/"@ + field + seq!['/'] + decimal(i as nat)))),
        },
    }
}

/// `any_of`/`all_of` are sequences of non-empty IDs.
fn validate_trigger_gate_list(out: &mut Vec<Diagnostic>, trigger: &Item, field: &str)
    ensures
        appended(old(out)@, final(out)@),
        added_findings(old(out)@, final(out)@) == gate_list_findings(*trigger, field@),
{
    proof { lemma_added_findings_none(out@); }
    let values = match get(&trigger.mapping, field) { Some(v) => v, None => { return; } };
    let path = trigger.path.as_str();
    let values = match values.as_sequence() {
        Some(v) => v,
        None => {
            error_if(out, true, cat3("trigger.", field, "_type").as_str(),
                cat3("trigger `", field, "` must be a sequence of character, entity, or flag IDs"), path,
                child(trigger.pointer.as_str(), field), None, Some(trigger.id.clone()));
            return;
        },
    };
    let base = cat3(trigger.pointer.as_str(), "/", field);
    let code = cat3("trigger.", field, "_reference");
    let ghost f = |i: int, e: YamlValue| finding_if(!spec_is_text(e),
        error_at("trigger."@ + field@ + "_reference"@, trigger.pointer@ + "/"@ + field@ + seq!['/'] + decimal(i as nat)));
    let mut index: usize = 0;
    while index < values.len()
        invariant
            0 <= index <= values@.len(),
            base@ == trigger.pointer@ + "/"@ + field@,
            code@ == "trigger."@ + field@ + "_reference"@,
            f == (|i: int, e: YamlValue| finding_if(!spec_is_text(e),
                error_at("trigger."@ + field@ + "_reference"@, trigger.pointer@ + "/"@ + field@ + seq!['/'] + decimal(i as nat)))),
            appended(old(out)@, out@),
            added_findings(old(out)@, out@) == findings_indexed(values@.take(index as int), f),
        decreases values@.len() - index,
    {
        let ghost b = out@;
        let text = is_text(&values[index]);
        let message = if text { String::new() } else { cat3("trigger `", field, "` entries must be character, entity, or flag IDs") };
        error_if(out, !text, code.as_str(), message, path, child_index(base.as_str(), index), None, Some(trigger.id.clone()));
        proof {
            lemma_added_findings_trans(old(out)@, b, out@);
            lemma_findings_indexed_step(values@, f, index as int);
        }
        index += 1;
    }
    proof { lemma_take_all(values@); }
}

} // verus!
