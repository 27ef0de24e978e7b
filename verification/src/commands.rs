//! Commands: parameter declarations, candidate sources, reserved signatures, and the
//! world-effect contract shared by commands and triggers.

use vstd::prelude::*;
use crate::case::{STANDARD_MYSTERY_RULESET_ID, field_findings, validate_mapping_fields};
use crate::version::{StoryVersion, spec_is_format_3_from};
use crate::ids::{command_parameter_reference, looks_like_id, spec_escape_pointer, spec_looks_like_id, spec_parameter_reference,
    spec_valid_delay, valid_delay};
use crate::kinds::{CandidateSource, CommandParameterType, Kind, kind_prefix, parameter_type_kind, spec_parse_parameter_type, spec_parse_source,
    spec_produced_types};
use crate::locate::locate_scalar;
use crate::model::{Context, Definition, Finding, Item, RulesetReference, added_findings, kind_in, appended, child, child_index, contains_string, error, error_at, error_if,
    finding_if, findings_indexed, findings_over, lemma_added_findings_none, lemma_added_findings_trans, lemma_findings_indexed_step,
    lemma_findings_over_step, lemma_take_all, one_of, warning_at};
use crate::report::Diagnostic;
use crate::text::{cat, cat3, cat4, cat5, decimal, has_text, joined, lemma_joined_step, nonblank, owned, str_eq, usize_to_decimal};
use crate::values::{has_text_field, is_text, present_not_bool, spec_present_not_bool, text_field};
use crate::yaml::{YamlValue, bool_field, contains_key, get, integer_field, map_get, spec_as_mapping, spec_as_sequence, spec_as_str,
    spec_as_i64, spec_bool_field, spec_integer_field, spec_string_field, string_field};

verus! {

/// A declared command parameter: its accepted types in order and its cardinality.
#[derive(Debug)]
pub struct ParameterShape {
    pub types: Vec<CommandParameterType>,
    pub min: usize,
    pub max: usize,
}

impl ParameterShape {
    /// A copy of this shape.
    pub fn copy(&self) -> (r: ParameterShape)
        ensures
            r.types@ == self.types@,
            r.min == self.min,
            r.max == self.max,
    {
        let mut types: Vec<CommandParameterType> = Vec::new();
        let mut i: usize = 0;
        while i < self.types.len()
            invariant
                0 <= i <= self.types@.len(),
                types@ == self.types@.subrange(0, i as int),
            decreases self.types@.len() - i,
        {
            types.push(self.types[i]);
            proof { assert(types@ =~= self.types@.subrange(0, i + 1)); }
            i += 1;
        }
        proof { assert(self.types@.subrange(0, self.types@.len() as int) =~= self.types@); }
        ParameterShape { types, min: self.min, max: self.max }
    }

    /// This parameter accepts exactly one `t` and is required.
    pub fn is_single_required(&self, t: CommandParameterType) -> (r: bool)
        ensures
            r == (self.types@ == seq![t] && self.min == 1 && self.max == 1),
    {
        let r = self.types.len() == 1 && self.types[0] == t && self.min == 1 && self.max == 1;
        proof {
            if self.types@.len() == 1 && self.types@[0] == t {
                assert(self.types@ =~= seq![t]);
            }
        }
        r
    }

    /// Whether `t` is one of the accepted types.
    pub fn accepts(&self, t: CommandParameterType) -> (r: bool)
        ensures
            r == self.types@.contains(t),
    {
        types_contain(&self.types, t)
    }

    /// The accepted type names joined with ` or `.
    pub fn type_names(&self) -> (r: String)
        ensures
            r@ == joined(type_name_list(self.types@), " or "@),
    {
        let ghost parts = type_name_list(self.types@);
        let mut text = String::new();
        let mut i: usize = 0;
        proof { assert(text@ =~= joined(parts.subrange(0, 0), " or "@)); }
        while i < self.types.len()
            invariant
                0 <= i <= self.types@.len(),
                parts == type_name_list(self.types@),
                text@ == joined(parts.subrange(0, i as int), " or "@),
            decreases self.types@.len() - i,
        {
            proof { lemma_joined_step(parts, " or "@, i as int, text@); }
            if i > 0 {
                text.append(" or ");
            }
            let name = self.types[i].name();
            text.append(name.as_str());
            i += 1;
        }
        proof { assert(parts.subrange(0, self.types@.len() as int) =~= parts); }
        text
    }
}

/// Whether `types` holds `t`.
pub fn types_contain(types: &Vec<CommandParameterType>, t: CommandParameterType) -> (r: bool)
    ensures
        r == types@.contains(t),
{
    let mut i: usize = 0;
    while i < types.len()
        invariant
            0 <= i <= types@.len(),
            forall|k: int| 0 <= k < i ==> types@[k] != t,
        decreases types@.len() - i,
    {
        if types[i] == t {
            return true;
        }
        i += 1;
    }
    false
}

/// Whether `kinds` holds `k`.
pub fn kinds_contain(kinds: &[Kind], k: Kind) -> (r: bool)
    ensures
        r == kinds@.contains(k),
{
    let mut i: usize = 0;
    while i < kinds.len()
        invariant
            0 <= i <= kinds@.len(),
            forall|j: int| 0 <= j < i ==> kinds@[j] != k,
        decreases kinds@.len() - i,
    {
        if kinds[i] == k {
            return true;
        }
        i += 1;
    }
    false
}

/// A non-negative `i64` that fits in `usize`.
fn to_usize(v: i64) -> (r: Option<usize>)
    ensures
        match r {
            Some(u) => v >= 0 && u == v,
            None => v < 0 || v > usize::MAX,
        },
{
    if v >= 0 && (v as u64) <= (usize::MAX as u64) { Some(v as usize) } else { None }
}

/// The known types among the strings of a `types` list, in order.
pub open spec fn parsed_types(values: Seq<YamlValue>) -> Seq<CommandParameterType>
    decreases values.len(),
{
    if values.len() == 0 {
        Seq::empty()
    } else {
        let rest = parsed_types(values.drop_last());
        match spec_as_str(values.last()) {
            Some(s) => match spec_parse_parameter_type(s) {
                Some(t) => rest.push(t),
                None => rest,
            },
            None => rest,
        }
    }
}

/// The types a parameter declares: its `types` list when that is a sequence, else its
/// legacy `type`.
pub open spec fn declared_types(parameter: Seq<(YamlValue, YamlValue)>) -> Seq<CommandParameterType> {
    let legacy = match spec_string_field(parameter, "type"@) {
        Some(s) => match spec_parse_parameter_type(s) {
            Some(t) => seq![t],
            None => Seq::empty(),
        },
        None => Seq::empty(),
    };
    match map_get(parameter, "types"@) {
        Some(v) => match spec_as_sequence(v) {
            Some(values) => parsed_types(values),
            None => legacy,
        },
        None => legacy,
    }
}

/// A cardinality bound that is an integer in `0..=usize::MAX`, or `default`.
pub open spec fn bound_or(v: Option<i64>, default: int) -> int {
    match v {
        Some(x) => if 0 <= x <= usize::MAX { x as int } else { default },
        None => default,
    }
}

/// The shape a parameter node yields: its declared types (at least one) with `min`
/// (default 1 when `required: true`, else 0) and `max` (default 1).
pub open spec fn spec_parameter_shape(v: YamlValue) -> Option<(Seq<CommandParameterType>, int, int)> {
    match spec_as_mapping(v) {
        None => None,
        Some(p) => if declared_types(p).len() == 0 {
            None
        } else {
            let required: int = if spec_bool_field(p, "required"@) == Some(true) { 1 } else { 0 };
            Some((declared_types(p), bound_or(spec_integer_field(p, "min"@), required), bound_or(spec_integer_field(p, "max"@), 1)))
        },
    }
}

/// The view of an optional shape.
pub open spec fn shape_view(s: Option<ParameterShape>) -> Option<(Seq<CommandParameterType>, int, int)> {
    match s {
        Some(s) => Some((s.types@, s.min as int, s.max as int)),
        None => None,
    }
}

/// The declared parameter nodes of a command (none unless `parameters` is a sequence).
pub open spec fn parameter_nodes(command: Item) -> Seq<YamlValue> {
    match map_get(command.mapping@, "parameters"@) {
        Some(v) => match spec_as_sequence(v) {
            Some(p) => p,
            None => Seq::empty(),
        },
        None => Seq::empty(),
    }
}

/// The declared types of one parameter mapping.
fn parameter_declared_types(parameter: &Vec<(YamlValue, YamlValue)>) -> (r: Vec<CommandParameterType>)
    ensures
        r@ == declared_types(parameter@),
{
    let mut types: Vec<CommandParameterType> = Vec::new();
    let sequence = match get(parameter, "types") {
        Some(v) => v.as_sequence(),
        None => None,
    };
    match sequence {
        Some(values) => {
            let mut k: usize = 0;
            while k < values.len()
                invariant
                    0 <= k <= values@.len(),
                    types@ == parsed_types(values@.take(k as int)),
                decreases values@.len() - k,
            {
                proof {
                    assert(values@.take(k + 1).drop_last() =~= values@.take(k as int));
                    assert(values@.take(k + 1).last() == values@[k as int]);
                }
                if let Some(s) = values[k].as_str() {
                    if let Some(t) = CommandParameterType::parse(s) {
                        types.push(t);
                    }
                }
                k += 1;
            }
            proof { assert(values@.take(values@.len() as int) =~= values@); }
        },
        None => {
            if let Some(s) = string_field(parameter, "type") {
                if let Some(t) = CommandParameterType::parse(s) {
                    types.push(t);
                    proof { assert(types@ =~= seq![t]); }
                }
            }
        },
    }
    types
}

/// The parameter shapes that a command's declarations yield without reporting anything:
/// ordered `types` (or legacy `type`) and the cardinality,
/// `None` for a parameter that declares no known type.
pub fn command_parameter_types(command: &Item) -> (r: Vec<Option<ParameterShape>>)
    ensures
        r@.len() == parameter_nodes(*command).len(),
        forall|i: int| 0 <= i < r@.len() ==> #[trigger] shape_view(r@[i]) == spec_parameter_shape(parameter_nodes(*command)[i]),
{
    let mut shapes: Vec<Option<ParameterShape>> = Vec::new();
    let parameters = match get(&command.mapping, "parameters") {
        Some(v) => match v.as_sequence() { Some(p) => p, None => { return shapes; } },
        None => { return shapes; },
    };
    let mut i: usize = 0;
    while i < parameters.len()
        invariant
            0 <= i <= parameters@.len(),
            parameters@ == parameter_nodes(*command),
            shapes@.len() == i,
            forall|k: int| 0 <= k < i ==> #[trigger] shape_view(shapes@[k]) == spec_parameter_shape(parameters@[k]),
        decreases parameters@.len() - i,
    {
        let shape = match parameters[i].as_mapping() {
            None => None,
            Some(parameter) => {
                let types = parameter_declared_types(parameter);
                if types.len() == 0 {
                    None
                } else {
                    let required: usize = match bool_field(parameter, "required") { Some(true) => 1, _ => 0 };
                    let min = match integer_field(parameter, "min") {
                        Some(v) => match to_usize(v) { Some(u) => u, None => required },
                        None => required,
                    };
                    let max = match integer_field(parameter, "max") {
                        Some(v) => match to_usize(v) { Some(u) => u, None => 1 },
                        None => 1,
                    };
                    Some(ParameterShape { types, min, max })
                }
            },
        };
        shapes.push(shape);
        i += 1;
    }
    shapes
}

/// The findings of one command.
pub open spec fn command_findings(version: Option<StoryVersion>, defs: Seq<(String, Definition)>, ruleset: Option<RulesetReference>,
    command: Item) -> Seq<Finding> {
    let m = command.mapping@;
    let p = command.pointer@;
    let nodes = parameter_nodes(command);
    let shapes = Seq::new(nodes.len(), |i: int| validated_parameter_shape(version, nodes[i]));
    finding_if(!text_field(m, "name"@), error_at("command.name"@, p + "/name"@))
    + finding_if(map_get(m, "description"@) matches Some(d) && spec_as_str(d) is None, error_at("command.description_type"@, p + "/description"@))
    + finding_if(map_get(m, "aliases"@) is Some, error_at("command.aliases_removed"@, p + "/aliases"@))
    + parameters_findings(version, command)
    + (if spec_is_format_3_from(version, 0) { runtime_signature_findings(ruleset, command, shapes) } else { Seq::empty() })
    + world_effects_findings(defs, command, shapes)
}

/// Name, description, removed aliases, parameters, reserved
/// runtime signatures (format 3) and effects.
pub fn validate_command_values(cx: &Context, out: &mut Vec<Diagnostic>, commands: &Vec<Item>)
    ensures
        appended(old(out)@, final(out)@),
        added_findings(old(out)@, final(out)@) == findings_over(commands@,
            |c: Item| command_findings(cx.format_version, cx.definitions@, cx.ruleset, c)),
{
    let ghost f = |c: Item| command_findings(cx.format_version, cx.definitions@, cx.ruleset, c);
    let mut i: usize = 0;
    proof { lemma_added_findings_none(out@); }
    while i < commands.len()
        invariant
            0 <= i <= commands@.len(),
            f == (|c: Item| command_findings(cx.format_version, cx.definitions@, cx.ruleset, c)),
            appended(old(out)@, out@),
            added_findings(old(out)@, out@) == findings_over(commands@.take(i as int), f),
        decreases commands@.len() - i,
    {
        let command = &commands[i];
        let path = command.path.as_str();
        let ghost s0 = out@;
        proof { reveal_strlit("/name"); reveal_strlit("/description"); reveal_strlit("/aliases"); }
        error_if(out, !has_text_field(&command.mapping, "name"), "command.name", owned("command `name` must be a non-empty string"), path,
            cat(command.pointer.as_str(), "/name"), None, Some(command.id.clone()));
        let ghost s1 = out@;
        let bad_description = match get(&command.mapping, "description") { Some(d) => d.as_str().is_none(), None => false };
        error_if(out, bad_description, "command.description_type", owned("command `description` must be a string"), path,
            cat(command.pointer.as_str(), "/description"), None, Some(command.id.clone()));
        let ghost s2 = out@;
        error_if(out, contains_key(&command.mapping, "aliases"), "command.aliases_removed", owned("command `aliases` has been removed"), path,
            cat(command.pointer.as_str(), "/aliases"), None, Some(command.id.clone()));
        let ghost s3 = out@;
        let shapes = validate_command_parameters(cx, out, command);
        let ghost s4 = out@;
        proof {
            let nodes = parameter_nodes(*command);
            assert(shape_views(shapes@) =~= Seq::new(nodes.len(), |i: int| validated_parameter_shape(cx.format_version, nodes[i])));
        }
        if cx.is_format_3() {
            validate_runtime_command_signature(cx, out, command, &shapes);
        } else {
            proof { lemma_added_findings_none(s4); }
        }
        let ghost s5 = out@;
        validate_world_effects(cx, out, command, &shapes);
        proof {
            lemma_added_findings_trans(s0, s1, s2);
            lemma_added_findings_trans(s0, s2, s3);
            lemma_added_findings_trans(s0, s3, s4);
            lemma_added_findings_trans(s0, s4, s5);
            lemma_added_findings_trans(s0, s5, out@);
            lemma_added_findings_trans(old(out)@, s0, out@);
            lemma_findings_over_step(commands@, f, i as int);
        }
        i += 1;
    }
    proof { lemma_take_all(commands@); }
}

/// The non-blank `name` of a parameter mapping.
pub open spec fn mapping_name(p: Seq<(YamlValue, YamlValue)>) -> Option<Seq<char>> {
    match spec_string_field(p, "name"@) {
        Some(n) => if has_text(n) { Some(n) } else { None },
        None => None,
    }
}

/// The non-blank `name` of a parameter node.
pub open spec fn parameter_name(v: YamlValue) -> Option<Seq<char>> {
    match spec_as_mapping(v) {
        Some(p) => mapping_name(p),
        None => None,
    }
}

/// Whether one of `earlier` registered the name `n`.
pub open spec fn name_taken(earlier: Seq<YamlValue>, n: Seq<char>) -> bool {
    exists|j: int| 0 <= j < earlier.len() && #[trigger] parameter_name(earlier[j]) == Some(n)
}

/// The known type that entry `k` of a `types` list names.
pub open spec fn type_at(values: Seq<YamlValue>, k: int) -> Option<CommandParameterType> {
    match spec_as_str(values[k]) {
        Some(s) => spec_parse_parameter_type(s),
        None => None,
    }
}

/// The known types of a `types` list, first occurrences in order.
pub open spec fn unique_types(values: Seq<YamlValue>) -> Seq<CommandParameterType>
    decreases values.len(),
{
    if values.len() == 0 {
        Seq::empty()
    } else {
        let rest = unique_types(values.drop_last());
        match type_at(values, values.len() - 1) {
            Some(t) => if rest.contains(t) { rest } else { rest.push(t) },
            None => rest,
        }
    }
}

/// The legacy singular `type` of a parameter, when known.
pub open spec fn legacy_type(p: Seq<(YamlValue, YamlValue)>) -> Option<CommandParameterType> {
    match spec_string_field(p, "type"@) {
        Some(s) => spec_parse_parameter_type(s),
        None => None,
    }
}

/// The types a parameter declares: before format 3 its legacy `type`, then the known
/// entries of `types`, without repeats.
pub open spec fn parameter_types_of(version: Option<StoryVersion>, p: Seq<(YamlValue, YamlValue)>) -> Seq<CommandParameterType> {
    let legacy = if !spec_is_format_3_from(version, 0) && legacy_type(p) is Some { seq![legacy_type(p)->0] } else { Seq::empty() };
    match map_get(p, "types"@) {
        Some(v) => match spec_as_sequence(v) {
            Some(values) => legacy + unique_types(values),
            None => legacy,
        },
        None => legacy,
    }
}

/// The findings of entry `k` of a `types` list.
pub open spec fn type_entry_findings(values: Seq<YamlValue>, k: int, p: Seq<char>) -> Seq<Finding> {
    let at = p + seq!['/'] + decimal(k as nat);
    match type_at(values, k) {
        None => seq![error_at("command.parameter_kind"@, at)],
        Some(t) => finding_if(unique_types(values.take(k)).contains(t), error_at("command.parameter_kind_duplicate"@, at)),
    }
}

/// The findings of a parameter before its `types` list: name, description, fields,
/// removed `accepts` and `type`, and `type` beside `types`.
pub open spec fn parameter_head_findings(version: Option<StoryVersion>, p: Seq<(YamlValue, YamlValue)>, ptr: Seq<char>,
    earlier: Seq<YamlValue>) -> Seq<Finding> {
    (match mapping_name(p) {
        Some(n) => finding_if(name_taken(earlier, n), error_at("command.parameter_name_duplicate"@, ptr + "/name"@)),
        None => seq![error_at("command.parameter_name"@, ptr + "/name"@)],
    })
    + finding_if(map_get(p, "description"@) matches Some(d) && spec_as_str(d) is None,
        error_at("command.parameter_description_type"@, ptr + "/description"@))
    + (if spec_is_format_3_from(version, 1) {
        findings_over(p, |e: (YamlValue, YamlValue)| field_findings(e, seq!["name", "description", "types", "min", "max", "candidates"],
            "command.parameter"@, ptr))
    } else {
        Seq::empty()
    })
    + finding_if(map_get(p, "accepts"@) is Some, error_at("command.parameter_accepts_removed"@, ptr + "/accepts"@))
    + finding_if(spec_is_format_3_from(version, 0) && map_get(p, "type"@) is Some, error_at("command.parameter_type_removed"@, ptr + "/type"@))
    + finding_if(legacy_type(p) is Some && map_get(p, "types"@) is Some, error_at("command.parameter_kind"@, ptr + "/types"@))
}

/// The findings of a `types` list that is a sequence.
pub open spec fn types_findings(values: Seq<YamlValue>, ptr: Seq<char>) -> Seq<Finding> {
    let at = ptr + "/types"@;
    findings_indexed(values, |k: int, v: YamlValue| type_entry_findings(values, k, at))
    + finding_if(values.len() == 0, error_at("command.parameter_types_empty"@, at))
}

/// The `min` a parameter yields (before format 3, `required: true` means 1).
pub open spec fn parameter_min(version: Option<StoryVersion>, p: Seq<(YamlValue, YamlValue)>) -> int {
    let required: int = if !spec_is_format_3_from(version, 0) && spec_bool_field(p, "required"@) == Some(true) { 1 } else { 0 };
    bound_or(spec_integer_field(p, "min"@), required)
}

/// The `max` a parameter yields.
pub open spec fn parameter_max(p: Seq<(YamlValue, YamlValue)>) -> int {
    bound_or(spec_integer_field(p, "max"@), 1)
}

/// The findings of a parameter after its `types` list: a type at all, `required`,
/// cardinality, and candidates.
pub open spec fn parameter_tail_findings(version: Option<StoryVersion>, p: Seq<(YamlValue, YamlValue)>, ptr: Seq<char>) -> Seq<Finding> {
    let types = parameter_types_of(version, p);
    let min = parameter_min(version, p);
    let max = parameter_max(p);
    let has_required = map_get(p, "required"@) is Some;
    finding_if(types.len() == 0, error_at("command.parameter_kind"@, ptr + "/types"@))
    + (if spec_is_format_3_from(version, 0) && has_required {
        seq![error_at("command.parameter_required_removed"@, ptr + "/required"@)]
    } else {
        finding_if(spec_present_not_bool(p, "required"@), error_at("command.parameter_required_type"@, ptr + "/required"@))
    })
    + finding_if(map_get(p, "min"@) matches Some(v) && spec_as_i64(v) is None, error_at("command.parameter_cardinality_type"@, ptr + "/min"@))
    + finding_if(map_get(p, "max"@) matches Some(v) && spec_as_i64(v) is None, error_at("command.parameter_cardinality_type"@, ptr + "/max"@))
    + finding_if(max == 0 || min > max, error_at("command.parameter_cardinality"@, ptr + "/max"@))
    + finding_if(has_required && (map_get(p, "min"@) is Some || map_get(p, "max"@) is Some),
        error_at("command.parameter_cardinality_legacy"@, ptr + "/required"@))
    + candidates_findings(version, p, ptr, types)
}

/// Whether a parameter's `types` is present and not a sequence (which ends its checks).
pub open spec fn types_not_sequence(p: Seq<(YamlValue, YamlValue)>) -> bool {
    map_get(p, "types"@) matches Some(v) && spec_as_sequence(v) is None
}

/// The findings of one parameter mapping, after the parameters `earlier`.
pub open spec fn parameter_mapping_findings(version: Option<StoryVersion>, p: Seq<(YamlValue, YamlValue)>, ptr: Seq<char>,
    earlier: Seq<YamlValue>) -> Seq<Finding> {
    parameter_head_findings(version, p, ptr, earlier)
    + match map_get(p, "types"@) {
        Some(v) => match spec_as_sequence(v) {
            None => seq![error_at("command.parameter_types_type"@, ptr + "/types"@)],
            Some(values) => types_findings(values, ptr) + parameter_tail_findings(version, p, ptr),
        },
        None => parameter_tail_findings(version, p, ptr),
    }
}

/// The shape a validated parameter mapping yields.
pub open spec fn validated_shape(version: Option<StoryVersion>, p: Seq<(YamlValue, YamlValue)>) -> Option<(Seq<CommandParameterType>, int, int)> {
    if types_not_sequence(p) || parameter_types_of(version, p).len() == 0 {
        None
    } else {
        Some((parameter_types_of(version, p), parameter_min(version, p), parameter_max(p)))
    }
}

/// The findings of parameter `i` of a command's `parameters`.
pub open spec fn parameter_findings(version: Option<StoryVersion>, params: Seq<YamlValue>, i: int, base: Seq<char>) -> Seq<Finding> {
    let ptr = base + seq!['/'] + decimal(i as nat);
    match spec_as_mapping(params[i]) {
        None => seq![error_at("command.parameter_type"@, ptr)],
        Some(p) => parameter_mapping_findings(version, p, ptr, params.take(i)),
    }
}

/// The findings of a command's `parameters`.
pub open spec fn parameters_findings(version: Option<StoryVersion>, command: Item) -> Seq<Finding> {
    let base = command.pointer@ + "/parameters"@;
    match map_get(command.mapping@, "parameters"@) {
        None => Seq::empty(),
        Some(v) => match spec_as_sequence(v) {
            None => seq![error_at("command.parameters_type"@, base)],
            Some(params) => findings_indexed(params, |i: int, v: YamlValue| parameter_findings(version, params, i, base)),
        },
    }
}

/// The shape a parameter node yields once validated.
pub open spec fn validated_parameter_shape(version: Option<StoryVersion>, v: YamlValue) -> Option<(Seq<CommandParameterType>, int, int)> {
    match spec_as_mapping(v) {
        None => None,
        Some(p) => validated_shape(version, p),
    }
}

/// Whether `names` holds `n`.
pub open spec fn names_hold(names: Seq<String>, n: Seq<char>) -> bool {
    exists|i: int| 0 <= i < names.len() && (#[trigger] names[i])@ == n
}

/// Every parameter's name, description, fields, types,
/// cardinality and candidates; returns the shape of each parameter (`None` when it
/// declares no usable type).
pub fn validate_command_parameters(cx: &Context, out: &mut Vec<Diagnostic>, command: &Item) -> (r: Vec<Option<ParameterShape>>)
    ensures
        appended(old(out)@, final(out)@),
        added_findings(old(out)@, final(out)@) == parameters_findings(cx.format_version, *command),
        r@.len() == parameter_nodes(*command).len(),
        forall|i: int| 0 <= i < r@.len()
            ==> #[trigger] shape_view(r@[i]) == validated_parameter_shape(cx.format_version, parameter_nodes(*command)[i]),
{
    let mut shapes: Vec<Option<ParameterShape>> = Vec::new();
    let path = command.path.as_str();
    proof { lemma_added_findings_none(out@); }
    let parameters = match get(&command.mapping, "parameters") { Some(p) => p, None => { return shapes; } };
    let base = cat(command.pointer.as_str(), "/parameters");
    proof { reveal_strlit("/parameters"); }
    let parameters = match parameters.as_sequence() {
        Some(p) => p,
        None => {
            error_if(out, true, "command.parameters_type", owned("`parameters` must be a sequence"), path,
                base, None, Some(command.id.clone()));
            return shapes;
        },
    };
    let ghost params = parameters@;
    let ghost version = cx.format_version;
    let ghost f = |i: int, v: YamlValue| parameter_findings(version, params, i, base@);
    let mut names: Vec<String> = Vec::new();
    let mut index: usize = 0;
    while index < parameters.len()
        invariant
            0 <= index <= parameters@.len(),
            params == parameters@,
            params == parameter_nodes(*command),
            version == cx.format_version,
            f == (|i: int, v: YamlValue| parameter_findings(version, params, i, base@)),
            appended(old(out)@, out@),
            added_findings(old(out)@, out@) == findings_indexed(params.take(index as int), f),
            forall|n: Seq<char>| names_hold(names@, n) <==> name_taken(params.take(index as int), n),
            shapes@.len() == index,
            forall|k: int| 0 <= k < index ==> #[trigger] shape_view(shapes@[k]) == validated_parameter_shape(version, params[k]),
        decreases parameters@.len() - index,
    {
        let pointer = child_index(base.as_str(), index);
        let ghost s0 = out@;
        let ghost old_names = names@;
        let shape = match parameters[index].as_mapping() {
            None => {
                error_if(out, true, "command.parameter_type", owned("command parameters must be mappings"), path, pointer, None,
                    Some(command.id.clone()));
                None
            },
            Some(parameter) => {
                proof {
                    assert forall|n: Seq<char>| names_hold(names@, n) <==> name_taken(params.take(index as int), n) by {}
                }
                validate_command_parameter(cx, out, command, parameter, pointer.as_str(), &mut names, Ghost(params.take(index as int)))
            },
        };
        shapes.push(shape);
        proof {
            assert forall|n: Seq<char>| names_hold(names@, n) <==> name_taken(params.take(index + 1), n) by {
                let earlier = params.take(index as int);
                let now = params.take(index + 1);
                if name_taken(now, n) {
                    let j = choose|j: int| 0 <= j < now.len() && #[trigger] parameter_name(now[j]) == Some(n);
                    if j < index {
                        assert(earlier[j] == now[j]);
                        assert(name_taken(earlier, n));
                    }
                }
                if name_taken(earlier, n) {
                    let j = choose|j: int| 0 <= j < earlier.len() && #[trigger] parameter_name(earlier[j]) == Some(n);
                    assert(now[j] == earlier[j]);
                }
                if parameter_name(params[index as int]) == Some(n) {
                    assert(now[index as int] == params[index as int]);
                }
            }
            lemma_added_findings_trans(old(out)@, s0, out@);
            lemma_findings_indexed_step(params, f, index as int);
        }
        index += 1;
    }
    proof { lemma_take_all(params); }
    shapes
}

/// The name, description, field, and legacy checks of one parameter; registers its name.
fn validate_parameter_head(
    cx: &Context,
    out: &mut Vec<Diagnostic>,
    command: &Item,
    parameter: &Vec<(YamlValue, YamlValue)>,
    pointer: &str,
    names: &mut Vec<String>,
    Ghost(earlier): Ghost<Seq<YamlValue>>,
)
    requires
        forall|n: Seq<char>| names_hold(old(names)@, n) <==> name_taken(earlier, n),
    ensures
        appended(old(out)@, final(out)@),
        added_findings(old(out)@, final(out)@) == parameter_head_findings(cx.format_version, parameter@, pointer@, earlier),
        forall|n: Seq<char>| names_hold(final(names)@, n) <==> (names_hold(old(names)@, n) || mapping_name(parameter@) == Some(n)),
{
    let path = command.path.as_str();
    let subject = command.id.as_str();
    let format_3 = cx.is_format_3();
    let ghost s0 = out@;
    let name_pointer = cat(pointer, "/name");
    proof { reveal_strlit("/name"); }
    let name_opt = match string_field(parameter, "name") { Some(n) => if nonblank(n) { Some(n) } else { None }, None => None };
    match name_opt {
        Some(name) => {
            let taken = contains_string(names, name);
            proof {
                assert(taken == names_hold(names@, name@));
                assert(mapping_name(parameter@) == Some(name@));
            }
            error_if(out, taken, "command.parameter_name_duplicate", owned("command parameter names must be unique"), path,
                name_pointer, None, Some(owned(subject)));
            if !taken {
                let ghost before = names@;
                names.push(owned(name));
                proof {
                    assert forall|n: Seq<char>| names_hold(names@, n) <==> (names_hold(before, n) || name@ == n) by {
                        if names_hold(names@, n) {
                            let i = choose|i: int| 0 <= i < names@.len() && (#[trigger] names@[i])@ == n;
                            if i < before.len() { assert(before[i] == names@[i]); }
                        }
                        if names_hold(before, n) {
                            let i = choose|i: int| 0 <= i < before.len() && (#[trigger] before[i])@ == n;
                            assert(names@[i] == before[i]);
                        }
                        if name@ == n { assert(names@[before.len() as int]@ == n); }
                    }
                }
            }
        },
        None => {
            proof { assert(mapping_name(parameter@) is None); }
            error_if(out, true, "command.parameter_name", owned("command parameter `name` must be a non-empty string"), path,
                name_pointer, None, Some(owned(subject)));
        },
    }
    proof {
        assert forall|n: Seq<char>| names_hold(names@, n) <==> (names_hold(old(names)@, n) || mapping_name(parameter@) == Some(n)) by {}
    }
    let ghost s1 = out@;
    let bad_description = match get(parameter, "description") { Some(d) => d.as_str().is_none(), None => false };
    proof { reveal_strlit("/description"); }
    error_if(out, bad_description, "command.parameter_description_type", owned("command parameter `description` must be a string"), path,
        cat(pointer, "/description"), None, Some(owned(subject)));
    let ghost s2 = out@;
    if cx.is_format_3_from(1) {
        let allowed: &[&str] = &["name", "description", "types", "min", "max", "candidates"];
        proof { assert(allowed@ == seq!["name", "description", "types", "min", "max", "candidates"]); }
        validate_mapping_fields(out, parameter, allowed, "command.parameter", path, command.source.as_str(), pointer, Some(subject));
    } else {
        proof { lemma_added_findings_none(s2); }
    }
    let ghost s3 = out@;
    proof { reveal_strlit("/accepts"); }
    error_if(out, contains_key(parameter, "accepts"), "command.parameter_accepts_removed",
        owned("command parameter `accepts` has been replaced by singular `type`"),
        path, cat(pointer, "/accepts"), None, Some(owned(subject)));
    let ghost s4 = out@;
    proof { reveal_strlit("/type"); }
    error_if(out, format_3 && contains_key(parameter, "type"), "command.parameter_type_removed",
        owned("format 3 command parameters use ordered `types`; legacy singular `type` was removed"), path,
        cat(pointer, "/type"), None, Some(owned(subject)));
    let ghost s5 = out@;
    let legacy = match string_field(parameter, "type") { Some(s) => CommandParameterType::parse(s), None => None };
    proof { reveal_strlit("/types"); }
    error_if(out, legacy.is_some() && contains_key(parameter, "types"), "command.parameter_kind",
        owned("command parameter must use either legacy `type` or canonical `types`, not both"), path,
        cat(pointer, "/types"), None, Some(owned(subject)));
    proof {
        lemma_added_findings_trans(s0, s1, s2);
        lemma_added_findings_trans(s0, s2, s3);
        lemma_added_findings_trans(s0, s3, s4);
        lemma_added_findings_trans(s0, s4, s5);
        lemma_added_findings_trans(s0, s5, out@);
        assert forall|n: Seq<char>| names_hold(names@, n) <==> (names_hold(old(names)@, n) || mapping_name(parameter@) == Some(n)) by {}
    }
}

/// The checks of one `types` sequence; returns its known types without repeats.
fn validate_parameter_types(out: &mut Vec<Diagnostic>, command: &Item, values: &Vec<YamlValue>, pointer: &str)
    -> (r: Vec<CommandParameterType>)
    ensures
        appended(old(out)@, final(out)@),
        added_findings(old(out)@, final(out)@) == types_findings(values@, pointer@),
        r@ == unique_types(values@),
{
    let path = command.path.as_str();
    let subject = command.id.as_str();
    let types_pointer = cat(pointer, "/types");
    proof { reveal_strlit("/types"); }
    let ghost all = values@;
    let ghost f = |k: int, v: YamlValue| type_entry_findings(all, k, types_pointer@);
    let mut seen: Vec<CommandParameterType> = Vec::new();
    let mut k: usize = 0;
    proof { lemma_added_findings_none(out@); }
    while k < values.len()
        invariant
            0 <= k <= values@.len(),
            all == values@,
            f == (|k: int, v: YamlValue| type_entry_findings(all, k, types_pointer@)),
            seen@ == unique_types(all.take(k as int)),
            appended(old(out)@, out@),
            added_findings(old(out)@, out@) == findings_indexed(all.take(k as int), f),
        decreases values@.len() - k,
    {
        let ghost b = out@;
        proof {
            assert(all.take(k + 1).drop_last() =~= all.take(k as int));
            assert(type_at(all.take(k + 1), k as int) == type_at(all, k as int));
        }
        let parsed = match values[k].as_str() { Some(s) => CommandParameterType::parse(s), None => None };
        match parsed {
            None => {
                error_if(out, true, "command.parameter_kind",
                    owned("command parameter kinds must be `character`, `entity`, `setting`, `deduction`, or `event`"), path,
                    child_index(types_pointer.as_str(), k), None, Some(owned(subject)));
            },
            Some(t) => {
                let duplicate = types_contain(&seen, t);
                error_if(out, duplicate, "command.parameter_kind_duplicate",
                    owned("command parameter `types` must not contain duplicate kinds"), path,
                    child_index(types_pointer.as_str(), k), None, Some(owned(subject)));
                if !duplicate {
                    seen.push(t);
                }
            },
        }
        proof {
            lemma_added_findings_trans(old(out)@, b, out@);
            lemma_findings_indexed_step(all, f, k as int);
        }
        k += 1;
    }
    proof { lemma_take_all(all); }
    let ghost b = out@;
    error_if(out, values.len() == 0, "command.parameter_types_empty", owned("command parameter `types` must contain at least one kind"),
        path, types_pointer, None, Some(owned(subject)));
    proof { lemma_added_findings_trans(old(out)@, b, out@); }
    seen
}

/// Whether `key` holds something other than an integer.
fn present_not_integer(parameter: &Vec<(YamlValue, YamlValue)>, key: &str) -> (r: bool)
    ensures
        r == (map_get(parameter@, key@) matches Some(v) && spec_as_i64(v) is None),
{
    match get(parameter, key) { Some(v) => v.as_i64().is_none(), None => false }
}

/// The checks after a parameter's `types`: a type at all, `required`, cardinality, and
/// candidates; returns `min` and `max`.
fn validate_parameter_tail(
    cx: &Context,
    out: &mut Vec<Diagnostic>,
    command: &Item,
    parameter: &Vec<(YamlValue, YamlValue)>,
    pointer: &str,
    types: &Vec<CommandParameterType>,
) -> (r: (usize, usize))
    requires
        types@ == parameter_types_of(cx.format_version, parameter@),
    ensures
        appended(old(out)@, final(out)@),
        added_findings(old(out)@, final(out)@) == parameter_tail_findings(cx.format_version, parameter@, pointer@),
        r.0 == parameter_min(cx.format_version, parameter@),
        r.1 == parameter_max(parameter@),
{
    let path = command.path.as_str();
    let subject = command.id.as_str();
    let format_3 = cx.is_format_3();
    let ghost s7 = out@;
    proof { reveal_strlit("/types"); reveal_strlit("/required"); reveal_strlit("/min"); reveal_strlit("/max"); }
    error_if(out, types.len() == 0, "command.parameter_kind", owned("command parameter must declare `types`"), path,
        cat(pointer, "/types"), None, Some(owned(subject)));
    let ghost s8 = out@;
    if format_3 && contains_key(parameter, "required") {
        error_if(out, true, "command.parameter_required_removed",
            owned("format 3 command parameters use `min` and `max`; legacy `required` was removed"), path,
            cat(pointer, "/required"), None, Some(owned(subject)));
    } else {
        error_if(out, present_not_bool(parameter, "required"), "command.parameter_required_type",
            owned("command parameter `required` must be a boolean"), path,
            cat(pointer, "/required"), None, Some(owned(subject)));
    }
    let ghost s9 = out@;
    let required: usize = if !format_3 && bool_field(parameter, "required") == Some(true) { 1 } else { 0 };
    let min = match integer_field(parameter, "min") {
        Some(v) => match to_usize(v) { Some(u) => u, None => required },
        None => required,
    };
    let max = match integer_field(parameter, "max") {
        Some(v) => match to_usize(v) { Some(u) => u, None => 1 },
        None => 1,
    };
    error_if(out, present_not_integer(parameter, "min"), "command.parameter_cardinality_type",
        owned("command parameter `min` must be a non-negative integer"), path, cat(pointer, "/min"), None, Some(owned(subject)));
    let ghost s10 = out@;
    error_if(out, present_not_integer(parameter, "max"), "command.parameter_cardinality_type",
        owned("command parameter `max` must be a non-negative integer"), path, cat(pointer, "/max"), None, Some(owned(subject)));
    let ghost s11 = out@;
    error_if(out, max == 0 || min > max, "command.parameter_cardinality",
        owned("command parameter cardinality must satisfy 0 <= min <= max and max >= 1"), path,
        cat(pointer, "/max"), None, Some(owned(subject)));
    let ghost s12 = out@;
    error_if(out, contains_key(parameter, "required") && (contains_key(parameter, "min") || contains_key(parameter, "max")),
        "command.parameter_cardinality_legacy", owned("legacy `required` cannot be combined with canonical `min` or `max`"), path,
        cat(pointer, "/required"), None, Some(owned(subject)));
    let ghost s13 = out@;
    validate_command_parameter_candidates(cx, out, command, parameter, pointer, types);
    proof {
        lemma_added_findings_trans(s7, s8, s9);
        lemma_added_findings_trans(s7, s9, s10);
        lemma_added_findings_trans(s7, s10, s11);
        lemma_added_findings_trans(s7, s11, s12);
        lemma_added_findings_trans(s7, s12, s13);
        lemma_added_findings_trans(s7, s13, out@);
    }
    (min, max)
}

/// The checks of `validate_command_parameters` for one parameter mapping.
fn validate_command_parameter(
    cx: &Context,
    out: &mut Vec<Diagnostic>,
    command: &Item,
    parameter: &Vec<(YamlValue, YamlValue)>,
    pointer: &str,
    names: &mut Vec<String>,
    Ghost(earlier): Ghost<Seq<YamlValue>>,
) -> (r: Option<ParameterShape>)
    requires
        forall|n: Seq<char>| names_hold(old(names)@, n) <==> name_taken(earlier, n),
    ensures
        appended(old(out)@, final(out)@),
        added_findings(old(out)@, final(out)@) == parameter_mapping_findings(cx.format_version, parameter@, pointer@, earlier),
        forall|n: Seq<char>| names_hold(final(names)@, n) <==> (names_hold(old(names)@, n) || mapping_name(parameter@) == Some(n)),
        shape_view(r) == validated_shape(cx.format_version, parameter@),
{
    let path = command.path.as_str();
    let subject = command.id.as_str();
    let format_3 = cx.is_format_3();
    let ghost s0 = out@;
    validate_parameter_head(cx, out, command, parameter, pointer, names, Ghost(earlier));
    let ghost s6 = out@;
    let legacy = match string_field(parameter, "type") { Some(s) => CommandParameterType::parse(s), None => None };
    let mut types: Vec<CommandParameterType> = Vec::new();
    if !format_3 {
        if let Some(t) = legacy {
            types.push(t);
        }
    }
    proof {
        assert(types@ == (if !spec_is_format_3_from(cx.format_version, 0) && legacy_type(parameter@) is Some {
            seq![legacy_type(parameter@)->0] } else { Seq::<CommandParameterType>::empty() }));
    }
    match get(parameter, "types") {
        Some(types_value) => {
            let values = match types_value.as_sequence() {
                Some(v) => v,
                None => {
                    proof { reveal_strlit("/types"); }
                    error_if(out, true, "command.parameter_types_type", owned("command parameter `types` must be a non-empty sequence"),
                        path, cat(pointer, "/types"), None, Some(owned(subject)));
                    proof { lemma_added_findings_trans(s0, s6, out@); }
                    return None;
                },
            };
            let mut listed = validate_parameter_types(out, command, values, pointer);
            types.append(&mut listed);
        },
        None => {},
    }
    let ghost s7 = out@;
    let (min, max) = validate_parameter_tail(cx, out, command, parameter, pointer, &types);
    proof {
        lemma_added_findings_trans(s0, s6, s7);
        lemma_added_findings_trans(s0, s7, out@);
    }
    if types.len() == 0 { None } else { Some(ParameterShape { types, min, max }) }
}

/// The known source that entry `i` of a `from` list names.
pub open spec fn source_at(sources: Seq<YamlValue>, i: int) -> Option<CandidateSource> {
    match spec_as_str(sources[i]) {
        Some(s) => spec_parse_source(s),
        None => None,
    }
}

/// Whether an entry before `i` already named `c`.
pub open spec fn source_seen_before(sources: Seq<YamlValue>, i: int, c: CandidateSource) -> bool {
    exists|j: int| 0 <= j < i && #[trigger] source_at(sources, j) == Some(c)
}

/// Whether `c` can produce one of `types`.
pub open spec fn produces_any(c: CandidateSource, types: Seq<CommandParameterType>) -> bool {
    exists|k: int| 0 <= k < spec_produced_types(c).len() && types.contains(#[trigger] spec_produced_types(c)[k])
}

/// The findings of entry `i` of `candidates.from`.
pub open spec fn source_entry_findings(sources: Seq<YamlValue>, types: Seq<CommandParameterType>, i: int, p: Seq<char>) -> Seq<Finding> {
    let at = p + seq!['/'] + decimal(i as nat);
    match source_at(sources, i) {
        None => seq![error_at("command.candidates_source_unknown"@, at)],
        Some(c) => if source_seen_before(sources, i, c) {
            seq![error_at("command.candidates_source_duplicate"@, at)]
        } else {
            finding_if(types.len() > 0 && !produces_any(c, types), error_at("command.candidates_source_incompatible"@, at))
        },
    }
}

/// The findings of `candidates.from`.
pub open spec fn from_findings(candidates: Seq<(YamlValue, YamlValue)>, types: Seq<CommandParameterType>, p: Seq<char>) -> Seq<Finding> {
    let at = p + "/from"@;
    match map_get(candidates, "from"@) {
        Some(YamlValue::Sequence(sources)) => if sources@.len() > 0 {
            findings_indexed(sources@, |i: int, v: YamlValue| source_entry_findings(sources@, types, i, at))
        } else {
            seq![error_at("command.candidates_from_empty"@, at)]
        },
        None => seq![error_at("command.candidates_from_empty"@, at)],
        Some(_) => seq![error_at("command.candidates_from_type"@, at)],
    }
}

/// The entries of `candidates.from` when it is a sequence.
pub open spec fn listed_sources(candidates: Seq<(YamlValue, YamlValue)>) -> Seq<YamlValue> {
    match map_get(candidates, "from"@) {
        Some(YamlValue::Sequence(sources)) => sources@,
        _ => Seq::empty(),
    }
}

/// No listed entry names a known source, or one that does can produce entities.
pub open spec fn entity_source_ok(candidates: Seq<(YamlValue, YamlValue)>) -> bool {
    let sources = listed_sources(candidates);
    (forall|j: int| 0 <= j < sources.len() ==> #[trigger] source_at(sources, j) is None)
    || exists|j: int| 0 <= j < sources.len() && (#[trigger] source_at(sources, j) matches Some(c)
        && spec_produced_types(c).contains(CommandParameterType::Entity))
}

/// The findings of entry `i` of `candidates.capabilities`.
pub open spec fn capability_entry_findings(
    capabilities: Seq<YamlValue>,
    types: Seq<CommandParameterType>,
    candidates: Seq<(YamlValue, YamlValue)>,
    i: int,
    p: Seq<char>,
) -> Seq<Finding> {
    let at = p + seq!['/'] + decimal(i as nat);
    match spec_as_str(capabilities[i]) {
        None => seq![error_at("command.candidates_capability_unknown"@, at)],
        Some(x) => if x != "portable"@ {
            seq![error_at("command.candidates_capability_unknown"@, at)]
        } else if exists|j: int| 0 <= j < i && #[trigger] spec_as_str(capabilities[j]) == Some("portable"@) {
            seq![error_at("command.candidates_capability_duplicate"@, at)]
        } else {
            finding_if(!types.contains(CommandParameterType::Entity) || !entity_source_ok(candidates),
                error_at("command.candidates_capability_incompatible"@, at))
        },
    }
}

/// The findings of `candidates.capabilities`.
pub open spec fn capabilities_findings(candidates: Seq<(YamlValue, YamlValue)>, types: Seq<CommandParameterType>, p: Seq<char>) -> Seq<Finding> {
    let at = p + "/capabilities"@;
    match map_get(candidates, "capabilities"@) {
        None => Seq::empty(),
        Some(YamlValue::Sequence(c)) => if c@.len() == 0 {
            seq![error_at("command.candidates_capabilities_empty"@, at)]
        } else {
            findings_indexed(c@, |i: int, v: YamlValue| capability_entry_findings(c@, types, candidates, i, at))
        },
        Some(_) => seq![error_at("command.candidates_capabilities_type"@, at)],
    }
}

/// The findings of a parameter's `candidates` (format 3.1 on).
pub open spec fn candidates_findings(version: Option<StoryVersion>, parameter: Seq<(YamlValue, YamlValue)>, p: Seq<char>,
    types: Seq<CommandParameterType>) -> Seq<Finding> {
    let at = p + "/candidates"@;
    match map_get(parameter, "candidates"@) {
        None => Seq::empty(),
        Some(c) => if !spec_is_format_3_from(version, 1) {
            seq![error_at("command.parameter_candidates_version"@, at)]
        } else {
            match spec_as_mapping(c) {
                None => seq![error_at("command.candidates_type"@, at)],
                Some(m) => findings_over(m, |e: (YamlValue, YamlValue)| field_findings(e, seq!["from", "capabilities"], "command.candidates"@, at))
                    + from_findings(m, types, at) + capabilities_findings(m, types, at),
            }
        },
    }
}

/// Whether one of `sources` can produce `t`.
fn sources_produce(sources: &Vec<CandidateSource>, t: CommandParameterType) -> (r: bool)
    ensures
        r == exists|i: int| 0 <= i < sources@.len() && spec_produced_types(#[trigger] sources@[i]).contains(t),
{
    let mut i: usize = 0;
    while i < sources.len()
        invariant
            0 <= i <= sources@.len(),
            forall|j: int| 0 <= j < i ==> !spec_produced_types(#[trigger] sources@[j]).contains(t),
        decreases sources@.len() - i,
    {
        let produced = sources[i].produced_types();
        if types_contain(&produced, t) {
            return true;
        }
        i += 1;
    }
    false
}

/// Whether `source` can produce one of `types`.
fn source_compatible(source: CandidateSource, types: &Vec<CommandParameterType>) -> (r: bool)
    ensures
        r == produces_any(source, types@),
{
    let produced = source.produced_types();
    let mut compatible = false;
    let mut t: usize = 0;
    while t < produced.len()
        invariant
            0 <= t <= produced@.len(),
            produced@ == spec_produced_types(source),
            compatible == exists|k: int| 0 <= k < t && types@.contains(#[trigger] spec_produced_types(source)[k]),
        decreases produced@.len() - t,
    {
        if types_contain(types, produced[t]) {
            compatible = true;
        }
        t += 1;
    }
    compatible
}

/// The checks of `candidates.from`; returns the known sources it names, first
/// occurrences in order.
fn validate_candidate_sources(
    out: &mut Vec<Diagnostic>,
    command: &Item,
    candidates: &Vec<(YamlValue, YamlValue)>,
    pointer: &str,
    parameter_types: &Vec<CommandParameterType>,
) -> (r: Vec<CandidateSource>)
    ensures
        appended(old(out)@, final(out)@),
        added_findings(old(out)@, final(out)@) == from_findings(candidates@, parameter_types@, pointer@),
        forall|c: CandidateSource| r@.contains(c) <==> exists|j: int| 0 <= j < listed_sources(candidates@).len()
            && #[trigger] source_at(listed_sources(candidates@), j) == Some(c),
{
    let path = command.path.as_str();
    let subject = command.id.as_str();
    let from_pointer = cat(pointer, "/from");
    proof { reveal_strlit("/from"); }
    let mut parsed_sources: Vec<CandidateSource> = Vec::new();
    match get(candidates, "from") {
        Some(YamlValue::Sequence(sources)) if sources.len() > 0 => {
            let ghost all = sources@;
            let ghost f = |i: int, v: YamlValue| source_entry_findings(all, parameter_types@, i, from_pointer@);
            let mut index: usize = 0;
            proof { lemma_added_findings_none(out@); }
            while index < sources.len()
                invariant
                    0 <= index <= sources@.len(),
                    all == sources@,
                    f == (|i: int, v: YamlValue| source_entry_findings(all, parameter_types@, i, from_pointer@)),
                    appended(old(out)@, out@),
                    added_findings(old(out)@, out@) == findings_indexed(sources@.take(index as int), f),
                    forall|c: CandidateSource| parsed_sources@.contains(c) <==> source_seen_before(all, index as int, c),
                decreases sources@.len() - index,
            {
                let item_pointer = child_index(from_pointer.as_str(), index);
                let ghost b = out@;
                let ghost before = parsed_sources@;
                let ghost mut grew = false;
                match sources[index].as_str() {
                    None => {
                        error_if(out, true, "command.candidates_source_unknown",
                            owned("candidate sources must be `all`, `current_location`, `inventory`, `reachable`, `known`, or `established`"),
                            path, item_pointer, None, Some(owned(subject)));
                    },
                    Some(source_name) => {
                        match CandidateSource::parse(source_name) {
                            None => {
                                error_if(out, true, "command.candidates_source_unknown",
                                    cat3("unknown candidate source `", source_name,
                                        "`; use `all`, `current_location`, `inventory`, `reachable`, `known`, or `established`"),
                                    path, item_pointer, None, Some(owned(subject)));
                            },
                            Some(source) => {
                                let mut duplicate = false;
                                let mut k: usize = 0;
                                while k < parsed_sources.len()
                                    invariant
                                        0 <= k <= parsed_sources@.len(),
                                        duplicate == exists|j: int| 0 <= j < k && parsed_sources@[j] == source,
                                    decreases parsed_sources@.len() - k,
                                {
                                    if parsed_sources[k] == source {
                                        duplicate = true;
                                    }
                                    k += 1;
                                }
                                if duplicate {
                                    proof {
                                        let j = choose|j: int| 0 <= j < parsed_sources@.len() && parsed_sources@[j] == source;
                                        assert(before.contains(source));
                                    }
                                    error_if(out, true, "command.candidates_source_duplicate",
                                        cat3("candidate source `", source_name, "` occurs more than once"), path,
                                        item_pointer, None, Some(owned(subject)));
                                } else {
                                    let compatible = source_compatible(source, parameter_types);
                                    error_if(out, parameter_types.len() > 0 && !compatible, "command.candidates_source_incompatible",
                                        cat3("candidate source `", source_name,
                                            "` cannot produce any of this parameter's allowed types"), path,
                                        item_pointer, None, Some(owned(subject)));
                                    parsed_sources.push(source);
                                    proof { grew = true; }
                                }
                            },
                        }
                    },
                }
                proof {
                    let at = source_at(all, index as int);
                    assert(grew ==> at is Some && parsed_sources@ == before.push(at->0));
                    assert(!grew ==> parsed_sources@ == before && (at matches Some(c) ==> before.contains(c)));
                    assert forall|c: CandidateSource| parsed_sources@.contains(c) <==> source_seen_before(all, index + 1, c) by {
                        if source_seen_before(all, index + 1, c) {
                            let j = choose|j: int| 0 <= j < index + 1 && #[trigger] source_at(all, j) == Some(c);
                            if j < index {
                                assert(source_seen_before(all, index as int, c));
                            } else {
                                assert(at == Some(c));
                            }
                        }
                        if at == Some(c) {
                            assert(source_at(all, index as int) == Some(c));
                            assert(source_seen_before(all, index + 1, c));
                        }
                        if source_seen_before(all, index as int, c) {
                            let j = choose|j: int| 0 <= j < index && #[trigger] source_at(all, j) == Some(c);
                            assert(source_at(all, j) == Some(c));
                            assert(source_seen_before(all, index + 1, c));
                        }
                        if grew {
                            if parsed_sources@.contains(c) {
                                let m = choose|m: int| 0 <= m < parsed_sources@.len() && parsed_sources@[m] == c;
                                if m < before.len() {
                                    assert(before[m] == c);
                                    assert(before.contains(c));
                                } else {
                                    assert(at == Some(c));
                                }
                            }
                            if before.contains(c) {
                                let m = choose|m: int| 0 <= m < before.len() && before[m] == c;
                                assert(parsed_sources@[m] == c);
                            }
                            if at == Some(c) {
                                assert(parsed_sources@[before.len() as int] == c);
                            }
                        }
                    }
                    lemma_added_findings_trans(old(out)@, b, out@);
                    lemma_findings_indexed_step(sources@, f, index as int);
                }
                index += 1;
            }
            proof {
                lemma_take_all(sources@);
                assert(from_findings(candidates@, parameter_types@, pointer@) == findings_indexed(sources@, f));
            }
        },
        Some(YamlValue::Sequence(_)) | None => {
            error_if(out, true, "command.candidates_from_empty",
                owned("command parameter `candidates.from` must be a non-empty ordered set"), path, from_pointer, None,
                Some(owned(subject)));
        },
        Some(_) => {
            error_if(out, true, "command.candidates_from_type", owned("command parameter `candidates.from` must be a non-empty sequence"),
                path, from_pointer, None, Some(owned(subject)));
        },
    }
    parsed_sources
}

/// The checks of `candidates.capabilities`, given the known sources of `candidates.from`.
#[verifier::rlimit(40)]
fn validate_candidate_capabilities(
    out: &mut Vec<Diagnostic>,
    command: &Item,
    candidates: &Vec<(YamlValue, YamlValue)>,
    pointer: &str,
    parameter_types: &Vec<CommandParameterType>,
    parsed_sources: &Vec<CandidateSource>,
)
    requires
        forall|c: CandidateSource| parsed_sources@.contains(c) <==> exists|j: int| 0 <= j < listed_sources(candidates@).len()
            && #[trigger] source_at(listed_sources(candidates@), j) == Some(c),
    ensures
        appended(old(out)@, final(out)@),
        added_findings(old(out)@, final(out)@) == capabilities_findings(candidates@, parameter_types@, pointer@),
{
    let path = command.path.as_str();
    let subject = command.id.as_str();
    proof { lemma_added_findings_none(out@); }
    let capabilities = match get(candidates, "capabilities") { Some(c) => c, None => { return; } };
    let capabilities_pointer = cat(pointer, "/capabilities");
    proof { reveal_strlit("/capabilities"); }
    let capabilities = match capabilities {
        YamlValue::Sequence(c) => c,
        _ => {
            error_if(out, true, "command.candidates_capabilities_type", owned("command parameter candidate `capabilities` must be a sequence"),
                path, capabilities_pointer, None, Some(owned(subject)));
            return;
        },
    };
    if capabilities.len() == 0 {
        error_if(out, true, "command.candidates_capabilities_empty",
            owned("command parameter candidate `capabilities` must be omitted or non-empty"), path, capabilities_pointer,
            None, Some(owned(subject)));
        return;
    }
    let type_compatible = types_contain(parameter_types, CommandParameterType::Entity);
    let source_compatible = parsed_sources.len() == 0 || sources_produce(parsed_sources, CommandParameterType::Entity);
    proof {
        let sources = listed_sources(candidates@);
        if parsed_sources@.len() == 0 {
            assert forall|j: int| 0 <= j < sources.len() implies #[trigger] source_at(sources, j) is None by {
                if let Some(c) = source_at(sources, j) {
                    assert(parsed_sources@.contains(c));
                }
            }
        } else {
            assert(parsed_sources@.contains(parsed_sources@[0]));
        }
        if entity_source_ok(candidates@) && parsed_sources@.len() > 0 {
            if forall|j: int| 0 <= j < sources.len() ==> #[trigger] source_at(sources, j) is None {
                assert(parsed_sources@.contains(parsed_sources@[0]));
                let j = choose|j: int| 0 <= j < sources.len() && #[trigger] source_at(sources, j) == Some(parsed_sources@[0]);
                assert(source_at(sources, j) is None);
            } else {
                let j = choose|j: int| 0 <= j < sources.len() && (#[trigger] source_at(sources, j) matches Some(c)
                    && spec_produced_types(c).contains(CommandParameterType::Entity));
                let c = source_at(sources, j)->0;
                assert(parsed_sources@.contains(c));
                let m = choose|m: int| 0 <= m < parsed_sources@.len() && parsed_sources@[m] == c;
                assert(spec_produced_types(parsed_sources@[m]).contains(CommandParameterType::Entity));
            }
        }
        if source_compatible && parsed_sources@.len() > 0 {
            let m = choose|m: int| 0 <= m < parsed_sources@.len()
                && spec_produced_types(#[trigger] parsed_sources@[m]).contains(CommandParameterType::Entity);
            assert(parsed_sources@.contains(parsed_sources@[m]));
            let j = choose|j: int| 0 <= j < sources.len() && #[trigger] source_at(sources, j) == Some(parsed_sources@[m]);
            assert(source_at(sources, j) matches Some(c) && spec_produced_types(c).contains(CommandParameterType::Entity));
        }
        assert(source_compatible == entity_source_ok(candidates@));
    }
    let ghost all = capabilities@;
    let ghost f = |i: int, v: YamlValue| capability_entry_findings(all, parameter_types@, candidates@, i, capabilities_pointer@);
    let mut seen_portable = false;
    let mut index: usize = 0;
    while index < capabilities.len()
        invariant
            0 <= index <= capabilities@.len(),
            all == capabilities@,
            f == (|i: int, v: YamlValue| capability_entry_findings(all, parameter_types@, candidates@, i, capabilities_pointer@)),
            type_compatible == parameter_types@.contains(CommandParameterType::Entity),
            source_compatible == entity_source_ok(candidates@),
            seen_portable == exists|j: int| 0 <= j < index && #[trigger] spec_as_str(all[j]) == Some("portable"@),
            appended(old(out)@, out@),
            added_findings(old(out)@, out@) == findings_indexed(capabilities@.take(index as int), f),
        decreases capabilities@.len() - index,
    {
        let item_pointer = child_index(capabilities_pointer.as_str(), index);
        let ghost b = out@;
        match capabilities[index].as_str() {
            None => {
                error_if(out, true, "command.candidates_capability_unknown", owned("candidate capabilities must be `portable`"), path,
                    item_pointer, None, Some(owned(subject)));
            },
            Some(capability) => {
                if !str_eq(capability, "portable") {
                    error_if(out, true, "command.candidates_capability_unknown",
                        cat3("unknown candidate capability `", capability, "`; format 3.1 supports only `portable`"), path,
                        item_pointer, None, Some(owned(subject)));
                } else if seen_portable {
                    error_if(out, true, "command.candidates_capability_duplicate",
                        owned("candidate capability `portable` occurs more than once"), path, item_pointer, None,
                        Some(owned(subject)));
                } else {
                    seen_portable = true;
                    error_if(out, !type_compatible || !source_compatible, "command.candidates_capability_incompatible",
                        owned("candidate capability `portable` requires an entity parameter and a source that can produce entities"),
                        path, item_pointer, None, Some(owned(subject)));
                }
            },
        }
        proof {
            lemma_added_findings_trans(old(out)@, b, out@);
            lemma_findings_indexed_step(capabilities@, f, index as int);
        }
        index += 1;
    }
    proof { lemma_take_all(capabilities@); }
}

/// `validate_command_parameter_candidates` (format 3.1): `candidates.from` is a non-empty
/// list of unique known sources compatible with the parameter's types; optional
/// `capabilities` holds `portable` at most once, for entity parameters.
fn validate_command_parameter_candidates(
    cx: &Context,
    out: &mut Vec<Diagnostic>,
    command: &Item,
    parameter: &Vec<(YamlValue, YamlValue)>,
    parameter_pointer: &str,
    parameter_types: &Vec<CommandParameterType>,
)
    ensures
        appended(old(out)@, final(out)@),
        added_findings(old(out)@, final(out)@) == candidates_findings(cx.format_version, parameter@, parameter_pointer@, parameter_types@),
{
    proof { lemma_added_findings_none(out@); }
    let candidates = match get(parameter, "candidates") { Some(c) => c, None => { return; } };
    let path = command.path.as_str();
    let subject = command.id.as_str();
    let pointer = cat(parameter_pointer, "/candidates");
    proof { reveal_strlit("/candidates"); }
    if !cx.is_format_3_from(1) {
        error_if(out, true, "command.parameter_candidates_version",
            owned("declarative command candidates require story format 3.1.0 or later"), path, pointer, None,
            Some(owned(subject)));
        return;
    }
    let candidates = match candidates.as_mapping() {
        Some(c) => c,
        None => {
            error_if(out, true, "command.candidates_type", owned("command parameter `candidates` must be a mapping"), path,
                pointer, None, Some(owned(subject)));
            return;
        },
    };
    let ghost s0 = out@;
    let allowed: &[&str] = &["from", "capabilities"];
    proof { assert(allowed@ == seq!["from", "capabilities"]); }
    validate_mapping_fields(out, candidates, allowed, "command.candidates", path, command.source.as_str(),
        pointer.as_str(), Some(subject));
    let ghost s1 = out@;
    let parsed_sources = validate_candidate_sources(out, command, candidates, pointer.as_str(), parameter_types);
    let ghost s2 = out@;
    validate_candidate_capabilities(out, command, candidates, pointer.as_str(), parameter_types, &parsed_sources);
    proof {
        lemma_added_findings_trans(s0, s1, s2);
        lemma_added_findings_trans(s0, s2, out@);
    }
}

/// Whether the case selects the ruleset whose `command.solve` takes its answers from
/// `solution.questions`.
pub open spec fn question_solution_ruleset(ruleset: Option<RulesetReference>) -> bool {
    ruleset matches Some(r) && r.id@ == STANDARD_MYSTERY_RULESET_ID@ && r.version@ == "3.0.0"@
}

/// Whether the selected ruleset's `command.solve` takes its answers from
/// `solution.questions`.
pub fn uses_question_solution_ruleset(cx: &Context) -> (r: bool)
    ensures
        r == question_solution_ruleset(cx.ruleset),
{
    match &cx.ruleset {
        Some(ruleset) => str_eq(ruleset.id.as_str(), STANDARD_MYSTERY_RULESET_ID) && str_eq(ruleset.version.as_str(), "3.0.0"),
        None => false,
    }
}

/// The shapes that are known, in order.
pub open spec fn known_shapes(shapes: Seq<ShapeView>) -> Seq<(Seq<CommandParameterType>, int, int)>
    decreases shapes.len(),
{
    if shapes.len() == 0 {
        Seq::empty()
    } else {
        let rest = known_shapes(shapes.drop_last());
        match shapes.last() {
            Some(x) => rest.push(x),
            None => rest,
        }
    }
}

/// A shape that accepts exactly one required `t`.
pub open spec fn single_required(shape: (Seq<CommandParameterType>, int, int), t: CommandParameterType) -> bool {
    shape.0 == seq![t] && shape.1 == 1 && shape.2 == 1
}

/// Whether a reserved command's known parameter shapes fit its fixed signature.
pub open spec fn runtime_signature_ok(ruleset: Option<RulesetReference>, id: Seq<char>, shapes: Seq<ShapeView>) -> bool {
    let known = known_shapes(shapes);
    if id == "command.claim"@ || id == "command.deduce"@ {
        known.len() == 0
    } else if id == "command.move"@ {
        known.len() == 1 && single_required(known[0], CommandParameterType::Setting)
    } else if id == "command.solve"@ {
        if question_solution_ruleset(ruleset) {
            known.len() == 0
        } else {
            known.len() == 2 && single_required(known[0], CommandParameterType::Character)
                && single_required(known[1], CommandParameterType::Deduction)
        }
    } else {
        true
    }
}

/// The field an inventory command's lone parameter is reported at.
pub open spec fn inventory_field(parameter: YamlValue) -> Seq<char> {
    match spec_as_mapping(parameter) {
        Some(m) => if map_get(m, "types"@) is Some {
            if map_get(m, "types"@) matches Some(t) && spec_as_sequence(t) matches Some(types) && types.len() == 1
                && spec_as_str(types[0]) == Some("entity"@) {
                "min"@
            } else {
                "types"@
            }
        } else if spec_string_field(m, "type"@) == Some("entity"@) {
            "required"@
        } else {
            "type"@
        },
        None => "types"@,
    }
}

/// The findings of `command.take` or `command.drop`.
pub open spec fn inventory_signature_findings(command: Item, shapes: Seq<ShapeView>) -> Seq<Finding> {
    let pp = command.pointer@ + "/parameters"@;
    match map_get(command.mapping@, "parameters"@) {
        Some(v) => match spec_as_sequence(v) {
            Some(list) => if list.len() == 1 {
                finding_if(!(shapes.len() == 1 && (shapes[0] matches Some(s) && single_required(s, CommandParameterType::Entity))),
                    error_at("command.runtime_signature"@, pp + "/0/"@ + inventory_field(list[0])))
            } else if list.len() > 1 {
                seq![error_at("command.runtime_signature"@, pp + seq!['/'] + decimal((list.len() - 1) as nat))]
            } else {
                seq![error_at("command.runtime_signature"@, pp)]
            },
            None => seq![error_at("command.runtime_signature"@, pp)],
        },
        None => seq![error_at("command.runtime_signature"@, pp)],
    }
}

/// The findings of the reserved runtime commands' signatures.
pub open spec fn runtime_signature_findings(ruleset: Option<RulesetReference>, command: Item, shapes: Seq<ShapeView>) -> Seq<Finding> {
    let id = command.id@;
    if id == "command.take"@ || id == "command.drop"@ {
        inventory_signature_findings(command, shapes)
    } else {
        finding_if(!runtime_signature_ok(ruleset, id, shapes), error_at("command.runtime_signature"@, command.pointer@ + "/parameters"@))
    }
}

/// Whether a shape accepts exactly one required `t`.
fn shape_single_required(shape: &Option<ParameterShape>, t: CommandParameterType) -> (r: bool)
    ensures
        r == (shape_view(*shape) matches Some(s) && single_required(s, t)),
{
    match shape {
        Some(s) => s.is_single_required(t),
        None => false,
    }
}

/// The reserved commands the runtime drives have
/// fixed parameter signatures.
fn validate_runtime_command_signature(cx: &Context, out: &mut Vec<Diagnostic>, command: &Item, shapes: &Vec<Option<ParameterShape>>)
    ensures
        appended(old(out)@, final(out)@),
        added_findings(old(out)@, final(out)@) == runtime_signature_findings(cx.ruleset, *command, shape_views(shapes@)),
{
    let id = command.id.as_str();
    if str_eq(id, "command.take") || str_eq(id, "command.drop") {
        validate_inventory_command_signature(out, command, shapes);
        return;
    }
    let ghost views = shape_views(shapes@);
    let mut known: Vec<&ParameterShape> = Vec::new();
    let mut i: usize = 0;
    while i < shapes.len()
        invariant
            0 <= i <= shapes@.len(),
            views == shape_views(shapes@),
            known@.len() == known_shapes(views.take(i as int)).len(),
            forall|k: int| 0 <= k < known@.len() ==> #[trigger] known_shapes(views.take(i as int))[k]
                == (known@[k].types@, known@[k].min as int, known@[k].max as int),
        decreases shapes@.len() - i,
    {
        proof { assert(views.take(i + 1).drop_last() =~= views.take(i as int)); }
        if let Some(shape) = &shapes[i] {
            known.push(shape);
        }
        i += 1;
    }
    proof { lemma_take_all(views); }
    let question_solve = uses_question_solution_ruleset(cx);
    let valid = if str_eq(id, "command.claim") || str_eq(id, "command.deduce") {
        known.len() == 0
    } else if str_eq(id, "command.move") {
        known.len() == 1 && known[0].is_single_required(CommandParameterType::Setting)
    } else if str_eq(id, "command.solve") {
        if question_solve {
            known.len() == 0
        } else {
            known.len() == 2 && known[0].is_single_required(CommandParameterType::Character)
                && known[1].is_single_required(CommandParameterType::Deduction)
        }
    } else {
        true
    };
    let message = if str_eq(id, "command.claim") || str_eq(id, "command.deduce") {
        cat3("reserved `", id, "` must not declare parameters")
    } else if str_eq(id, "command.move") {
        owned("`command.move` must declare exactly one setting parameter")
    } else if question_solve {
        owned("ruleset.standard_mystery@3.0.0 `command.solve` must not declare parameters; answers come from `solution.questions`")
    } else {
        owned("`command.solve` must declare character then deduction parameters")
    };
    proof { reveal_strlit("/parameters"); }
    error_if(out, !valid, "command.runtime_signature", message, command.path.as_str(),
        cat(command.pointer.as_str(), "/parameters"), None, Some(command.id.clone()));
}

/// `command.take` and `command.drop` declare
/// exactly one required entity parameter; the pointer names the first offending field.
fn validate_inventory_command_signature(out: &mut Vec<Diagnostic>, command: &Item, shapes: &Vec<Option<ParameterShape>>)
    ensures
        appended(old(out)@, final(out)@),
        added_findings(old(out)@, final(out)@) == inventory_signature_findings(*command, shape_views(shapes@)),
{
    let parameters_pointer = cat(command.pointer.as_str(), "/parameters");
    proof { reveal_strlit("/parameters"); reveal_strlit("/0/"); }
    let message = cat3("`", command.id.as_str(), "` must declare exactly one required entity parameter");
    let parameters = match get(&command.mapping, "parameters") { Some(v) => v.as_sequence(), None => None };
    let parameter = match parameters {
        Some(list) => {
            if list.len() == 1 {
                &list[0]
            } else {
                let pointer = if list.len() > 1 { child_index(parameters_pointer.as_str(), list.len() - 1) } else { parameters_pointer };
                error_if(out, true, "command.runtime_signature", message, command.path.as_str(), pointer, None,
                    Some(command.id.clone()));
                return;
            }
        },
        None => {
            error_if(out, true, "command.runtime_signature", message, command.path.as_str(), parameters_pointer, None,
                Some(command.id.clone()));
            return;
        },
    };
    let ok = shapes.len() == 1 && shape_single_required(&shapes[0], CommandParameterType::Entity);
    let field = match parameter.as_mapping() {
        Some(mapping) => {
            if contains_key(mapping, "types") {
                let single_entity = match get(mapping, "types") {
                    Some(t) => match t.as_sequence() {
                        Some(types) => types.len() == 1 && match types[0].as_str() {
                            Some(s) => str_eq(s, "entity"),
                            None => false,
                        },
                        None => false,
                    },
                    None => false,
                };
                if single_entity { "min" } else { "types" }
            } else if match string_field(mapping, "type") { Some(t) => str_eq(t, "entity"), None => false } {
                "required"
            } else {
                "type"
            }
        },
        None => "types",
    };
    error_if(out, !ok, "command.runtime_signature", message, command.path.as_str(),
        cat3(parameters_pointer.as_str(), "/0/", field), None, Some(command.id.clone()));
}

/// The names of parameter types.
pub open spec fn type_name_list(types: Seq<CommandParameterType>) -> Seq<Seq<char>> {
    types.map_values(|t: CommandParameterType| kind_prefix(parameter_type_kind(t)))
}

/// The names that an effect operand may take: `player` when allowed, then the kinds.
pub open spec fn operand_names(expected: Seq<Kind>, allow_player: bool) -> Seq<Seq<char>> {
    (if allow_player { seq!["player"@] } else { Seq::empty() }) + expected.map_values(|k: Kind| kind_prefix(k))
}

/// The text naming what an effect operand may name.
pub open spec fn expected_names_text(expected: Seq<Kind>, allow_player: bool) -> Seq<char> {
    let names = operand_names(expected, allow_player);
    if names.len() == 0 {
        "a compatible authored ID"@
    } else if names.len() == 1 {
        "a "@ + names[0] + " ID or compatible `paramN` reference"@
    } else if names.len() == 2 {
        "a "@ + names[0] + " or "@ + names[1] + " ID, or compatible `paramN` reference"@
    } else {
        "a "@ + joined(names, ", "@) + " ID, or compatible `paramN` reference"@
    }
}

/// What an effect operand may name.
pub fn command_effect_expected_names(expected: &[Kind], allow_player: bool) -> (r: String)
    ensures
        r@ == expected_names_text(expected@, allow_player),
{
    let ghost all = operand_names(expected@, allow_player);
    let ghost first: Seq<Seq<char>> = if allow_player { seq!["player"@] } else { Seq::empty() };
    let mut names: Vec<String> = Vec::new();
    if allow_player {
        names.push(owned("player"));
    }
    proof { assert(names@.map_values(|s: String| s@) =~= first); }
    let mut i: usize = 0;
    while i < expected.len()
        invariant
            0 <= i <= expected@.len(),
            all == operand_names(expected@, allow_player),
            first == (if allow_player { seq!["player"@] } else { Seq::<Seq<char>>::empty() }),
            names@.map_values(|s: String| s@) == first + expected@.subrange(0, i as int).map_values(|k: Kind| kind_prefix(k)),
        decreases expected@.len() - i,
    {
        let name = expected[i].name();
        let ghost before = names@;
        names.push(name);
        proof {
            assert(names@.map_values(|s: String| s@) =~= before.map_values(|s: String| s@).push(name@));
            assert(expected@.subrange(0, i + 1).map_values(|k: Kind| kind_prefix(k))
                =~= expected@.subrange(0, i as int).map_values(|k: Kind| kind_prefix(k)).push(kind_prefix(expected@[i as int])));
            assert(names@.map_values(|s: String| s@) =~= first + expected@.subrange(0, i + 1).map_values(|k: Kind| kind_prefix(k)));
        }
        i += 1;
    }
    proof {
        assert(expected@.subrange(0, expected@.len() as int) =~= expected@);
        assert(names@.map_values(|s: String| s@) =~= all);
    }
    if names.len() == 0 {
        owned("a compatible authored ID")
    } else if names.len() == 1 {
        cat3("a ", names[0].as_str(), " ID or compatible `paramN` reference")
    } else if names.len() == 2 {
        cat5("a ", names[0].as_str(), " or ", names[1].as_str(), " ID, or compatible `paramN` reference")
    } else {
        let mut text = String::new();
        let mut k: usize = 0;
        proof { assert(text@ =~= joined(all.subrange(0, 0), ", "@)); }
        while k < names.len()
            invariant
                0 <= k <= names@.len(),
                names@.map_values(|s: String| s@) == all,
                text@ == joined(all.subrange(0, k as int), ", "@),
            decreases names@.len() - k,
        {
            proof { lemma_joined_step(all, ", "@, k as int, text@); }
            if k > 0 {
                text.append(", ");
            }
            text.append(names[k].as_str());
            k += 1;
        }
        proof { assert(all.subrange(0, names@.len() as int) =~= all); }
        cat3("a ", text.as_str(), " ID, or compatible `paramN` reference")
    }
}

/// The view of a parameter shape: types, `min` and `max`.
pub type ShapeView = Option<(Seq<CommandParameterType>, int, int)>;

/// The views of a list of shapes.
pub open spec fn shape_views(shapes: Seq<Option<ParameterShape>>) -> Seq<ShapeView> {
    shapes.map_values(|s: Option<ParameterShape>| shape_view(s))
}

/// The non-blank string an effect operand holds.
pub open spec fn operand_text(value: Option<YamlValue>) -> Option<Seq<char>> {
    match value {
        Some(v) => match spec_as_str(v) {
            Some(s) => if has_text(s) { Some(s) } else { None },
            None => None,
        },
        None => None,
    }
}

/// Every type of `shape` is of an expected kind.
pub open spec fn shape_kinds_within(types: Seq<CommandParameterType>, expected: Seq<Kind>) -> bool {
    forall|t: int| 0 <= t < types.len() ==> expected.contains(parameter_type_kind(#[trigger] types[t]))
}

/// The shape of the parameter a `paramN` reference with index `n` names.
pub open spec fn referenced_shape(shapes: Seq<ShapeView>, n: nat) -> ShapeView {
    if n < shapes.len() { shapes[n as int] } else { None }
}

/// The findings of one effect operand.
pub open spec fn effect_reference_findings(
    defs: Seq<(String, Definition)>,
    value: Option<YamlValue>,
    pointer: Seq<char>,
    expected: Seq<Kind>,
    shapes: Seq<ShapeView>,
    allow_player: bool,
) -> Seq<Finding> {
    match operand_text(value) {
        None => seq![error_at("command.effect_reference"@, pointer)],
        Some(r) => if allow_player && r == "player"@ {
            Seq::empty()
        } else if r == "route"@ && expected.contains(Kind::Route) {
            Seq::empty()
        } else {
            match spec_parameter_reference(r) {
                Err(_) => seq![error_at("command.effect_parameter_unknown"@, pointer)],
                Ok(Some(n)) => match referenced_shape(shapes, n) {
                    None => seq![error_at("command.effect_parameter_unknown"@, pointer)],
                    Some(shape) => finding_if(shape.2 != 1 || !shape_kinds_within(shape.0, expected),
                        error_at("command.effect_parameter_type"@, pointer)),
                },
                Ok(None) => if !spec_looks_like_id(r) {
                    seq![error_at("command.effect_reference"@, pointer)]
                } else {
                    match kind_in(defs, r) {
                        Some(k) => finding_if(!expected.contains(k), error_at("reference.wrong_type"@, pointer)),
                        None => Seq::empty(),
                    }
                },
            }
        },
    }
}

/// An operand is `player` (where allowed), `route`
/// (for route operands), a compatible `paramN`, or an authored ID of an expected kind.
pub fn validate_command_effect_reference(
    cx: &Context,
    out: &mut Vec<Diagnostic>,
    command: &Item,
    value: Option<&YamlValue>,
    pointer: &str,
    expected: &[Kind],
    shapes: &Vec<Option<ParameterShape>>,
    allow_player: bool,
)
    ensures
        appended(old(out)@, final(out)@),
        added_findings(old(out)@, final(out)@) == effect_reference_findings(cx.definitions@,
            match value { Some(v) => Some(*v), None => None }, pointer@, expected@, shape_views(shapes@), allow_player),
{
    let path = command.path.as_str();
    proof { lemma_added_findings_none(out@); }
    let reference = match value {
        Some(v) => match v.as_str() { Some(s) => if nonblank(s) { Some(s) } else { None }, None => None },
        None => None,
    };
    let reference = match reference {
        Some(r) => r,
        None => {
            let names = command_effect_expected_names(expected, allow_player);
            error_if(out, true, "command.effect_reference", cat("command effect operand must be ", names.as_str()), path,
                owned(pointer), None, Some(command.id.clone()));
            return;
        },
    };
    if allow_player && str_eq(reference, "player") {
        return;
    }
    if str_eq(reference, "route") && kinds_contain(expected, Kind::Route) {
        return;
    }
    match command_parameter_reference(reference) {
        Ok(Some(index)) => {
            let shape = if index < shapes.len() { match &shapes[index] { Some(s) => Some(s), None => None } } else { None };
            match shape {
                None => {
                    error_if(out, true, "command.effect_parameter_unknown",
                        cat3("`", reference, "` does not refer to a declared action parameter"), path, owned(pointer),
                        None, Some(command.id.clone()));
                },
                Some(shape) => {
                    let mut all_expected = true;
                    let mut t: usize = 0;
                    while t < shape.types.len()
                        invariant
                            0 <= t <= shape.types@.len(),
                            all_expected == forall|j: int| 0 <= j < t
                                ==> expected@.contains(parameter_type_kind(#[trigger] shape.types@[j])),
                        decreases shape.types@.len() - t,
                    {
                        if !kinds_contain(expected, shape.types[t].kind()) {
                            all_expected = false;
                        }
                        t += 1;
                    }
                    let bad = shape.max != 1 || !all_expected;
                    let message = if bad {
                        let names = command_effect_expected_names(expected, allow_player);
                        let head = cat4("`", reference, "` accepts ", shape.type_names().as_str());
                        let cardinality = cat3(usize_to_decimal(shape.min).as_str(), "..", usize_to_decimal(shape.max).as_str());
                        cat4(head.as_str(), " with cardinality ", cardinality.as_str(), cat("; expected one ", names.as_str()).as_str())
                    } else {
                        String::new()
                    };
                    error_if(out, bad, "command.effect_parameter_type", message, path, owned(pointer), None, Some(command.id.clone()));
                },
            }
            return;
        },
        Err(()) => {
            error_if(out, true, "command.effect_parameter_unknown", cat3("`", reference, "` is not a valid 1-based `paramN` reference"),
                path, owned(pointer), None, Some(command.id.clone()));
            return;
        },
        Ok(None) => {},
    }
    if !looks_like_id(reference) {
        let names = command_effect_expected_names(expected, allow_player);
        error_if(out, true, "command.effect_reference", cat4("`", reference, "` must be ", names.as_str()), path, owned(pointer),
            locate_scalar(command.source.as_str(), reference), Some(owned(reference)));
        return;
    }
    if let Some(kind) = cx.kind_of(reference) {
        let wrong = !kinds_contain(expected, kind);
        let message = if wrong {
            let names = command_effect_expected_names(expected, allow_player);
            let kind_name = kind.name();
            cat5("`", reference, "` refers to a ", kind_name.as_str(), cat("; expected ", names.as_str()).as_str())
        } else {
            String::new()
        };
        error_if(out, wrong, "reference.wrong_type", message, path, owned(pointer), locate_scalar(command.source.as_str(), reference),
            Some(owned(reference)));
    }
}

/// The findings of the operand under `field` of an effect.
pub open spec fn effect_field_findings(defs: Seq<(String, Definition)>, effect: Seq<(YamlValue, YamlValue)>, p: Seq<char>,
    field: Seq<char>, expected: Seq<Kind>, shapes: Seq<ShapeView>) -> Seq<Finding> {
    effect_reference_findings(defs, map_get(effect, field), p + seq!['/'] + spec_escape_pointer(field), expected, shapes, false)
}

/// The operand under `field` (missing counts as
/// null).
fn validate_effect_field(
    cx: &Context,
    out: &mut Vec<Diagnostic>,
    command: &Item,
    effect: &Vec<(YamlValue, YamlValue)>,
    pointer: &str,
    field: &str,
    expected: &[Kind],
    shapes: &Vec<Option<ParameterShape>>,
)
    ensures
        appended(old(out)@, final(out)@),
        added_findings(old(out)@, final(out)@) == effect_field_findings(cx.definitions@, effect@, pointer@, field@, expected@, shape_views(shapes@)),
{
    let field_pointer = child(pointer, field);
    let value = get(effect, field);
    validate_command_effect_reference(cx, out, command, value, field_pointer.as_str(), expected, shapes, false);
}

/// The finding of one key of an effect mapping.
pub open spec fn effect_key_findings(entry: (YamlValue, YamlValue), allowed: Seq<&str>, p: Seq<char>) -> Seq<Finding> {
    match spec_as_str(entry.0) {
        None => seq![error_at("command.effect_field"@, p)],
        Some(key) => finding_if(!(exists|i: int| 0 <= i < allowed.len() && (#[trigger] allowed[i])@ == key),
            error_at("command.effect_unknown_field"@, p + seq!['/'] + spec_escape_pointer(key))),
    }
}

/// The findings of the keys of an effect mapping.
pub open spec fn effect_keys_findings(effect: Seq<(YamlValue, YamlValue)>, allowed: Seq<&str>, p: Seq<char>) -> Seq<Finding> {
    findings_over(effect, |e: (YamlValue, YamlValue)| effect_key_findings(e, allowed, p))
}

/// Effect keys are strings from `allowed`.
fn validate_command_effect_fields(out: &mut Vec<Diagnostic>, command: &Item, effect: &Vec<(YamlValue, YamlValue)>, pointer: &str, allowed: &[&str])
    ensures
        appended(old(out)@, final(out)@),
        added_findings(old(out)@, final(out)@) == effect_keys_findings(effect@, allowed@, pointer@),
{
    let ghost f = |e: (YamlValue, YamlValue)| effect_key_findings(e, allowed@, pointer@);
    let mut i: usize = 0;
    proof { lemma_added_findings_none(out@); }
    while i < effect.len()
        invariant
            0 <= i <= effect@.len(),
            f == (|e: (YamlValue, YamlValue)| effect_key_findings(e, allowed@, pointer@)),
            appended(old(out)@, out@),
            added_findings(old(out)@, out@) == findings_over(effect@.take(i as int), f),
        decreases effect@.len() - i,
    {
        let ghost b = out@;
        match effect[i].0.as_str() {
            None => {
                error_if(out, true, "command.effect_field", owned("command effect field names must be strings"), command.path.as_str(),
                    owned(pointer), None, Some(command.id.clone()));
            },
            Some(key) => {
                let known = one_of(key, allowed);
                let message = if known { String::new() } else { cat3("`", key, "` is not valid for this command effect") };
                error_if(out, !known, "command.effect_unknown_field", message, command.path.as_str(), child(pointer, key), None,
                    Some(command.id.clone()));
            },
        }
        proof {
            lemma_added_findings_trans(old(out)@, b, out@);
            lemma_findings_over_step(effect@, f, i as int);
        }
        i += 1;
    }
    proof { lemma_take_all(effect@); }
}

/// Whether an effect's `after` is allowed: a trigger setting a flag to true after a
/// positive delay.
pub open spec fn delay_ok(command_id: Seq<char>, effect: Seq<(YamlValue, YamlValue)>, after: YamlValue) -> bool {
    &&& "trigger."@.len() <= command_id.len() && command_id.subrange(0, "trigger."@.len() as int) == "trigger."@
    &&& spec_as_str(after) matches Some(a) && spec_valid_delay(a)
    &&& spec_bool_field(effect, "value"@) == Some(true)
}

/// The findings of a `set_flag` effect.
pub open spec fn set_flag_findings(defs: Seq<(String, Definition)>, command_id: Seq<char>, e: Seq<(YamlValue, YamlValue)>,
    p: Seq<char>, shapes: Seq<ShapeView>) -> Seq<Finding> {
    effect_keys_findings(e, seq!["operation", "flag", "value", "after"], p)
    + effect_field_findings(defs, e, p, "flag"@, seq![Kind::Flag], shapes)
    + finding_if(spec_bool_field(e, "value"@) is None, error_at("effect.flag_value"@, p + "/value"@))
    + match map_get(e, "after"@) {
        None => Seq::empty(),
        Some(a) => finding_if(!delay_ok(command_id, e, a), error_at("effect.delay"@, p + "/after"@)),
    }
}

/// A positive whole number of minutes that fits in `u32`.
pub open spec fn valid_minutes(e: Seq<(YamlValue, YamlValue)>) -> bool {
    spec_integer_field(e, "minutes"@) matches Some(m) && 0 < m <= 4294967295
}

/// The findings of an `advance_time` effect.
pub open spec fn advance_time_findings(defs: Seq<(String, Definition)>, e: Seq<(YamlValue, YamlValue)>, p: Seq<char>,
    shapes: Seq<ShapeView>) -> Seq<Finding> {
    let has_route = map_get(e, "route"@) is Some;
    effect_keys_findings(e, seq!["operation", "minutes", "route"], p)
    + finding_if(valid_minutes(e) == has_route, error_at("command.effect_minutes"@, p + "/minutes"@))
    + if has_route { effect_field_findings(defs, e, p, "route"@, seq![Kind::Route], shapes) } else { Seq::empty() }
}

/// The findings of a `move` effect.
pub open spec fn move_findings(defs: Seq<(String, Definition)>, e: Seq<(YamlValue, YamlValue)>, p: Seq<char>,
    shapes: Seq<ShapeView>) -> Seq<Finding> {
    let sp = p + "/subjects"@;
    effect_keys_findings(e, seq!["operation", "subjects", "setting"], p)
    + match map_get(e, "subjects"@) {
        Some(v) => match spec_as_sequence(v) {
            Some(subjects) => if subjects.len() > 0 {
                findings_indexed(subjects, |k: int, s: YamlValue| effect_reference_findings(defs, Some(s),
                    sp + seq!['/'] + decimal(k as nat), seq![Kind::Character, Kind::Entity], shapes, true))
            } else {
                seq![error_at("command.effect_subjects"@, sp)]
            },
            None => seq![error_at("command.effect_subjects"@, sp)],
        },
        None => seq![error_at("command.effect_subjects"@, sp)],
    }
    + effect_field_findings(defs, e, p, "setting"@, seq![Kind::Setting], shapes)
}

/// The findings of an effect mapping whose `operation` is `op`.
pub open spec fn operation_findings(defs: Seq<(String, Definition)>, command_id: Seq<char>, e: Seq<(YamlValue, YamlValue)>,
    p: Seq<char>, op: Seq<char>, shapes: Seq<ShapeView>) -> Seq<Finding> {
    if op == "set_flag"@ {
        set_flag_findings(defs, command_id, e, p, shapes)
    } else if op == "advance_time"@ {
        advance_time_findings(defs, e, p, shapes)
    } else if op == "move"@ {
        move_findings(defs, e, p, shapes)
    } else if op == "transform"@ {
        effect_keys_findings(e, seq!["operation", "entity_from", "entity_to"], p)
        + effect_field_findings(defs, e, p, "entity_from"@, seq![Kind::Entity], shapes)
        + effect_field_findings(defs, e, p, "entity_to"@, seq![Kind::Entity], shapes)
    } else if op == "reveal"@ || op == "conceal"@ {
        effect_keys_findings(e, seq!["operation", "entity"], p)
        + effect_field_findings(defs, e, p, "entity"@, seq![Kind::Entity], shapes)
    } else if op == "learn_fact"@ {
        effect_keys_findings(e, seq!["operation", "fact_id"], p)
        + effect_field_findings(defs, e, p, "fact_id"@, seq![Kind::Fact], shapes)
    } else if op == "establish_deduction"@ {
        effect_keys_findings(e, seq!["operation", "deduction_id"], p)
        + effect_field_findings(defs, e, p, "deduction_id"@, seq![Kind::Deduction], shapes)
    } else if op == "describe"@ || op == "win"@ || op == "lose"@ {
        effect_keys_findings(e, seq!["operation", "text"], p)
        + finding_if(!text_field(e, "text"@), error_at("command.effect_text"@, p + "/text"@))
    } else {
        seq![error_at("command.effect_unknown_operation"@, p + "/operation"@)]
    }
}

/// The findings of entry `i` of `effects`.
pub open spec fn effect_entry_findings(defs: Seq<(String, Definition)>, command_id: Seq<char>, v: YamlValue, p: Seq<char>,
    shapes: Seq<ShapeView>) -> Seq<Finding> {
    match spec_as_mapping(v) {
        None => seq![error_at("command.effect_type"@, p)],
        Some(e) => match spec_string_field(e, "operation"@) {
            Some(op) => if has_text(op) {
                operation_findings(defs, command_id, e, p, op, shapes)
            } else {
                seq![error_at("command.effect_operation"@, p + "/operation"@)]
            },
            None => seq![error_at("command.effect_operation"@, p + "/operation"@)],
        },
    }
}

/// The findings of the `effects` of a command or trigger.
pub open spec fn world_effects_findings(defs: Seq<(String, Definition)>, command: Item, shapes: Seq<ShapeView>) -> Seq<Finding> {
    let base = command.pointer@ + "/effects"@;
    match map_get(command.mapping@, "effects"@) {
        None => Seq::empty(),
        Some(v) => match spec_as_sequence(v) {
            None => seq![error_at("command.effects_type"@, base)],
            Some(effects) => findings_indexed(effects, |i: int, e: YamlValue|
                effect_entry_findings(defs, command.id@, e, base + seq!['/'] + decimal(i as nat), shapes)),
        },
    }
}

/// `effects` is a sequence of operation mappings; each canonical
/// operation has its own fields and typed operands.
pub fn validate_world_effects(cx: &Context, out: &mut Vec<Diagnostic>, command: &Item, shapes: &Vec<Option<ParameterShape>>)
    ensures
        appended(old(out)@, final(out)@),
        added_findings(old(out)@, final(out)@) == world_effects_findings(cx.definitions@, *command, shape_views(shapes@)),
{
    proof { lemma_added_findings_none(out@); }
    let effects = match get(&command.mapping, "effects") { Some(e) => e, None => { return; } };
    let path = command.path.as_str();
    let base = cat(command.pointer.as_str(), "/effects");
    proof { reveal_strlit("/effects"); reveal_strlit("/operation"); }
    let effects = match effects.as_sequence() {
        Some(e) => e,
        None => {
            error_if(out, true, "command.effects_type", owned("command `effects` must be a sequence"), path,
                base, None, Some(command.id.clone()));
            return;
        },
    };
    let ghost defs = cx.definitions@;
    let ghost f = |i: int, e: YamlValue| effect_entry_findings(defs, command.id@, e, base@ + seq!['/'] + decimal(i as nat), shape_views(shapes@));
    let mut index: usize = 0;
    while index < effects.len()
        invariant
            0 <= index <= effects@.len(),
            defs == cx.definitions@,
            f == (|i: int, e: YamlValue| effect_entry_findings(defs, command.id@, e, base@ + seq!['/'] + decimal(i as nat), shape_views(shapes@))),
            appended(old(out)@, out@),
            added_findings(old(out)@, out@) == findings_indexed(effects@.take(index as int), f),
        decreases effects@.len() - index,
    {
        let pointer = child_index(base.as_str(), index);
        let ghost b = out@;
        match effects[index].as_mapping() {
            None => {
                error_if(out, true, "command.effect_type", owned("command effects must be mappings"), path, pointer, None,
                    Some(command.id.clone()));
            },
            Some(effect) => {
                let operation = match string_field(effect, "operation") { Some(o) => if nonblank(o) { Some(o) } else { None }, None => None };
                match operation {
                    None => {
                        error_if(out, true, "command.effect_operation", owned("command effect `operation` must be a non-empty string"), path,
                            cat(pointer.as_str(), "/operation"), None, Some(command.id.clone()));
                    },
                    Some(operation) => validate_effect(cx, out, command, effect, pointer.as_str(), operation, shapes),
                }
            },
        }
        proof {
            lemma_added_findings_trans(old(out)@, b, out@);
            lemma_findings_indexed_step(effects@, f, index as int);
        }
        index += 1;
    }
    proof { lemma_take_all(effects@); }
}

/// The checks of a `set_flag` effect.
fn validate_set_flag(cx: &Context, out: &mut Vec<Diagnostic>, command: &Item, effect: &Vec<(YamlValue, YamlValue)>, pointer: &str,
    shapes: &Vec<Option<ParameterShape>>)
    ensures
        appended(old(out)@, final(out)@),
        added_findings(old(out)@, final(out)@) == set_flag_findings(cx.definitions@, command.id@, effect@, pointer@, shape_views(shapes@)),
{
    let path = command.path.as_str();
    let ghost s0 = out@;
    let allowed: &[&str] = &["operation", "flag", "value", "after"];
    proof { assert(allowed@ == seq!["operation", "flag", "value", "after"]); }
    validate_command_effect_fields(out, command, effect, pointer, allowed);
    let ghost s1 = out@;
    let expected: &[Kind] = &[Kind::Flag];
    proof { assert(expected@ == seq![Kind::Flag]); reveal_strlit("flag"); }
    validate_effect_field(cx, out, command, effect, pointer, "flag", expected, shapes);
    let ghost s2 = out@;
    let value = match get(effect, "value") { Some(v) => v.as_bool(), None => None };
    proof { reveal_strlit("/value"); reveal_strlit("/after"); reveal_strlit("trigger."); }
    error_if(out, value.is_none(), "effect.flag_value", owned("`set_flag.value` must be true or false"), path,
        cat(pointer, "/value"), None, Some(command.id.clone()));
    let ghost s3 = out@;
    if let Some(after) = get(effect, "after") {
        let starts_with_trigger = crate::model::starts_with(command.id.as_str(), "trigger.");
        let delay = match after.as_str() { Some(a) => valid_delay(a), None => false };
        error_if(out, !starts_with_trigger || !delay || value != Some(true), "effect.delay",
            owned("`set_flag.after` is available for trigger assignment to true and must be a positive delay such as `20m`, `1h`, or `2turns`"),
            path, cat(pointer, "/after"), None, Some(command.id.clone()));
    } else {
        proof { lemma_added_findings_none(s3); }
    }
    proof {
        lemma_added_findings_trans(s0, s1, s2);
        lemma_added_findings_trans(s0, s2, s3);
        lemma_added_findings_trans(s0, s3, out@);
    }
}

/// The checks of an `advance_time` effect.
fn validate_advance_time(cx: &Context, out: &mut Vec<Diagnostic>, command: &Item, effect: &Vec<(YamlValue, YamlValue)>, pointer: &str,
    shapes: &Vec<Option<ParameterShape>>)
    ensures
        appended(old(out)@, final(out)@),
        added_findings(old(out)@, final(out)@) == advance_time_findings(cx.definitions@, effect@, pointer@, shape_views(shapes@)),
{
    let path = command.path.as_str();
    let ghost s0 = out@;
    let allowed: &[&str] = &["operation", "minutes", "route"];
    proof { assert(allowed@ == seq!["operation", "minutes", "route"]); reveal_strlit("/minutes"); reveal_strlit("route"); }
    validate_command_effect_fields(out, command, effect, pointer, allowed);
    let ghost s1 = out@;
    let minutes_ok = match integer_field(effect, "minutes") { Some(m) => m > 0 && m <= 4294967295, None => false };
    let has_route = contains_key(effect, "route");
    error_if(out, minutes_ok == has_route, "command.effect_minutes",
        owned("`advance_time` requires exactly one positive whole `minutes` value or route reference"), path,
        cat(pointer, "/minutes"), None, Some(command.id.clone()));
    let ghost s2 = out@;
    if has_route {
        let expected: &[Kind] = &[Kind::Route];
        proof { assert(expected@ == seq![Kind::Route]); }
        validate_effect_field(cx, out, command, effect, pointer, "route", expected, shapes);
    } else {
        proof { lemma_added_findings_none(s2); }
    }
    proof {
        lemma_added_findings_trans(s0, s1, s2);
        lemma_added_findings_trans(s0, s2, out@);
    }
}

/// The checks of a `move` effect.
fn validate_move(cx: &Context, out: &mut Vec<Diagnostic>, command: &Item, effect: &Vec<(YamlValue, YamlValue)>, pointer: &str,
    shapes: &Vec<Option<ParameterShape>>)
    ensures
        appended(old(out)@, final(out)@),
        added_findings(old(out)@, final(out)@) == move_findings(cx.definitions@, effect@, pointer@, shape_views(shapes@)),
{
    let path = command.path.as_str();
    let ghost s0 = out@;
    let allowed: &[&str] = &["operation", "subjects", "setting"];
    proof { assert(allowed@ == seq!["operation", "subjects", "setting"]); reveal_strlit("/subjects"); reveal_strlit("setting"); }
    validate_command_effect_fields(out, command, effect, pointer, allowed);
    let ghost s1 = out@;
    let subjects_pointer = cat(pointer, "/subjects");
    let subjects = match get(effect, "subjects") { Some(s) => s.as_sequence(), None => None };
    let expected: &[Kind] = &[Kind::Character, Kind::Entity];
    proof { assert(expected@ == seq![Kind::Character, Kind::Entity]); }
    match subjects {
        Some(subjects) if subjects.len() > 0 => {
            let ghost defs = cx.definitions@;
            let ghost f = |k: int, s: YamlValue| effect_reference_findings(defs, Some(s),
                subjects_pointer@ + seq!['/'] + decimal(k as nat), seq![Kind::Character, Kind::Entity], shape_views(shapes@), true);
            let mut k: usize = 0;
            proof { lemma_added_findings_none(s1); }
            while k < subjects.len()
                invariant
                    0 <= k <= subjects@.len(),
                    defs == cx.definitions@,
                    expected@ == seq![Kind::Character, Kind::Entity],
                    f == (|k: int, s: YamlValue| effect_reference_findings(defs, Some(s),
                        subjects_pointer@ + seq!['/'] + decimal(k as nat), seq![Kind::Character, Kind::Entity], shape_views(shapes@), true)),
                    appended(s1, out@),
                    added_findings(s1, out@) == findings_indexed(subjects@.take(k as int), f),
                decreases subjects@.len() - k,
            {
                let ghost b = out@;
                let subject_pointer = child_index(subjects_pointer.as_str(), k);
                validate_command_effect_reference(cx, out, command, Some(&subjects[k]), subject_pointer.as_str(),
                    expected, shapes, true);
                proof {
                    lemma_added_findings_trans(s1, b, out@);
                    lemma_findings_indexed_step(subjects@, f, k as int);
                }
                k += 1;
            }
            proof { lemma_take_all(subjects@); }
        },
        _ => {
            error_if(out, true, "command.effect_subjects",
                owned("`move.subjects` must be a non-empty sequence of players, characters, or entities"), path,
                subjects_pointer, None, Some(command.id.clone()));
        },
    }
    let ghost s2 = out@;
    let setting: &[Kind] = &[Kind::Setting];
    proof { assert(setting@ == seq![Kind::Setting]); }
    validate_effect_field(cx, out, command, effect, pointer, "setting", setting, shapes);
    proof {
        lemma_added_findings_trans(s0, s1, s2);
        lemma_added_findings_trans(s0, s2, out@);
    }
}

/// The checks of an effect whose fields are `operation` and one operand `field` of kind
/// `kind`.
fn validate_single_operand(cx: &Context, out: &mut Vec<Diagnostic>, command: &Item, effect: &Vec<(YamlValue, YamlValue)>, pointer: &str,
    field: &str, kind: Kind, shapes: &Vec<Option<ParameterShape>>)
    ensures
        appended(old(out)@, final(out)@),
        added_findings(old(out)@, final(out)@) == effect_keys_findings(effect@, seq!["operation", field], pointer@)
            + effect_field_findings(cx.definitions@, effect@, pointer@, field@, seq![kind], shape_views(shapes@)),
{
    let ghost s0 = out@;
    let allowed: [&str; 2] = ["operation", field];
    proof { assert(allowed@ == seq!["operation", field]); }
    validate_command_effect_fields(out, command, effect, pointer, &allowed);
    let ghost s1 = out@;
    let expected: [Kind; 1] = [kind];
    proof { assert(expected@ == seq![kind]); }
    validate_effect_field(cx, out, command, effect, pointer, field, &expected, shapes);
    proof { lemma_added_findings_trans(s0, s1, out@); }
}

/// The checks of one effect mapping with operation `operation`.
#[verifier::rlimit(40)]
fn validate_effect(
    cx: &Context,
    out: &mut Vec<Diagnostic>,
    command: &Item,
    effect: &Vec<(YamlValue, YamlValue)>,
    pointer: &str,
    operation: &str,
    shapes: &Vec<Option<ParameterShape>>,
)
    ensures
        appended(old(out)@, final(out)@),
        added_findings(old(out)@, final(out)@)
            == operation_findings(cx.definitions@, command.id@, effect@, pointer@, operation@, shape_views(shapes@)),
{
    let path = command.path.as_str();
    let ghost s0 = out@;
    if str_eq(operation, "set_flag") {
        validate_set_flag(cx, out, command, effect, pointer, shapes);
    } else if str_eq(operation, "advance_time") {
        validate_advance_time(cx, out, command, effect, pointer, shapes);
    } else if str_eq(operation, "move") {
        validate_move(cx, out, command, effect, pointer, shapes);
    } else if str_eq(operation, "transform") {
        let allowed: &[&str] = &["operation", "entity_from", "entity_to"];
        proof { assert(allowed@ == seq!["operation", "entity_from", "entity_to"]); }
        validate_command_effect_fields(out, command, effect, pointer, allowed);
        let ghost s1 = out@;
        let expected: &[Kind] = &[Kind::Entity];
        proof { assert(expected@ == seq![Kind::Entity]); }
        validate_effect_field(cx, out, command, effect, pointer, "entity_from", expected, shapes);
        let ghost s2 = out@;
        validate_effect_field(cx, out, command, effect, pointer, "entity_to", expected, shapes);
        proof {
            lemma_added_findings_trans(s0, s1, s2);
            lemma_added_findings_trans(s0, s2, out@);
        }
    } else if str_eq(operation, "reveal") || str_eq(operation, "conceal") {
        validate_single_operand(cx, out, command, effect, pointer, "entity", Kind::Entity, shapes);
    } else if str_eq(operation, "learn_fact") {
        validate_single_operand(cx, out, command, effect, pointer, "fact_id", Kind::Fact, shapes);
    } else if str_eq(operation, "establish_deduction") {
        validate_single_operand(cx, out, command, effect, pointer, "deduction_id", Kind::Deduction, shapes);
    } else if str_eq(operation, "describe") || str_eq(operation, "win") || str_eq(operation, "lose") {
        let allowed: &[&str] = &["operation", "text"];
        proof { assert(allowed@ == seq!["operation", "text"]); reveal_strlit("/text"); }
        validate_command_effect_fields(out, command, effect, pointer, allowed);
        let ghost s1 = out@;
        error_if(out, !has_text_field(effect, "text"), "command.effect_text", cat3("`", operation, ".text` must be a non-empty string"), path,
            cat(pointer, "/text"), None, Some(command.id.clone()));
        proof { lemma_added_findings_trans(s0, s1, out@); }
    } else {
        proof { reveal_strlit("/operation"); }
        error_if(out, true, "command.effect_unknown_operation", cat3("unknown command effect operation `", operation, "`"), path,
            cat(pointer, "/operation"), None, Some(command.id.clone()));
    }
}

/// Whether a character authors a non-empty `testimony` list.
pub open spec fn authors_testimony(character: Item) -> bool {
    map_get(character.mapping@, "testimony"@) matches Some(v) && (spec_as_sequence(v) matches Some(e) && e.len() > 0)
}

/// The index of the first item whose ID is `id`.
pub open spec fn first_with_id(items: Seq<Item>, id: Seq<char>) -> Option<int>
    decreases items.len(),
{
    if items.len() == 0 {
        None
    } else {
        match first_with_id(items.drop_last(), id) {
            Some(i) => Some(i),
            None => if items.last().id@ == id { Some(items.len() - 1) } else { None },
        }
    }
}

/// The canonical `topic` types, in order.
pub open spec fn topic_types() -> Seq<CommandParameterType> {
    seq![CommandParameterType::Character, CommandParameterType::Setting, CommandParameterType::Event,
        CommandParameterType::Entity, CommandParameterType::Deduction]
}

/// The findings of parameter `i` (after the first) of `command.question`.
pub open spec fn topic_findings(params: Seq<YamlValue>, i: int, pp: Seq<char>) -> Seq<Finding> {
    let at = pp + seq!['/'] + decimal(i as nat);
    if i == 0 {
        Seq::empty()
    } else {
        match spec_as_mapping(params[i]) {
            None => seq![error_at("character.testimony_question_topic_type"@, at)],
            Some(p) => if spec_string_field(p, "name"@) != Some("topic"@) {
                seq![error_at("character.testimony_question_topic_name"@, at + "/name"@)]
            } else {
                let shape = spec_parameter_shape(params[i]);
                finding_if(!(shape matches Some(s) && s.0 == topic_types()), error_at("character.testimony_question_topic_type"@, at + "/types"@))
                + finding_if(!(shape matches Some(s) && s.1 == 0), error_at("character.testimony_question_topic_required"@, at + "/min"@))
            },
        }
    }
}

/// The findings of `command.question`'s signature.
pub open spec fn question_signature_findings(command: Item) -> Seq<Finding> {
    let pp = command.pointer@ + "/parameters"@;
    let fp = pp + "/0"@;
    match map_get(command.mapping@, "parameters"@) {
        Some(v) => match spec_as_sequence(v) {
            Some(params) => if params.len() == 0 {
                seq![error_at("character.testimony_question_target_missing"@, fp)]
            } else {
                match spec_as_mapping(params[0]) {
                    None => seq![error_at("character.testimony_question_target_type"@, fp)],
                    Some(first) => {
                        let shape = spec_parameter_shape(params[0]);
                        finding_if(spec_string_field(first, "name"@) != Some("character"@),
                            error_at("character.testimony_question_target_name"@, fp + "/name"@))
                        + finding_if(!(shape matches Some(s) && single_required(s, CommandParameterType::Character)),
                            error_at("character.testimony_question_target_type"@, fp + "/types"@))
                        + finding_if(!(shape matches Some(s) && s.1 == 1 && s.2 == 1),
                            error_at("character.testimony_question_target_required"@, fp + "/min"@))
                        + findings_indexed(params, |i: int, v: YamlValue| topic_findings(params, i, pp))
                    },
                }
            },
            None => seq![error_at("character.testimony_question_parameters"@, pp)],
        },
        None => seq![error_at("character.testimony_question_parameters"@, pp)],
    }
}

/// The findings of `validate_testimony_question_signature`.
pub open spec fn testimony_question_findings(characters: Seq<Item>, commands: Seq<Item>) -> Seq<Finding> {
    if exists|c: int| 0 <= c < characters.len() && #[trigger] authors_testimony(characters[c]) {
        match first_with_id(commands, "command.question"@) {
            Some(q) => question_signature_findings(commands[q]),
            None => Seq::empty(),
        }
    } else {
        Seq::empty()
    }
}

/// `first_with_id` finds an item of the list.
proof fn lemma_first_with_id_bounds(items: Seq<Item>, id: Seq<char>)
    ensures
        first_with_id(items, id) matches Some(i) ==> 0 <= i < items.len() && items[i].id@ == id,
    decreases items.len(),
{
    if items.len() > 0 {
        lemma_first_with_id_bounds(items.drop_last(), id);
    }
}

/// Once any character authors testimony,
/// `command.question` must take a required `character` first and optional `topic`s after.
pub fn validate_testimony_question_signature(out: &mut Vec<Diagnostic>, characters: &Vec<Item>, commands: &Vec<Item>)
    ensures
        appended(old(out)@, final(out)@),
        added_findings(old(out)@, final(out)@) == testimony_question_findings(characters@, commands@),
{
    proof { lemma_added_findings_none(out@); }
    let mut authored = false;
    let mut c: usize = 0;
    while c < characters.len()
        invariant
            0 <= c <= characters@.len(),
            authored == exists|j: int| 0 <= j < c && #[trigger] authors_testimony(characters@[j]),
        decreases characters@.len() - c,
    {
        let here = match get(&characters[c].mapping, "testimony") {
            Some(v) => match v.as_sequence() {
                Some(entries) => entries.len() > 0,
                None => false,
            },
            None => false,
        };
        if here {
            authored = true;
        }
        proof {
            if here { assert(authors_testimony(characters@[c as int])); }
        }
        c += 1;
    }
    if !authored {
        return;
    }
    let mut found: Option<usize> = None;
    let mut k: usize = 0;
    proof { reveal_strlit("command.question"); }
    while k < commands.len()
        invariant
            0 <= k <= commands@.len(),
            match found { Some(j) => first_with_id(commands@.take(k as int), "command.question"@) == Some(j as int),
                None => first_with_id(commands@.take(k as int), "command.question"@) is None },
        decreases commands@.len() - k,
    {
        proof { assert(commands@.take(k + 1).drop_last() =~= commands@.take(k as int)); }
        if found.is_none() && str_eq(commands[k].id.as_str(), "command.question") {
            found = Some(k);
        }
        k += 1;
    }
    proof {
        lemma_take_all(commands@);
        lemma_first_with_id_bounds(commands@, "command.question"@);
    }
    let command = match found { Some(j) => &commands[j], None => { return; } };
    let path = command.path.as_str();
    let parameters_pointer = cat(command.pointer.as_str(), "/parameters");
    proof { reveal_strlit("/parameters"); reveal_strlit("/0"); reveal_strlit("/name"); reveal_strlit("/types"); reveal_strlit("/min"); }
    let parameters = match get(&command.mapping, "parameters") { Some(v) => v.as_sequence(), None => None };
    let parameters = match parameters {
        Some(p) => p,
        None => {
            error_if(out, true, "character.testimony_question_parameters",
                owned("`command.question` must declare its character target as the first parameter"), path,
                parameters_pointer, None, Some(command.id.clone()));
            return;
        },
    };
    let first_pointer = cat(parameters_pointer.as_str(), "/0");
    if parameters.len() == 0 {
        error_if(out, true, "character.testimony_question_target_missing",
            owned("`command.question` must declare a required character target first"), path,
            first_pointer, None, Some(command.id.clone()));
        return;
    }
    let first = match parameters[0].as_mapping() {
        Some(f) => f,
        None => {
            error_if(out, true, "character.testimony_question_target_type",
                owned("the first `command.question` parameter must be a character target mapping"), path,
                first_pointer, None, Some(command.id.clone()));
            return;
        },
    };
    validate_question_parameters(out, command, parameters, first, &parameters_pointer, &first_pointer);
}

/// The checks of `command.question`'s parameters once the first is a mapping.
#[verifier::rlimit(40)]
fn validate_question_parameters(
    out: &mut Vec<Diagnostic>,
    command: &Item,
    parameters: &Vec<YamlValue>,
    first: &Vec<(YamlValue, YamlValue)>,
    parameters_pointer: &String,
    first_pointer: &String,
)
    requires
        parameters@ == parameter_nodes(*command),
        parameters@.len() > 0,
        spec_as_mapping(parameters@[0]) == Some(first@),
        parameters_pointer@ == command.pointer@ + "/parameters"@,
        first_pointer@ == command.pointer@ + "/parameters"@ + "/0"@,
    ensures
        appended(old(out)@, final(out)@),
        added_findings(old(out)@, final(out)@) == ({
            let pp = command.pointer@ + "/parameters"@;
            let fp = pp + "/0"@;
            let params = parameters@;
            let shape = spec_parameter_shape(params[0]);
            finding_if(spec_string_field(first@, "name"@) != Some("character"@),
                error_at("character.testimony_question_target_name"@, fp + "/name"@))
            + finding_if(!(shape matches Some(s) && single_required(s, CommandParameterType::Character)),
                error_at("character.testimony_question_target_type"@, fp + "/types"@))
            + finding_if(!(shape matches Some(s) && s.1 == 1 && s.2 == 1),
                error_at("character.testimony_question_target_required"@, fp + "/min"@))
            + findings_indexed(params, |i: int, v: YamlValue| topic_findings(params, i, pp))
        }),
{
    let path = command.path.as_str();
    proof { reveal_strlit("/name"); reveal_strlit("/types"); reveal_strlit("/min"); }
    let ghost s0 = out@;
    let named_character = match string_field(first, "name") { Some(n) => str_eq(n, "character"), None => false };
    error_if(out, !named_character, "character.testimony_question_target_name",
        owned("the first `command.question` parameter must be named `character`"),
        path, cat(first_pointer.as_str(), "/name"), None, Some(command.id.clone()));
    let ghost s1 = out@;
    let shapes = command_parameter_types(command);
    let single_character = shape_single_required(&shapes[0], CommandParameterType::Character);
    proof { assert(shape_view(shapes@[0]) == spec_parameter_shape(parameters@[0])); }
    error_if(out, !single_character, "character.testimony_question_target_type",
        owned("the first `command.question` parameter must have type `character`"),
        path, cat(first_pointer.as_str(), "/types"), None, Some(command.id.clone()));
    let ghost s2 = out@;
    let required = match &shapes[0] { Some(s) => s.min == 1 && s.max == 1, None => false };
    error_if(out, !required, "character.testimony_question_target_required",
        owned("the first `command.question` character parameter must be required"), path,
        cat(first_pointer.as_str(), "/min"), None, Some(command.id.clone()));
    let ghost s3 = out@;
    let ghost all = parameters@;
    let ghost g = |i: int, v: YamlValue| topic_findings(all, i, parameters_pointer@);
    proof {
        lemma_findings_indexed_step(all, g, 0);
        assert(all.take(0).len() == 0);
        assert(g(0, all[0]) == Seq::<Finding>::empty());
        assert(findings_indexed(all.take(1), g) =~= Seq::<Finding>::empty());
        lemma_added_findings_none(s3);
    }
    let mut index: usize = 1;
    while index < parameters.len()
        invariant
            1 <= index <= parameters@.len(),
            all == parameters@,
            all == parameter_nodes(*command),
            shapes@.len() == all.len(),
            forall|i: int| 0 <= i < shapes@.len() ==> #[trigger] shape_view(shapes@[i]) == spec_parameter_shape(all[i]),
            g == (|i: int, v: YamlValue| topic_findings(all, i, parameters_pointer@)),
            appended(s3, out@),
            added_findings(s3, out@) == findings_indexed(all.take(index as int), g),
        decreases parameters@.len() - index,
    {
        let pointer = child_index(parameters_pointer.as_str(), index);
        let ghost b = out@;
        match parameters[index].as_mapping() {
            None => {
                error_if(out, true, "character.testimony_question_topic_type",
                    owned("later `command.question` parameters must be optional topic mappings"), path, pointer, None,
                    Some(command.id.clone()));
            },
            Some(parameter) => {
                let named_topic = match string_field(parameter, "name") { Some(n) => str_eq(n, "topic"), None => false };
                if !named_topic {
                    error_if(out, true, "character.testimony_question_topic_name",
                        owned("the optional `command.question` parameter must be named `topic`"), path,
                        cat(pointer.as_str(), "/name"), None, Some(command.id.clone()));
                } else {
                    let shape = &shapes[index];
                    proof { assert(shape_view(*shape) == spec_parameter_shape(all[index as int])); }
                    let canonical = match shape {
                        Some(s) => s.types.len() == 5
                            && s.types[0] == CommandParameterType::Character
                            && s.types[1] == CommandParameterType::Setting
                            && s.types[2] == CommandParameterType::Event
                            && s.types[3] == CommandParameterType::Entity
                            && s.types[4] == CommandParameterType::Deduction,
                        None => false,
                    };
                    proof {
                        if let Some(s) = shape {
                            if s.types@ == topic_types() {
                                assert(s.types@.len() == 5);
                            }
                            if canonical {
                                assert(s.types@ =~= topic_types());
                            }
                        }
                    }
                    let ghost t0 = out@;
                    error_if(out, !canonical, "character.testimony_question_topic_type",
                        owned("the canonical `topic` parameter must accept character, setting, event, entity, and deduction selections in that order"),
                        path, cat(pointer.as_str(), "/types"), None, Some(command.id.clone()));
                    let ghost t1 = out@;
                    let optional = match shape { Some(s) => s.min == 0, None => false };
                    error_if(out, !optional, "character.testimony_question_topic_required",
                        owned("later `command.question` topic parameters must be optional"), path,
                        cat(pointer.as_str(), "/min"), None, Some(command.id.clone()));
                    proof { lemma_added_findings_trans(t0, t1, out@); }
                }
            },
        }
        proof {
            lemma_added_findings_trans(s3, b, out@);
            lemma_findings_indexed_step(all, g, index as int);
        }
        index += 1;
    }
    proof {
        lemma_take_all(all);
        lemma_added_findings_trans(s0, s1, s2);
        lemma_added_findings_trans(s0, s2, s3);
        lemma_added_findings_trans(s0, s3, out@);
    }
}

} // verus!
