//! The strict format-3 field contract: every known item mapping rejects unknown fields.

use vstd::prelude::*;
use crate::case::{field_findings, validate_mapping_fields};
use crate::ids::spec_escape_pointer;
use crate::kinds::kind_prefix;
use crate::model::{Context, Finding, Item, ParsedFile, added_findings, appended, child, error_at, error_if, finding_if,
    findings_over, lemma_added_findings_none, lemma_added_findings_trans, lemma_findings_over_step, lemma_take_all};
use crate::report::Diagnostic;
use crate::terminal::{solution_contract_findings, validate_solution_contract};
use crate::text::{cat, cat3, owned};
use crate::values::{has_text_field, present_not_bool, spec_present_not_bool, text_field};
use crate::version::{StoryVersion, spec_is_format_3_from};
use crate::yaml::{YamlValue, get, map_get, spec_as_mapping};

verus! {

/// An item's keys: strings from `allowed`, reported under the item's kind.
pub open spec fn item_field_findings(item: Item, allowed: Seq<&'static str>) -> Seq<Finding> {
    findings_over(item.mapping@, |e: (YamlValue, YamlValue)| field_findings(e, allowed, kind_prefix(item.kind), item.pointer@))
}

/// The field findings of every item of a group.
pub open spec fn items_field_findings(items: Seq<Item>, allowed: Seq<&'static str>) -> Seq<Finding> {
    findings_over(items, |i: Item| item_field_findings(i, allowed))
}

/// Each item's keys are strings from `allowed`, reported under
/// the item's kind.
fn validate_item_fields(out: &mut Vec<Diagnostic>, items: &Vec<Item>, allowed: &[&'static str])
    ensures
        appended(old(out)@, final(out)@),
        added_findings(old(out)@, final(out)@) == items_field_findings(items@, allowed@),
{
    let mut i: usize = 0;
    proof { lemma_added_findings_none(out@); }
    while i < items.len()
        invariant
            0 <= i <= items@.len(),
            appended(old(out)@, out@),
            added_findings(old(out)@, out@) == findings_over(items@.take(i as int), |i: Item| item_field_findings(i, allowed@)),
        decreases items@.len() - i,
    {
        let item = &items[i];
        let namespace = item.kind.name();
        let ghost b = out@;
        validate_mapping_fields(out, &item.mapping, allowed, namespace.as_str(), item.path.as_str(), item.source.as_str(),
            item.pointer.as_str(), Some(item.id.as_str()));
        proof {
            lemma_added_findings_trans(old(out)@, b, out@);
            lemma_findings_over_step(items@, |i: Item| item_field_findings(i, allowed@), i as int);
        }
        i += 1;
    }
    proof { lemma_take_all(items@); }
}

/// `item[field]`, when present, is a mapping, whose keys are limited to `allowed` when
/// given.
pub open spec fn namespace_findings(item: Item, field: Seq<char>, allowed: Option<Seq<&'static str>>) -> Seq<Finding> {
    let p = item.pointer@ + seq!['/'] + spec_escape_pointer(field);
    match map_get(item.mapping@, field) {
        None => Seq::empty(),
        Some(v) => match spec_as_mapping(v) {
            None => seq![error_at(field + ".type"@, p)],
            Some(m) => match allowed {
                Some(a) => findings_over(m, |e: (YamlValue, YamlValue)| field_findings(e, a, field, p)),
                None => Seq::empty(),
            },
        },
    }
}

/// `item[field]`, when present, is a mapping, whose keys
/// are limited to `allowed` when given.
fn validate_optional_namespace(out: &mut Vec<Diagnostic>, item: &Item, field: &str, allowed: Option<&[&'static str]>)
    ensures
        appended(old(out)@, final(out)@),
        added_findings(old(out)@, final(out)@) == namespace_findings(*item, field@,
            match allowed { Some(a) => Some(a@), None => None }),
{
    let value = match get(&item.mapping, field) {
        Some(v) => v,
        None => {
            proof { lemma_added_findings_none(out@); }
            return;
        },
    };
    let pointer = child(item.pointer.as_str(), field);
    match value.as_mapping() {
        None => {
            error_if(out, true, cat(field, ".type").as_str(), cat3("`", field, "` must be a mapping namespace"), item.path.as_str(),
                pointer, None, Some(item.id.clone()));
        },
        Some(mapping) => {
            if let Some(allowed) = allowed {
                validate_mapping_fields(out, mapping, allowed, field, item.path.as_str(), item.source.as_str(), pointer.as_str(),
                    Some(item.id.as_str()));
            } else {
                proof { lemma_added_findings_none(out@); }
            }
        },
    }
}

/// The `author_notes` namespace of every item of a group.
pub open spec fn author_notes_findings(items: Seq<Item>) -> Seq<Finding> {
    findings_over(items, |i: Item| namespace_findings(i, "author_notes"@, None))
}

/// `author_notes` on every item of a group.
fn validate_author_notes(out: &mut Vec<Diagnostic>, items: &Vec<Item>)
    ensures
        appended(old(out)@, final(out)@),
        added_findings(old(out)@, final(out)@) == author_notes_findings(items@),
{
    let mut i: usize = 0;
    proof { lemma_added_findings_none(out@); }
    while i < items.len()
        invariant
            0 <= i <= items@.len(),
            appended(old(out)@, out@),
            added_findings(old(out)@, out@) == findings_over(items@.take(i as int),
                |i: Item| namespace_findings(i, "author_notes"@, None)),
        decreases items@.len() - i,
    {
        let ghost b = out@;
        validate_optional_namespace(out, &items[i], "author_notes", None);
        proof {
            lemma_added_findings_trans(old(out)@, b, out@);
            lemma_findings_over_step(items@, |i: Item| namespace_findings(i, "author_notes"@, None), i as int);
        }
        i += 1;
    }
    proof { lemma_take_all(items@); }
}

/// An item without a non-blank baseline `description`.
pub open spec fn description_findings(items: Seq<Item>) -> Seq<Finding> {
    findings_over(items, |i: Item| finding_if(!text_field(i.mapping@, "description"@),
        error_at(kind_prefix(i.kind) + ".description"@, i.pointer@ + "/description"@)))
}

/// Every item of a group needs a non-blank baseline `description`.
fn require_descriptions(out: &mut Vec<Diagnostic>, items: &Vec<Item>)
    ensures
        appended(old(out)@, final(out)@),
        added_findings(old(out)@, final(out)@) == description_findings(items@),
{
    let mut i: usize = 0;
    proof { lemma_added_findings_none(out@); }
    while i < items.len()
        invariant
            0 <= i <= items@.len(),
            appended(old(out)@, out@),
            added_findings(old(out)@, out@) == findings_over(items@.take(i as int), |i: Item| finding_if(
                !text_field(i.mapping@, "description"@), error_at(kind_prefix(i.kind) + ".description"@, i.pointer@ + "/description"@))),
        decreases items@.len() - i,
    {
        let item = &items[i];
        let kind = item.kind.name();
        let ghost b = out@;
        error_if(out, !has_text_field(&item.mapping, "description"), cat(kind.as_str(), ".description").as_str(),
            owned("format 3 requires one non-empty baseline player-safe `description`"), item.path.as_str(),
            cat(item.pointer.as_str(), "/description"), None, Some(item.id.clone()));
        proof {
            lemma_added_findings_trans(old(out)@, b, out@);
            lemma_findings_over_step(items@, |i: Item| finding_if(!text_field(i.mapping@, "description"@),
                error_at(kind_prefix(i.kind) + ".description"@, i.pointer@ + "/description"@)), i as int);
        }
        i += 1;
    }
    proof { lemma_take_all(items@); }
}

/// The nested findings of one item.
pub open spec fn nested_item_findings(i: Item, field: Seq<char>, allowed: Seq<&'static str>, namespace: Seq<char>) -> Seq<Finding> {
    match map_get(i.mapping@, field) {
        Some(v) => match spec_as_mapping(v) {
            Some(m) => findings_over(m, |e: (YamlValue, YamlValue)| field_findings(e, allowed, namespace, i.pointer@ + "/"@ + field)),
            None => Seq::empty(),
        },
        None => Seq::empty(),
    }
}

/// The fields of a nested mapping `item[field]` of every item in a group.
fn validate_nested_fields(out: &mut Vec<Diagnostic>, items: &Vec<Item>, field: &str, allowed: &[&'static str], namespace: &str)
    ensures
        appended(old(out)@, final(out)@),
        added_findings(old(out)@, final(out)@)
            == findings_over(items@, |i: Item| nested_item_findings(i, field@, allowed@, namespace@)),
{
    let mut i: usize = 0;
    proof { lemma_added_findings_none(out@); }
    while i < items.len()
        invariant
            0 <= i <= items@.len(),
            appended(old(out)@, out@),
            added_findings(old(out)@, out@) == findings_over(items@.take(i as int),
                |i: Item| nested_item_findings(i, field@, allowed@, namespace@)),
        decreases items@.len() - i,
    {
        let item = &items[i];
        let ghost b = out@;
        match get(&item.mapping, field) {
            Some(value) => match value.as_mapping() {
                Some(mapping) => {
                    let pointer = cat3(item.pointer.as_str(), "/", field);
                    validate_mapping_fields(out, mapping, allowed, namespace, item.path.as_str(), item.source.as_str(),
                        pointer.as_str(), Some(item.id.as_str()));
                },
                None => {
                    proof { lemma_added_findings_none(b); }
                },
            },
            None => {
                proof { lemma_added_findings_none(b); }
            },
        }
        proof {
            lemma_added_findings_trans(old(out)@, b, out@);
            lemma_findings_over_step(items@, |i: Item| nested_item_findings(i, field@, allowed@, namespace@), i as int);
        }
        i += 1;
    }
    proof { lemma_take_all(items@); }
}

/// The fields of a case; `features` from format 3.2.
pub open spec fn case_fields(with_features: bool) -> Seq<&'static str> {
    let base = seq!["id", "format_version", "ruleset", "title", "genre", "tone", "players", "estimated_duration_minutes",
        "entry_settings", "exit_settings", "initial_time", "premise", "opening", "author_notes"];
    if with_features { base.push("features") } else { base }
}

/// The fields of a setting.
pub open spec fn setting_fields() -> Seq<&'static str> {
    seq!["id", "tag_id", "type", "navigable", "name", "description", "parent", "facts", "points", "author_notes"]
}

/// The fields of a route.
pub open spec fn route_fields() -> Seq<&'static str> {
    seq!["id", "from", "to", "bidirectional", "travel_minutes", "hidden", "requires", "author_notes"]
}

/// The fields of a character; placement (`initial`, `presence`) from format 3.1.
pub open spec fn character_fields(with_placement: bool) -> Seq<&'static str> {
    if with_placement {
        seq!["id", "tag_id", "name", "voice_id", "role", "age", "occupation", "description", "initial", "presence", "portrayal",
            "testimony", "narrator_guidance", "knowledge", "facts", "author_notes"]
    } else {
        seq!["id", "tag_id", "name", "voice_id", "role", "age", "occupation", "description", "portrayal", "testimony",
            "narrator_guidance", "knowledge", "facts", "author_notes"]
    }
}

/// The fields of an entity.
pub open spec fn entity_fields() -> Seq<&'static str> {
    seq!["id", "tag_id", "type", "name", "description", "physical", "visibility", "initial", "facts", "points", "author_notes"]
}

/// The fields of an event.
pub open spec fn event_fields() -> Seq<&'static str> {
    seq!["id", "day", "time", "duration_minutes", "location", "participants", "summary", "facts", "author_notes"]
}

/// The fields of a fact.
pub open spec fn fact_fields() -> Seq<&'static str> {
    seq!["id", "statement", "narrative_detail", "category", "about", "requires", "sources", "occurred_at", "on", "when",
        "author_notes"]
}

/// The fields of a deduction.
pub open spec fn deduction_fields() -> Seq<&'static str> {
    seq!["id", "conclusion", "inputs", "truth", "contradicted_by", "requires", "solves", "points", "author_notes"]
}

/// The fields of a flag.
pub open spec fn flag_fields() -> Seq<&'static str> {
    seq!["id", "name", "description", "initial_state", "author_notes"]
}

/// The fields of a command.
pub open spec fn command_fields() -> Seq<&'static str> {
    seq!["id", "tag_id", "name", "description", "parameters", "effects", "points", "author_notes"]
}

/// The fields of a trigger.
pub open spec fn trigger_fields() -> Seq<&'static str> {
    seq!["id", "name", "description", "command", "once", "time", "location", "parameters", "any_of", "all_of", "effects",
        "facts", "on", "when", "after", "author_notes"]
}

/// The fields of a character's narrator guidance.
pub open spec fn narrator_guidance_fields() -> Seq<&'static str> {
    seq!["goal", "secret", "motive", "method", "cover_story", "testimony_guidance"]
}

/// The item groups of a repository, in the order the field contract visits them.
pub struct ItemGroups<'a> {
    pub cases: &'a Vec<Item>,
    pub settings: &'a Vec<Item>,
    pub routes: &'a Vec<Item>,
    pub characters: &'a Vec<Item>,
    pub entities: &'a Vec<Item>,
    pub events: &'a Vec<Item>,
    pub facts: &'a Vec<Item>,
    pub deductions: &'a Vec<Item>,
    pub flags: &'a Vec<Item>,
    pub commands: &'a Vec<Item>,
    pub triggers: &'a Vec<Item>,
}

/// The allowed fields of every item kind.
pub open spec fn kind_field_findings(version: Option<StoryVersion>, g: ItemGroups) -> Seq<Finding> {
    items_field_findings(g.cases@, case_fields(spec_is_format_3_from(version, 2)))
    + items_field_findings(g.settings@, setting_fields())
    + items_field_findings(g.routes@, route_fields())
    + items_field_findings(g.characters@, character_fields(spec_is_format_3_from(version, 1)))
    + items_field_findings(g.entities@, entity_fields())
    + items_field_findings(g.events@, event_fields())
    + items_field_findings(g.facts@, fact_fields())
    + items_field_findings(g.deductions@, deduction_fields())
    + items_field_findings(g.flags@, flag_fields())
    + items_field_findings(g.commands@, command_fields())
    + items_field_findings(g.triggers@, trigger_fields())
}

/// The `author_notes` namespace of every item.
pub open spec fn all_author_notes_findings(g: ItemGroups) -> Seq<Finding> {
    author_notes_findings(g.cases@) + author_notes_findings(g.settings@) + author_notes_findings(g.routes@)
    + author_notes_findings(g.characters@) + author_notes_findings(g.entities@) + author_notes_findings(g.events@)
    + author_notes_findings(g.facts@) + author_notes_findings(g.deductions@) + author_notes_findings(g.flags@)
    + author_notes_findings(g.commands@) + author_notes_findings(g.triggers@)
}

/// The remaining shape checks: narrator guidance, descriptions, `navigable`, the nested
/// `initial`, `presence` and `solves` mappings, and the solution's fields.
pub open spec fn shape_findings(version: Option<StoryVersion>, parsed: Seq<ParsedFile>, g: ItemGroups) -> Seq<Finding> {
    findings_over(g.characters@, |c: Item| namespace_findings(c, "narrator_guidance"@, Some(narrator_guidance_fields())))
    + description_findings(g.settings@) + description_findings(g.characters@) + description_findings(g.entities@)
    + findings_over(g.settings@, |s: Item| finding_if(spec_present_not_bool(s.mapping@, "navigable"@),
        error_at("setting.navigable_type"@, s.pointer@ + "/navigable"@)))
    + findings_over(g.entities@, |i: Item| nested_item_findings(i, "initial"@, seq!["container"], "entity.initial"@))
    + (if spec_is_format_3_from(version, 1) {
        findings_over(g.characters@, |i: Item| nested_item_findings(i, "initial"@, seq!["location"], "character.initial"@))
        + findings_over(g.characters@, |i: Item| nested_item_findings(i, "presence"@, seq!["requires"], "character.presence"@))
    } else {
        Seq::empty()
    })
    + findings_over(g.deductions@, |i: Item| nested_item_findings(i, "solves"@,
        seq!["culprit", "weapon", "location", "time"], "deduction.solves"@))
    + solution_contract_findings(version, parsed)
}

/// The allowed fields of every item kind.
fn validate_kind_fields(cx: &Context, out: &mut Vec<Diagnostic>, g: &ItemGroups)
    ensures
        appended(old(out)@, final(out)@),
        added_findings(old(out)@, final(out)@) == kind_field_findings(cx.format_version, *g),
{
    let ghost s0 = out@;
    if cx.is_format_3_from(2) {
        let allowed: &[&str] = &["id", "format_version", "ruleset", "title", "genre", "tone", "players",
            "estimated_duration_minutes", "entry_settings", "exit_settings", "initial_time", "premise", "opening", "author_notes",
            "features"];
        proof { assert(allowed@ == case_fields(true)); }
        validate_item_fields(out, g.cases, allowed);
    } else {
        let allowed: &[&str] = &["id", "format_version", "ruleset", "title", "genre", "tone", "players",
            "estimated_duration_minutes", "entry_settings", "exit_settings", "initial_time", "premise", "opening", "author_notes"];
        proof { assert(allowed@ == case_fields(false)); }
        validate_item_fields(out, g.cases, allowed);
    }
    let ghost s1 = out@;
    let allowed: &[&str] = &["id", "tag_id", "type", "navigable", "name", "description", "parent", "facts", "points",
        "author_notes"];
    proof { assert(allowed@ == setting_fields()); }
    validate_item_fields(out, g.settings, allowed);
    let ghost s2 = out@;
    let allowed: &[&str] = &["id", "from", "to", "bidirectional", "travel_minutes", "hidden", "requires", "author_notes"];
    proof { assert(allowed@ == route_fields()); }
    validate_item_fields(out, g.routes, allowed);
    let ghost s3 = out@;
    if cx.is_format_3_from(1) {
        let allowed: &[&str] = &["id", "tag_id", "name", "voice_id", "role", "age", "occupation", "description",
            "initial", "presence", "portrayal", "testimony", "narrator_guidance", "knowledge", "facts", "author_notes"];
        proof { assert(allowed@ == character_fields(true)); }
        validate_item_fields(out, g.characters, allowed);
    } else {
        let allowed: &[&str] = &["id", "tag_id", "name", "voice_id", "role", "age", "occupation", "description",
            "portrayal", "testimony", "narrator_guidance", "knowledge", "facts", "author_notes"];
        proof { assert(allowed@ == character_fields(false)); }
        validate_item_fields(out, g.characters, allowed);
    }
    let ghost s4 = out@;
    let allowed: &[&str] = &["id", "tag_id", "type", "name", "description", "physical", "visibility", "initial", "facts",
        "points", "author_notes"];
    proof { assert(allowed@ == entity_fields()); }
    validate_item_fields(out, g.entities, allowed);
    let ghost s5 = out@;
    let allowed: &[&str] = &["id", "day", "time", "duration_minutes", "location", "participants", "summary", "facts",
        "author_notes"];
    proof { assert(allowed@ == event_fields()); }
    validate_item_fields(out, g.events, allowed);
    let ghost s6 = out@;
    let allowed: &[&str] = &["id", "statement", "narrative_detail", "category", "about", "requires", "sources",
        "occurred_at", "on", "when", "author_notes"];
    proof { assert(allowed@ == fact_fields()); }
    validate_item_fields(out, g.facts, allowed);
    let ghost s7 = out@;
    let allowed: &[&str] = &["id", "conclusion", "inputs", "truth", "contradicted_by", "requires", "solves", "points",
        "author_notes"];
    proof { assert(allowed@ == deduction_fields()); }
    validate_item_fields(out, g.deductions, allowed);
    let ghost s8 = out@;
    let allowed: &[&str] = &["id", "name", "description", "initial_state", "author_notes"];
    proof { assert(allowed@ == flag_fields()); }
    validate_item_fields(out, g.flags, allowed);
    let ghost s9 = out@;
    let allowed: &[&str] = &["id", "tag_id", "name", "description", "parameters", "effects", "points", "author_notes"];
    proof { assert(allowed@ == command_fields()); }
    validate_item_fields(out, g.commands, allowed);
    let ghost s10 = out@;
    let allowed: &[&str] = &["id", "name", "description", "command", "once", "time", "location", "parameters", "any_of",
        "all_of", "effects", "facts", "on", "when", "after", "author_notes"];
    proof { assert(allowed@ == trigger_fields()); }
    validate_item_fields(out, g.triggers, allowed);
    proof {
        lemma_added_findings_trans(s0, s1, s2);
        lemma_added_findings_trans(s0, s2, s3);
        lemma_added_findings_trans(s0, s3, s4);
        lemma_added_findings_trans(s0, s4, s5);
        lemma_added_findings_trans(s0, s5, s6);
        lemma_added_findings_trans(s0, s6, s7);
        lemma_added_findings_trans(s0, s7, s8);
        lemma_added_findings_trans(s0, s8, s9);
        lemma_added_findings_trans(s0, s9, s10);
        lemma_added_findings_trans(s0, s10, out@);
    }
}

/// The `author_notes` namespace of every item.
fn validate_all_author_notes(out: &mut Vec<Diagnostic>, g: &ItemGroups)
    ensures
        appended(old(out)@, final(out)@),
        added_findings(old(out)@, final(out)@) == all_author_notes_findings(*g),
{
    let ghost s0 = out@;
    validate_author_notes(out, g.cases);
    let ghost t1 = out@;
    validate_author_notes(out, g.settings);
    let ghost t2 = out@;
    validate_author_notes(out, g.routes);
    let ghost t3 = out@;
    validate_author_notes(out, g.characters);
    let ghost t4 = out@;
    validate_author_notes(out, g.entities);
    let ghost t5 = out@;
    validate_author_notes(out, g.events);
    let ghost t6 = out@;
    validate_author_notes(out, g.facts);
    let ghost t7 = out@;
    validate_author_notes(out, g.deductions);
    let ghost t8 = out@;
    validate_author_notes(out, g.flags);
    let ghost t9 = out@;
    validate_author_notes(out, g.commands);
    let ghost t10 = out@;
    validate_author_notes(out, g.triggers);
    proof {
        lemma_added_findings_trans(s0, t1, t2);
        lemma_added_findings_trans(s0, t2, t3);
        lemma_added_findings_trans(s0, t3, t4);
        lemma_added_findings_trans(s0, t4, t5);
        lemma_added_findings_trans(s0, t5, t6);
        lemma_added_findings_trans(s0, t6, t7);
        lemma_added_findings_trans(s0, t7, t8);
        lemma_added_findings_trans(s0, t8, t9);
        lemma_added_findings_trans(s0, t9, t10);
        lemma_added_findings_trans(s0, t10, out@);
    }
}

/// The remaining shape checks of the field contract.
fn validate_shapes(cx: &Context, out: &mut Vec<Diagnostic>, g: &ItemGroups)
    ensures
        appended(old(out)@, final(out)@),
        added_findings(old(out)@, final(out)@) == shape_findings(cx.format_version, cx.parsed@, *g),
{
    let ghost t11 = out@;
    let guidance: &[&str] = &["goal", "secret", "motive", "method", "cover_story", "testimony_guidance"];
    proof { assert(guidance@ == narrator_guidance_fields()); }
    let mut c: usize = 0;
    proof { lemma_added_findings_none(t11); }
    while c < g.characters.len()
        invariant
            0 <= c <= g.characters@.len(),
            guidance@ == narrator_guidance_fields(),
            appended(t11, out@),
            added_findings(t11, out@) == findings_over(g.characters@.take(c as int),
                |c: Item| namespace_findings(c, "narrator_guidance"@, Some(narrator_guidance_fields()))),
        decreases g.characters@.len() - c,
    {
        let ghost b = out@;
        validate_optional_namespace(out, &g.characters[c], "narrator_guidance", Some(guidance));
        proof {
            lemma_added_findings_trans(t11, b, out@);
            lemma_findings_over_step(g.characters@,
                |c: Item| namespace_findings(c, "narrator_guidance"@, Some(narrator_guidance_fields())), c as int);
        }
        c += 1;
    }
    proof { lemma_take_all(g.characters@); }
    let ghost u0 = out@;
    require_descriptions(out, g.settings);
    let ghost u1 = out@;
    require_descriptions(out, g.characters);
    let ghost u2 = out@;
    require_descriptions(out, g.entities);
    let ghost u3 = out@;
    let mut s: usize = 0;
    proof { lemma_added_findings_none(u3); }
    while s < g.settings.len()
        invariant
            0 <= s <= g.settings@.len(),
            appended(u3, out@),
            added_findings(u3, out@) == findings_over(g.settings@.take(s as int), |s: Item| finding_if(
                spec_present_not_bool(s.mapping@, "navigable"@), error_at("setting.navigable_type"@, s.pointer@ + "/navigable"@))),
        decreases g.settings@.len() - s,
    {
        let setting = &g.settings[s];
        let ghost b = out@;
        error_if(out, present_not_bool(&setting.mapping, "navigable"), "setting.navigable_type",
            owned("setting `navigable` must be a boolean"), setting.path.as_str(),
            cat(setting.pointer.as_str(), "/navigable"), None, Some(setting.id.clone()));
        proof {
            lemma_added_findings_trans(u3, b, out@);
            lemma_findings_over_step(g.settings@, |s: Item| finding_if(spec_present_not_bool(s.mapping@, "navigable"@),
                error_at("setting.navigable_type"@, s.pointer@ + "/navigable"@)), s as int);
        }
        s += 1;
    }
    proof { lemma_take_all(g.settings@); }
    let ghost u4 = out@;
    let container: &[&str] = &["container"];
    proof { assert(container@ == seq!["container"]); }
    validate_nested_fields(out, g.entities, "initial", container, "entity.initial");
    let ghost u5 = out@;
    if cx.is_format_3_from(1) {
        let location: &[&str] = &["location"];
        proof { assert(location@ == seq!["location"]); }
        validate_nested_fields(out, g.characters, "initial", location, "character.initial");
        let ghost v = out@;
        let gate_fields: &[&str] = &["requires"];
        proof { assert(gate_fields@ == seq!["requires"]); }
        validate_nested_fields(out, g.characters, "presence", gate_fields, "character.presence");
        proof { lemma_added_findings_trans(u5, v, out@); }
    } else {
        proof { lemma_added_findings_none(u5); }
    }
    let ghost u6 = out@;
    let solves: &[&str] = &["culprit", "weapon", "location", "time"];
    proof { assert(solves@ == seq!["culprit", "weapon", "location", "time"]); }
    validate_nested_fields(out, g.deductions, "solves", solves, "deduction.solves");
    let ghost u7 = out@;
    validate_solution_contract(cx, out);
    proof {
        lemma_added_findings_trans(t11, u0, u1);
        lemma_added_findings_trans(t11, u1, u2);
        lemma_added_findings_trans(t11, u2, u3);
        lemma_added_findings_trans(t11, u3, u4);
        lemma_added_findings_trans(t11, u4, u5);
        lemma_added_findings_trans(t11, u5, u6);
        lemma_added_findings_trans(t11, u6, u7);
        lemma_added_findings_trans(t11, u7, out@);
    }
}

/// `validate_strict_field_contract` (format 3): the allowed fields of every item kind, the
/// `author_notes` and `narrator_guidance` namespaces, baseline descriptions, `navigable`,
/// the nested `initial`, `presence` and `solves` mappings, and the solution's fields.
pub fn validate_strict_field_contract(
    cx: &Context,
    out: &mut Vec<Diagnostic>,
    cases: &Vec<Item>,
    settings: &Vec<Item>,
    routes: &Vec<Item>,
    characters: &Vec<Item>,
    entities: &Vec<Item>,
    events: &Vec<Item>,
    facts: &Vec<Item>,
    deductions: &Vec<Item>,
    flags: &Vec<Item>,
    commands: &Vec<Item>,
    triggers: &Vec<Item>,
)
    ensures
        appended(old(out)@, final(out)@),
        added_findings(old(out)@, final(out)@) == ({
            let g = ItemGroups { cases, settings, routes, characters, entities, events, facts, deductions, flags, commands, triggers };
            kind_field_findings(cx.format_version, g) + all_author_notes_findings(g)
                + shape_findings(cx.format_version, cx.parsed@, g)
        }),
{
    let g = ItemGroups { cases, settings, routes, characters, entities, events, facts, deductions, flags, commands, triggers };
    let ghost s0 = out@;
    validate_kind_fields(cx, out, &g);
    let ghost s1 = out@;
    validate_all_author_notes(out, &g);
    let ghost s2 = out@;
    validate_shapes(cx, out, &g);
    proof {
        lemma_added_findings_trans(s0, s1, s2);
        lemma_added_findings_trans(s0, s2, out@);
    }
}

} // verus!
