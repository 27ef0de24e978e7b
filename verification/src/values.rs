//! Field values of events, routes, flags, point awards, characters and entities.

use vstd::prelude::*;
use crate::ids::{id_prefix, looks_like_id, spec_escape_pointer, spec_id_prefix, spec_looks_like_id, spec_valid_time, valid_time};
use crate::version::{StoryVersion, spec_is_format_3_from};
use crate::kinds::Kind;
use crate::locate::{locate_item_field, locate_scalar};
use crate::model::{Context, Definition, Finding, Item, kind_in, added_findings, appended, child, child_index, error, error_at, error_if,
    finding_if, findings_over, lemma_added_findings_none, lemma_added_findings_one, lemma_added_findings_trans,
    lemma_findings_indexed_step, lemma_findings_over_step, lemma_take_all, findings_indexed, one_of};
use crate::report::Diagnostic;
use crate::text::{cat, cat3, cat5, chars_of, decimal, has_text, i64_to_decimal, nonblank, owned, str_eq, trim};
use crate::yaml::{YamlNumber, YamlValue, contains_key, get, integer_field, is_nonempty_string_sequence,
    is_string_sequence, map_get, spec_as_bool, spec_as_mapping, spec_as_str, spec_integer_field, spec_is_string_sequence,
    spec_is_nonempty_string_sequence, spec_string_field, spec_string_list_field, string_field, string_list_field,
    spec_as_sequence};

verus! {

/// `value` is a string that is not blank.
pub open spec fn spec_is_text(v: YamlValue) -> bool {
    match spec_as_str(v) {
        Some(s) => has_text(s),
        None => false,
    }
}

/// `value` is a string that is not blank.
pub fn is_text(value: &YamlValue) -> (r: bool)
    ensures
        r == spec_is_text(*value),
{
    match value.as_str() {
        Some(s) => nonblank(s),
        None => false,
    }
}

/// `mapping[key]` is a string that is not blank.
pub open spec fn text_field(m: Seq<(YamlValue, YamlValue)>, key: Seq<char>) -> bool {
    match spec_string_field(m, key) {
        Some(s) => has_text(s),
        None => false,
    }
}

/// `mapping[key]` is a string that is not blank.
pub fn has_text_field(mapping: &Vec<(YamlValue, YamlValue)>, key: &str) -> (r: bool)
    ensures
        r == text_field(mapping@, key@),
{
    match string_field(mapping, key) {
        Some(s) => nonblank(s),
        None => false,
    }
}

/// `mapping[key]` is present and is not a non-blank string.
pub open spec fn spec_present_without_text(m: Seq<(YamlValue, YamlValue)>, key: Seq<char>) -> bool {
    match map_get(m, key) {
        Some(v) => !spec_is_text(v),
        None => false,
    }
}

/// `mapping[key]` is present and is not a non-blank string.
pub fn present_without_text(mapping: &Vec<(YamlValue, YamlValue)>, key: &str) -> (r: bool)
    ensures
        r == spec_present_without_text(mapping@, key@),
{
    match get(mapping, key) {
        Some(value) => !is_text(value),
        None => false,
    }
}

/// `mapping[key]` is present and is not a boolean.
pub open spec fn spec_present_not_bool(m: Seq<(YamlValue, YamlValue)>, key: Seq<char>) -> bool {
    match map_get(m, key) {
        Some(v) => spec_as_bool(v) is None,
        None => false,
    }
}

/// `mapping[key]` is present and is not a boolean.
pub fn present_not_bool(mapping: &Vec<(YamlValue, YamlValue)>, key: &str) -> (r: bool)
    ensures
        r == spec_present_not_bool(mapping@, key@),
{
    match get(mapping, key) {
        Some(value) => value.as_bool().is_none(),
        None => false,
    }
}

/// An untagged string holding a valid `HH:MM` time.
pub open spec fn spec_exact_time(v: YamlValue) -> bool {
    match v {
        YamlValue::String(t) => spec_valid_time(t@),
        _ => false,
    }
}

/// Whether `mapping[key]` is an untagged string holding a valid `HH:MM` time, or `None`
/// when the key is absent.
pub fn exact_time_field(mapping: &Vec<(YamlValue, YamlValue)>, key: &str) -> (r: Option<bool>)
    ensures
        r == (match map_get(mapping@, key@) {
            Some(v) => Some(spec_exact_time(v)),
            None => None,
        }),
{
    match get(mapping, key) {
        Some(YamlValue::String(time)) => Some(valid_time(time.as_str())),
        Some(_) => Some(false),
        None => None,
    }
}

/// An error with `code` at `item[field]` unless that field is an integer `>= 0`.
pub open spec fn nonnegative_integer_findings(item: Item, field: Seq<char>, code: Seq<char>) -> Seq<Finding> {
    finding_if(!(spec_integer_field(item.mapping@, field) matches Some(v) && v >= 0),
        error_at(code, item.pointer@ + seq!['/'] + spec_escape_pointer(field)))
}

/// `item[field]` must be an integer `>= 0`.
pub fn require_nonnegative_integer(out: &mut Vec<Diagnostic>, item: &Item, field: &str, code: &str)
    ensures
        appended(old(out)@, final(out)@),
        added_findings(old(out)@, final(out)@) == nonnegative_integer_findings(*item, field@, code@),
{
    let ok = match integer_field(&item.mapping, field) {
        Some(v) => v >= 0,
        None => false,
    };
    error_if(out, !ok, code, cat3("`", field, "` must be a non-negative integer"), item.path.as_str(),
        child(item.pointer.as_str(), field), None, Some(item.id.clone()));
}

/// The findings for one event: a `location` ID, a string-list `participants`, an exact
/// `time`, and non-negative integer `day` and `duration_minutes`.
pub open spec fn event_findings(event: Item) -> Seq<Finding> {
    let p = event.pointer@;
    let m = event.mapping@;
    finding_if(spec_string_field(m, "location"@) is None, error_at("event.missing_location"@, p + "/location"@))
    + finding_if(map_get(m, "participants"@) matches Some(v) && !spec_is_string_sequence(v),
        error_at("event.participants_type"@, p + "/participants"@))
    + (match map_get(m, "time"@) {
        Some(v) => finding_if(!spec_exact_time(v), error_at("event.invalid_time"@, p + "/time"@)),
        None => seq![error_at("event.missing_time"@, p + "/time"@)],
    })
    + nonnegative_integer_findings(event, "day"@, "event.invalid_day"@)
    + nonnegative_integer_findings(event, "duration_minutes"@, "event.invalid_duration"@)
}

/// Location, participants, time, day and duration.
pub fn validate_event_values(out: &mut Vec<Diagnostic>, events: &Vec<Item>)
    ensures
        appended(old(out)@, final(out)@),
        added_findings(old(out)@, final(out)@) == findings_over(events@, |e: Item| event_findings(e)),
{
    let mut i: usize = 0;
    proof { lemma_added_findings_none(out@); }
    while i < events.len()
        invariant
            0 <= i <= events@.len(),
            appended(old(out)@, out@),
            added_findings(old(out)@, out@) == findings_over(events@.take(i as int), |e: Item| event_findings(e)),
        decreases events@.len() - i,
    {
        let event = &events[i];
        let path = event.path.as_str();
        let ghost s0 = out@;
        error_if(out, string_field(&event.mapping, "location").is_none(), "event.missing_location",
            owned("event `location` must be a setting ID"), path,
            cat(event.pointer.as_str(), "/location"), None, Some(event.id.clone()));
        let ghost s1 = out@;
        let bad_participants = match get(&event.mapping, "participants") {
            Some(participants) => !is_string_sequence(participants),
            None => false,
        };
        error_if(out, bad_participants, "event.participants_type",
            owned("`participants` must be a sequence of character IDs"), path,
            cat(event.pointer.as_str(), "/participants"), None, Some(event.id.clone()));
        let ghost s2 = out@;
        match exact_time_field(&event.mapping, "time") {
            Some(valid) => {
                error_if(out, !valid, "event.invalid_time", owned("event `time` must be a quoted 24-hour HH:MM value"), path,
                    cat(event.pointer.as_str(), "/time"), None, Some(event.id.clone()));
            },
            None => {
                error_if(out, true, "event.missing_time", owned("event is missing `time`"), path,
                    cat(event.pointer.as_str(), "/time"), None, Some(event.id.clone()));
            },
        }
        let ghost s3 = out@;
        require_nonnegative_integer(out, event, "day", "event.invalid_day");
        let ghost s4 = out@;
        require_nonnegative_integer(out, event, "duration_minutes", "event.invalid_duration");
        proof {
            lemma_added_findings_trans(s0, s1, s2);
            lemma_added_findings_trans(s0, s2, s3);
            lemma_added_findings_trans(s0, s3, s4);
            lemma_added_findings_trans(s0, s4, out@);
            lemma_added_findings_trans(old(out)@, s0, out@);
            lemma_findings_over_step(events@, |e: Item| event_findings(e), i as int);
        }
        i += 1;
    }
    proof { lemma_take_all(events@); }
}

/// The findings for one route: `from` and `to` setting IDs, a string-list `requires`, a
/// positive `travel_minutes` that fits in 32 bits, and distinct endpoints.
pub open spec fn route_findings(route: Item) -> Seq<Finding> {
    let p = route.pointer@;
    let m = route.mapping@;
    finding_if(spec_string_field(m, "from"@) is None, error_at("route.missing_endpoint"@, p + "/from"@))
    + finding_if(spec_string_field(m, "to"@) is None, error_at("route.missing_endpoint"@, p + "/to"@))
    + finding_if(map_get(m, "requires"@) matches Some(g) && !spec_is_string_sequence(g),
        error_at("route.requires_type"@, p + "/requires"@))
    + finding_if(!(spec_integer_field(m, "travel_minutes"@) matches Some(v) && 0 < v <= 4294967295),
        error_at("route.invalid_travel_minutes"@, p + "/travel_minutes"@))
    + finding_if(
        match (spec_string_field(m, "from"@), spec_string_field(m, "to"@)) {
            (Some(a), Some(b)) => a == b,
            _ => false,
        },
        error_at("route.self_loop"@, p))
}

/// Endpoints, `requires`, travel time, and self loops.
pub fn validate_route_values(out: &mut Vec<Diagnostic>, routes: &Vec<Item>)
    ensures
        appended(old(out)@, final(out)@),
        added_findings(old(out)@, final(out)@) == findings_over(routes@, |r: Item| route_findings(r)),
{
    let mut i: usize = 0;
    proof { lemma_added_findings_none(out@); }
    while i < routes.len()
        invariant
            0 <= i <= routes@.len(),
            appended(old(out)@, out@),
            added_findings(old(out)@, out@) == findings_over(routes@.take(i as int), |r: Item| route_findings(r)),
        decreases routes@.len() - i,
    {
        let route = &routes[i];
        let path = route.path.as_str();
        let ghost s0 = out@;
        error_if(out, string_field(&route.mapping, "from").is_none(), "route.missing_endpoint",
            owned("route `from` must be a setting ID"), path,
            cat(route.pointer.as_str(), "/from"), None, Some(route.id.clone()));
        let ghost s1 = out@;
        error_if(out, string_field(&route.mapping, "to").is_none(), "route.missing_endpoint",
            owned("route `to` must be a setting ID"), path,
            cat(route.pointer.as_str(), "/to"), None, Some(route.id.clone()));
        let ghost s2 = out@;
        let bad_requires = match get(&route.mapping, "requires") {
            Some(gate) => !is_string_sequence(gate),
            None => false,
        };
        error_if(out, bad_requires, "route.requires_type", owned("`requires` must be a sequence of entity IDs"), path,
            cat(route.pointer.as_str(), "/requires"), None, Some(route.id.clone()));
        let ghost s3 = out@;
        let travel_ok = match integer_field(&route.mapping, "travel_minutes") {
            Some(v) => v > 0 && v <= 4294967295,
            None => false,
        };
        error_if(out, !travel_ok, "route.invalid_travel_minutes",
            owned("`travel_minutes` must be a positive whole number supported by the runtime"), path,
            cat(route.pointer.as_str(), "/travel_minutes"), None, Some(route.id.clone()));
        let ghost s4 = out@;
        let from = string_field(&route.mapping, "from");
        let to = string_field(&route.mapping, "to");
        let (same, range) = match (from, to) {
            (Some(from), Some(to)) => (str_eq(from, to), locate_scalar(route.source.as_str(), from)),
            _ => (false, None),
        };
        error_if(out, same, "route.self_loop", owned("route endpoints must be different settings"), path,
            route.pointer.clone(), range, Some(route.id.clone()));
        proof {
            lemma_added_findings_trans(s0, s1, s2);
            lemma_added_findings_trans(s0, s2, s3);
            lemma_added_findings_trans(s0, s3, s4);
            lemma_added_findings_trans(s0, s4, out@);
            lemma_added_findings_trans(old(out)@, s0, out@);
            lemma_findings_over_step(routes@, |r: Item| route_findings(r), i as int);
        }
        i += 1;
    }
    proof { lemma_take_all(routes@); }
}

/// The findings for one flag: a non-empty `name` and `description`, a boolean
/// `initial_state`.
pub open spec fn flag_findings(flag: Item) -> Seq<Finding> {
    finding_if(!text_field(flag.mapping@, "name"@), error_at("flag.name"@, flag.pointer@ + "/name"@))
    + finding_if(!text_field(flag.mapping@, "description"@),
        error_at("flag.description"@, flag.pointer@ + "/description"@))
    + finding_if(!(map_get(flag.mapping@, "initial_state"@) matches Some(v) && spec_as_bool(v) is Some),
        error_at("flag.initial_state"@, flag.pointer@ + "/initial_state"@))
}

/// Non-empty `name` and `description`, boolean `initial_state`.
pub fn validate_flag_values(out: &mut Vec<Diagnostic>, flags: &Vec<Item>)
    ensures
        appended(old(out)@, final(out)@),
        added_findings(old(out)@, final(out)@) == findings_over(flags@, |f: Item| flag_findings(f)),
{
    let mut i: usize = 0;
    proof { lemma_added_findings_none(out@); }
    while i < flags.len()
        invariant
            0 <= i <= flags@.len(),
            appended(old(out)@, out@),
            added_findings(old(out)@, out@) == findings_over(flags@.take(i as int), |f: Item| flag_findings(f)),
        decreases flags@.len() - i,
    {
        let flag = &flags[i];
        let path = flag.path.as_str();
        let ghost s0 = out@;
        error_if(out, !has_text_field(&flag.mapping, "name"), "flag.name",
            owned("flag `name` must be a non-empty string"), path,
            cat(flag.pointer.as_str(), "/name"), None, Some(flag.id.clone()));
        let ghost s1 = out@;
        error_if(out, !has_text_field(&flag.mapping, "description"), "flag.description",
            owned("flag `description` must be a non-empty string"), path,
            cat(flag.pointer.as_str(), "/description"), None, Some(flag.id.clone()));
        let ghost s2 = out@;
        let initial = match get(&flag.mapping, "initial_state") { Some(v) => v.as_bool(), None => None };
        error_if(out, initial.is_none(), "flag.initial_state",
            owned("flag `initial_state` must be a boolean"), path,
            cat(flag.pointer.as_str(), "/initial_state"), None, Some(flag.id.clone()));
        proof {
            lemma_added_findings_trans(s0, s1, s2);
            lemma_added_findings_trans(s0, s2, out@);
            lemma_added_findings_trans(old(out)@, s0, out@);
            lemma_findings_over_step(flags@, |f: Item| flag_findings(f), i as int);
        }
        i += 1;
    }
    proof { lemma_take_all(flags@); }
}

/// A YAML number holding a whole number greater than zero.
pub open spec fn spec_positive_whole(v: YamlValue) -> bool {
    match v {
        YamlValue::Number(YamlNumber::PosInt(u)) => u > 0,
        _ => false,
    }
}

/// A YAML number holding a whole number greater than zero.
fn positive_whole(value: &YamlValue) -> (r: bool)
    ensures
        r == spec_positive_whole(*value),
{
    match value {
        YamlValue::Number(YamlNumber::PosInt(u)) => *u > 0,
        _ => false,
    }
}

/// A string key of a point award other than `value`, `max_claim_count` and `requires`.
pub open spec fn point_field_findings(entry: (YamlValue, YamlValue), pointer: Seq<char>) -> Seq<Finding> {
    match spec_as_str(entry.0) {
        Some(key) => finding_if(!(key == "value"@ || key == "max_claim_count"@ || key == "requires"@),
            error_at("points.unknown_field"@, pointer + seq!['/'] + spec_escape_pointer(key))),
        None => Seq::empty(),
    }
}

/// The findings for one owner's `points`: a mapping of known fields with a positive whole
/// `value`, an optional positive whole `max_claim_count` and an optional string-list
/// `requires`.
pub open spec fn point_award_findings(owner: Item) -> Seq<Finding> {
    let p = owner.pointer@ + "/points"@;
    match map_get(owner.mapping@, "points"@) {
        None => Seq::empty(),
        Some(v) => match spec_as_mapping(v) {
            None => seq![error_at("points.type"@, p)],
            Some(points) =>
                findings_over(points, |e: (YamlValue, YamlValue)| point_field_findings(e, p))
                + finding_if(!(map_get(points, "value"@) matches Some(x) && spec_positive_whole(x)),
                    error_at("points.value"@, p + "/value"@))
                + finding_if(map_get(points, "max_claim_count"@) matches Some(x) && !spec_positive_whole(x),
                    error_at("points.max_claim_count"@, p + "/max_claim_count"@))
                + finding_if(map_get(points, "requires"@) matches Some(g) && !spec_is_string_sequence(g),
                    error_at("points.requires_type"@, p + "/requires"@)),
        },
    }
}

/// The point award checks of one owner.
fn validate_point_award(out: &mut Vec<Diagnostic>, owner: &Item)
    ensures
        appended(old(out)@, final(out)@),
        added_findings(old(out)@, final(out)@) == point_award_findings(*owner),
{
    let path = owner.path.as_str();
    let ghost s0 = out@;
    let value = match get(&owner.mapping, "points") {
        Some(value) => value,
        None => {
            proof { lemma_added_findings_none(s0); }
            return;
        },
    };
    let pointer = cat(owner.pointer.as_str(), "/points");
    let points = match value.as_mapping() {
        Some(points) => points,
        None => {
            error_if(out, true, "points.type", owned("`points` must be a mapping"), path, pointer, None, Some(owner.id.clone()));
            return;
        },
    };
    let mut k: usize = 0;
    proof { lemma_added_findings_none(s0); }
    while k < points.len()
        invariant
            0 <= k <= points@.len(),
            appended(s0, out@),
            added_findings(s0, out@) == findings_over(points@.take(k as int),
                |e: (YamlValue, YamlValue)| point_field_findings(e, pointer@)),
        decreases points@.len() - k,
    {
        let ghost b = out@;
        match points[k].0.as_str() {
            Some(key) => {
                let known = str_eq(key, "value") || str_eq(key, "max_claim_count") || str_eq(key, "requires");
                error_if(out, !known, "points.unknown_field", cat3("unknown point-award field `", key, "`"), path,
                    child(pointer.as_str(), key), None, Some(owner.id.clone()));
            },
            None => {
                proof { lemma_added_findings_none(b); }
            },
        }
        proof {
            lemma_added_findings_trans(s0, b, out@);
            lemma_findings_over_step(points@, |e: (YamlValue, YamlValue)| point_field_findings(e, pointer@), k as int);
        }
        k += 1;
    }
    proof { lemma_take_all(points@); }
    let ghost s1 = out@;
    let value_ok = match get(points, "value") { Some(v) => positive_whole(v), None => false };
    error_if(out, !value_ok, "points.value", owned("point award `value` must be a positive whole number"), path,
        cat(pointer.as_str(), "/value"), None, Some(owner.id.clone()));
    let ghost s2 = out@;
    let max_ok = match get(points, "max_claim_count") { Some(v) => positive_whole(v), None => true };
    error_if(out, !max_ok, "points.max_claim_count", owned("point award `max_claim_count` must be a positive whole number"),
        path, cat(pointer.as_str(), "/max_claim_count"), None, Some(owner.id.clone()));
    let ghost s3 = out@;
    let bad_requires = match get(points, "requires") { Some(gate) => !is_string_sequence(gate), None => false };
    error_if(out, bad_requires, "points.requires_type",
        owned("point award `requires` must be a sequence of persistent requirement IDs"), path,
        cat(pointer.as_str(), "/requires"), None, Some(owner.id.clone()));
    proof {
        lemma_added_findings_trans(s0, s1, s2);
        lemma_added_findings_trans(s0, s2, s3);
        lemma_added_findings_trans(s0, s3, out@);
    }
}

/// `validate_point_awards` for one group of owners: `points` is a mapping with a positive
/// `value`, optional positive `max_claim_count` and optional `requires` list.
pub fn validate_point_awards(out: &mut Vec<Diagnostic>, owners: &Vec<Item>)
    ensures
        appended(old(out)@, final(out)@),
        added_findings(old(out)@, final(out)@) == findings_over(owners@, |o: Item| point_award_findings(o)),
{
    let mut i: usize = 0;
    proof { lemma_added_findings_none(out@); }
    while i < owners.len()
        invariant
            0 <= i <= owners@.len(),
            appended(old(out)@, out@),
            added_findings(old(out)@, out@) == findings_over(owners@.take(i as int), |o: Item| point_award_findings(o)),
        decreases owners@.len() - i,
    {
        let ghost s0 = out@;
        validate_point_award(out, &owners[i]);
        proof {
            lemma_added_findings_trans(old(out)@, s0, out@);
            lemma_findings_over_step(owners@, |o: Item| point_award_findings(o), i as int);
        }
        i += 1;
    }
    proof { lemma_take_all(owners@); }
}

/// An owner that may not award points and declares `points`.
pub open spec fn disallowed_points_findings(owner: Item) -> Seq<Finding> {
    finding_if(map_get(owner.mapping@, "points"@) is Some, error_at("points.owner"@, owner.pointer@ + "/points"@))
}

/// `validate_disallowed_point_owners` for one group: these owners may not award points.
pub fn validate_disallowed_point_owners(out: &mut Vec<Diagnostic>, owners: &Vec<Item>)
    ensures
        appended(old(out)@, final(out)@),
        added_findings(old(out)@, final(out)@) == findings_over(owners@, |o: Item| disallowed_points_findings(o)),
{
    let mut i: usize = 0;
    proof { lemma_added_findings_none(out@); }
    while i < owners.len()
        invariant
            0 <= i <= owners@.len(),
            appended(old(out)@, out@),
            added_findings(old(out)@, out@) == findings_over(owners@.take(i as int), |o: Item| disallowed_points_findings(o)),
        decreases owners@.len() - i,
    {
        let owner = &owners[i];
        let ghost b = out@;
        error_if(out, contains_key(&owner.mapping, "points"), "points.owner",
            owned("`points` is supported only on settings, entities, deductions, and commands"),
            owner.path.as_str(), cat(owner.pointer.as_str(), "/points"), None, Some(owner.id.clone()));
        proof {
            lemma_added_findings_trans(old(out)@, b, out@);
            lemma_findings_over_step(owners@, |o: Item| disallowed_points_findings(o), i as int);
        }
        i += 1;
    }
    proof { lemma_take_all(owners@); }
}

/// An item that still carries an inline `tag_id`.
pub open spec fn inline_tag_findings(item: Item) -> Seq<Finding> {
    finding_if(map_get(item.mapping@, "tag_id"@) is Some,
        error_at("deck.legacy_inline_tag_id"@, item.pointer@ + "/tag_id"@))
}

/// `validate_legacy_inline_tag_ids` for one group: `tag_id` belongs in `deck.yaml`.
pub fn validate_legacy_inline_tag_ids(out: &mut Vec<Diagnostic>, items: &Vec<Item>)
    ensures
        appended(old(out)@, final(out)@),
        added_findings(old(out)@, final(out)@) == findings_over(items@, |i: Item| inline_tag_findings(i)),
{
    let mut i: usize = 0;
    proof { lemma_added_findings_none(out@); }
    while i < items.len()
        invariant
            0 <= i <= items@.len(),
            appended(old(out)@, out@),
            added_findings(old(out)@, out@) == findings_over(items@.take(i as int), |i: Item| inline_tag_findings(i)),
        decreases items@.len() - i,
    {
        let item = &items[i];
        let ghost b = out@;
        if let Some(value) = get(&item.mapping, "tag_id") {
            let shown = match value.as_i64() { Some(id) => i64_to_decimal(id), None => owned("…") };
            let range = locate_item_field(item.source.as_str(), item.id.as_str(), "tag_id");
            let head = cat3("legacy inline `tag_id` on `", item.id.as_str(), "` must move to `deck.yaml` as `{ tag_id: ");
            let message = cat5(head.as_str(), shown.as_str(), ", subject: ", item.id.as_str(), " }`");
            error_if(out, true, "deck.legacy_inline_tag_id", message, item.path.as_str(),
                cat(item.pointer.as_str(), "/tag_id"), range, Some(item.id.clone()));
        } else {
            proof { lemma_added_findings_none(b); }
        }
        proof {
            lemma_added_findings_trans(old(out)@, b, out@);
            lemma_findings_over_step(items@, |i: Item| inline_tag_findings(i), i as int);
        }
        i += 1;
    }
    proof { lemma_take_all(items@); }
}

/// A character allowed in a voice ID.
pub open spec fn voice_char(c: char) -> bool {
    ('a' <= c && c <= 'z') || ('A' <= c && c <= 'Z') || ('0' <= c && c <= '9') || c == '-' || c == '_'
}

/// 1 to 128 ASCII letters, digits, `-` and `_`.
pub open spec fn spec_valid_voice_id(s: Seq<char>) -> bool {
    &&& 0 < s.len() <= 128
    &&& forall|i: int| 0 <= i < s.len() ==> voice_char(#[trigger] s[i])
}

/// ASCII letters, digits, `-` and `_`, 1 to 128 of them.
fn valid_voice_id(voice_id: &str) -> (r: bool)
    ensures
        r == spec_valid_voice_id(voice_id@),
{
    let chars = chars_of(voice_id);
    if chars.len() == 0 || chars.len() > 128 {
        return false;
    }
    let mut i: usize = 0;
    while i < chars.len()
        invariant
            chars@ == voice_id@,
            0 <= i <= chars@.len(),
            forall|k: int| 0 <= k < i ==> voice_char(#[trigger] chars@[k]),
        decreases chars@.len() - i,
    {
        let c = chars[i];
        let ok = ('a' <= c && c <= 'z') || ('A' <= c && c <= 'Z') || ('0' <= c && c <= '9') || c == '-' || c == '_';
        if !ok {
            return false;
        }
        i += 1;
    }
    true
}

/// A `voice_id` that is present but not a valid voice ID.
pub open spec fn voice_id_findings(character: Item) -> Seq<Finding> {
    finding_if(
        match map_get(character.mapping@, "voice_id"@) {
            Some(v) => !(spec_as_str(v) matches Some(s) && spec_valid_voice_id(s)),
            None => false,
        },
        error_at("character.voice_id"@, character.pointer@ + "/voice_id"@))
}

/// `validate_character_voice_id`.
fn validate_character_voice_id(out: &mut Vec<Diagnostic>, character: &Item)
    ensures
        appended(old(out)@, final(out)@),
        added_findings(old(out)@, final(out)@) == voice_id_findings(*character),
{
    let invalid = match get(&character.mapping, "voice_id") {
        Some(voice_id) => match voice_id.as_str() { Some(v) => !valid_voice_id(v), None => true },
        None => false,
    };
    error_if(out, invalid, "character.voice_id",
        owned("character `voice_id` must be a 1–128 character ElevenLabs voice ID containing only ASCII letters, numbers, `-`, or `_`"),
        character.path.as_str(), cat(character.pointer.as_str(), "/voice_id"), None, Some(character.id.clone()));
}

/// A portrayal entry whose key is `demeanor` or `speech_style`.
pub open spec fn supported_portrayal_key(entry: (YamlValue, YamlValue)) -> bool {
    spec_as_str(entry.0) matches Some(k) && (k == "demeanor"@ || k == "speech_style"@)
}

/// The finding for one portrayal entry: a string key, one of the supported fields, with
/// a non-blank string value.
pub open spec fn portrayal_entry_findings(entry: (YamlValue, YamlValue), pointer: Seq<char>) -> Seq<Finding> {
    match spec_as_str(entry.0) {
        None => seq![error_at("character.portrayal_field"@, pointer)],
        Some(key) => if !(key == "demeanor"@ || key == "speech_style"@) {
            seq![error_at("character.portrayal_unknown_field"@, pointer + seq!['/'] + spec_escape_pointer(key))]
        } else {
            finding_if(!spec_is_text(entry.1),
                error_at("character.portrayal_value"@, pointer + seq!['/'] + spec_escape_pointer(key)))
        },
    }
}

/// The findings for a character's `portrayal`: a mapping with at least one supported field,
/// each entry checked in order.
pub open spec fn portrayal_findings(character: Item) -> Seq<Finding> {
    let p = character.pointer@ + "/portrayal"@;
    match map_get(character.mapping@, "portrayal"@) {
        None => Seq::empty(),
        Some(v) => match spec_as_mapping(v) {
            None => seq![error_at("character.portrayal_type"@, p)],
            Some(entries) =>
                finding_if(entries.len() == 0, error_at("character.portrayal_empty"@, p))
                + findings_over(entries, |e: (YamlValue, YamlValue)| portrayal_entry_findings(e, p))
                + finding_if(entries.len() > 0
                    && !(exists|i: int| 0 <= i < entries.len() && supported_portrayal_key(#[trigger] entries[i])),
                    error_at("character.portrayal_empty"@, p)),
        },
    }
}

/// A non-empty mapping of `demeanor` and `speech_style`
/// strings.
fn validate_character_portrayal(out: &mut Vec<Diagnostic>, character: &Item)
    ensures
        appended(old(out)@, final(out)@),
        added_findings(old(out)@, final(out)@) == portrayal_findings(*character),
{
    let ghost s0 = out@;
    let portrayal = match get(&character.mapping, "portrayal") {
        Some(p) => p,
        None => {
            proof { lemma_added_findings_none(s0); }
            return;
        },
    };
    let path = character.path.as_str();
    let pointer = cat(character.pointer.as_str(), "/portrayal");
    let portrayal = match portrayal.as_mapping() {
        Some(p) => p,
        None => {
            error_if(out, true, "character.portrayal_type", owned("character `portrayal` must be a mapping"), path,
                pointer, None, Some(character.id.clone()));
            return;
        },
    };
    error_if(out, portrayal.len() == 0, "character.portrayal_empty",
        owned("character `portrayal` must contain `demeanor` or `speech_style`"),
        path, pointer.clone(), None, Some(character.id.clone()));
    let ghost s1 = out@;
    let mut has_supported_field = false;
    let mut i: usize = 0;
    proof { lemma_added_findings_none(s1); }
    while i < portrayal.len()
        invariant
            0 <= i <= portrayal@.len(),
            appended(s1, out@),
            added_findings(s1, out@) == findings_over(portrayal@.take(i as int),
                |e: (YamlValue, YamlValue)| portrayal_entry_findings(e, pointer@)),
            has_supported_field == exists|j: int| 0 <= j < i && supported_portrayal_key(#[trigger] portrayal@[j]),
        decreases portrayal@.len() - i,
    {
        let ghost b = out@;
        match portrayal[i].0.as_str() {
            None => {
                error_if(out, true, "character.portrayal_field", owned("character portrayal field names must be strings"),
                    path, pointer.clone(), None, Some(character.id.clone()));
            },
            Some(key) => {
                let field_pointer = child(pointer.as_str(), key);
                if !(str_eq(key, "demeanor") || str_eq(key, "speech_style")) {
                    error_if(out, true, "character.portrayal_unknown_field",
                        cat3("`", key, "` is not a supported player-safe portrayal field"), path,
                        field_pointer, None, Some(character.id.clone()));
                } else {
                    has_supported_field = true;
                    error_if(out, !is_text(&portrayal[i].1), "character.portrayal_value",
                        cat3("character portrayal `", key, "` must be a non-empty string"),
                        path, field_pointer, None, Some(character.id.clone()));
                }
            },
        }
        proof {
            lemma_added_findings_trans(s1, b, out@);
            lemma_findings_over_step(portrayal@, |e: (YamlValue, YamlValue)| portrayal_entry_findings(e, pointer@), i as int);
            if supported_portrayal_key(portrayal@[i as int]) {
                assert(exists|j: int| 0 <= j < i + 1 && supported_portrayal_key(#[trigger] portrayal@[j]));
            }
        }
        i += 1;
    }
    proof { lemma_take_all(portrayal@); }
    let ghost s2 = out@;
    error_if(out, portrayal.len() > 0 && !has_supported_field, "character.portrayal_empty",
        owned("character `portrayal` must contain `demeanor` or `speech_style`"),
        path, pointer, None, Some(character.id.clone()));
    proof {
        lemma_added_findings_trans(s0, s1, s2);
        lemma_added_findings_trans(s0, s2, out@);
    }
}

/// A string key of a testimony entry outside `id`, `text`, `requires` and `reveals`, or a
/// key that is not a string.
pub open spec fn testimony_field_findings(entry: (YamlValue, YamlValue), pointer: Seq<char>) -> Seq<Finding> {
    match spec_as_str(entry.0) {
        None => seq![error_at("character.testimony_field"@, pointer)],
        Some(key) => finding_if(!(key == "id"@ || key == "text"@ || key == "requires"@ || key == "reveals"@),
            error_at("character.testimony_unknown_field"@, pointer + seq!['/'] + spec_escape_pointer(key))),
    }
}

/// An ID whose prefix is `command`.
pub open spec fn is_command_id(id: Seq<char>) -> bool {
    spec_id_prefix(id) == Some("command"@)
}

/// The findings for the `requires` of one testimony entry once it is a non-empty list of
/// IDs: it names `command.question` and the owner, and no other command.
pub open spec fn testimony_requirement_findings(owner: Seq<char>, requirements: Seq<Seq<char>>, pointer: Seq<char>) -> Seq<Finding> {
    finding_if(!requirements.contains("command.question"@), error_at("character.testimony_question_requirement"@, pointer))
    + finding_if(!requirements.contains(owner), error_at("character.testimony_character_requirement"@, pointer))
    + findings_indexed(requirements, |q: int, r: Seq<char>| finding_if(is_command_id(r) && r != "command.question"@,
        error_at("character.testimony_command_requirement"@, pointer + seq!['/'] + decimal(q as nat))))
}

/// The findings for one testimony entry (entries that are not mappings are left to the
/// strict field contract).
pub open spec fn testimony_entry_findings(character: Item, index: int, value: YamlValue) -> Seq<Finding> {
    match spec_as_mapping(value) {
        None => Seq::empty(),
        Some(entry) => {
            let p = character.pointer@ + "/testimony"@ + seq!['/'] + decimal(index as nat);
            findings_over(entry, |e: (YamlValue, YamlValue)| testimony_field_findings(e, p))
            + finding_if(!text_field(entry, "text"@), error_at("character.testimony_text"@, p + "/text"@))
            + (if !(map_get(entry, "requires"@) matches Some(r) && spec_is_nonempty_string_sequence(r, false)) {
                seq![error_at("character.testimony_requires_type"@, p + "/requires"@)]
            } else {
                testimony_requirement_findings(character.id@, spec_string_list_field(entry, "requires"@), p + "/requires"@)
            })
            + finding_if(map_get(entry, "reveals"@) matches Some(r) && !spec_is_nonempty_string_sequence(r, true),
                error_at("character.testimony_reveals_type"@, p + "/reveals"@))
        },
    }
}

/// The findings for a character's `testimony` sequence, entry by entry.
pub open spec fn testimony_findings(character: Item) -> Seq<Finding> {
    match map_get(character.mapping@, "testimony"@) {
        Some(v) => match spec_as_sequence(v) {
            Some(entries) => findings_indexed(entries, |i: int, e: YamlValue| testimony_entry_findings(character, i, e)),
            None => Seq::empty(),
        },
        None => Seq::empty(),
    }
}

/// The `requires` checks of one testimony entry whose `requires` is a non-empty ID list.
fn validate_testimony_requirements(
    out: &mut Vec<Diagnostic>,
    character: &Item,
    requirements: &Vec<String>,
    requires_pointer: &String,
    subject: &String,
)
    ensures
        appended(old(out)@, final(out)@),
        added_findings(old(out)@, final(out)@) == testimony_requirement_findings(character.id@,
            requirements@.map_values(|s: String| s@), requires_pointer@),
{
    let ghost reqs = requirements@.map_values(|s: String| s@);
    let path = character.path.as_str();
    let mut has_question = false;
    let mut has_owner = false;
    let mut r: usize = 0;
    while r < requirements.len()
        invariant
            0 <= r <= requirements@.len(),
            reqs == requirements@.map_values(|s: String| s@),
            has_question == exists|j: int| 0 <= j < r && reqs[j] == "command.question"@,
            has_owner == exists|j: int| 0 <= j < r && reqs[j] == character.id@,
        decreases requirements@.len() - r,
    {
        if str_eq(requirements[r].as_str(), "command.question") {
            has_question = true;
        }
        if str_eq(requirements[r].as_str(), character.id.as_str()) {
            has_owner = true;
        }
        proof {
            assert(reqs[r as int] == requirements@[r as int]@);
            if has_question { assert(exists|j: int| 0 <= j < r + 1 && reqs[j] == "command.question"@); }
            if has_owner { assert(exists|j: int| 0 <= j < r + 1 && reqs[j] == character.id@); }
        }
        r += 1;
    }
    let ghost t0 = out@;
    error_if(out, !has_question, "character.testimony_question_requirement",
        owned("character testimony `requires` must include `command.question`"), path,
        requires_pointer.clone(), None, Some(subject.clone()));
    let ghost t1 = out@;
    error_if(out, !has_owner, "character.testimony_character_requirement",
        cat3("character testimony `requires` must include its owner `", character.id.as_str(), "`"), path,
        requires_pointer.clone(), None, Some(subject.clone()));
    let ghost t2 = out@;
    let mut q: usize = 0;
    proof { lemma_added_findings_none(t2); }
    while q < requirements.len()
        invariant
            0 <= q <= requirements@.len(),
            reqs == requirements@.map_values(|s: String| s@),
            appended(t2, out@),
            added_findings(t2, out@) == findings_indexed(reqs.take(q as int), |q: int, r: Seq<char>|
                finding_if(is_command_id(r) && r != "command.question"@,
                    error_at("character.testimony_command_requirement"@, requires_pointer@ + seq!['/'] + decimal(q as nat)))),
        decreases requirements@.len() - q,
    {
        let requirement = requirements[q].as_str();
        let is_command = match id_prefix(requirement) { Some(p) => str_eq(p.as_str(), "command"), None => false };
        let ghost b = out@;
        error_if(out, is_command && !str_eq(requirement, "command.question"), "character.testimony_command_requirement",
            cat3("character testimony cannot require `", requirement,
                "`; `command.question` is the only compatible command gate"), path,
            child_index(requires_pointer.as_str(), q), locate_scalar(character.source.as_str(), requirement),
            Some(subject.clone()));
        proof {
            assert(reqs[q as int] == requirements@[q as int]@);
            lemma_added_findings_trans(t2, b, out@);
            lemma_findings_indexed_step(reqs, |q: int, r: Seq<char>|
                finding_if(is_command_id(r) && r != "command.question"@,
                    error_at("character.testimony_command_requirement"@, requires_pointer@ + seq!['/'] + decimal(q as nat))),
                q as int);
        }
        q += 1;
    }
    proof {
        lemma_take_all(reqs);
        lemma_added_findings_trans(t0, t1, t2);
        lemma_added_findings_trans(t0, t2, out@);
        assert(reqs.contains("command.question"@) == exists|j: int| 0 <= j < reqs.len() && reqs[j] == "command.question"@);
    }
}

/// The checks of one testimony entry.
fn validate_testimony_entry(out: &mut Vec<Diagnostic>, character: &Item, index: usize, value: &YamlValue)
    ensures
        appended(old(out)@, final(out)@),
        added_findings(old(out)@, final(out)@) == testimony_entry_findings(*character, index as int, *value),
{
    let ghost s0 = out@;
    let entry = match value.as_mapping() {
        Some(entry) => entry,
        None => {
            proof { lemma_added_findings_none(s0); }
            return;
        },
    };
    let path = character.path.as_str();
    let pointer = child_index(cat(character.pointer.as_str(), "/testimony").as_str(), index);
    let subject = match string_field(entry, "id") {
        Some(id) => if nonblank(id) { owned(id) } else { character.id.clone() },
        None => character.id.clone(),
    };
    let mut k: usize = 0;
    proof { lemma_added_findings_none(s0); }
    while k < entry.len()
        invariant
            0 <= k <= entry@.len(),
            appended(s0, out@),
            added_findings(s0, out@) == findings_over(entry@.take(k as int),
                |e: (YamlValue, YamlValue)| testimony_field_findings(e, pointer@)),
        decreases entry@.len() - k,
    {
        let ghost b = out@;
        match entry[k].0.as_str() {
            None => {
                error_if(out, true, "character.testimony_field", owned("character testimony field names must be strings"),
                    path, pointer.clone(), None, Some(subject.clone()));
            },
            Some(key) => {
                let known = str_eq(key, "id") || str_eq(key, "text") || str_eq(key, "requires") || str_eq(key, "reveals");
                error_if(out, !known, "character.testimony_unknown_field",
                    cat3("`", key, "` is not a supported player-safe testimony field"), path,
                    child(pointer.as_str(), key), None, Some(subject.clone()));
            },
        }
        proof {
            lemma_added_findings_trans(s0, b, out@);
            lemma_findings_over_step(entry@, |e: (YamlValue, YamlValue)| testimony_field_findings(e, pointer@), k as int);
        }
        k += 1;
    }
    proof { lemma_take_all(entry@); }
    let ghost s1 = out@;
    error_if(out, !has_text_field(entry, "text"), "character.testimony_text",
        owned("character testimony `text` must be a non-empty string"), path,
        cat(pointer.as_str(), "/text"), None, Some(subject.clone()));
    let ghost s2 = out@;
    let requires_pointer = cat(pointer.as_str(), "/requires");
    let valid_requires = match get(entry, "requires") {
        Some(r) => is_nonempty_string_sequence(r, false),
        None => false,
    };
    if !valid_requires {
        error_if(out, true, "character.testimony_requires_type",
            owned("character testimony `requires` must be a non-empty sequence of non-empty IDs"), path,
            requires_pointer.clone(), None, Some(subject.clone()));
    } else {
        let requirements = string_list_field(entry, "requires");
        validate_testimony_requirements(out, character, &requirements, &requires_pointer, &subject);
    }
    let ghost s3 = out@;
    let bad_reveals = match get(entry, "reveals") {
        Some(r) => !is_nonempty_string_sequence(r, true),
        None => false,
    };
    error_if(out, bad_reveals, "character.testimony_reveals_type",
        owned("character testimony `reveals` must be a sequence of non-empty fact IDs"), path,
        cat(pointer.as_str(), "/reveals"), None, Some(subject));
    proof {
        lemma_added_findings_trans(s0, s1, s2);
        lemma_added_findings_trans(s0, s2, s3);
        lemma_added_findings_trans(s0, s3, out@);
    }
}

/// Fields, text, `requires` (including
/// `command.question` and the owner, and no other command), and `reveals`.
fn validate_character_testimony(out: &mut Vec<Diagnostic>, character: &Item)
    ensures
        appended(old(out)@, final(out)@),
        added_findings(old(out)@, final(out)@) == testimony_findings(*character),
{
    let ghost s0 = out@;
    let entries = match get(&character.mapping, "testimony") {
        Some(v) => match v.as_sequence() {
            Some(e) => e,
            None => {
                proof { lemma_added_findings_none(s0); }
                return;
            },
        },
        None => {
            proof { lemma_added_findings_none(s0); }
            return;
        },
    };
    let mut index: usize = 0;
    proof { lemma_added_findings_none(s0); }
    while index < entries.len()
        invariant
            0 <= index <= entries@.len(),
            appended(s0, out@),
            added_findings(s0, out@) == findings_indexed(entries@.take(index as int),
                |i: int, e: YamlValue| testimony_entry_findings(*character, i, e)),
        decreases entries@.len() - index,
    {
        let ghost b = out@;
        validate_testimony_entry(out, character, index, &entries[index]);
        proof {
            lemma_added_findings_trans(s0, b, out@);
            lemma_findings_indexed_step(entries@, |i: int, e: YamlValue| testimony_entry_findings(*character, i, e),
                index as int);
        }
        index += 1;
    }
    proof { lemma_take_all(entries@); }
}

/// The findings for a persistent requirement at `pointer`: one non-blank ID, or a
/// non-empty list whose entries that are not non-blank strings are reported one by one.
pub open spec fn requires_entries_findings(gate: YamlValue, pointer: Seq<char>, entry_code: Seq<char>, shape_code: Seq<char>) -> Seq<Finding> {
    match gate {
        YamlValue::String(id) => finding_if(!has_text(id@), error_at(shape_code, pointer)),
        YamlValue::Sequence(values) => if values@.len() == 0 {
            seq![error_at(shape_code, pointer)]
        } else {
            findings_indexed(values@, |i: int, v: YamlValue| finding_if(!spec_is_text(v),
                error_at(entry_code, pointer + seq!['/'] + decimal(i as nat))))
        },
        _ => seq![error_at(shape_code, pointer)],
    }
}

/// A non-empty persistent requirement: one non-blank ID, or a non-empty list whose
/// blank or non-string entries are reported one by one.
fn validate_requires_entries(
    out: &mut Vec<Diagnostic>,
    item: &Item,
    gate: &YamlValue,
    requires_pointer: &str,
    entry_code: &str,
    entry_message: &str,
    shape_code: &str,
    shape_message: &str,
)
    ensures
        appended(old(out)@, final(out)@),
        added_findings(old(out)@, final(out)@)
            == requires_entries_findings(*gate, requires_pointer@, entry_code@, shape_code@),
{
    match gate {
        YamlValue::String(id) => {
            error_if(out, !nonblank(id.as_str()), shape_code, owned(shape_message), item.path.as_str(),
                owned(requires_pointer), None, Some(item.id.clone()));
        },
        YamlValue::Sequence(values) => {
            if values.len() == 0 {
                error_if(out, true, shape_code, owned(shape_message), item.path.as_str(), owned(requires_pointer), None,
                    Some(item.id.clone()));
            } else {
                let mut i: usize = 0;
                proof { lemma_added_findings_none(out@); }
                while i < values.len()
                    invariant
                        0 <= i <= values@.len(),
                        appended(old(out)@, out@),
                        added_findings(old(out)@, out@) == findings_indexed(values@.take(i as int),
                            |i: int, v: YamlValue| finding_if(!spec_is_text(v),
                                error_at(entry_code@, requires_pointer@ + seq!['/'] + decimal(i as nat)))),
                    decreases values@.len() - i,
                {
                    let ghost b = out@;
                    error_if(out, !is_text(&values[i]), entry_code, owned(entry_message), item.path.as_str(),
                        child_index(requires_pointer, i), None, Some(item.id.clone()));
                    proof {
                        lemma_added_findings_trans(old(out)@, b, out@);
                        lemma_findings_indexed_step(values@, |i: int, v: YamlValue| finding_if(!spec_is_text(v),
                            error_at(entry_code@, requires_pointer@ + seq!['/'] + decimal(i as nat))), i as int);
                    }
                    i += 1;
                }
                proof { lemma_take_all(values@); }
            }
        },
        _ => {
            error_if(out, true, shape_code, owned(shape_message), item.path.as_str(), owned(requires_pointer), None,
                Some(item.id.clone()));
        },
    }
}

/// `initial` is a mapping whose `location` is a non-blank untagged string.
pub open spec fn has_initial_location(m: Seq<(YamlValue, YamlValue)>) -> bool {
    map_get(m, "initial"@) matches Some(v) && spec_as_mapping(v) matches Some(initial)
        && map_get(initial, "location"@) matches Some(l) && l matches YamlValue::String(t) && has_text(t@)
}

/// `initial` is present but not a mapping; placement checks stop there.
pub open spec fn initial_not_mapping(m: Seq<(YamlValue, YamlValue)>) -> bool {
    map_get(m, "initial"@) matches Some(v) && spec_as_mapping(v) is None
}

/// The findings for a character's `initial`: a mapping whose `location` is a non-blank
/// setting ID.
pub open spec fn initial_location_findings(character: Item) -> Seq<Finding> {
    let p = character.pointer@ + "/initial"@;
    match map_get(character.mapping@, "initial"@) {
        None => Seq::empty(),
        Some(v) => match spec_as_mapping(v) {
            None => seq![error_at("character.initial_type"@, p)],
            Some(initial) => match map_get(initial, "location"@) {
                Some(l) => finding_if(!(l matches YamlValue::String(t) && has_text(t@)),
                    error_at("character.location_type"@, p + "/location"@)),
                None => seq![error_at("character.location_missing"@, p + "/location"@)],
            },
        },
    }
}

/// The findings for a character's `presence`: it needs an initial location, and is a
/// mapping whose `requires` is a persistent requirement.
pub open spec fn presence_findings(character: Item) -> Seq<Finding> {
    let p = character.pointer@ + "/presence"@;
    match map_get(character.mapping@, "presence"@) {
        None => Seq::empty(),
        Some(v) =>
            finding_if(!has_initial_location(character.mapping@), error_at("character.presence_without_location"@, p))
            + match spec_as_mapping(v) {
                None => seq![error_at("character.presence_type"@, p)],
                Some(presence) => match map_get(presence, "requires"@) {
                    Some(gate) => requires_entries_findings(gate, p + "/requires"@,
                        "character.presence_requirement_type"@, "character.presence_requires_type"@),
                    None => seq![error_at("character.presence_requires_type"@, p + "/requires"@)],
                },
            },
    }
}

/// The placement findings of one character: its initial location, then (unless `initial`
/// is not a mapping) its presence gate.
pub open spec fn placement_findings(character: Item) -> Seq<Finding> {
    initial_location_findings(character)
    + if initial_not_mapping(character.mapping@) { Seq::empty() } else { presence_findings(character) }
}

/// `validate_character_placement` (format 3.1): `initial.location` and the `presence` gate.
fn validate_character_placement(out: &mut Vec<Diagnostic>, character: &Item)
    ensures
        appended(old(out)@, final(out)@),
        added_findings(old(out)@, final(out)@) == placement_findings(*character),
{
    let path = character.path.as_str();
    let ghost s0 = out@;
    let mut has_location = false;
    if let Some(initial) = get(&character.mapping, "initial") {
        let pointer = cat(character.pointer.as_str(), "/initial");
        match initial.as_mapping() {
            None => {
                error_if(out, true, "character.initial_type",
                    owned("character `initial` must be a mapping containing `location`"), path,
                    pointer, None, Some(character.id.clone()));
                return;
            },
            Some(initial) => {
                match get(initial, "location") {
                    Some(location) => {
                        let ok = match location { YamlValue::String(t) => nonblank(t.as_str()), _ => false };
                        has_location = ok;
                        error_if(out, !ok, "character.location_type",
                            owned("character `initial.location` must be a non-empty setting ID"),
                            path, cat(pointer.as_str(), "/location"), None, Some(character.id.clone()));
                    },
                    None => {
                        error_if(out, true, "character.location_missing",
                            owned("character `initial` must declare a setting `location`"),
                            path, cat(pointer.as_str(), "/location"), None, Some(character.id.clone()));
                    },
                }
            },
        }
    } else {
        proof { lemma_added_findings_none(s0); }
    }
    let ghost s1 = out@;
    let presence = match get(&character.mapping, "presence") {
        Some(p) => p,
        None => {
            proof {
                lemma_added_findings_none(s1);
                lemma_added_findings_trans(s0, s1, out@);
            }
            return;
        },
    };
    let pointer = cat(character.pointer.as_str(), "/presence");
    error_if(out, !has_location, "character.presence_without_location",
        owned("character `presence` requires an authoritative `initial.location`; add a setting location or remove the presence gate"),
        path, pointer.clone(), None, Some(character.id.clone()));
    let ghost s2 = out@;
    match presence.as_mapping() {
        None => {
            error_if(out, true, "character.presence_type", owned("character `presence` must be a mapping containing `requires`"),
                path, pointer, None, Some(character.id.clone()));
        },
        Some(presence) => {
            let requires_pointer = cat(pointer.as_str(), "/requires");
            let shape_message = "character `presence.requires` must be one persistent requirement ID or a non-empty list of unique IDs";
            match get(presence, "requires") {
                Some(gate) => validate_requires_entries(out, character, gate, requires_pointer.as_str(),
                    "character.presence_requirement_type", "character presence requirements must be non-empty IDs",
                    "character.presence_requires_type", shape_message),
                None => {
                    error_if(out, true, "character.presence_requires_type", owned(shape_message), path, requires_pointer,
                        None, Some(character.id.clone()));
                },
            }
        },
    }
    proof {
        lemma_added_findings_trans(s1, s2, out@);
        lemma_added_findings_trans(s0, s1, out@);
    }
}

/// The findings for one character: voice, portrayal, testimony, placement (from format
/// 3.1), and knowledge.
pub open spec fn character_findings(defs: Seq<(String, Definition)>, version: Option<StoryVersion>, facts_enabled: bool, character: Item) -> Seq<Finding> {
    voice_id_findings(character)
    + portrayal_findings(character)
    + testimony_findings(character)
    + (if spec_is_format_3_from(version, 1) { placement_findings(character) } else { Seq::empty() })
    + knowledge_findings(defs, facts_enabled, character)
}

/// Voice, portrayal, testimony, placement (format 3.1), and
/// the `knowledge` list.
pub fn validate_character_values(cx: &Context, out: &mut Vec<Diagnostic>, characters: &Vec<Item>, facts_enabled: bool)
    ensures
        appended(old(out)@, final(out)@),
        added_findings(old(out)@, final(out)@) == findings_over(characters@,
            |c: Item| character_findings(cx.definitions@, cx.format_version, facts_enabled, c)),
{
    let mut i: usize = 0;
    proof { lemma_added_findings_none(out@); }
    while i < characters.len()
        invariant
            0 <= i <= characters@.len(),
            appended(old(out)@, out@),
            added_findings(old(out)@, out@) == findings_over(characters@.take(i as int),
                |c: Item| character_findings(cx.definitions@, cx.format_version, facts_enabled, c)),
        decreases characters@.len() - i,
    {
        let character = &characters[i];
        let ghost s0 = out@;
        validate_character_voice_id(out, character);
        let ghost s1 = out@;
        validate_character_portrayal(out, character);
        let ghost s2 = out@;
        validate_character_testimony(out, character);
        let ghost s3 = out@;
        if cx.is_format_3_from(1) {
            validate_character_placement(out, character);
        } else {
            proof { lemma_added_findings_none(s3); }
        }
        let ghost s4 = out@;
        validate_character_knowledge(cx, out, character, facts_enabled);
        proof {
            lemma_added_findings_trans(s0, s1, s2);
            lemma_added_findings_trans(s0, s2, s3);
            lemma_added_findings_trans(s0, s3, s4);
            lemma_added_findings_trans(s0, s4, out@);
            lemma_added_findings_trans(old(out)@, s0, out@);
            lemma_findings_over_step(characters@,
                |c: Item| character_findings(cx.definitions@, cx.format_version, facts_enabled, c), i as int);
        }
        i += 1;
    }
    proof { lemma_take_all(characters@); }
}

/// A knowledge `fact` that is a non-blank string.
pub open spec fn knowledge_fact(entry: Seq<(YamlValue, YamlValue)>) -> Option<Seq<char>> {
    match spec_string_field(entry, "fact"@) {
        Some(f) => if has_text(f) { Some(f) } else { None },
        None => None,
    }
}

/// The findings for one knowledge entry at `pointer`.
pub open spec fn knowledge_entry_findings(defs: Seq<(String, Definition)>, facts_enabled: bool, value: YamlValue, pointer: Seq<char>) -> Seq<Finding> {
    match spec_as_mapping(value) {
        None => seq![error_at("character.knowledge_entry_type"@, pointer)],
        Some(entry) => match knowledge_fact(entry) {
            None => seq![error_at("character.knowledge_fact"@, pointer + "/fact"@)],
            Some(fact) =>
                (if !facts_enabled {
                    Seq::empty()
                } else if !spec_looks_like_id(fact) {
                    seq![error_at("character.knowledge_fact_reference"@, pointer + "/fact"@)]
                } else {
                    finding_if(kind_in(defs, fact) matches Some(k) && k != Kind::Fact,
                        error_at("reference.wrong_type"@, pointer + "/fact"@))
                })
                + finding_if(spec_present_without_text(entry, "source"@),
                    error_at("character.knowledge_source_type"@, pointer + "/source"@)),
        },
    }
}

/// The findings for a character's `knowledge`: a sequence of entries, each checked in order.
pub open spec fn knowledge_findings(defs: Seq<(String, Definition)>, facts_enabled: bool, character: Item) -> Seq<Finding> {
    let p = character.pointer@ + "/knowledge"@;
    match map_get(character.mapping@, "knowledge"@) {
        None => Seq::empty(),
        Some(v) => match spec_as_sequence(v) {
            None => seq![error_at("character.knowledge_type"@, p)],
            Some(entries) => findings_indexed(entries, |i: int, e: YamlValue|
                knowledge_entry_findings(defs, facts_enabled, e, p + seq!['/'] + decimal(i as nat))),
        },
    }
}

/// One knowledge entry.
fn validate_knowledge_entry(cx: &Context, out: &mut Vec<Diagnostic>, character: &Item, facts_enabled: bool,
    value: &YamlValue, pointer: String)
    ensures
        appended(old(out)@, final(out)@),
        added_findings(old(out)@, final(out)@)
            == knowledge_entry_findings(cx.definitions@, facts_enabled, *value, pointer@),
{
    let path = character.path.as_str();
    let ghost s0 = out@;
    let entry = match value.as_mapping() {
        None => {
            error_if(out, true, "character.knowledge_entry_type", owned("character knowledge entries must be mappings"), path,
                pointer, None, Some(character.id.clone()));
            return;
        },
        Some(entry) => entry,
    };
    let fact = match string_field(entry, "fact") { Some(f) => if nonblank(f) { Some(f) } else { None }, None => None };
    let fact = match fact {
        None => {
            error_if(out, true, "character.knowledge_fact", owned("character knowledge `fact` must be a non-empty string"),
                path, cat(pointer.as_str(), "/fact"), None, Some(character.id.clone()));
            return;
        },
        Some(fact) => fact,
    };
    if facts_enabled {
        if !looks_like_id(fact) {
            error_if(out, true, "character.knowledge_fact_reference",
                owned("character knowledge `fact` must be a fact ID when facts are authored"), path,
                cat(pointer.as_str(), "/fact"), locate_scalar(character.source.as_str(), fact),
                Some(character.id.clone()));
        } else {
            let wrong = match cx.kind_of(fact) { Some(kind) => kind != Kind::Fact, None => false };
            error_if(out, wrong, "reference.wrong_type", cat3("`", fact, "` does not refer to a fact"), path,
                cat(pointer.as_str(), "/fact"), locate_scalar(character.source.as_str(), fact), Some(owned(fact)));
        }
    } else {
        proof { lemma_added_findings_none(s0); }
    }
    let ghost t = out@;
    error_if(out, present_without_text(entry, "source"), "character.knowledge_source_type",
        owned("character knowledge `source` must be a non-empty ID when present"), path,
        cat(pointer.as_str(), "/source"), None, Some(character.id.clone()));
    proof { lemma_added_findings_trans(s0, t, out@); }
}

/// A character's `knowledge`: mappings with a non-empty `fact` (a fact ID when facts are
/// authored) and an optional non-empty `source`.
fn validate_character_knowledge(cx: &Context, out: &mut Vec<Diagnostic>, character: &Item, facts_enabled: bool)
    ensures
        appended(old(out)@, final(out)@),
        added_findings(old(out)@, final(out)@) == knowledge_findings(cx.definitions@, facts_enabled, *character),
{
    let ghost s0 = out@;
    let knowledge = match get(&character.mapping, "knowledge") {
        Some(k) => k,
        None => {
            proof { lemma_added_findings_none(s0); }
            return;
        },
    };
    let path = character.path.as_str();
    let base = cat(character.pointer.as_str(), "/knowledge");
    let knowledge = match knowledge.as_sequence() {
        Some(k) => k,
        None => {
            error_if(out, true, "character.knowledge_type", owned("character `knowledge` must be a sequence"), path,
                base, None, Some(character.id.clone()));
            return;
        },
    };
    let mut index: usize = 0;
    proof { lemma_added_findings_none(s0); }
    while index < knowledge.len()
        invariant
            0 <= index <= knowledge@.len(),
            appended(s0, out@),
            added_findings(s0, out@) == findings_indexed(knowledge@.take(index as int), |i: int, e: YamlValue|
                knowledge_entry_findings(cx.definitions@, facts_enabled, e, base@ + seq!['/'] + decimal(i as nat))),
        decreases knowledge@.len() - index,
    {
        let ghost b = out@;
        validate_knowledge_entry(cx, out, character, facts_enabled, &knowledge[index], child_index(base.as_str(), index));
        proof {
            lemma_added_findings_trans(s0, b, out@);
            lemma_findings_indexed_step(knowledge@, |i: int, e: YamlValue|
                knowledge_entry_findings(cx.definitions@, facts_enabled, e, base@ + seq!['/'] + decimal(i as nat)),
                index as int);
        }
        index += 1;
    }
    proof { lemma_take_all(knowledge@); }
}

/// `key` is present but not a mapping.
pub open spec fn present_not_mapping(m: Seq<(YamlValue, YamlValue)>, key: Seq<char>) -> bool {
    map_get(m, key) matches Some(v) && spec_as_mapping(v) is None
}

/// Capability booleans that do not belong on an entity.
pub open spec fn capability_findings(entity: Item) -> Seq<Finding> {
    let p = entity.pointer@;
    let m = entity.mapping@;
    finding_if(map_get(m, "portable"@) is Some, error_at("entity.capability_field"@, p + "/portable"@))
    + finding_if(map_get(m, "searchable"@) is Some, error_at("entity.capability_field"@, p + "/searchable"@))
    + finding_if(map_get(m, "investigatable"@) is Some, error_at("entity.capability_field"@, p + "/investigatable"@))
    + finding_if(map_get(m, "takeable"@) is Some, error_at("entity.capability_field"@, p + "/takeable"@))
}

/// A non-blank `initial.container` when `initial` is a mapping.
pub open spec fn initial_container_findings(entity: Item) -> Seq<Finding> {
    match map_get(entity.mapping@, "initial"@) {
        Some(v) => match spec_as_mapping(v) {
            Some(initial) => finding_if(spec_present_without_text(initial, "container"@),
                error_at("entity.container_type"@, entity.pointer@ + "/initial"@ + "/container"@)),
            None => Seq::empty(),
        },
        None => Seq::empty(),
    }
}

/// One key of an entity's `physical` mapping: a string, and only `portable`.
pub open spec fn physical_field_findings(entry: (YamlValue, YamlValue), pointer: Seq<char>) -> Seq<Finding> {
    match spec_as_str(entry.0) {
        Some(field) => finding_if(field != "portable"@,
            error_at("entity.physical_unknown_field"@, pointer + seq!['/'] + spec_escape_pointer(field))),
        None => seq![error_at("entity.physical_field"@, pointer)],
    }
}

/// The known fields of `physical`, with a boolean `portable`.
pub open spec fn physical_findings(entity: Item) -> Seq<Finding> {
    let p = entity.pointer@ + "/physical"@;
    match map_get(entity.mapping@, "physical"@) {
        Some(v) => match spec_as_mapping(v) {
            Some(physical) => findings_over(physical, |e: (YamlValue, YamlValue)| physical_field_findings(e, p))
                + finding_if(spec_present_not_bool(physical, "portable"@), error_at("entity.portable_type"@, p + "/portable"@)),
            None => Seq::empty(),
        },
        None => Seq::empty(),
    }
}

/// One key of an entity's `visibility` mapping: a string, and only `requires`.
pub open spec fn visibility_field_findings(entry: (YamlValue, YamlValue), pointer: Seq<char>) -> Seq<Finding> {
    match spec_as_str(entry.0) {
        Some(field) => finding_if(field != "requires"@,
            error_at("entity.visibility_unknown_field"@, pointer + seq!['/'] + spec_escape_pointer(field))),
        None => seq![error_at("entity.visibility_field"@, pointer)],
    }
}

/// A mapping of known fields whose `requires` is a persistent requirement.
pub open spec fn visibility_findings(entity: Item) -> Seq<Finding> {
    let p = entity.pointer@ + "/visibility"@;
    match map_get(entity.mapping@, "visibility"@) {
        None => Seq::empty(),
        Some(v) => match spec_as_mapping(v) {
            None => seq![error_at("entity.visibility_type"@, p)],
            Some(visibility) => findings_over(visibility, |e: (YamlValue, YamlValue)| visibility_field_findings(e, p))
                + match map_get(visibility, "requires"@) {
                    Some(gate) => requires_entries_findings(gate, p + "/requires"@,
                        "entity.visibility_requirement_type"@, "entity.visibility_requires_type"@),
                    None => Seq::empty(),
                },
        },
    }
}

/// The findings for one entity. A non-mapping `initial` or `physical` stops the checks
/// that follow it.
pub open spec fn entity_findings(entity: Item) -> Seq<Finding> {
    let m = entity.mapping@;
    capability_findings(entity)
    + if initial_not_mapping(m) {
        seq![error_at("entity.initial_type"@, entity.pointer@ + "/initial"@)]
    } else {
        initial_container_findings(entity)
        + if present_not_mapping(m, "physical"@) {
            seq![error_at("entity.physical_type"@, entity.pointer@ + "/physical"@)]
        } else {
            physical_findings(entity) + visibility_findings(entity)
        }
    }
}

/// Capability booleans, `initial.container`, `physical`, and
/// `visibility`.
pub fn validate_entity_values(out: &mut Vec<Diagnostic>, entities: &Vec<Item>)
    ensures
        appended(old(out)@, final(out)@),
        added_findings(old(out)@, final(out)@) == findings_over(entities@, |e: Item| entity_findings(e)),
{
    let mut i: usize = 0;
    proof { lemma_added_findings_none(out@); }
    while i < entities.len()
        invariant
            0 <= i <= entities@.len(),
            appended(old(out)@, out@),
            added_findings(old(out)@, out@) == findings_over(entities@.take(i as int), |e: Item| entity_findings(e)),
        decreases entities@.len() - i,
    {
        let ghost s0 = out@;
        validate_entity(out, &entities[i]);
        proof {
            lemma_added_findings_trans(old(out)@, s0, out@);
            lemma_findings_over_step(entities@, |e: Item| entity_findings(e), i as int);
        }
        i += 1;
    }
    proof { lemma_take_all(entities@); }
}

/// The keys of a `physical` mapping.
fn validate_physical_fields(out: &mut Vec<Diagnostic>, entity: &Item, physical: &Vec<(YamlValue, YamlValue)>, pointer: &String)
    ensures
        appended(old(out)@, final(out)@),
        added_findings(old(out)@, final(out)@)
            == findings_over(physical@, |e: (YamlValue, YamlValue)| physical_field_findings(e, pointer@)),
{
    let path = entity.path.as_str();
    let mut k: usize = 0;
    proof { lemma_added_findings_none(out@); }
    while k < physical.len()
        invariant
            0 <= k <= physical@.len(),
            appended(old(out)@, out@),
            added_findings(old(out)@, out@)
                == findings_over(physical@.take(k as int), |e: (YamlValue, YamlValue)| physical_field_findings(e, pointer@)),
        decreases physical@.len() - k,
    {
        let ghost b = out@;
        match physical[k].0.as_str() {
            Some(field) => {
                error_if(out, !str_eq(field, "portable"), "entity.physical_unknown_field",
                    cat3("`", field, "` is not a supported entity physical field"), path,
                    child(pointer.as_str(), field), None, Some(entity.id.clone()));
            },
            None => {
                error_if(out, true, "entity.physical_field", owned("entity physical field names must be strings"), path,
                    pointer.clone(), None, Some(entity.id.clone()));
            },
        }
        proof {
            lemma_added_findings_trans(old(out)@, b, out@);
            lemma_findings_over_step(physical@, |e: (YamlValue, YamlValue)| physical_field_findings(e, pointer@), k as int);
        }
        k += 1;
    }
    proof { lemma_take_all(physical@); }
}

/// The keys of a `visibility` mapping.
fn validate_visibility_fields(out: &mut Vec<Diagnostic>, entity: &Item, visibility: &Vec<(YamlValue, YamlValue)>, pointer: &String)
    ensures
        appended(old(out)@, final(out)@),
        added_findings(old(out)@, final(out)@)
            == findings_over(visibility@, |e: (YamlValue, YamlValue)| visibility_field_findings(e, pointer@)),
{
    let path = entity.path.as_str();
    let mut k: usize = 0;
    proof { lemma_added_findings_none(out@); }
    while k < visibility.len()
        invariant
            0 <= k <= visibility@.len(),
            appended(old(out)@, out@),
            added_findings(old(out)@, out@)
                == findings_over(visibility@.take(k as int), |e: (YamlValue, YamlValue)| visibility_field_findings(e, pointer@)),
        decreases visibility@.len() - k,
    {
        let ghost b = out@;
        match visibility[k].0.as_str() {
            Some(field) => {
                error_if(out, !str_eq(field, "requires"), "entity.visibility_unknown_field",
                    cat3("`", field, "` is not a supported entity visibility field"), path,
                    child(pointer.as_str(), field), None, Some(entity.id.clone()));
            },
            None => {
                error_if(out, true, "entity.visibility_field", owned("entity visibility field names must be strings"), path,
                    pointer.clone(), None, Some(entity.id.clone()));
            },
        }
        proof {
            lemma_added_findings_trans(old(out)@, b, out@);
            lemma_findings_over_step(visibility@, |e: (YamlValue, YamlValue)| visibility_field_findings(e, pointer@), k as int);
        }
        k += 1;
    }
    proof { lemma_take_all(visibility@); }
}

/// The capability booleans that do not belong on an entity.
fn validate_entity_capabilities(out: &mut Vec<Diagnostic>, entity: &Item)
    ensures
        appended(old(out)@, final(out)@),
        added_findings(old(out)@, final(out)@) == capability_findings(*entity),
{
    let path = entity.path.as_str();
    let ghost s0 = out@;
    let capability_message = "` is not supported; portability belongs at `physical.portable`, while actions are determined by commands and state";
    error_if(out, contains_key(&entity.mapping, "portable"), "entity.capability_field",
        cat3("entity `", "portable", capability_message), path, cat(entity.pointer.as_str(), "/portable"), None,
        Some(entity.id.clone()));
    let ghost c1 = out@;
    error_if(out, contains_key(&entity.mapping, "searchable"), "entity.capability_field",
        cat3("entity `", "searchable", capability_message), path, cat(entity.pointer.as_str(), "/searchable"), None,
        Some(entity.id.clone()));
    let ghost c2 = out@;
    error_if(out, contains_key(&entity.mapping, "investigatable"), "entity.capability_field",
        cat3("entity `", "investigatable", capability_message), path, cat(entity.pointer.as_str(), "/investigatable"), None,
        Some(entity.id.clone()));
    let ghost c3 = out@;
    error_if(out, contains_key(&entity.mapping, "takeable"), "entity.capability_field",
        cat3("entity `", "takeable", capability_message), path, cat(entity.pointer.as_str(), "/takeable"), None,
        Some(entity.id.clone()));
    proof {
        lemma_added_findings_trans(s0, c1, c2);
        lemma_added_findings_trans(s0, c2, c3);
        lemma_added_findings_trans(s0, c3, out@);
    }
}

/// An entity's `physical` and `visibility`, once `physical` is known to be absent or a mapping.
fn validate_entity_physical_and_visibility(out: &mut Vec<Diagnostic>, entity: &Item)
    requires
        !present_not_mapping(entity.mapping@, "physical"@),
    ensures
        appended(old(out)@, final(out)@),
        added_findings(old(out)@, final(out)@) == physical_findings(*entity) + visibility_findings(*entity),
{
    let path = entity.path.as_str();
    let ghost s2 = out@;
    if let Some(physical) = get(&entity.mapping, "physical") {
        let pointer = cat(entity.pointer.as_str(), "/physical");
        if let Some(physical) = physical.as_mapping() {
            validate_physical_fields(out, entity, physical, &pointer);
            let ghost b2 = out@;
            error_if(out, present_not_bool(physical, "portable"), "entity.portable_type",
                owned("entity `physical.portable` must be a boolean"), path,
                cat(pointer.as_str(), "/portable"), None, Some(entity.id.clone()));
            proof { lemma_added_findings_trans(s2, b2, out@); }
        }
    } else {
        proof { lemma_added_findings_none(s2); }
    }
    let ghost s3 = out@;
    let visibility = match get(&entity.mapping, "visibility") {
        Some(v) => v,
        None => {
            proof {
                lemma_added_findings_none(s3);
                lemma_added_findings_trans(s2, s3, out@);
            }
            return;
        },
    };
    let pointer = cat(entity.pointer.as_str(), "/visibility");
    match visibility.as_mapping() {
        None => {
            error_if(out, true, "entity.visibility_type", owned("entity `visibility` must be a mapping"), path, pointer, None,
                Some(entity.id.clone()));
        },
        Some(visibility) => {
            validate_visibility_fields(out, entity, visibility, &pointer);
            let ghost b2 = out@;
            if let Some(gate) = get(visibility, "requires") {
                let requires_pointer = cat(pointer.as_str(), "/requires");
                validate_requires_entries(out, entity, gate, requires_pointer.as_str(),
                    "entity.visibility_requirement_type", "entity visibility requirements must be non-empty IDs",
                    "entity.visibility_requires_type", "entity `visibility.requires` must be one ID or a non-empty list of unique IDs");
            } else {
                proof { lemma_added_findings_none(b2); }
            }
            proof { lemma_added_findings_trans(s3, b2, out@); }
        },
    }
    proof { lemma_added_findings_trans(s2, s3, out@); }
}

/// The checks of `validate_entity_values` for one entity.
fn validate_entity(out: &mut Vec<Diagnostic>, entity: &Item)
    ensures
        appended(old(out)@, final(out)@),
        added_findings(old(out)@, final(out)@) == entity_findings(*entity),
{
    let path = entity.path.as_str();
    let ghost s0 = out@;
    validate_entity_capabilities(out, entity);
    let ghost s1 = out@;
    if let Some(initial) = get(&entity.mapping, "initial") {
        let pointer = cat(entity.pointer.as_str(), "/initial");
        match initial.as_mapping() {
            None => {
                error_if(out, true, "entity.initial_type", owned("entity `initial` must be a mapping"), path, pointer, None,
                    Some(entity.id.clone()));
                proof { lemma_added_findings_trans(s0, s1, out@); }
                return;
            },
            Some(initial) => {
                error_if(out, present_without_text(initial, "container"), "entity.container_type",
                    owned("entity `initial.container` must be a non-empty setting, character, or entity ID"), path,
                    cat(pointer.as_str(), "/container"), None, Some(entity.id.clone()));
            },
        }
    } else {
        proof { lemma_added_findings_none(s1); }
    }
    let ghost s2 = out@;
    proof { lemma_added_findings_trans(s0, s1, s2); }
    let physical_not_mapping = match get(&entity.mapping, "physical") {
        Some(physical) => physical.as_mapping().is_none(),
        None => false,
    };
    if physical_not_mapping {
        error_if(out, true, "entity.physical_type", owned("entity `physical` must be a mapping"), path,
            cat(entity.pointer.as_str(), "/physical"), None, Some(entity.id.clone()));
    } else {
        validate_entity_physical_and_visibility(out, entity);
    }
    proof { lemma_added_findings_trans(s0, s2, out@); }
}

} // verus!
