//! Facts, clues and deductions.

use vstd::prelude::*;
use crate::conditions::{action_match_findings, fact_owner, fact_owner_kind, owner_kind, validate_action_match,
    validate_persistent_when, when_findings};
use crate::ids::{looks_like_id, spec_escape_pointer, spec_looks_like_id, spec_valid_time, valid_time};
use crate::kinds::Kind;
use crate::locate::locate_scalar;
use crate::model::{Context, Definition, Finding, Item, added_findings, appended, child, child_index, contains_string, emit,
    error, error_at, error_if, finding_if, findings_indexed, findings_over, kind_in, lemma_added_findings_none,
    lemma_added_findings_trans, lemma_findings_indexed_step, lemma_findings_over_step, lemma_take_all, one_of, warning_at,
    warning_if, concat_over, lemma_concat_over_step};
use crate::references::{collect_fact_association_ids, spec_valid_fact_association, string_views, strings_in,
    valid_fact_association};
use crate::report::{Diagnostic, Severity};
use crate::text::{cat, cat3, decimal, owned, seq_less, str_eq, str_less};
use crate::values::{has_text_field, present_not_bool, present_without_text, spec_present_not_bool, spec_present_without_text,
    text_field};
use crate::yaml::{YamlNumber, YamlValue, bool_field, contains_key, get, is_nonempty_string_sequence, map_get, spec_as_bool,
    spec_as_mapping, spec_as_sequence, spec_as_str, spec_bool_field, spec_is_nonempty_string_sequence, spec_string_list_field,
    string_field, string_list_field};

verus! {


/// Where `x` goes in a list sorted by insertion: before the first entry it sorts before.
pub open spec fn insert_pos(t: Seq<Seq<char>>, x: Seq<char>) -> int
    decreases t.len(),
{
    if t.len() == 0 {
        0
    } else if seq_less(x, t[0]) {
        0
    } else {
        1 + insert_pos(t.drop_first(), x)
    }
}

/// `s` sorted ascending, equal strings keeping their order.
pub open spec fn sorted_strings(s: Seq<Seq<char>>) -> Seq<Seq<char>>
    decreases s.len(),
{
    if s.len() == 0 {
        Seq::empty()
    } else {
        let t = sorted_strings(s.drop_last());
        t.insert(insert_pos(t, s.last()), s.last())
    }
}

/// The position found by a forward scan is the insertion position.
proof fn lemma_insert_pos(t: Seq<Seq<char>>, x: Seq<char>, p: int)
    requires
        0 <= p <= t.len(),
        forall|q: int| 0 <= q < p ==> !seq_less(x, #[trigger] t[q]),
        p == t.len() || seq_less(x, t[p]),
    ensures
        insert_pos(t, x) == p,
    decreases p,
{
    if p > 0 {
        assert forall|q: int| 0 <= q < p - 1 implies !seq_less(x, #[trigger] t.drop_first()[q]) by {
            assert(t.drop_first()[q] == t[q + 1]);
        }
        if p < t.len() {
            assert(t.drop_first()[p - 1] == t[p]);
        }
        lemma_insert_pos(t.drop_first(), x, p - 1);
        assert(!seq_less(x, t[0]));
    }
}

/// Sorts strings ascending (`sort_unstable` on `&str`).
fn sort_strings(input: Vec<String>) -> (r: Vec<String>)
    ensures
        r@.map_values(|s: String| s@) == sorted_strings(input@.map_values(|s: String| s@)),
{
    let ghost views = input@.map_values(|s: String| s@);
    let n = input.len();
    let mut rest = input;
    let mut out: Vec<String> = Vec::new();
    let mut i: usize = 0;
    proof { assert(out@.map_values(|s: String| s@) =~= sorted_strings(views.take(0))); }
    while i < n
        invariant
            n == views.len(),
            0 <= i <= n,
            rest@.map_values(|s: String| s@) == views.subrange(i as int, n as int),
            out@.map_values(|s: String| s@) == sorted_strings(views.take(i as int)),
        decreases n - i,
    {
        let ghost rest_views = rest@.map_values(|s: String| s@);
        let ghost old_rest = rest@;
        let x = rest.remove(0);
        proof {
            assert(rest@ == old_rest.remove(0));
            assert(rest@.map_values(|s: String| s@) =~= rest_views.subrange(1, rest_views.len() as int));
            assert(rest_views[0] == x@);
            assert(x@ == views[i as int]);
            assert(rest@.map_values(|s: String| s@) =~= views.subrange(i + 1, n as int));
            assert(views.take(i + 1).drop_last() =~= views.take(i as int));
        }
        let ghost before = out@.map_values(|s: String| s@);
        let mut p: usize = 0;
        while p < out.len() && !str_less(x.as_str(), out[p].as_str())
            invariant
                0 <= p <= out@.len(),
                before == out@.map_values(|s: String| s@),
                forall|q: int| 0 <= q < p ==> !seq_less(x@, #[trigger] before[q]),
            decreases out@.len() - p,
        {
            proof { assert(before[p as int] == out@[p as int]@); }
            p += 1;
        }
        proof {
            if p < out@.len() {
                assert(before[p as int] == out@[p as int]@);
            }
            lemma_insert_pos(before, x@, p as int);
        }
        let ghost xv = x@;
        out.insert(p, x);
        proof {
            assert(out@.map_values(|s: String| s@) =~= before.insert(p as int, xv));
        }
        i += 1;
    }
    proof { assert(views.take(n as int) =~= views); }
    out
}

/// The string keys of an `occurred_at` mapping other than `day` and `time`, in order.
pub open spec fn unknown_occurrence_keys(m: Seq<(YamlValue, YamlValue)>) -> Seq<Seq<char>>
    decreases m.len(),
{
    if m.len() == 0 {
        Seq::empty()
    } else {
        let rest = unknown_occurrence_keys(m.drop_last());
        match spec_as_str(m.last().0) {
            Some(k) => if k == "day"@ || k == "time"@ { rest } else { rest.push(k) },
            None => rest,
        }
    }
}

/// The findings of a fact's `occurred_at`: a mapping of exactly `day` (a non-negative
/// `i32`) and `time` (an exact `HH:MM`), its unknown keys reported in sorted order.
pub open spec fn occurred_at_findings(fact: Item) -> Seq<Finding> {
    let p = fact.pointer@ + "/occurred_at"@;
    match map_get(fact.mapping@, "occurred_at"@) {
        None => Seq::empty(),
        Some(v) => match spec_as_mapping(v) {
            None => seq![error_at("fact.occurred_at_type"@, p)],
            Some(m) =>
                findings_over(sorted_strings(unknown_occurrence_keys(m)), |k: Seq<char>|
                    seq![error_at("fact.occurred_at_unknown_field"@, p + seq!['/'] + spec_escape_pointer(k))])
                + finding_if(exists|i: int| 0 <= i < m.len() && (#[trigger] spec_as_str(m[i].0)) is None,
                    error_at("fact.occurred_at_unknown_field"@, p))
                + (match map_get(m, "day"@) {
                    Some(YamlValue::Number(YamlNumber::PosInt(d))) =>
                        finding_if(d > 2147483647, error_at("fact.occurred_at_day"@, p + "/day"@)),
                    Some(_) => seq![error_at("fact.occurred_at_day"@, p + "/day"@)],
                    None => seq![error_at("fact.occurred_at_day_missing"@, p + "/day"@)],
                })
                + (match map_get(m, "time"@) {
                    Some(YamlValue::String(t)) => finding_if(!spec_valid_time(t@), error_at("fact.occurred_at_time"@, p + "/time"@)),
                    Some(_) => seq![error_at("fact.occurred_at_time"@, p + "/time"@)],
                    None => seq![error_at("fact.occurred_at_time_missing"@, p + "/time"@)],
                }),
        },
    }
}

/// A reference list of a fact, at `pointer`, that is present but not a non-empty list of IDs.
pub open spec fn fact_list_findings(fact: Item, field: Seq<char>, pointer: Seq<char>) -> Seq<Finding> {
    finding_if(map_get(fact.mapping@, field) matches Some(v) && !spec_is_nonempty_string_sequence(v, false),
        error_at("fact.reference_list_type"@, pointer))
}

/// The findings of one fact.
pub open spec fn fact_findings(defs: Seq<(String, Definition)>, commands: Seq<Item>, claims: bool, fact: Item) -> Seq<Finding> {
    let m = fact.mapping@;
    let p = fact.pointer@;
    finding_if(!text_field(m, "statement"@), error_at("fact.missing_statement"@, p + "/statement"@))
    + finding_if(spec_present_without_text(m, "narrative_detail"@), error_at("fact.narrative_detail"@, p + "/narrative_detail"@))
    + (match map_get(m, "initially_known"@) {
        Some(v) => if claims {
            seq![error_at("fact.initially_known_removed"@, p + "/initially_known"@)]
        } else {
            finding_if(spec_as_bool(v) is None, error_at("fact.initially_known_type"@, p + "/initially_known"@))
        },
        None => Seq::empty(),
    })
    + (if claims {
        occurred_at_findings(fact)
        + finding_if(map_get(m, "requires"@) is Some, error_at("fact.requires_removed"@, p + "/requires"@))
        + action_match_findings(defs, fact_owner_kind(defs, fact), false, commands, fact)
        + when_findings(defs, fact_owner_kind(defs, fact), m, p)
    } else {
        Seq::empty()
    })
    + fact_list_findings(fact, "about"@, p + "/about"@)
    + fact_list_findings(fact, "sources"@, p + "/sources"@)
}

/// Statements and details; in format 3 (claims) the removed
/// fields, `occurred_at`, the `on` action match and `when` conditions; reference lists.
pub fn validate_fact_values(cx: &Context, out: &mut Vec<Diagnostic>, facts: &Vec<Item>, commands: &Vec<Item>, claims: bool)
    ensures
        appended(old(out)@, final(out)@),
        added_findings(old(out)@, final(out)@)
            == findings_over(facts@, |f: Item| fact_findings(cx.definitions@, commands@, claims, f)),
{
    let mut i: usize = 0;
    proof { lemma_added_findings_none(out@); }
    while i < facts.len()
        invariant
            0 <= i <= facts@.len(),
            appended(old(out)@, out@),
            added_findings(old(out)@, out@)
                == findings_over(facts@.take(i as int), |f: Item| fact_findings(cx.definitions@, commands@, claims, f)),
        decreases facts@.len() - i,
    {
        let ghost s0 = out@;
        validate_fact(cx, out, &facts[i], commands, claims);
        proof {
            lemma_added_findings_trans(old(out)@, s0, out@);
            lemma_findings_over_step(facts@, |f: Item| fact_findings(cx.definitions@, commands@, claims, f), i as int);
        }
        i += 1;
    }
    proof { lemma_take_all(facts@); }
}

/// The format 3 checks of one fact: `occurred_at`, removed `requires`, `on` and `when`.
fn validate_fact_claims(cx: &Context, out: &mut Vec<Diagnostic>, fact: &Item, commands: &Vec<Item>)
    ensures
        appended(old(out)@, final(out)@),
        added_findings(old(out)@, final(out)@) == occurred_at_findings(*fact)
            + finding_if(map_get(fact.mapping@, "requires"@) is Some, error_at("fact.requires_removed"@, fact.pointer@ + "/requires"@))
            + action_match_findings(cx.definitions@, fact_owner_kind(cx.definitions@, *fact), false, commands@, *fact)
            + when_findings(cx.definitions@, fact_owner_kind(cx.definitions@, *fact), fact.mapping@, fact.pointer@),
{
    let path = fact.path.as_str();
    let ghost s3 = out@;
    validate_fact_occurred_at(out, fact);
    let ghost t0 = out@;
    error_if(out, contains_key(&fact.mapping, "requires"), "fact.requires_removed",
        owned("fact `requires` has been replaced by structured `on` action matching and `when.all` persistent conditions"),
        path, cat(fact.pointer.as_str(), "/requires"), None, Some(fact.id.clone()));
    let ghost t1 = out@;
    let owner = fact_owner(cx, fact);
    let owner_ref = match &owner { Some(d) => Some(d), None => None };
    proof { assert(owner_kind(owner_ref) == fact_owner_kind(cx.definitions@, *fact)); }
    validate_action_match(cx, out, fact, owner_ref, false, commands);
    let ghost t2 = out@;
    validate_persistent_when(cx, out, &fact.mapping, path, fact.pointer.as_str(), fact.id.as_str(), owner_ref);
    proof {
        lemma_added_findings_trans(s3, t0, t1);
        lemma_added_findings_trans(s3, t1, t2);
        lemma_added_findings_trans(s3, t2, out@);
    }
}

/// The checks of `validate_fact_values` for one fact.
fn validate_fact(cx: &Context, out: &mut Vec<Diagnostic>, fact: &Item, commands: &Vec<Item>, claims: bool)
    ensures
        appended(old(out)@, final(out)@),
        added_findings(old(out)@, final(out)@) == fact_findings(cx.definitions@, commands@, claims, *fact),
{
    let path = fact.path.as_str();
    let ghost s0 = out@;
    error_if(out, !has_text_field(&fact.mapping, "statement"), "fact.missing_statement",
        owned("fact `statement` must be a non-empty string"), path,
        cat(fact.pointer.as_str(), "/statement"), None, Some(fact.id.clone()));
    let ghost s1 = out@;
    error_if(out, present_without_text(&fact.mapping, "narrative_detail"), "fact.narrative_detail",
        owned("fact `narrative_detail` must be a non-empty string"), path,
        cat(fact.pointer.as_str(), "/narrative_detail"), None, Some(fact.id.clone()));
    let ghost s2 = out@;
    if let Some(initially_known) = get(&fact.mapping, "initially_known") {
        if claims {
            error_if(out, true, "fact.initially_known_removed",
                owned("format 3 facts enter the notebook automatically; omit `requires` to add a fact when the player joins"), path,
                cat(fact.pointer.as_str(), "/initially_known"), None, Some(fact.id.clone()));
        } else {
            error_if(out, initially_known.as_bool().is_none(), "fact.initially_known_type",
                owned("fact `initially_known` must be a boolean"), path,
                cat(fact.pointer.as_str(), "/initially_known"), None, Some(fact.id.clone()));
        }
    } else {
        proof { lemma_added_findings_none(s2); }
    }
    let ghost s3 = out@;
    if claims {
        validate_fact_claims(cx, out, fact, commands);
    } else {
        proof { lemma_added_findings_none(s3); }
    }
    let ghost s4 = out@;
    let bad_about = match get(&fact.mapping, "about") { Some(v) => !is_nonempty_string_sequence(v, false), None => false };
    error_if(out, bad_about, "fact.reference_list_type", owned("fact `about` must contain at least one ID"), path,
        cat(fact.pointer.as_str(), "/about"), None, Some(fact.id.clone()));
    let ghost s5 = out@;
    let bad_sources = match get(&fact.mapping, "sources") { Some(v) => !is_nonempty_string_sequence(v, false), None => false };
    error_if(out, bad_sources, "fact.reference_list_type", owned("fact `sources` must contain at least one ID"), path,
        cat(fact.pointer.as_str(), "/sources"), None, Some(fact.id.clone()));
    proof {
        lemma_added_findings_trans(s0, s1, s2);
        lemma_added_findings_trans(s0, s2, s3);
        lemma_added_findings_trans(s0, s3, s4);
        lemma_added_findings_trans(s0, s4, s5);
        lemma_added_findings_trans(s0, s5, out@);
    }
}

/// A mapping with exactly `day` (a non-negative `i32`) and
/// `time` (an exact `HH:MM`); unknown fields are reported in sorted order.
fn validate_fact_occurred_at(out: &mut Vec<Diagnostic>, fact: &Item)
    ensures
        appended(old(out)@, final(out)@),
        added_findings(old(out)@, final(out)@) == occurred_at_findings(*fact),
{
    let ghost s00 = out@;
    let value = match get(&fact.mapping, "occurred_at") {
        Some(v) => v,
        None => {
            proof { lemma_added_findings_none(s00); }
            return;
        },
    };
    let path = fact.path.as_str();
    let pointer = cat(fact.pointer.as_str(), "/occurred_at");
    let occurred_at = match value.as_mapping() {
        Some(m) => m,
        None => {
            error_if(out, true, "fact.occurred_at_type", owned("fact `occurred_at` must be a mapping with exactly `day` and `time`"),
                path, pointer, None, Some(fact.id.clone()));
            return;
        },
    };
    let mut unknown: Vec<String> = Vec::new();
    let mut non_string_key = false;
    let mut k: usize = 0;
    while k < occurred_at.len()
        invariant
            0 <= k <= occurred_at@.len(),
            unknown@.map_values(|s: String| s@) == unknown_occurrence_keys(occurred_at@.take(k as int)),
            non_string_key == exists|i: int| 0 <= i < k && (#[trigger] spec_as_str(occurred_at@[i].0)) is None,
        decreases occurred_at@.len() - k,
    {
        proof {
            assert(occurred_at@.take(k + 1).drop_last() =~= occurred_at@.take(k as int));
            assert(occurred_at@.take(k + 1).last() == occurred_at@[k as int]);
        }
        let ghost before = unknown@;
        match occurred_at[k].0.as_str() {
            Some(key) => {
                if !(str_eq(key, "day") || str_eq(key, "time")) {
                    unknown.push(owned(key));
                    proof { assert(unknown@.map_values(|s: String| s@) =~= before.map_values(|s: String| s@).push(key@)); }
                }
            },
            None => {
                non_string_key = true;
            },
        }
        k += 1;
    }
    proof { assert(occurred_at@.take(occurred_at@.len() as int) =~= occurred_at@); }
    let ghost keys = unknown_occurrence_keys(occurred_at@);
    let unknown = sort_strings(unknown);
    let ghost sorted = sorted_strings(keys);
    let ghost s0 = out@;
    let mut u: usize = 0;
    proof { lemma_added_findings_none(s0); }
    while u < unknown.len()
        invariant
            0 <= u <= unknown@.len(),
            sorted == unknown@.map_values(|s: String| s@),
            appended(s0, out@),
            added_findings(s0, out@) == findings_over(sorted.take(u as int), |k: Seq<char>|
                seq![error_at("fact.occurred_at_unknown_field"@, pointer@ + seq!['/'] + spec_escape_pointer(k))]),
        decreases unknown@.len() - u,
    {
        let field = unknown[u].as_str();
        let ghost b = out@;
        proof { assert(sorted[u as int] == field@); }
        error_if(out, true, "fact.occurred_at_unknown_field",
            cat3("fact `occurred_at` does not support `", field, "`; expected only `day` and `time`"), path,
            child(pointer.as_str(), field), locate_scalar(fact.source.as_str(), field), Some(fact.id.clone()));
        proof {
            lemma_added_findings_trans(s0, b, out@);
            lemma_findings_over_step(sorted, |k: Seq<char>|
                seq![error_at("fact.occurred_at_unknown_field"@, pointer@ + seq!['/'] + spec_escape_pointer(k))], u as int);
        }
        u += 1;
    }
    proof { lemma_take_all(sorted); }
    let ghost s1 = out@;
    error_if(out, non_string_key, "fact.occurred_at_unknown_field",
        owned("fact `occurred_at` keys must be strings named only `day` and `time`"),
        path, pointer.clone(), None, Some(fact.id.clone()));
    let ghost s2 = out@;
    match get(occurred_at, "day") {
        Some(day) => {
            let ok = match day { YamlValue::Number(YamlNumber::PosInt(d)) => *d <= 2147483647, _ => false };
            error_if(out, !ok, "fact.occurred_at_day",
                owned("fact `occurred_at.day` must be a non-negative whole number supported by the runtime"), path,
                cat(pointer.as_str(), "/day"), None, Some(fact.id.clone()));
        },
        None => {
            error_if(out, true, "fact.occurred_at_day_missing", owned("fact `occurred_at` is missing required `day`"), path,
                cat(pointer.as_str(), "/day"), None, Some(fact.id.clone()));
        },
    }
    let ghost s3 = out@;
    match get(occurred_at, "time") {
        Some(time) => {
            let ok = match time { YamlValue::String(t) => valid_time(t.as_str()), _ => false };
            error_if(out, !ok, "fact.occurred_at_time",
                owned("fact `occurred_at.time` must be an exact quoted 24-hour HH:MM value"), path,
                cat(pointer.as_str(), "/time"), None, Some(fact.id.clone()));
        },
        None => {
            error_if(out, true, "fact.occurred_at_time_missing", owned("fact `occurred_at` is missing required `time`"), path,
                cat(pointer.as_str(), "/time"), None, Some(fact.id.clone()));
        },
    }
    proof {
        lemma_added_findings_trans(s0, s1, s2);
        lemma_added_findings_trans(s0, s2, s3);
        lemma_added_findings_trans(s0, s3, out@);
    }
}

/// An item whose `facts` is not a valid fact association.
pub open spec fn association_findings(item: Item) -> Seq<Finding> {
    finding_if(map_get(item.mapping@, "facts"@) matches Some(v) && !spec_valid_fact_association(v),
        error_at("fact.association_type"@, item.pointer@ + "/facts"@))
}

/// `validate_fact_associations` (format 1): an item's `facts` must be a valid association.
pub fn validate_fact_associations(out: &mut Vec<Diagnostic>, items: &Vec<Item>)
    ensures
        appended(old(out)@, final(out)@),
        added_findings(old(out)@, final(out)@) == findings_over(items@, |i: Item| association_findings(i)),
{
    let mut i: usize = 0;
    proof { lemma_added_findings_none(out@); }
    while i < items.len()
        invariant
            0 <= i <= items@.len(),
            appended(old(out)@, out@),
            added_findings(old(out)@, out@) == findings_over(items@.take(i as int), |i: Item| association_findings(i)),
        decreases items@.len() - i,
    {
        let item = &items[i];
        let ghost b = out@;
        let bad = match get(&item.mapping, "facts") { Some(facts) => !valid_fact_association(facts), None => false };
        error_if(out, bad, "fact.association_type",
            owned("`facts` must be a non-empty sequence of fact IDs or a mapping of observation levels to non-empty fact-ID sequences"),
            item.path.as_str(), cat(item.pointer.as_str(), "/facts"), None, Some(item.id.clone()));
        proof {
            lemma_added_findings_trans(old(out)@, b, out@);
            lemma_findings_over_step(items@, |i: Item| association_findings(i), i as int);
        }
        i += 1;
    }
    proof { lemma_take_all(items@); }
}

/// An item that may not own facts and declares `facts`.
pub open spec fn disallowed_fact_owner_findings(item: Item) -> Seq<Finding> {
    finding_if(map_get(item.mapping@, "facts"@) is Some, error_at("fact.owner_type"@, item.pointer@ + "/facts"@))
}

/// `validate_disallowed_fact_owners` (format 3): these items may not own facts.
pub fn validate_disallowed_fact_owners(out: &mut Vec<Diagnostic>, items: &Vec<Item>)
    ensures
        appended(old(out)@, final(out)@),
        added_findings(old(out)@, final(out)@) == findings_over(items@, |i: Item| disallowed_fact_owner_findings(i)),
{
    let mut i: usize = 0;
    proof { lemma_added_findings_none(out@); }
    while i < items.len()
        invariant
            0 <= i <= items@.len(),
            appended(old(out)@, out@),
            added_findings(old(out)@, out@) == findings_over(items@.take(i as int), |i: Item| disallowed_fact_owner_findings(i)),
        decreases items@.len() - i,
    {
        let item = &items[i];
        let ghost b = out@;
        error_if(out, contains_key(&item.mapping, "facts"), "fact.owner_type",
            owned("facts may be nested only beneath characters, entities, settings, events, or triggers"),
            item.path.as_str(), cat(item.pointer.as_str(), "/facts"), None, Some(item.id.clone()));
        proof {
            lemma_added_findings_trans(old(out)@, b, out@);
            lemma_findings_over_step(items@, |i: Item| disallowed_fact_owner_findings(i), i as int);
        }
        i += 1;
    }
    proof { lemma_take_all(items@); }
}

/// One `establishes` entry of a clue when facts are authored: a fact ID.
pub open spec fn establishes_entry_findings(defs: Seq<(String, Definition)>, fact: Seq<char>, p: Seq<char>) -> Seq<Finding> {
    if !spec_looks_like_id(fact) {
        seq![error_at("clue.establishes_reference"@, p)]
    } else {
        finding_if(kind_in(defs, fact) matches Some(k) && k != Kind::Fact, error_at("reference.wrong_type"@, p))
    }
}

/// The findings of one clue.
pub open spec fn clue_findings(defs: Seq<(String, Definition)>, facts_enabled: bool, clue: Item) -> Seq<Finding> {
    let base = clue.pointer@ + "/establishes"@;
    match map_get(clue.mapping@, "establishes"@) {
        None => Seq::empty(),
        Some(e) => if !spec_is_nonempty_string_sequence(e, true) {
            seq![error_at("clue.establishes_type"@, base)]
        } else if facts_enabled {
            findings_indexed(spec_as_sequence(e)->0, |k: int, v: YamlValue|
                establishes_entry_findings(defs, spec_as_str(v)->0, base + seq!['/'] + decimal(k as nat)))
        } else {
            Seq::empty()
        },
    }
}

/// `validate_clue_values` (format 1): `establishes` lists non-empty strings, fact IDs when
/// facts are authored.
pub fn validate_clue_values(cx: &Context, out: &mut Vec<Diagnostic>, clues: &Vec<Item>, facts_enabled: bool)
    ensures
        appended(old(out)@, final(out)@),
        added_findings(old(out)@, final(out)@)
            == findings_over(clues@, |c: Item| clue_findings(cx.definitions@, facts_enabled, c)),
{
    let mut i: usize = 0;
    proof { lemma_added_findings_none(out@); }
    while i < clues.len()
        invariant
            0 <= i <= clues@.len(),
            appended(old(out)@, out@),
            added_findings(old(out)@, out@)
                == findings_over(clues@.take(i as int), |c: Item| clue_findings(cx.definitions@, facts_enabled, c)),
        decreases clues@.len() - i,
    {
        let clue = &clues[i];
        let ghost s0 = out@;
        validate_clue(cx, out, clue, facts_enabled);
        proof {
            lemma_added_findings_trans(old(out)@, s0, out@);
            lemma_findings_over_step(clues@, |c: Item| clue_findings(cx.definitions@, facts_enabled, c), i as int);
        }
        i += 1;
    }
    proof { lemma_take_all(clues@); }
}

/// The checks of one clue.
fn validate_clue(cx: &Context, out: &mut Vec<Diagnostic>, clue: &Item, facts_enabled: bool)
    ensures
        appended(old(out)@, final(out)@),
        added_findings(old(out)@, final(out)@) == clue_findings(cx.definitions@, facts_enabled, *clue),
{
    let ghost s0 = out@;
    let establishes = match get(&clue.mapping, "establishes") {
        Some(e) => e,
        None => {
            proof { lemma_added_findings_none(s0); }
            return;
        },
    };
    let base = cat(clue.pointer.as_str(), "/establishes");
    if !is_nonempty_string_sequence(establishes, true) {
        error_if(out, true, "clue.establishes_type", owned("clue `establishes` must be a sequence of non-empty strings"),
            clue.path.as_str(), base, None, Some(clue.id.clone()));
        return;
    }
    if !facts_enabled {
        proof { lemma_added_findings_none(s0); }
        return;
    }
    let values = match establishes.as_sequence() {
        Some(values) => values,
        None => {
            proof { lemma_added_findings_none(s0); }
            return;
        },
    };
    let mut k: usize = 0;
    proof { lemma_added_findings_none(s0); }
    while k < values.len()
        invariant
            0 <= k <= values@.len(),
            spec_as_sequence(*establishes) == Some(values@),
            spec_is_nonempty_string_sequence(*establishes, true),
            appended(s0, out@),
            added_findings(s0, out@) == findings_indexed(values@.take(k as int), |k: int, v: YamlValue|
                establishes_entry_findings(cx.definitions@, spec_as_str(v)->0, base@ + seq!['/'] + decimal(k as nat))),
        decreases values@.len() - k,
    {
        let ghost b = out@;
        proof { assert(spec_as_str(values@[k as int]) is Some); }
        if let Some(fact) = values[k].as_str() {
            let pointer = child_index(base.as_str(), k);
            if !looks_like_id(fact) {
                error_if(out, true, "clue.establishes_reference",
                    owned("clue `establishes` entries must be fact IDs when facts are authored"), clue.path.as_str(),
                    pointer, locate_scalar(clue.source.as_str(), fact), Some(clue.id.clone()));
            } else {
                let wrong = match cx.kind_of(fact) { Some(kind) => kind != Kind::Fact, None => false };
                error_if(out, wrong, "reference.wrong_type", cat3("`", fact, "` does not refer to a fact"),
                    clue.path.as_str(), pointer, locate_scalar(clue.source.as_str(), fact), Some(owned(fact)));
            }
        }
        proof {
            lemma_added_findings_trans(s0, b, out@);
            lemma_findings_indexed_step(values@, |k: int, v: YamlValue|
                establishes_entry_findings(cx.definitions@, spec_as_str(v)->0, base@ + seq!['/'] + decimal(k as nat)), k as int);
        }
        k += 1;
    }
    proof { lemma_take_all(values@); }
}

/// The IDs of the facts that are initially known.
pub open spec fn initially_known_ids(facts: Seq<Item>) -> Seq<Seq<char>> {
    concat_over(facts, |f: Item| if spec_bool_field(f.mapping@, "initially_known"@) == Some(true) { seq![f.id@] } else { Seq::empty() })
}

/// Every string inside the `facts` associations of a group of items.
pub open spec fn associated_ids(items: Seq<Item>) -> Seq<Seq<char>> {
    concat_over(items, |i: Item| match map_get(i.mapping@, "facts"@) { Some(v) => strings_in(v), None => Seq::empty() })
}

/// Every ID a clue establishes.
pub open spec fn established_ids(clues: Seq<Item>) -> Seq<Seq<char>> {
    concat_over(clues, |c: Item| spec_string_list_field(c.mapping@, "establishes"@))
}

/// The IDs that make a fact reachable.
pub open spec fn reachable_ids(facts: Seq<Item>, groups: Seq<&Vec<Item>>, clues: Seq<Item>) -> Seq<Seq<char>> {
    initially_known_ids(facts) + concat_over(groups, |g: &Vec<Item>| associated_ids(g@)) + established_ids(clues)
}

/// The reachability warnings of the facts.
pub open spec fn reachability_findings(facts: Seq<Item>, groups: Seq<&Vec<Item>>, clues: Seq<Item>) -> Seq<Finding> {
    findings_over(facts, |f: Item| finding_if(!reachable_ids(facts, groups, clues).contains(f.id@),
        warning_at("fact.unreachable"@, f.pointer@)))
}

/// `validate_fact_reachability` (format 1): a fact that is not initially known, not
/// associated with any owner, and not established by a clue is unreachable (a warning).
pub fn validate_fact_reachability(out: &mut Vec<Diagnostic>, facts: &Vec<Item>, owner_groups: &Vec<&Vec<Item>>, clues: &Vec<Item>)
    ensures
        appended(old(out)@, final(out)@),
        added_findings(old(out)@, final(out)@) == reachability_findings(facts@, owner_groups@, clues@),
{
    let ghost all = reachable_ids(facts@, owner_groups@, clues@);
    let mut reachable: Vec<String> = Vec::new();
    let mut i: usize = 0;
    proof { assert(string_views(reachable@) =~= Seq::<Seq<char>>::empty()); }
    while i < facts.len()
        invariant
            0 <= i <= facts@.len(),
            string_views(reachable@) == initially_known_ids(facts@.take(i as int)),
        decreases facts@.len() - i,
    {
        let ghost before = string_views(reachable@);
        if bool_field(&facts[i].mapping, "initially_known") == Some(true) {
            reachable.push(facts[i].id.clone());
        }
        proof {
            lemma_concat_over_step(facts@, |f: Item| if spec_bool_field(f.mapping@, "initially_known"@) == Some(true) { seq![f.id@] } else { Seq::empty() }, i as int);
            assert(string_views(reachable@) =~= initially_known_ids(facts@.take(i + 1)));
        }
        i += 1;
    }
    proof { lemma_take_all(facts@); }
    let ghost known = string_views(reachable@);
    let mut g: usize = 0;
    proof { assert(known + concat_over(owner_groups@.take(0), |g: &Vec<Item>| associated_ids(g@)) =~= known); }
    while g < owner_groups.len()
        invariant
            0 <= g <= owner_groups@.len(),
            string_views(reachable@) == known + concat_over(owner_groups@.take(g as int), |g: &Vec<Item>| associated_ids(g@)),
        decreases owner_groups@.len() - g,
    {
        let items = owner_groups[g];
        let ghost group_start = string_views(reachable@);
        let mut k: usize = 0;
        proof { assert(group_start + associated_ids(items@.take(0)) =~= group_start); }
        while k < items.len()
            invariant
                0 <= k <= items@.len(),
                string_views(reachable@) == group_start + associated_ids(items@.take(k as int)),
            decreases items@.len() - k,
        {
            let ghost before = string_views(reachable@);
            if let Some(value) = get(&items[k].mapping, "facts") {
                collect_fact_association_ids(value, &mut reachable);
            }
            proof {
                lemma_concat_over_step(items@, |i: Item| match map_get(i.mapping@, "facts"@) { Some(v) => strings_in(v), None => Seq::empty() }, k as int);
                assert(string_views(reachable@) =~= group_start + associated_ids(items@.take(k + 1)));
            }
            k += 1;
        }
        proof {
            lemma_take_all(items@);
            lemma_concat_over_step(owner_groups@, |g: &Vec<Item>| associated_ids(g@), g as int);
            assert(string_views(reachable@) =~= known + concat_over(owner_groups@.take(g + 1), |g: &Vec<Item>| associated_ids(g@)));
        }
        g += 1;
    }
    proof { lemma_take_all(owner_groups@); }
    let ghost grouped = string_views(reachable@);
    let mut c: usize = 0;
    proof { assert(grouped + established_ids(clues@.take(0)) =~= grouped); }
    while c < clues.len()
        invariant
            0 <= c <= clues@.len(),
            string_views(reachable@) == grouped + established_ids(clues@.take(c as int)),
        decreases clues@.len() - c,
    {
        let established = string_list_field(&clues[c].mapping, "establishes");
        let ghost clue_start = string_views(reachable@);
        let mut e: usize = 0;
        proof { assert(clue_start + established@.map_values(|s: String| s@).take(0) =~= clue_start); }
        while e < established.len()
            invariant
                0 <= e <= established@.len(),
                string_views(reachable@) == clue_start + established@.map_values(|s: String| s@).take(e as int),
            decreases established@.len() - e,
        {
            let ghost before = reachable@;
            reachable.push(owned(established[e].as_str()));
            proof {
                assert(reachable@ == before.push(reachable@[before.len() as int]));
                assert(reachable@[before.len() as int]@ == established@[e as int]@);
                assert(string_views(reachable@) =~= string_views(before).push(established@[e as int]@));
                assert(established@.map_values(|s: String| s@).take(e + 1) =~= established@.map_values(|s: String| s@).take(e as int).push(established@[e as int]@));
                assert(string_views(reachable@) =~= clue_start + established@.map_values(|s: String| s@).take(e + 1));
            }
            e += 1;
        }
        proof {
            assert(established@.map_values(|s: String| s@).take(established@.len() as int) =~= established@.map_values(|s: String| s@));
            lemma_concat_over_step(clues@, |c: Item| spec_string_list_field(c.mapping@, "establishes"@), c as int);
            assert(string_views(reachable@) =~= grouped + established_ids(clues@.take(c + 1)));
        }
        c += 1;
    }
    proof {
        lemma_take_all(clues@);
        assert(string_views(reachable@) == all);
    }
    let mut f: usize = 0;
    proof { lemma_added_findings_none(out@); }
    while f < facts.len()
        invariant
            0 <= f <= facts@.len(),
            string_views(reachable@) == all,
            appended(old(out)@, out@),
            added_findings(old(out)@, out@) == findings_over(facts@.take(f as int), |x: Item| finding_if(!all.contains(x.id@),
                warning_at("fact.unreachable"@, x.pointer@))),
        decreases facts@.len() - f,
    {
        let fact = &facts[f];
        let ghost b = out@;
        let known_fact = contains_string(&reachable, fact.id.as_str());
        proof {
            if known_fact {
                let m = choose|m: int| 0 <= m < reachable@.len() && (#[trigger] reachable@[m])@ == fact.id@;
                assert(all[m] == fact.id@);
            }
            if all.contains(fact.id@) {
                let m = choose|m: int| 0 <= m < all.len() && all[m] == fact.id@;
                assert(reachable@[m]@ == fact.id@);
            }
        }
        warning_if(out, !known_fact, "fact.unreachable",
            cat3("fact `", fact.id.as_str(), "` is neither initially known nor associated with a discoverable element or clue"),
            fact.path.as_str(), fact.pointer.clone(), locate_scalar(fact.source.as_str(), fact.id.as_str()),
            Some(fact.id.clone()));
        proof {
            lemma_added_findings_trans(old(out)@, b, out@);
            lemma_findings_over_step(facts@, |x: Item| finding_if(!all.contains(x.id@), warning_at("fact.unreachable"@, x.pointer@)), f as int);
        }
        f += 1;
    }
    proof { lemma_take_all(facts@); }
}

/// The `inputs` of a deduction: one to three strings.
pub open spec fn valid_inputs(v: YamlValue) -> bool {
    match spec_as_sequence(v) {
        Some(values) => 1 <= values.len() <= 3
            && forall|k: int| 0 <= k < values.len() ==> (#[trigger] spec_as_str(values[k])) is Some,
        None => false,
    }
}

/// The findings of one deduction.
pub open spec fn deduction_findings(claims: bool, deduction: Item) -> Seq<Finding> {
    let m = deduction.mapping@;
    let p = deduction.pointer@;
    let expanded = map_get(m, "inputs"@) is Some || map_get(m, "truth"@) is Some || map_get(m, "contradicted_by"@) is Some
        || map_get(m, "solves"@) is Some;
    finding_if(claims && map_get(m, "supported_by"@) is Some, error_at("deduction.supported_by_removed"@, p + "/supported_by"@))
    + finding_if(expanded && !text_field(m, "conclusion"@), error_at("deduction.missing_conclusion"@, p + "/conclusion"@))
    + finding_if(map_get(m, "inputs"@) matches Some(v) && !valid_inputs(v), error_at("deduction.inputs_type"@, p + "/inputs"@))
    + finding_if(spec_present_not_bool(m, "truth"@), error_at("deduction.truth_type"@, p + "/truth"@))
    + finding_if(map_get(m, "contradicted_by"@) matches Some(v) && !spec_is_nonempty_string_sequence(v, false),
        error_at("deduction.contradicted_by_type"@, p + "/contradicted_by"@))
    + finding_if(spec_bool_field(m, "truth"@) == Some(false) && spec_string_list_field(m, "contradicted_by"@).len() == 0,
        warning_at("deduction.false_without_contradiction"@, p + "/contradicted_by"@))
    + solves_findings(deduction)
}

/// Deduction inputs: an `inputs` sequence of IDs (strings) is reported as
/// `deduction.inputs_type` exactly when it does not hold one to three of them; one, two
/// and three inputs are all accepted, none and four or more are not.
pub proof fn law_deductions_take_one_to_three_inputs(claims: bool, deduction: Item, v: YamlValue, values: Seq<YamlValue>)
    requires
        map_get(deduction.mapping@, "inputs"@) == Some(v),
        spec_as_sequence(v) == Some(values),
        forall|k: int| 0 <= k < values.len() ==> (#[trigger] spec_as_str(values[k])) is Some,
    ensures
        deduction_findings(claims, deduction).contains(error_at("deduction.inputs_type"@, deduction.pointer@ + "/inputs"@))
            <==> !(1 <= values.len() <= 3),
{
    reveal_strlit("/inputs");
    reveal_strlit("/supported_by");
    reveal_strlit("/conclusion");
    reveal_strlit("/truth");
    reveal_strlit("/contradicted_by");
    reveal_strlit("/solves");
    reveal_strlit("/solves/time");
    reveal_strlit("deduction.inputs_type");
    reveal_strlit("deduction.solves_type");
    assert("/inputs"@.len() == 7 && "/supported_by"@.len() == 13 && "/conclusion"@.len() == 11);
    assert("/truth"@.len() == 6 && "/contradicted_by"@.len() == 16 && "/solves/time"@.len() == 12);
    assert("deduction.inputs_type"@[10] == 'i' && "deduction.solves_type"@[10] == 's');
    let m = deduction.mapping@;
    let p = deduction.pointer@;
    let target = error_at("deduction.inputs_type"@, p + "/inputs"@);
    let expanded = map_get(m, "inputs"@) is Some || map_get(m, "truth"@) is Some || map_get(m, "contradicted_by"@) is Some
        || map_get(m, "solves"@) is Some;
    let a = finding_if(claims && map_get(m, "supported_by"@) is Some, error_at("deduction.supported_by_removed"@, p + "/supported_by"@));
    let b = finding_if(expanded && !text_field(m, "conclusion"@), error_at("deduction.missing_conclusion"@, p + "/conclusion"@));
    let c = finding_if(map_get(m, "inputs"@) matches Some(v) && !valid_inputs(v), target);
    let d = finding_if(spec_present_not_bool(m, "truth"@), error_at("deduction.truth_type"@, p + "/truth"@));
    let e = finding_if(map_get(m, "contradicted_by"@) matches Some(v) && !spec_is_nonempty_string_sequence(v, false),
        error_at("deduction.contradicted_by_type"@, p + "/contradicted_by"@));
    let f = finding_if(spec_bool_field(m, "truth"@) == Some(false) && spec_string_list_field(m, "contradicted_by"@).len() == 0,
        warning_at("deduction.false_without_contradiction"@, p + "/contradicted_by"@));
    let g = solves_findings(deduction);
    assert(deduction_findings(claims, deduction) == a + b + c + d + e + f + g);
    if a.contains(target) { assert(a[0].2->0.len() != target.2->0.len()); }
    if b.contains(target) { assert(b[0].2->0.len() != target.2->0.len()); }
    if d.contains(target) { assert(d[0].2->0.len() != target.2->0.len()); }
    if e.contains(target) { assert(e[0].2->0.len() != target.2->0.len()); }
    if f.contains(target) { assert(f[0].0 != target.0); }
    if g.contains(target) {
        let j = choose|j: int| 0 <= j < g.len() && g[j] == target;
        if g[j].1 == "deduction.solves_type"@ {
            assert(g[j].1[10] != target.1[10]);
        } else {
            assert(g[j].2->0.len() != target.2->0.len());
        }
    }
    if !(1 <= values.len() <= 3) {
        assert(c[0] == target);
    }
    crate::model::lemma_findings_concat_contains(a, b, target);
    crate::model::lemma_findings_concat_contains(a + b, c, target);
    crate::model::lemma_findings_concat_contains(a + b + c, d, target);
    crate::model::lemma_findings_concat_contains(a + b + c + d, e, target);
    crate::model::lemma_findings_concat_contains(a + b + c + d + e, f, target);
    crate::model::lemma_findings_concat_contains(a + b + c + d + e + f, g, target);
}

/// Deduction inputs must be IDs: `inputs` that is not a sequence, or that holds an entry
/// that is not a string, is reported as `deduction.inputs_type`.
pub proof fn law_deduction_inputs_are_ids(claims: bool, deduction: Item, v: YamlValue)
    requires
        map_get(deduction.mapping@, "inputs"@) == Some(v),
        !(spec_as_sequence(v) matches Some(values)
            && forall|k: int| 0 <= k < values.len() ==> (#[trigger] spec_as_str(values[k])) is Some),
    ensures
        deduction_findings(claims, deduction).contains(error_at("deduction.inputs_type"@, deduction.pointer@ + "/inputs"@)),
{
    let m = deduction.mapping@;
    let p = deduction.pointer@;
    let target = error_at("deduction.inputs_type"@, p + "/inputs"@);
    let expanded = map_get(m, "inputs"@) is Some || map_get(m, "truth"@) is Some || map_get(m, "contradicted_by"@) is Some
        || map_get(m, "solves"@) is Some;
    let a = finding_if(claims && map_get(m, "supported_by"@) is Some, error_at("deduction.supported_by_removed"@, p + "/supported_by"@));
    let b = finding_if(expanded && !text_field(m, "conclusion"@), error_at("deduction.missing_conclusion"@, p + "/conclusion"@));
    let c = finding_if(map_get(m, "inputs"@) matches Some(v) && !valid_inputs(v), target);
    assert(!valid_inputs(v));
    assert(c[0] == target);
    crate::model::lemma_findings_concat_contains(a + b, c, target);
    assert(deduction_findings(claims, deduction).subrange(0, (a + b + c).len() as int) =~= a + b + c);
    let j = choose|j: int| 0 <= j < (a + b + c).len() && (a + b + c)[j] == target;
    assert(deduction_findings(claims, deduction)[j] == target);
}

/// Whether `inputs` is present and not one to three strings.
fn inputs_invalid(m: &Vec<(YamlValue, YamlValue)>) -> (r: bool)
    ensures
        r == (map_get(m@, "inputs"@) matches Some(v) && !valid_inputs(v)),
{
    match get(m, "inputs") {
        Some(inputs) => match inputs.as_sequence() {
            Some(values) => {
                let mut all_strings = true;
                let mut k: usize = 0;
                while k < values.len()
                    invariant
                        0 <= k <= values@.len(),
                        all_strings == forall|j: int| 0 <= j < k ==> (#[trigger] spec_as_str(values@[j])) is Some,
                    decreases values@.len() - k,
                {
                    if !values[k].is_string() {
                        all_strings = false;
                    }
                    k += 1;
                }
                !(1 <= values.len() && values.len() <= 3 && all_strings)
            },
            None => true,
        },
        None => false,
    }
}

/// The `solves` findings of one deduction.
pub open spec fn solves_findings(deduction: Item) -> Seq<Finding> {
    let p = deduction.pointer@;
    match map_get(deduction.mapping@, "solves"@) {
        None => Seq::empty(),
        Some(v) => match spec_as_mapping(v) {
            None => seq![error_at("deduction.solves_type"@, p + "/solves"@)],
            Some(solves) => finding_if(
                map_get(solves, "time"@) matches Some(t) && !(spec_as_str(t) matches Some(s) && spec_valid_time(s)),
                error_at("deduction.solves_invalid_time"@, p + "/solves/time"@)),
        },
    }
}

/// Checks the `solves` mapping of one deduction.
fn validate_solves(out: &mut Vec<Diagnostic>, deduction: &Item)
    ensures
        appended(old(out)@, final(out)@),
        added_findings(old(out)@, final(out)@) == solves_findings(*deduction),
{
    let path = deduction.path.as_str();
    let m = &deduction.mapping;
    let ghost s6 = out@;
    match get(m, "solves") {
        Some(solves) => match solves.as_mapping() {
            None => {
                error_if(out, true, "deduction.solves_type", owned("deduction `solves` must be a mapping"), path,
                    cat(deduction.pointer.as_str(), "/solves"), None, Some(deduction.id.clone()));
            },
            Some(solves) => {
                let bad_time = match get(solves, "time") {
                    Some(t) => match t.as_str() { Some(s) => !valid_time(s), None => true },
                    None => false,
                };
                error_if(out, bad_time, "deduction.solves_invalid_time", owned("deduction `solves.time` must be a quoted 24-hour HH:MM value"),
                    path, cat(deduction.pointer.as_str(), "/solves/time"), None, Some(deduction.id.clone()));
            },
        },
        None => {
            proof { lemma_added_findings_none(s6); }
        },
    }
}

/// Removed `supported_by` (format 3), conclusion, inputs,
/// truth, contradictions, and the `solves` time.
pub fn validate_deduction_values(out: &mut Vec<Diagnostic>, deductions: &Vec<Item>, claims: bool)
    ensures
        appended(old(out)@, final(out)@),
        added_findings(old(out)@, final(out)@) == findings_over(deductions@, |d: Item| deduction_findings(claims, d)),
{
    let mut i: usize = 0;
    proof { lemma_added_findings_none(out@); }
    while i < deductions.len()
        invariant
            0 <= i <= deductions@.len(),
            appended(old(out)@, out@),
            added_findings(old(out)@, out@) == findings_over(deductions@.take(i as int), |d: Item| deduction_findings(claims, d)),
        decreases deductions@.len() - i,
    {
        let ghost s0 = out@;
        validate_deduction(out, &deductions[i], claims);
        proof {
            lemma_added_findings_trans(old(out)@, s0, out@);
            lemma_findings_over_step(deductions@, |d: Item| deduction_findings(claims, d), i as int);
        }
        i += 1;
    }
    proof { lemma_take_all(deductions@); }
}

/// The checks of `validate_deduction_values` for one deduction.
fn validate_deduction(out: &mut Vec<Diagnostic>, deduction: &Item, claims: bool)
    ensures
        appended(old(out)@, final(out)@),
        added_findings(old(out)@, final(out)@) == deduction_findings(claims, *deduction),
{
    let path = deduction.path.as_str();
    let m = &deduction.mapping;
    let ghost s0 = out@;
    error_if(out, claims && contains_key(m, "supported_by"), "deduction.supported_by_removed",
        owned("format 3 deductions use `inputs`; clue-based `supported_by` was removed"),
        path, cat(deduction.pointer.as_str(), "/supported_by"), None, Some(deduction.id.clone()));
    let ghost s1 = out@;
    let expanded = contains_key(m, "inputs") || contains_key(m, "truth") || contains_key(m, "contradicted_by") || contains_key(m, "solves");
    error_if(out, expanded && !has_text_field(m, "conclusion"), "deduction.missing_conclusion",
        owned("an authored gameplay deduction needs a non-empty `conclusion`"), path,
        cat(deduction.pointer.as_str(), "/conclusion"), None, Some(deduction.id.clone()));
    let ghost s2 = out@;
    let bad_inputs = inputs_invalid(m);
    error_if(out, bad_inputs, "deduction.inputs_type", owned("deduction `inputs` must contain one to three fact or deduction IDs"), path,
        cat(deduction.pointer.as_str(), "/inputs"), None, Some(deduction.id.clone()));
    let ghost s3 = out@;
    error_if(out, present_not_bool(m, "truth"), "deduction.truth_type", owned("deduction `truth` must be a boolean"), path,
        cat(deduction.pointer.as_str(), "/truth"), None, Some(deduction.id.clone()));
    let ghost s4 = out@;
    let bad_contradictions = match get(m, "contradicted_by") { Some(v) => !is_nonempty_string_sequence(v, false), None => false };
    error_if(out, bad_contradictions, "deduction.contradicted_by_type",
        owned("deduction `contradicted_by` must contain at least one fact or deduction ID"), path,
        cat(deduction.pointer.as_str(), "/contradicted_by"), None, Some(deduction.id.clone()));
    let ghost s5 = out@;
    let contradictions = string_list_field(m, "contradicted_by");
    warning_if(out, bool_field(m, "truth") == Some(false) && contradictions.len() == 0, "deduction.false_without_contradiction",
        owned("a false deduction should identify at least one fact or deduction that can contradict it"), path,
        cat(deduction.pointer.as_str(), "/contradicted_by"), None, Some(deduction.id.clone()));
    let ghost s6 = out@;
    validate_solves(out, deduction);
    proof {
        lemma_added_findings_trans(s0, s1, s2);
        lemma_added_findings_trans(s0, s2, s3);
        lemma_added_findings_trans(s0, s3, s4);
        lemma_added_findings_trans(s0, s4, s5);
        lemma_added_findings_trans(s0, s5, s6);
        lemma_added_findings_trans(s0, s6, out@);
    }
}

} // verus!
