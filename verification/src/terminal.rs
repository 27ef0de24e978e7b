//! The solution, win states and ordered end states.

use vstd::prelude::*;
use crate::case::{field_findings, validate_mapping_fields};
use crate::commands::{question_solution_ruleset, uses_question_solution_ruleset};
use crate::ids::{spec_escape_pointer, spec_minutes, spec_valid_time, time_to_minutes, valid_time};
use crate::kinds::Kind;
use crate::locate::locate_scalar;
use crate::model::{Context, Definition, Finding, Item, ParsedFile, RulesetReference, added_findings, concat_over, findings_indexed,
    kind_in, lemma_concat_over_step, lemma_findings_indexed_step, section_lookup, warning_at, warning_if, appended, child, child_index, contains_string, emit,
    emit_related, error, error_at, error_if, finding_if, findings_over, lemma_added_findings_none, lemma_added_findings_trans,
    lemma_findings_over_step, lemma_take_all, one_of};
use crate::version::{StoryVersion, spec_is_format_3_from};
use crate::report::{Diagnostic, RelatedLocation, Severity, SourceRange};
use crate::references::string_views;
use crate::text::{cat, cat3, cat4, cat5, decimal, has_text, nonblank, owned, seq_less, str_eq, str_less};
use crate::values::{has_text_field, present_not_bool, spec_present_not_bool, text_field};
use crate::yaml::{YamlNumber, YamlValue, contains_key, get, is_string_sequence, map_get, spec_as_mapping, spec_as_sequence, spec_as_str,
    spec_as_u64, spec_is_string_sequence, spec_string_field, spec_string_list_field,
    string_field, string_list_field};

verus! {

/// The `solution` mapping of a root.
pub open spec fn spec_solution_of(root: Seq<(YamlValue, YamlValue)>) -> Option<Seq<(YamlValue, YamlValue)>> {
    match map_get(root, "solution"@) {
        Some(v) => spec_as_mapping(v),
        None => None,
    }
}

/// The `solution` mapping of a file's root, if it has one.
pub fn solution_of(root: &Vec<(YamlValue, YamlValue)>) -> (r: Option<&Vec<(YamlValue, YamlValue)>>)
    ensures
        match r {
            Some(m) => spec_solution_of(root@) == Some(m@),
            None => spec_solution_of(root@) is None,
        },
{
    match get(root, "solution") {
        Some(v) => v.as_mapping(),
        None => None,
    }
}

/// The `win_state` of the first file whose solution names one.
pub open spec fn spec_solution_terminal_state_id(parsed: Seq<ParsedFile>) -> Option<Seq<char>>
    decreases parsed.len(),
{
    if parsed.len() == 0 {
        None
    } else {
        match spec_solution_of(parsed[0].root@) {
            Some(solution) => match spec_string_field(solution, "win_state"@) {
                Some(id) => Some(id),
                None => spec_solution_terminal_state_id(parsed.drop_first()),
            },
            None => spec_solution_terminal_state_id(parsed.drop_first()),
        }
    }
}

/// The `win_state` of the first solution that names one.
pub fn solution_terminal_state_id(cx: &Context) -> (r: Option<String>)
    ensures
        match r {
            Some(id) => spec_solution_terminal_state_id(cx.parsed@) == Some(id@),
            None => spec_solution_terminal_state_id(cx.parsed@) is None,
        },
{
    let mut f: usize = 0;
    proof { assert(cx.parsed@.subrange(0, cx.parsed@.len() as int) =~= cx.parsed@); }
    while f < cx.parsed.len()
        invariant
            0 <= f <= cx.parsed@.len(),
            spec_solution_terminal_state_id(cx.parsed@)
                == spec_solution_terminal_state_id(cx.parsed@.subrange(f as int, cx.parsed@.len() as int)),
        decreases cx.parsed@.len() - f,
    {
        proof {
            assert(cx.parsed@.subrange(f as int, cx.parsed@.len() as int).drop_first()
                =~= cx.parsed@.subrange(f + 1, cx.parsed@.len() as int));
        }
        if let Some(solution) = solution_of(&cx.parsed[f].root) {
            if let Some(id) = string_field(solution, "win_state") {
                return Some(owned(id));
            }
        }
        f += 1;
    }
    None
}

/// The fields a solution may hold: with authored questions from format 3.3, or the
/// legacy contract before it.
pub open spec fn solution_fields(questions: bool) -> Seq<&'static str> {
    if questions {
        seq!["win_state", "questions", "victim", "culprit", "weapon", "location", "time", "deduction",
            "narrator_guidance", "author_notes"]
    } else {
        seq!["victim", "culprit", "weapon", "location", "time", "deduction", "narrator_guidance", "author_notes"]
    }
}

/// The findings for one namespace of a solution: present only as a mapping, and the
/// narrator guidance only with its own fields.
pub open spec fn solution_namespace_findings(solution: Seq<(YamlValue, YamlValue)>, namespace: Seq<char>, guidance: bool) -> Seq<Finding> {
    let p = "/solution/"@ + namespace;
    match map_get(solution, namespace) {
        None => Seq::empty(),
        Some(v) => match spec_as_mapping(v) {
            None => seq![error_at("solution."@ + namespace + "_type"@, p)],
            Some(m) => if guidance {
                findings_over(m, |e: (YamlValue, YamlValue)|
                    field_findings(e, seq!["motive", "method", "proof_summary"], "solution.narrator_guidance"@, "/solution/narrator_guidance"@))
            } else {
                Seq::empty()
            },
        },
    }
}

/// The field findings of the solution of one file.
pub open spec fn solution_contract_file_findings(questions: bool, file: ParsedFile) -> Seq<Finding> {
    match spec_solution_of(file.root@) {
        None => Seq::empty(),
        Some(solution) =>
            findings_over(solution, |e: (YamlValue, YamlValue)| field_findings(e, solution_fields(questions), "solution"@, "/solution"@))
            + solution_namespace_findings(solution, "narrator_guidance"@, true)
            + solution_namespace_findings(solution, "author_notes"@, false),
    }
}

/// The findings of the solution field contract over every file.
pub open spec fn solution_contract_findings(version: Option<StoryVersion>, parsed: Seq<ParsedFile>) -> Seq<Finding> {
    findings_over(parsed, |f: ParsedFile| solution_contract_file_findings(spec_is_format_3_from(version, 3), f))
}

/// One namespace of a solution.
fn validate_solution_namespace(out: &mut Vec<Diagnostic>, solution: &Vec<(YamlValue, YamlValue)>, namespace: &str,
    guidance: bool, path: &str, source: &str)
    ensures
        appended(old(out)@, final(out)@),
        added_findings(old(out)@, final(out)@) == solution_namespace_findings(solution@, namespace@, guidance),
{
    let value = match get(solution, namespace) {
        Some(value) => value,
        None => {
            proof { lemma_added_findings_none(out@); }
            return;
        },
    };
    let pointer = cat("/solution/", namespace);
    match value.as_mapping() {
        None => {
            let code = cat3("solution.", namespace, "_type");
            error_if(out, true, code.as_str(), cat3("solution `", namespace, "` must be a mapping namespace"), path,
                pointer, None, None);
        },
        Some(mapping) => {
            if guidance {
                let allowed: &[&str] = &["motive", "method", "proof_summary"];
                proof { assert(allowed@ == seq!["motive", "method", "proof_summary"]); }
                validate_mapping_fields(out, mapping, allowed, "solution.narrator_guidance", path, source,
                    "/solution/narrator_guidance", None);
            } else {
                proof { lemma_added_findings_none(out@); }
            }
        },
    }
}

/// `validate_solution_contract` (format 3): the fields of every `solution` and of its
/// `narrator_guidance`; both namespaces must be mappings.
pub fn validate_solution_contract(cx: &Context, out: &mut Vec<Diagnostic>)
    ensures
        appended(old(out)@, final(out)@),
        added_findings(old(out)@, final(out)@) == solution_contract_findings(cx.format_version, cx.parsed@),
{
    let questions = cx.is_format_3_from(3);
    let mut f: usize = 0;
    proof { lemma_added_findings_none(out@); }
    while f < cx.parsed.len()
        invariant
            0 <= f <= cx.parsed@.len(),
            questions == spec_is_format_3_from(cx.format_version, 3),
            appended(old(out)@, out@),
            added_findings(old(out)@, out@) == findings_over(cx.parsed@.take(f as int),
                |f: ParsedFile| solution_contract_file_findings(questions, f)),
        decreases cx.parsed@.len() - f,
    {
        let file = &cx.parsed[f];
        let ghost s0 = out@;
        if let Some(solution) = solution_of(&file.root) {
            let path = file.path.as_str();
            let source = file.source.as_str();
            if questions {
                let allowed: &[&str] = &["win_state", "questions", "victim", "culprit", "weapon", "location", "time",
                    "deduction", "narrator_guidance", "author_notes"];
                proof { assert(allowed@ == solution_fields(true)); }
                validate_mapping_fields(out, solution, allowed, "solution", path, source, "/solution", None);
            } else {
                let allowed: &[&str] = &["victim", "culprit", "weapon", "location", "time", "deduction",
                    "narrator_guidance", "author_notes"];
                proof { assert(allowed@ == solution_fields(false)); }
                validate_mapping_fields(out, solution, allowed, "solution", path, source, "/solution", None);
            }
            let ghost s1 = out@;
            validate_solution_namespace(out, solution, "narrator_guidance", true, path, source);
            let ghost s2 = out@;
            validate_solution_namespace(out, solution, "author_notes", false, path, source);
            proof {
                lemma_added_findings_trans(s0, s1, s2);
                lemma_added_findings_trans(s0, s2, out@);
            }
        } else {
            proof { lemma_added_findings_none(s0); }
        }
        proof {
            lemma_added_findings_trans(old(out)@, s0, out@);
            lemma_findings_over_step(cx.parsed@, |f: ParsedFile| solution_contract_file_findings(questions, f), f as int);
        }
        f += 1;
    }
    proof { lemma_take_all(cx.parsed@); }
}

/// The legacy fields of a solution.
pub open spec fn legacy_solution_fields() -> Seq<&'static str> {
    seq!["victim", "culprit", "weapon", "location", "time", "deduction"]
}

/// Whether a solution holds one of the legacy fields.
pub open spec fn has_legacy_fields(solution: Seq<(YamlValue, YamlValue)>) -> bool {
    exists|k: int| 0 <= k < legacy_solution_fields().len() && map_get(solution, (#[trigger] legacy_solution_fields()[k])@) is Some
}

/// The findings of a solution under the legacy culprit/weapon/location contract.
pub open spec fn legacy_solution_findings(solution: Seq<(YamlValue, YamlValue)>) -> Seq<Finding> {
    findings_over(seq!["victim", "culprit", "weapon", "location"], |k: &str| finding_if(spec_string_field(solution, k@) is None,
        error_at("solution.missing_reference"@, "/solution"@ + seq!['/'] + spec_escape_pointer(k@))))
    + match map_get(solution, "time"@) {
        Some(YamlValue::String(t)) => finding_if(!spec_valid_time(t@), error_at("solution.invalid_time"@, "/solution/time"@)),
        Some(_) => seq![error_at("solution.invalid_time"@, "/solution/time"@)],
        None => Seq::empty(),
    }
}

/// The findings of one `solution` block.
pub open spec fn solution_block_findings(version: Option<StoryVersion>, ruleset: Option<RulesetReference>,
    defs: Seq<(String, Definition)>, deck: Seq<Seq<char>>, solution: Seq<(YamlValue, YamlValue)>) -> Seq<Finding> {
    let legacy = has_legacy_fields(solution);
    let questions = map_get(solution, "questions"@) is Some;
    let win_state = map_get(solution, "win_state"@) is Some;
    if spec_is_format_3_from(version, 3) && (questions || win_state || question_solution_ruleset(ruleset)) {
        finding_if(legacy, error_at(if questions || win_state { "solution.contract_mixed"@ } else { "solution.legacy_contract"@ },
            "/solution"@))
        + if !legacy || questions || win_state { question_solution_findings(ruleset, defs, deck, solution) } else { Seq::empty() }
    } else if questions || win_state {
        seq![error_at("solution.format_incompatible"@, "/solution"@)]
    } else {
        legacy_solution_findings(solution)
    }
}

/// The findings of `validate_solution`.
pub open spec fn solution_findings(version: Option<StoryVersion>, ruleset: Option<RulesetReference>,
    defs: Seq<(String, Definition)>, parsed: Seq<ParsedFile>) -> Seq<Finding> {
    let any = exists|f: int| 0 <= f < parsed.len() && #[trigger] spec_solution_of(parsed[f].root@) is Some;
    finding_if(question_solution_ruleset(ruleset) && !any, error_at("solution.missing_question_contract"@, "/solution"@))
    + findings_over(parsed, |f: ParsedFile| match spec_solution_of(f.root@) {
        Some(solution) => solution_block_findings(version, ruleset, defs, deck_subject_ids(parsed), solution),
        None => Seq::empty(),
    })
}

/// From Format 3.3 a solution that declares `win_state` or `questions`,
/// or any solution of a story on the authored-question ruleset, follows the question
/// contract (legacy fields there are rejected); every other solution uses the legacy
/// culprit/weapon/location contract with an optional exact `time`, so a structurally
/// compatible Format 3.0 story stays valid under a later 3.x version.
pub fn validate_solution(cx: &Context, out: &mut Vec<Diagnostic>)
    ensures
        appended(old(out)@, final(out)@),
        added_findings(old(out)@, final(out)@) == solution_findings(cx.format_version, cx.ruleset, cx.definitions@, cx.parsed@),
{
    let mut any_solution = false;
    let mut f0: usize = 0;
    while f0 < cx.parsed.len()
        invariant
            0 <= f0 <= cx.parsed@.len(),
            any_solution == exists|f: int| 0 <= f < f0 && #[trigger] spec_solution_of(cx.parsed@[f].root@) is Some,
        decreases cx.parsed@.len() - f0,
    {
        let here = solution_of(&cx.parsed[f0].root).is_some();
        if here {
            any_solution = true;
        }
        f0 += 1;
    }
    let question_ruleset = uses_question_solution_ruleset(cx);
    error_if(out, question_ruleset && !any_solution, "solution.missing_question_contract",
        owned("ruleset.standard_mystery@3.0.0 requires a Format 3.3 `solution` block with `win_state` and `questions`"),
        "case.yaml", owned("/solution"), None, None);
    let ghost s1 = out@;
    let deck = deck_subjects(cx);
    let ghost g = |f: ParsedFile| match spec_solution_of(f.root@) {
        Some(solution) => solution_block_findings(cx.format_version, cx.ruleset, cx.definitions@, deck_subject_ids(cx.parsed@), solution),
        None => Seq::empty(),
    };
    let mut f: usize = 0;
    proof { lemma_added_findings_none(s1); }
    while f < cx.parsed.len()
        invariant
            0 <= f <= cx.parsed@.len(),
            string_views(deck@) == deck_subject_ids(cx.parsed@),
            g == (|f: ParsedFile| match spec_solution_of(f.root@) {
                Some(solution) => solution_block_findings(cx.format_version, cx.ruleset, cx.definitions@, deck_subject_ids(cx.parsed@), solution),
                None => Seq::empty(),
            }),
            appended(s1, out@),
            added_findings(s1, out@) == findings_over(cx.parsed@.take(f as int), g),
        decreases cx.parsed@.len() - f,
    {
        let file = &cx.parsed[f];
        let ghost b = out@;
        match solution_of(&file.root) {
            Some(solution) => validate_solution_block(cx, out, file, solution, &deck),
            None => { proof { lemma_added_findings_none(b); } },
        }
        proof {
            lemma_added_findings_trans(s1, b, out@);
            lemma_findings_over_step(cx.parsed@, g, f as int);
        }
        f += 1;
    }
    proof {
        lemma_take_all(cx.parsed@);
        lemma_added_findings_trans(old(out)@, s1, out@);
    }
}

/// Whether `solution` holds one of the legacy fields.
fn contains_legacy_field(solution: &Vec<(YamlValue, YamlValue)>) -> (r: bool)
    ensures
        r == has_legacy_fields(solution@),
{
    let legacy_fields: [&str; 6] = ["victim", "culprit", "weapon", "location", "time", "deduction"];
    proof { assert(legacy_fields@ == legacy_solution_fields()); }
    let mut has_legacy = false;
    let mut k: usize = 0;
    while k < 6
        invariant
            0 <= k <= 6,
            legacy_fields@ == legacy_solution_fields(),
            has_legacy == exists|j: int| 0 <= j < k && map_get(solution@, (#[trigger] legacy_solution_fields()[j])@) is Some,
        decreases 6 - k,
    {
        if contains_key(solution, legacy_fields[k]) {
            has_legacy = true;
        }
        k += 1;
    }
    has_legacy
}

/// The checks of one `solution` block.
fn validate_solution_block(cx: &Context, out: &mut Vec<Diagnostic>, file: &ParsedFile, solution: &Vec<(YamlValue, YamlValue)>,
    deck: &Vec<String>)
    requires
        string_views(deck@) == deck_subject_ids(cx.parsed@),
    ensures
        appended(old(out)@, final(out)@),
        added_findings(old(out)@, final(out)@)
            == solution_block_findings(cx.format_version, cx.ruleset, cx.definitions@, deck_subject_ids(cx.parsed@), solution@),
{
    let path = file.path.as_str();
    let question_format = cx.is_format_3_from(3);
    let question_ruleset = uses_question_solution_ruleset(cx);
    let has_legacy = contains_legacy_field(solution);
    let has_questions = contains_key(solution, "questions");
    let has_win_state = contains_key(solution, "win_state");
    if question_format && (has_questions || has_win_state || question_ruleset) {
        let ghost t0 = out@;
        let code = if has_questions || has_win_state { "solution.contract_mixed" } else { "solution.legacy_contract" };
        error_if(out, has_legacy, code,
            owned("Format 3.3 replaces the legacy culprit/weapon/location/deduction solution with `win_state` and one to four authored `questions`; migrate the complete block instead of mixing contracts"),
            path, owned("/solution"), None, None);
        let ghost t1 = out@;
        if !has_legacy || has_questions || has_win_state {
            validate_question_solution(cx, out, path, file.source.as_str(), solution, deck);
        } else {
            proof { lemma_added_findings_none(t1); }
        }
        proof { lemma_added_findings_trans(t0, t1, out@); }
    } else if has_questions || has_win_state {
        error_if(out, true, "solution.format_incompatible",
            owned("authored solution questions require Format 3.3 and ruleset.standard_mystery@3.0.0"), path,
            owned("/solution"), None, None);
    } else {
        validate_legacy_solution(out, file, solution);
    }
}

/// The checks of a solution under the legacy culprit/weapon/location contract.
fn validate_legacy_solution(out: &mut Vec<Diagnostic>, file: &ParsedFile, solution: &Vec<(YamlValue, YamlValue)>)
    ensures
        appended(old(out)@, final(out)@),
        added_findings(old(out)@, final(out)@) == legacy_solution_findings(solution@),
{
    let path = file.path.as_str();
    let fields: [&str; 4] = ["victim", "culprit", "weapon", "location"];
    proof { assert(fields@ == seq!["victim", "culprit", "weapon", "location"]); }
    let ghost g = |k: &str| finding_if(spec_string_field(solution@, k@) is None,
        error_at("solution.missing_reference"@, "/solution"@ + seq!['/'] + spec_escape_pointer(k@)));
    let mut q: usize = 0;
    proof { lemma_added_findings_none(out@); }
    while q < 4
        invariant
            0 <= q <= 4,
            fields@ == seq!["victim", "culprit", "weapon", "location"],
            g == (|k: &str| finding_if(spec_string_field(solution@, k@) is None,
                error_at("solution.missing_reference"@, "/solution"@ + seq!['/'] + spec_escape_pointer(k@)))),
            appended(old(out)@, out@),
            added_findings(old(out)@, out@) == findings_over(fields@.take(q as int), g),
        decreases 4 - q,
    {
        let ghost c = out@;
        let missing = string_field(solution, fields[q]).is_none();
        let message = if missing { cat3("solution `", fields[q], "` must be an ID") } else { String::new() };
        error_if(out, missing, "solution.missing_reference", message, path, child("/solution", fields[q]), None, None);
        proof {
            lemma_added_findings_trans(old(out)@, c, out@);
            lemma_findings_over_step(fields@, g, q as int);
        }
        q += 1;
    }
    proof { lemma_take_all(fields@); }
    let ghost t1 = out@;
    match get(solution, "time") {
        Some(YamlValue::String(time)) => {
            let ok = valid_time(time.as_str());
            let range = if ok { None } else { locate_scalar(file.source.as_str(), time.as_str()) };
            error_if(out, !ok, "solution.invalid_time", owned("solution `time` must be a quoted 24-hour HH:MM value"), path,
                owned("/solution/time"), range, None);
        },
        Some(_) => {
            let range = match string_field(solution, "time") {
                Some(time) => locate_scalar(file.source.as_str(), time),
                None => None,
            };
            error_if(out, true, "solution.invalid_time", owned("solution `time` must be a quoted 24-hour HH:MM value"), path,
                owned("/solution/time"), range, None);
        },
        None => { proof { lemma_added_findings_none(t1); } },
    }
    proof { lemma_added_findings_trans(old(out)@, t1, out@); }
}

/// The subjects bound by the cards of a `deck.yaml` root.
pub open spec fn card_subjects(cards: Seq<YamlValue>) -> Seq<Seq<char>> {
    concat_over(cards, |c: YamlValue| match spec_as_mapping(c) {
        Some(m) => match spec_string_field(m, "subject"@) {
            Some(s) => seq![s],
            None => Seq::empty(),
        },
        None => Seq::empty(),
    })
}

/// The subjects bound by `deck.yaml`.
pub open spec fn deck_subject_ids(parsed: Seq<ParsedFile>) -> Seq<Seq<char>> {
    concat_over(parsed, |f: ParsedFile| if f.path@ == "deck.yaml"@ {
        match map_get(f.root@, "cards"@) {
            Some(v) => match spec_as_sequence(v) {
                Some(cards) => card_subjects(cards),
                None => Seq::empty(),
            },
            None => Seq::empty(),
        }
    } else {
        Seq::empty()
    })
}

/// The subjects bound by `deck.yaml`.
pub fn deck_subjects(cx: &Context) -> (r: Vec<String>)
    ensures
        string_views(r@) == deck_subject_ids(cx.parsed@),
{
    let ghost g = |f: ParsedFile| if f.path@ == "deck.yaml"@ {
        match map_get(f.root@, "cards"@) {
            Some(v) => match spec_as_sequence(v) {
                Some(cards) => card_subjects(cards),
                None => Seq::empty(),
            },
            None => Seq::empty(),
        }
    } else {
        Seq::empty()
    };
    let ghost h = |c: YamlValue| match spec_as_mapping(c) {
        Some(m) => match spec_string_field(m, "subject"@) {
            Some(s) => seq![s],
            None => Seq::empty(),
        },
        None => Seq::empty(),
    };
    let mut result: Vec<String> = Vec::new();
    let mut f: usize = 0;
    proof { assert(string_views(result@) =~= Seq::<Seq<char>>::empty()); }
    while f < cx.parsed.len()
        invariant
            0 <= f <= cx.parsed@.len(),
            g == (|f: ParsedFile| if f.path@ == "deck.yaml"@ {
                match map_get(f.root@, "cards"@) {
                    Some(v) => match spec_as_sequence(v) {
                        Some(cards) => card_subjects(cards),
                        None => Seq::empty(),
                    },
                    None => Seq::empty(),
                }
            } else {
                Seq::empty()
            }),
            h == (|c: YamlValue| match spec_as_mapping(c) {
                Some(m) => match spec_string_field(m, "subject"@) {
                    Some(s) => seq![s],
                    None => Seq::empty(),
                },
                None => Seq::empty(),
            }),
            string_views(result@) == concat_over(cx.parsed@.take(f as int), g),
        decreases cx.parsed@.len() - f,
    {
        let file = &cx.parsed[f];
        let ghost start = string_views(result@);
        proof { assert(start + Seq::<Seq<char>>::empty() =~= start); }
        if str_eq(file.path.as_str(), "deck.yaml") {
            if let Some(cards) = get(&file.root, "cards") {
                if let Some(cards) = cards.as_sequence() {
                    let mut k: usize = 0;
                    proof { assert(start + concat_over(cards@.take(0), h) =~= start); }
                    while k < cards.len()
                        invariant
                            0 <= k <= cards@.len(),
                            h == (|c: YamlValue| match spec_as_mapping(c) {
                                Some(m) => match spec_string_field(m, "subject"@) {
                                    Some(s) => seq![s],
                                    None => Seq::empty(),
                                },
                                None => Seq::empty(),
                            }),
                            string_views(result@) == start + concat_over(cards@.take(k as int), h),
                        decreases cards@.len() - k,
                    {
                        let ghost before = result@;
                        if let Some(card) = cards[k].as_mapping() {
                            if let Some(subject) = string_field(card, "subject") {
                                result.push(owned(subject));
                                proof {
                                    assert(string_views(result@) =~= string_views(before).push(subject@));
                                    assert(h(cards@[k as int]) == seq![subject@]);
                                }
                            } else {
                                proof { assert(h(cards@[k as int]) == Seq::<Seq<char>>::empty()); }
                            }
                        } else {
                            proof { assert(h(cards@[k as int]) == Seq::<Seq<char>>::empty()); }
                        }
                        proof {
                            lemma_concat_over_step(cards@, h, k as int);
                            assert(string_views(result@) =~= start + concat_over(cards@.take(k + 1), h));
                        }
                        k += 1;
                    }
                    proof { lemma_take_all(cards@); }
                }
            }
        }
        proof {
            lemma_concat_over_step(cx.parsed@, g, f as int);
            assert(string_views(result@) =~= concat_over(cx.parsed@.take(f + 1), g));
        }
        f += 1;
    }
    proof { lemma_take_all(cx.parsed@); }
    result
}

/// The fewest and most questions a solution asks.
pub const MIN_SOLUTION_QUESTIONS: usize = 1;
pub const MAX_SOLUTION_QUESTIONS: usize = 4;
/// The fewest and most cards one answer holds.
pub const MIN_SOLUTION_ANSWER_CARDS: usize = 1;
pub const MAX_SOLUTION_ANSWER_CARDS: usize = 5;

/// A non-blank string answer.
pub open spec fn answer_text(v: YamlValue) -> Option<Seq<char>> {
    match spec_as_str(v) {
        Some(s) => if has_text(s) { Some(s) } else { None },
        None => None,
    }
}

/// The `answer` entries of a question node (none unless it is a mapping with an `answer`
/// sequence).
pub open spec fn question_answers(question: YamlValue) -> Seq<YamlValue> {
    match spec_as_mapping(question) {
        Some(m) => match map_get(m, "answer"@) {
            Some(a) => match spec_as_sequence(a) {
                Some(answers) => answers,
                None => Seq::empty(),
            },
            None => Seq::empty(),
        },
        None => Seq::empty(),
    }
}

/// Whether one of `questions` answers with the card `s`.
pub open spec fn answered_in(questions: Seq<YamlValue>, s: Seq<char>) -> bool {
    exists|i: int, k: int| 0 <= i < questions.len() && 0 <= k < question_answers(questions[i]).len()
        && #[trigger] answer_text(question_answers(questions[i])[k]) == Some(s)
}

/// The findings of answer `a` of question `q`.
pub open spec fn answer_findings(defs: Seq<(String, Definition)>, deck: Seq<Seq<char>>, questions: Seq<YamlValue>, q: int,
    answers: Seq<YamlValue>, a: int, p: Seq<char>) -> Seq<Finding> {
    let at = p + seq!['/'] + decimal(a as nat);
    match answer_text(answers[a]) {
        None => seq![error_at("solution.question_answer_id"@, at)],
        Some(s) => if exists|k: int| 0 <= k < a && #[trigger] answer_text(answers[k]) == Some(s) {
            seq![error_at("solution.question_answer_duplicate"@, at)]
        } else {
            finding_if(answered_in(questions.take(q), s), error_at("solution.answer_reused"@, at))
            + match kind_in(defs, s) {
                Some(kind) => if kind == Kind::Setting || kind == Kind::Character || kind == Kind::Entity {
                    finding_if(!deck.contains(s), error_at("solution.question_answer_not_in_deck"@, at))
                } else {
                    seq![error_at("solution.question_answer_type"@, at)]
                },
                None => seq![error_at("solution.question_answer_unknown"@, at)],
            }
        },
    }
}

/// The findings of question `q` of a solution.
pub open spec fn question_findings(defs: Seq<(String, Definition)>, deck: Seq<Seq<char>>, questions: Seq<YamlValue>, q: int) -> Seq<Finding> {
    let p = "/solution/questions"@ + seq!['/'] + decimal(q as nat);
    match spec_as_mapping(questions[q]) {
        None => seq![error_at("solution.question_type"@, p)],
        Some(m) => findings_over(m, |e: (YamlValue, YamlValue)| field_findings(e, seq!["prompt", "answer", "ordered"], "solution.question"@, p))
            + finding_if(!text_field(m, "prompt"@), error_at("solution.question_prompt"@, p + "/prompt"@))
            + finding_if(spec_present_not_bool(m, "ordered"@), error_at("solution.question_ordered_type"@, p + "/ordered"@))
            + match map_get(m, "answer"@) {
                Some(v) => match spec_as_sequence(v) {
                    Some(answers) => finding_if(!(1 <= answers.len() <= 5), error_at("solution.question_answer_count"@, p + "/answer"@))
                        + findings_indexed(answers, |a: int, e: YamlValue| answer_findings(defs, deck, questions, q, answers, a, p + "/answer"@)),
                    None => seq![error_at("solution.question_answer_type"@, p + "/answer"@)],
                },
                None => seq![error_at("solution.question_answer_type"@, p + "/answer"@)],
            },
    }
}

/// The findings of a solution under the question contract.
pub open spec fn question_solution_findings(ruleset: Option<RulesetReference>, defs: Seq<(String, Definition)>,
    deck: Seq<Seq<char>>, solution: Seq<(YamlValue, YamlValue)>) -> Seq<Finding> {
    finding_if(!question_solution_ruleset(ruleset), error_at("solution.ruleset_incompatible"@, "/solution"@))
    + match spec_string_field(solution, "win_state"@) {
        Some(id) => match kind_in(defs, id) {
            Some(Kind::WinState) | Some(Kind::EndState) => Seq::empty(),
            Some(_) => seq![error_at("solution.win_state_type"@, "/solution/win_state"@)],
            None => seq![error_at("solution.win_state_unknown"@, "/solution/win_state"@)],
        },
        None => seq![error_at("solution.win_state_unknown"@, "/solution/win_state"@)],
    }
    + match map_get(solution, "questions"@) {
        Some(v) => match spec_as_sequence(v) {
            Some(questions) => finding_if(!(1 <= questions.len() <= 4), error_at("solution.questions_count"@, "/solution/questions"@))
                + findings_indexed(questions, |q: int, e: YamlValue| question_findings(defs, deck, questions, q)),
            None => seq![error_at("solution.questions_type"@, "/solution/questions"@)],
        },
        None => seq![error_at("solution.questions_type"@, "/solution/questions"@)],
    }
}

/// Whether `seen` holds the answer `s`.
pub open spec fn seen_holds(seen: Seq<(String, String)>, s: Seq<char>) -> bool {
    exists|i: int| 0 <= i < seen.len() && (#[trigger] seen[i]).0@ == s
}

/// The ruleset, the target end state, one to four question
/// mappings, and one to five unique physical-card answers per question, each card
/// answering only one question and bound in `deck.yaml`.
fn validate_question_solution(cx: &Context, out: &mut Vec<Diagnostic>, path: &str, source: &str, solution: &Vec<(YamlValue, YamlValue)>,
    deck: &Vec<String>)
    ensures
        appended(old(out)@, final(out)@),
        added_findings(old(out)@, final(out)@)
            == question_solution_findings(cx.ruleset, cx.definitions@, string_views(deck@), solution@),
{
    let ghost s0 = out@;
    error_if(out, !uses_question_solution_ruleset(cx), "solution.ruleset_incompatible",
        owned("Format 3.3 authored questions require `case.ruleset` ruleset.standard_mystery@3.0.0"), path,
        owned("/solution"), None, None);
    let ghost s1 = out@;
    let win_state = string_field(solution, "win_state");
    let kind = match win_state { Some(id) => cx.kind_of(id), None => None };
    match kind {
        Some(Kind::WinState) | Some(Kind::EndState) => { proof { lemma_added_findings_none(s1); } },
        Some(_) => {
            let id = win_state.unwrap();
            error_if(out, true, "solution.win_state_type", cat3("solution `win_state` `", id, "` must identify an end state"), path,
                owned("/solution/win_state"), locate_scalar(source, id), None);
        },
        None => {
            let range = match win_state { Some(id) => locate_scalar(source, id), None => None };
            error_if(out, true, "solution.win_state_unknown", owned("solution `win_state` must identify a defined end state"), path,
                owned("/solution/win_state"), range, None);
        },
    }
    let ghost s2 = out@;
    proof { lemma_added_findings_trans(s0, s1, s2); }
    let questions = match get(solution, "questions") { Some(q) => q.as_sequence(), None => None };
    let questions = match questions {
        Some(q) => q,
        None => {
            error_if(out, true, "solution.questions_type", owned("solution `questions` must contain one to four question mappings"), path,
                owned("/solution/questions"), None, None);
            proof { lemma_added_findings_trans(s0, s2, out@); }
            return;
        },
    };
    error_if(out, !(MIN_SOLUTION_QUESTIONS <= questions.len() && questions.len() <= MAX_SOLUTION_QUESTIONS), "solution.questions_count",
        owned("solution `questions` must contain one to four questions"), path,
        owned("/solution/questions"), None, None);
    let ghost s3 = out@;
    let ghost all = questions@;
    let ghost decks = string_views(deck@);
    let ghost g = |q: int, e: YamlValue| question_findings(cx.definitions@, decks, all, q);
    let mut seen_answers: Vec<(String, String)> = Vec::new();
    let mut q: usize = 0;
    proof { lemma_added_findings_none(s3); }
    while q < questions.len()
        invariant
            0 <= q <= questions@.len(),
            all == questions@,
            decks == string_views(deck@),
            g == (|q: int, e: YamlValue| question_findings(cx.definitions@, decks, all, q)),
            forall|s: Seq<char>| seen_holds(seen_answers@, s) <==> answered_in(all.take(q as int), s),
            appended(s3, out@),
            added_findings(s3, out@) == findings_indexed(all.take(q as int), g),
        decreases questions@.len() - q,
    {
        let question_pointer = child_index("/solution/questions", q);
        let ghost b = out@;
        match questions[q].as_mapping() {
            None => {
                error_if(out, true, "solution.question_type",
                    owned("each solution question must be a mapping with `prompt`, `answer`, and optional `ordered`"), path,
                    question_pointer, None, None);
                proof {
                    assert(question_answers(all[q as int]) == Seq::<YamlValue>::empty());
                }
            },
            Some(question) => {
                validate_question(cx, out, path, source, question, question_pointer.as_str(), deck, &mut seen_answers,
                    Ghost(all), Ghost(q as int));
            },
        }
        proof {
            assert forall|s: Seq<char>| seen_holds(seen_answers@, s) <==> answered_in(all.take(q + 1), s) by {
                let now = all.take(q + 1);
                let before = all.take(q as int);
                if answered_in(now, s) {
                    let (i, k) = choose|i: int, k: int| 0 <= i < now.len() && 0 <= k < question_answers(now[i]).len()
                        && #[trigger] answer_text(question_answers(now[i])[k]) == Some(s);
                    if i < q {
                        assert(now[i] == before[i]);
                        assert(answered_in(before, s));
                    } else {
                        assert(now[i] == all[q as int]);
                    }
                }
                if answered_in(before, s) {
                    let (i, k) = choose|i: int, k: int| 0 <= i < before.len() && 0 <= k < question_answers(before[i]).len()
                        && #[trigger] answer_text(question_answers(before[i])[k]) == Some(s);
                    assert(now[i] == before[i]);
                    assert(answer_text(question_answers(now[i])[k]) == Some(s));
                }
                if exists|k: int| 0 <= k < question_answers(all[q as int]).len()
                    && #[trigger] answer_text(question_answers(all[q as int])[k]) == Some(s) {
                    let k = choose|k: int| 0 <= k < question_answers(all[q as int]).len()
                        && #[trigger] answer_text(question_answers(all[q as int])[k]) == Some(s);
                    assert(now[q as int] == all[q as int]);
                    assert(answer_text(question_answers(now[q as int])[k]) == Some(s));
                }
            }
            lemma_added_findings_trans(s3, b, out@);
            lemma_findings_indexed_step(all, g, q as int);
        }
        q += 1;
    }
    proof {
        lemma_take_all(all);
        lemma_added_findings_trans(s0, s2, s3);
        lemma_added_findings_trans(s0, s3, out@);
    }
}

/// One solution question.
fn validate_question(
    cx: &Context,
    out: &mut Vec<Diagnostic>,
    path: &str,
    source: &str,
    question: &Vec<(YamlValue, YamlValue)>,
    question_pointer: &str,
    deck: &Vec<String>,
    seen_answers: &mut Vec<(String, String)>,
    Ghost(questions): Ghost<Seq<YamlValue>>,
    Ghost(q): Ghost<int>,
)
    requires
        0 <= q < questions.len(),
        spec_as_mapping(questions[q]) == Some(question@),
        question_pointer@ == "/solution/questions"@ + seq!['/'] + decimal(q as nat),
        forall|s: Seq<char>| seen_holds(old(seen_answers)@, s) <==> answered_in(questions.take(q), s),
    ensures
        appended(old(out)@, final(out)@),
        added_findings(old(out)@, final(out)@) == question_findings(cx.definitions@, string_views(deck@), questions, q),
        forall|s: Seq<char>| seen_holds(final(seen_answers)@, s) <==> (seen_holds(old(seen_answers)@, s)
            || exists|k: int| 0 <= k < question_answers(questions[q]).len()
                && #[trigger] answer_text(question_answers(questions[q])[k]) == Some(s)),
{
    let allowed: &[&str] = &["prompt", "answer", "ordered"];
    proof { assert(allowed@ == seq!["prompt", "answer", "ordered"]); reveal_strlit("/prompt"); reveal_strlit("/ordered"); reveal_strlit("/answer"); }
    validate_mapping_fields(out, question, allowed, "solution.question", path, source, question_pointer, None);
    let ghost s0 = out@;
    error_if(out, !has_text_field(question, "prompt"), "solution.question_prompt", owned("solution question `prompt` must be a non-empty string"),
        path, cat(question_pointer, "/prompt"), None, None);
    let ghost s1 = out@;
    error_if(out, present_not_bool(question, "ordered"), "solution.question_ordered_type", owned("solution question `ordered` must be a boolean"),
        path, cat(question_pointer, "/ordered"), None, None);
    let ghost s2 = out@;
    proof {
        lemma_added_findings_trans(old(out)@, s0, s1);
        lemma_added_findings_trans(old(out)@, s1, s2);
    }
    let answers = match get(question, "answer") { Some(a) => a.as_sequence(), None => None };
    let answers = match answers {
        Some(a) => a,
        None => {
            error_if(out, true, "solution.question_answer_type", owned("solution question `answer` must contain one to five physical-card IDs"),
                path, cat(question_pointer, "/answer"), None, None);
            proof {
                lemma_added_findings_trans(old(out)@, s2, out@);
                assert(question_answers(questions[q]) == Seq::<YamlValue>::empty());
            }
            return;
        },
    };
    error_if(out, !(MIN_SOLUTION_ANSWER_CARDS <= answers.len() && answers.len() <= MAX_SOLUTION_ANSWER_CARDS),
        "solution.question_answer_count", owned("solution question `answer` must contain one to five IDs"), path,
        cat(question_pointer, "/answer"), None, None);
    let ghost s3 = out@;
    proof { lemma_added_findings_trans(old(out)@, s2, s3); }
    let answer_base = cat(question_pointer, "/answer");
    let ghost list = answers@;
    proof { assert(list == question_answers(questions[q])); }
    let ghost decks = string_views(deck@);
    let ghost g = |a: int, e: YamlValue| answer_findings(cx.definitions@, decks, questions, q, list, a, answer_base@);
    let mut row: Vec<String> = Vec::new();
    let mut a: usize = 0;
    proof { lemma_added_findings_none(s3); }
    while a < answers.len()
        invariant
            0 <= a <= answers@.len(),
            list == answers@,
            list == question_answers(questions[q]),
            0 <= q < questions.len(),
            decks == string_views(deck@),
            g == (|a: int, e: YamlValue| answer_findings(cx.definitions@, decks, questions, q, list, a, answer_base@)),
            forall|s: Seq<char>| names_in(row@, s) <==> exists|k: int| 0 <= k < a && #[trigger] answer_text(list[k]) == Some(s),
            forall|s: Seq<char>| seen_holds(seen_answers@, s) <==> (answered_in(questions.take(q), s)
                || exists|k: int| 0 <= k < a && #[trigger] answer_text(list[k]) == Some(s)),
            appended(s3, out@),
            added_findings(s3, out@) == findings_indexed(list.take(a as int), g),
        decreases answers@.len() - a,
    {
        let answer_pointer = child_index(answer_base.as_str(), a);
        let ghost b = out@;
        let ghost old_row = row@;
        let ghost old_seen = seen_answers@;
        let ghost mut added: Option<Seq<char>> = None;
        let answer = match answers[a].as_str() { Some(s) => if nonblank(s) { Some(s) } else { None }, None => None };
        match answer {
            None => {
                error_if(out, true, "solution.question_answer_id", owned("each solution answer must be a non-empty canonical ID"), path,
                    answer_pointer, None, None);
            },
            Some(answer) => {
                let range = locate_scalar(source, answer);
                let duplicate = contains_string(&row, answer);
                proof { assert(duplicate == names_in(row@, answer@)); }
                if duplicate {
                    error_if(out, true, "solution.question_answer_duplicate", cat3("answer `", answer, "` occurs more than once in this question"),
                        path, answer_pointer, range, Some(owned(answer)));
                } else {
                    row.push(owned(answer));
                    validate_fresh_answer(cx, out, path, answer, &answer_pointer, range, deck, seen_answers);
                    proof { added = Some(answer@); }
                    proof {
                        assert forall|s: Seq<char>| names_in(row@, s) <==> (names_in(old_row, s) || s == answer@) by {
                            if names_in(row@, s) {
                                let i = choose|i: int| 0 <= i < row@.len() && (#[trigger] row@[i])@ == s;
                                if i < old_row.len() { assert(old_row[i] == row@[i]); }
                            }
                            if names_in(old_row, s) {
                                let i = choose|i: int| 0 <= i < old_row.len() && (#[trigger] old_row[i])@ == s;
                                assert(row@[i] == old_row[i]);
                            }
                            if s == answer@ { assert(row@[old_row.len() as int]@ == s); }
                        }
                    }
                }
            },
        }
        proof {
            assert(added is None ==> row@ == old_row && seen_answers@ == old_seen
                && (answer_text(list[a as int]) matches Some(x) ==> names_in(old_row, x)));
            assert(added matches Some(x) ==> answer_text(list[a as int]) == Some(x)
                && (forall|s: Seq<char>| names_in(row@, s) <==> (names_in(old_row, s) || s == x))
                && (forall|s: Seq<char>| seen_holds(seen_answers@, s) <==> (seen_holds(old_seen, s) || s == x)));
            assert forall|s: Seq<char>| names_in(row@, s) <==> exists|k: int| 0 <= k < a + 1 && #[trigger] answer_text(list[k]) == Some(s) by {
                let old_has = exists|k: int| 0 <= k < a && #[trigger] answer_text(list[k]) == Some(s);
                assert(names_in(old_row, s) <==> old_has);
                if exists|k: int| 0 <= k < a + 1 && #[trigger] answer_text(list[k]) == Some(s) {
                    let k = choose|k: int| 0 <= k < a + 1 && #[trigger] answer_text(list[k]) == Some(s);
                    if k < a {
                        assert(old_has);
                    } else {
                        assert(answer_text(list[a as int]) == Some(s));
                    }
                }
                if names_in(row@, s) {
                    if names_in(old_row, s) {
                        let k = choose|k: int| 0 <= k < a && #[trigger] answer_text(list[k]) == Some(s);
                        assert(0 <= k < a + 1);
                    } else {
                        assert(added == Some(s));
                        assert(answer_text(list[a as int]) == Some(s));
                    }
                }
            }
            assert forall|s: Seq<char>| seen_holds(seen_answers@, s) <==> (answered_in(questions.take(q), s)
                || exists|k: int| 0 <= k < a + 1 && #[trigger] answer_text(list[k]) == Some(s)) by {
                if exists|k: int| 0 <= k < a + 1 && #[trigger] answer_text(list[k]) == Some(s) {
                    let k = choose|k: int| 0 <= k < a + 1 && #[trigger] answer_text(list[k]) == Some(s);
                    if k < a { assert(exists|k2: int| 0 <= k2 < a && #[trigger] answer_text(list[k2]) == Some(s)); }
                }
                if exists|k: int| 0 <= k < a && #[trigger] answer_text(list[k]) == Some(s) {
                    let k = choose|k: int| 0 <= k < a && #[trigger] answer_text(list[k]) == Some(s);
                    assert(0 <= k < a + 1);
                }
            }
            lemma_added_findings_trans(s3, b, out@);
            lemma_findings_indexed_step(list, g, a as int);
        }
        a += 1;
    }
    proof {
        lemma_take_all(list);
        lemma_added_findings_trans(old(out)@, s3, out@);
    }
}

/// Whether `row` holds the answer `s`.
pub open spec fn names_in(row: Seq<String>, s: Seq<char>) -> bool {
    exists|i: int| 0 <= i < row.len() && (#[trigger] row[i])@ == s
}

/// The checks of an answer that is new to its question: reuse across questions, its kind,
/// and its card in `deck.yaml`; records it as seen.
fn validate_fresh_answer(
    cx: &Context,
    out: &mut Vec<Diagnostic>,
    path: &str,
    answer: &str,
    answer_pointer: &String,
    range: Option<SourceRange>,
    deck: &Vec<String>,
    seen_answers: &mut Vec<(String, String)>,
)
    ensures
        appended(old(out)@, final(out)@),
        added_findings(old(out)@, final(out)@) == finding_if(seen_holds(old(seen_answers)@, answer@),
            error_at("solution.answer_reused"@, answer_pointer@))
            + match kind_in(cx.definitions@, answer@) {
                Some(kind) => if kind == Kind::Setting || kind == Kind::Character || kind == Kind::Entity {
                    finding_if(!string_views(deck@).contains(answer@), error_at("solution.question_answer_not_in_deck"@, answer_pointer@))
                } else {
                    seq![error_at("solution.question_answer_type"@, answer_pointer@)]
                },
                None => seq![error_at("solution.question_answer_unknown"@, answer_pointer@)],
            },
        forall|s: Seq<char>| seen_holds(final(seen_answers)@, s) <==> (seen_holds(old(seen_answers)@, s) || s == answer@),
{
    let ghost t0 = out@;
    let ghost old_seen = seen_answers@;
    let mut previous: Option<usize> = None;
    let mut k: usize = 0;
    let n = seen_answers.len();
    while k < n && previous.is_none()
        invariant
            0 <= k <= seen_answers@.len(),
            n == seen_answers@.len(),
            seen_answers@ == old_seen,
            match previous {
                Some(j) => j < seen_answers@.len() && seen_answers@[j as int].0@ == answer@,
                None => forall|i: int| 0 <= i < k ==> (#[trigger] seen_answers@[i]).0@ != answer@,
            },
        decreases seen_answers@.len() - k,
    {
        if str_eq(seen_answers[k].0.as_str(), answer) {
            previous = Some(k);
        }
        k += 1;
    }
    match previous {
        Some(j) => {
            let earlier = seen_answers[j].1.clone();
            seen_answers.set(j, (owned(answer), answer_pointer.clone()));
            let head = cat3("physical card `", answer, "` may answer only one solution question; it was already used at `");
            error_if(out, true, "solution.answer_reused", cat3(head.as_str(), earlier.as_str(), "`"), path,
                answer_pointer.clone(), range, Some(owned(answer)));
            proof {
                assert forall|s: Seq<char>| seen_holds(seen_answers@, s) <==> (seen_holds(old_seen, s) || s == answer@) by {
                    if seen_holds(seen_answers@, s) {
                        let i = choose|i: int| 0 <= i < seen_answers@.len() && (#[trigger] seen_answers@[i]).0@ == s;
                        if i != j { assert(old_seen[i] == seen_answers@[i]); }
                    }
                    if seen_holds(old_seen, s) {
                        let i = choose|i: int| 0 <= i < old_seen.len() && (#[trigger] old_seen[i]).0@ == s;
                        if i != j { assert(seen_answers@[i] == old_seen[i]); } else { assert(seen_answers@[i].0@ == s); }
                    }
                    if s == answer@ { assert(seen_answers@[j as int].0@ == s); }
                }
            }
        },
        None => {
            proof {
                assert(!seen_holds(old_seen, answer@));
                lemma_added_findings_none(t0);
            }
            seen_answers.push((owned(answer), answer_pointer.clone()));
            proof {
                assert forall|s: Seq<char>| seen_holds(seen_answers@, s) <==> (seen_holds(old_seen, s) || s == answer@) by {
                    if seen_holds(seen_answers@, s) {
                        let i = choose|i: int| 0 <= i < seen_answers@.len() && (#[trigger] seen_answers@[i]).0@ == s;
                        if i < old_seen.len() { assert(old_seen[i] == seen_answers@[i]); }
                    }
                    if seen_holds(old_seen, s) {
                        let i = choose|i: int| 0 <= i < old_seen.len() && (#[trigger] old_seen[i]).0@ == s;
                        assert(seen_answers@[i] == old_seen[i]);
                    }
                    if s == answer@ { assert(seen_answers@[old_seen.len() as int].0@ == s); }
                }
            }
        },
    }
    let ghost t1 = out@;
    match cx.kind_of(answer) {
        Some(kind) => {
            if kind == Kind::Setting || kind == Kind::Character || kind == Kind::Entity {
                let in_deck = contains_string(deck, answer);
                proof {
                    let views = string_views(deck@);
                    if in_deck {
                        let i = choose|i: int| 0 <= i < deck@.len() && (#[trigger] deck@[i])@ == answer@;
                        assert(views[i] == answer@);
                    }
                    if views.contains(answer@) {
                        let i = choose|i: int| 0 <= i < views.len() && views[i] == answer@;
                        assert(deck@[i]@ == answer@);
                    }
                }
                error_if(out, !in_deck, "solution.question_answer_not_in_deck",
                    cat3("solution answer `", answer, "` must have a physical card in `deck.yaml`"), path,
                    answer_pointer.clone(), range, Some(owned(answer)));
            } else {
                error_if(out, true, "solution.question_answer_type",
                    cat3("solution answer `", answer, "` must identify a setting, character, or entity physical card"),
                    path, answer_pointer.clone(), range, Some(owned(answer)));
            }
        },
        None => {
            error_if(out, true, "solution.question_answer_unknown", cat3("solution answer `", answer, "` is not defined"), path,
                answer_pointer.clone(), range, Some(owned(answer)));
        },
    }
    proof { lemma_added_findings_trans(t0, t1, out@); }
}

/// A solution complete enough to end the game: the four legacy IDs, or a `win_state`
/// with at least one question.
pub open spec fn complete_solution(solution: Seq<(YamlValue, YamlValue)>) -> bool {
    ||| spec_string_field(solution, "victim"@) is Some && spec_string_field(solution, "culprit"@) is Some
        && spec_string_field(solution, "weapon"@) is Some && spec_string_field(solution, "location"@) is Some
    ||| spec_string_field(solution, "win_state"@) is Some
        && (map_get(solution, "questions"@) matches Some(q) && (spec_as_sequence(q) matches Some(list) && list.len() > 0))
}

/// Whether some file holds a complete solution.
pub open spec fn any_complete_solution(parsed: Seq<ParsedFile>) -> bool {
    exists|f: int| 0 <= f < parsed.len() && (#[trigger] spec_solution_of(parsed[f].root@) matches Some(s) && complete_solution(s))
}

/// A solution that is complete enough to end the game: the four legacy IDs, or a
/// `win_state` with at least one question.
fn has_complete_solution(cx: &Context) -> (r: bool)
    ensures
        r == any_complete_solution(cx.parsed@),
{
    let mut f: usize = 0;
    while f < cx.parsed.len()
        invariant
            0 <= f <= cx.parsed@.len(),
            forall|g: int| 0 <= g < f ==> !(#[trigger] spec_solution_of(cx.parsed@[g].root@) matches Some(s) && complete_solution(s)),
        decreases cx.parsed@.len() - f,
    {
        if let Some(solution) = solution_of(&cx.parsed[f].root) {
            let legacy = string_field(solution, "victim").is_some() && string_field(solution, "culprit").is_some()
                && string_field(solution, "weapon").is_some() && string_field(solution, "location").is_some();
            let questions = match get(solution, "questions") {
                Some(q) => match q.as_sequence() { Some(list) => list.len() > 0, None => false },
                None => false,
            };
            if legacy || (string_field(solution, "win_state").is_some() && questions) {
                return true;
            }
        }
        f += 1;
    }
    false
}

/// The findings of `validate_terminal_configuration`.
pub open spec fn terminal_configuration_findings(version: Option<StoryVersion>, sections: Seq<(String, Vec<(String, String)>)>,
    parsed: Seq<ParsedFile>, end_count: nat, win_count: nat) -> Seq<Finding> {
    let has_end = section_lookup(sections, "end_states"@) is Some;
    let has_win = section_lookup(sections, "win_states"@) is Some;
    let canonical = spec_is_format_3_from(version, 4);
    finding_if(has_end && has_win, error_at("end_states.mixed_legacy_section"@, "/end_states"@))
    + finding_if(has_end && !canonical, error_at("end_states.format_incompatible"@, "/end_states"@))
    + finding_if(has_win && canonical, warning_at("win_states.legacy_compatibility"@, "/win_states"@))
    + finding_if(end_count == 0 && win_count == 0 && !any_complete_solution(parsed),
        if canonical { error_at("end_states.missing_terminal_configuration"@, "/end_states"@) }
        else { error_at("win_states.missing_terminal_configuration"@, "/win_states"@) })
}

/// One terminal section, `end_states` only from format
/// 3.4, legacy `win_states` kept with a warning, and at least one way to end the game.
pub fn validate_terminal_configuration(cx: &Context, out: &mut Vec<Diagnostic>, end_states: &Vec<Item>, win_states: &Vec<Item>)
    ensures
        appended(old(out)@, final(out)@),
        added_findings(old(out)@, final(out)@) == terminal_configuration_findings(cx.format_version, cx.sections@, cx.parsed@,
            end_states@.len(), win_states@.len()),
{
    let has_end = cx.section("end_states").is_some();
    let has_win = cx.section("win_states").is_some();
    let canonical = cx.is_format_3_from(4);
    let ghost s0 = out@;
    error_if(out, has_end && has_win, "end_states.mixed_legacy_section",
        owned("define exactly one ordered terminal section; migrate `win_states` into `end_states` without keeping both roots"),
        "", owned("/end_states"), None, None);
    let ghost s1 = out@;
    let end_path = if end_states.len() > 0 { end_states[0].path.as_str() } else { "" };
    error_if(out, has_end && !canonical, "end_states.format_incompatible", owned("canonical `end_states` require story format 3.4 or later"),
        end_path, owned("/end_states"), None, None);
    let ghost s2 = out@;
    let win_path = if win_states.len() > 0 { win_states[0].path.as_str() } else { "" };
    warning_if(out, has_win && canonical, "win_states.legacy_compatibility",
        owned("legacy `win_states` retain authored order and behave as `won`/`full`; migrate them to canonical `end_states` when editing the terminal contract"),
        win_path, owned("/win_states"), None, None);
    let ghost s3 = out@;
    let missing = end_states.len() == 0 && win_states.len() == 0 && !has_complete_solution(cx);
    if canonical {
        error_if(out, missing, "end_states.missing_terminal_configuration",
            owned("define at least one generic end state or a valid `solution` block"), "", owned("/end_states"), None, None);
    } else {
        error_if(out, missing, "win_states.missing_terminal_configuration",
            owned("define at least one generic win state or a valid `solution` block"), "", owned("/win_states"), None, None);
    }
    proof {
        lemma_added_findings_trans(s0, s1, s2);
        lemma_added_findings_trans(s0, s2, s3);
        lemma_added_findings_trans(s0, s3, out@);
    }
}

/// A positive whole-number `minimum_points`.
pub open spec fn spec_positive_minimum(m: Seq<(YamlValue, YamlValue)>) -> bool {
    map_get(m, "minimum_points"@) matches Some(v) && (spec_as_u64(v) matches Some(x) && x > 0)
}

/// A positive whole-number `minimum_points`.
fn positive_minimum(mapping: &Vec<(YamlValue, YamlValue)>) -> (r: bool)
    ensures
        r == spec_positive_minimum(mapping@),
{
    match get(mapping, "minimum_points") {
        Some(v) => match v.as_u64() { Some(m) => m > 0, None => false },
        None => false,
    }
}

/// `minimum_points` is absent, or an untagged non-negative integer.
pub open spec fn spec_minimum_points_ok(m: Seq<(YamlValue, YamlValue)>) -> bool {
    match map_get(m, "minimum_points"@) {
        Some(YamlValue::Number(YamlNumber::PosInt(_))) => true,
        Some(_) => false,
        None => true,
    }
}

/// `minimum_points` is absent, or an untagged non-negative integer.
fn minimum_points_ok(mapping: &Vec<(YamlValue, YamlValue)>) -> (r: bool)
    ensures
        r == spec_minimum_points_ok(mapping@),
{
    match get(mapping, "minimum_points") {
        Some(YamlValue::Number(YamlNumber::PosInt(_))) => true,
        Some(_) => false,
        None => true,
    }
}

/// The findings of a missing or blank `name` or `text` of a terminal state.
pub open spec fn name_text_findings(state: Item, prefix: Seq<char>) -> Seq<Finding> {
    finding_if(!text_field(state.mapping@, "name"@), error_at(prefix + ".name"@, state.pointer@ + "/name"@))
    + finding_if(!text_field(state.mapping@, "text"@), error_at(prefix + ".text"@, state.pointer@ + "/text"@))
}

/// Reports a missing or blank `name` or `text` of a terminal state.
fn check_name_and_text(out: &mut Vec<Diagnostic>, state: &Item, prefix: &str, noun: &str)
    ensures
        appended(old(out)@, final(out)@),
        added_findings(old(out)@, final(out)@) == name_text_findings(*state, prefix@),
{
    let ghost s0 = out@;
    proof { reveal_strlit(".name"); reveal_strlit(".text"); reveal_strlit("/name"); reveal_strlit("/text"); }
    error_if(out, !has_text_field(&state.mapping, "name"), cat(prefix, ".name").as_str(), cat3(noun, " `name`", " must be a non-empty string"),
        state.path.as_str(), cat(state.pointer.as_str(), "/name"), None, Some(state.id.clone()));
    let ghost s1 = out@;
    error_if(out, !has_text_field(&state.mapping, "text"), cat(prefix, ".text").as_str(), cat3(noun, " `text`", " must be a non-empty string"),
        state.path.as_str(), cat(state.pointer.as_str(), "/text"), None, Some(state.id.clone()));
    proof { lemma_added_findings_trans(s0, s1, out@); }
}

/// The findings of the keys of a terminal state outside `allowed`.
pub open spec fn terminal_field_findings(state: Item, allowed: Seq<&str>, code: Seq<char>) -> Seq<Finding> {
    findings_over(state.mapping@, |e: (YamlValue, YamlValue)| match spec_as_str(e.0) {
        Some(k) => finding_if(!(exists|i: int| 0 <= i < allowed.len() && (#[trigger] allowed[i])@ == k),
            error_at(code, state.pointer@ + seq!['/'] + spec_escape_pointer(k))),
        None => Seq::empty(),
    })
}

/// Reports keys of a terminal state outside `allowed`.
fn check_terminal_fields(out: &mut Vec<Diagnostic>, state: &Item, allowed: &[&str], code: &str, noun: &str)
    ensures
        appended(old(out)@, final(out)@),
        added_findings(old(out)@, final(out)@) == terminal_field_findings(*state, allowed@, code@),
{
    let ghost f = |e: (YamlValue, YamlValue)| match spec_as_str(e.0) {
        Some(k) => finding_if(!(exists|i: int| 0 <= i < allowed@.len() && (#[trigger] allowed@[i])@ == k),
            error_at(code@, state.pointer@ + seq!['/'] + spec_escape_pointer(k))),
        None => Seq::empty(),
    };
    let mut k: usize = 0;
    proof { lemma_added_findings_none(out@); }
    while k < state.mapping.len()
        invariant
            0 <= k <= state.mapping@.len(),
            f == (|e: (YamlValue, YamlValue)| match spec_as_str(e.0) {
                Some(k) => finding_if(!(exists|i: int| 0 <= i < allowed@.len() && (#[trigger] allowed@[i])@ == k),
                    error_at(code@, state.pointer@ + seq!['/'] + spec_escape_pointer(k))),
                None => Seq::empty(),
            }),
            appended(old(out)@, out@),
            added_findings(old(out)@, out@) == findings_over(state.mapping@.take(k as int), f),
        decreases state.mapping@.len() - k,
    {
        let ghost b = out@;
        match state.mapping[k].0.as_str() {
            Some(key) => {
                let known = one_of(key, allowed);
                let message = if known { String::new() } else { cat4("unknown ", noun, " field `", cat(key, "`").as_str()) };
                error_if(out, !known, code, message, state.path.as_str(), child(state.pointer.as_str(), key), None, Some(state.id.clone()));
            },
            None => { proof { lemma_added_findings_none(b); } },
        }
        proof {
            lemma_added_findings_trans(old(out)@, b, out@);
            lemma_findings_over_step(state.mapping@, f, k as int);
        }
        k += 1;
    }
    proof { lemma_take_all(state.mapping@); }
}

/// The fields of a win state.
pub open spec fn win_state_fields() -> Seq<&'static str> {
    seq!["id", "name", "requires", "minimum_points", "text"]
}

/// The findings of one win state; `target` is the solution's terminal state.
pub open spec fn win_state_findings(target: Option<Seq<char>>, state: Item) -> Seq<Finding> {
    let m = state.mapping@;
    let p = state.pointer@;
    let has_requirements = map_get(m, "requires"@) matches Some(v) && (spec_as_sequence(v) matches Some(list) && list.len() > 0);
    let has_points = spec_positive_minimum(m);
    let is_target = target == Some(state.id@);
    name_text_findings(state, "win_states"@)
    + (match map_get(m, "requires"@) {
        Some(v) => finding_if(!spec_is_string_sequence(v), error_at("win_states.requires_type"@, p + "/requires"@)),
        None => Seq::empty(),
    })
    + finding_if(!spec_minimum_points_ok(m), error_at("win_states.minimum_points"@, p + "/minimum_points"@))
    + (if is_target && (has_requirements || has_points) {
        seq![error_at("win_states.solution_condition_conflict"@, p)]
    } else {
        finding_if(!is_target && !has_requirements && !has_points, error_at("win_states.unconditional"@, p))
    })
    + terminal_field_findings(state, win_state_fields(), "win_states.unknown_field"@)
}

/// The terminal state of the solution from format 3.3 (for win states).
pub open spec fn win_target(version: Option<StoryVersion>, parsed: Seq<ParsedFile>) -> Option<Seq<char>> {
    if spec_is_format_3_from(version, 3) { spec_solution_terminal_state_id(parsed) } else { None }
}

/// Names, text, persistent `requires`, `minimum_points`, and a
/// condition unless the state is the solution's target.
pub fn validate_win_states(cx: &Context, out: &mut Vec<Diagnostic>, win_states: &Vec<Item>)
    ensures
        appended(old(out)@, final(out)@),
        added_findings(old(out)@, final(out)@) == findings_over(win_states@,
            |s: Item| win_state_findings(win_target(cx.format_version, cx.parsed@), s)),
{
    let target = if cx.is_format_3_from(3) { solution_terminal_state_id(cx) } else { None };
    let ghost t = win_target(cx.format_version, cx.parsed@);
    proof { assert(match target { Some(x) => t == Some(x@), None => t is None }); }
    let ghost f = |s: Item| win_state_findings(t, s);
    let mut i: usize = 0;
    proof { lemma_added_findings_none(out@); }
    while i < win_states.len()
        invariant
            0 <= i <= win_states@.len(),
            match target { Some(x) => t == Some(x@), None => t is None },
            f == (|s: Item| win_state_findings(t, s)),
            appended(old(out)@, out@),
            added_findings(old(out)@, out@) == findings_over(win_states@.take(i as int), f),
        decreases win_states@.len() - i,
    {
        let state = &win_states[i];
        let path = state.path.as_str();
        let ghost s0 = out@;
        proof { reveal_strlit("/requires"); reveal_strlit("/minimum_points"); }
        check_name_and_text(out, state, "win_states", "win state");
        let ghost s1 = out@;
        let bad_requires = match get(&state.mapping, "requires") { Some(value) => !is_string_sequence(value), None => false };
        error_if(out, bad_requires, "win_states.requires_type",
            owned("win state `requires` must be a sequence of persistent requirement IDs"), path,
            cat(state.pointer.as_str(), "/requires"), None, Some(state.id.clone()));
        let ghost s2 = out@;
        error_if(out, !minimum_points_ok(&state.mapping), "win_states.minimum_points",
            owned("win state `minimum_points` must be a non-negative whole number"), path,
            cat(state.pointer.as_str(), "/minimum_points"), None, Some(state.id.clone()));
        let ghost s3 = out@;
        let has_requirements = match get(&state.mapping, "requires") {
            Some(v) => match v.as_sequence() { Some(list) => list.len() > 0, None => false },
            None => false,
        };
        let has_points = positive_minimum(&state.mapping);
        let is_target = match &target { Some(t) => str_eq(t.as_str(), state.id.as_str()), None => false };
        if is_target && (has_requirements || has_points) {
            error_if(out, true, "win_states.solution_condition_conflict",
                owned("the win state selected by `solution.win_state` must not duplicate completion conditions; answering all solution questions is its condition"),
                path, state.pointer.clone(), None, Some(state.id.clone()));
        } else {
            error_if(out, !is_target && !has_requirements && !has_points, "win_states.unconditional",
                owned("win state must require at least one persistent condition or a positive point threshold"), path,
                state.pointer.clone(), None, Some(state.id.clone()));
        }
        let ghost s4 = out@;
        let allowed: &[&str] = &["id", "name", "requires", "minimum_points", "text"];
        proof { assert(allowed@ == win_state_fields()); }
        check_terminal_fields(out, state, allowed, "win_states.unknown_field", "win-state");
        proof {
            lemma_added_findings_trans(s0, s1, s2);
            lemma_added_findings_trans(s0, s2, s3);
            lemma_added_findings_trans(s0, s3, s4);
            lemma_added_findings_trans(s0, s4, out@);
            lemma_added_findings_trans(old(out)@, s0, out@);
            lemma_findings_over_step(win_states@, f, i as int);
        }
        i += 1;
    }
    proof { lemma_take_all(win_states@); }
}

/// The fields of an end state.
pub open spec fn end_state_fields() -> Seq<&'static str> {
    seq!["id", "name", "outcome", "resolution", "requires", "minimum_points", "at_or_after", "text"]
}

/// The findings of one end state's outcome and resolution.
pub open spec fn outcome_findings(state: Item) -> Seq<Finding> {
    let m = state.mapping@;
    let p = state.pointer@;
    let outcome = spec_string_field(m, "outcome"@);
    let won = outcome == Some("won"@);
    let lost = outcome == Some("lost"@);
    let resolution = spec_string_field(m, "resolution"@);
    let full_or_partial = resolution == Some("full"@) || resolution == Some("partial"@);
    let failure = resolution == Some("failure"@);
    finding_if(!won && !lost, error_at("end_states.outcome"@, p + "/outcome"@))
    + if !full_or_partial && !failure {
        seq![error_at("end_states.resolution"@, p + "/resolution"@)]
    } else {
        finding_if((won && failure) || (lost && full_or_partial), error_at("end_states.outcome_resolution_conflict"@, p))
    }
}

/// The findings of one end state; `target` is the solution's terminal state.
pub open spec fn end_state_findings(target: Option<Seq<char>>, state: Item) -> Seq<Finding> {
    let m = state.mapping@;
    let p = state.pointer@;
    let lost = spec_string_field(m, "outcome"@) == Some("lost"@);
    let has_requirements = spec_string_list_field(m, "requires"@).len() > 0;
    let has_points = spec_positive_minimum(m);
    let has_time = spec_string_field(m, "at_or_after"@) matches Some(t) && spec_valid_time(t);
    let is_target = target == Some(state.id@);
    name_text_findings(state, "end_states"@)
    + outcome_findings(state)
    + (match map_get(m, "requires"@) {
        Some(v) => finding_if(!spec_is_string_sequence(v), error_at("end_states.requires_type"@, p + "/requires"@)),
        None => Seq::empty(),
    })
    + finding_if(!spec_minimum_points_ok(m), error_at("end_states.minimum_points"@, p + "/minimum_points"@))
    + (match map_get(m, "at_or_after"@) {
        Some(YamlValue::String(t)) => finding_if(!spec_valid_time(t@), error_at("end_states.at_or_after"@, p + "/at_or_after"@)),
        Some(_) => seq![error_at("end_states.at_or_after"@, p + "/at_or_after"@)],
        None => Seq::empty(),
    })
    + finding_if(is_target && lost, error_at("end_states.solution_outcome_conflict"@, p + "/outcome"@))
    + (if is_target && (has_requirements || has_points || has_time) {
        seq![error_at("end_states.solution_condition_conflict"@, p)]
    } else {
        finding_if(!is_target && !has_requirements && !has_points && !has_time, error_at("end_states.unconditional"@, p))
    })
    + terminal_field_findings(state, end_state_fields(), "end_states.unknown_field"@)
}

/// The findings of `validate_end_states`.
pub open spec fn end_states_findings(parsed: Seq<ParsedFile>, end_states: Seq<Item>) -> Seq<Finding> {
    let target = spec_solution_terminal_state_id(parsed);
    if end_states.len() == 0 {
        Seq::empty()
    } else {
        findings_over(end_states, |s: Item| end_state_findings(target, s)) + precedence_findings(end_states, target)
    }
}

/// Names, text, legal `outcome`/`resolution` pairs, conditions
/// (persistent IDs, points, game clock), the solution's target, fields, and precedence.
pub fn validate_end_states(cx: &Context, out: &mut Vec<Diagnostic>, end_states: &Vec<Item>)
    ensures
        appended(old(out)@, final(out)@),
        added_findings(old(out)@, final(out)@) == end_states_findings(cx.parsed@, end_states@),
{
    proof { lemma_added_findings_none(out@); }
    if end_states.len() == 0 {
        return;
    }
    let target = solution_terminal_state_id(cx);
    let ghost t = spec_solution_terminal_state_id(cx.parsed@);
    let ghost f = |s: Item| end_state_findings(t, s);
    let mut i: usize = 0;
    while i < end_states.len()
        invariant
            0 <= i <= end_states@.len(),
            match target { Some(x) => t == Some(x@), None => t is None },
            f == (|s: Item| end_state_findings(t, s)),
            appended(old(out)@, out@),
            added_findings(old(out)@, out@) == findings_over(end_states@.take(i as int), f),
        decreases end_states@.len() - i,
    {
        let ghost s0 = out@;
        validate_end_state(out, &end_states[i], &target);
        proof {
            lemma_added_findings_trans(old(out)@, s0, out@);
            lemma_findings_over_step(end_states@, f, i as int);
        }
        i += 1;
    }
    proof { lemma_take_all(end_states@); }
    let ghost s1 = out@;
    validate_end_state_precedence(out, end_states, &target);
    proof { lemma_added_findings_trans(old(out)@, s1, out@); }
}

/// The outcome and resolution checks of one end state; returns whether it is `lost`.
fn check_outcome(out: &mut Vec<Diagnostic>, state: &Item) -> (lost: bool)
    ensures
        appended(old(out)@, final(out)@),
        added_findings(old(out)@, final(out)@) == outcome_findings(*state),
        lost == (spec_string_field(state.mapping@, "outcome"@) == Some("lost"@)),
{
    let path = state.path.as_str();
    let ghost s0 = out@;
    proof { reveal_strlit("/outcome"); reveal_strlit("/resolution"); }
    let outcome = string_field(&state.mapping, "outcome");
    let won = match outcome { Some(o) => str_eq(o, "won"), None => false };
    let lost = match outcome { Some(o) => str_eq(o, "lost"), None => false };
    error_if(out, !won && !lost, "end_states.outcome", owned("end state `outcome` must be `won` or `lost`"), path,
        cat(state.pointer.as_str(), "/outcome"), None, Some(state.id.clone()));
    let ghost s1 = out@;
    let resolution = string_field(&state.mapping, "resolution");
    let full_or_partial = match resolution { Some(r) => str_eq(r, "full") || str_eq(r, "partial"), None => false };
    let failure = match resolution { Some(r) => str_eq(r, "failure"), None => false };
    if !full_or_partial && !failure {
        error_if(out, true, "end_states.resolution", owned("end state `resolution` must be `full`, `partial`, or `failure`"), path,
            cat(state.pointer.as_str(), "/resolution"), None, Some(state.id.clone()));
    } else {
        error_if(out, (won && failure) || (lost && full_or_partial), "end_states.outcome_resolution_conflict",
            owned("`won` permits `full` or `partial`; `lost` requires `failure`"),
            path, state.pointer.clone(), None, Some(state.id.clone()));
    }
    proof { lemma_added_findings_trans(s0, s1, out@); }
    lost
}

/// The checks of `validate_end_states` for one end state.
fn validate_end_state(out: &mut Vec<Diagnostic>, state: &Item, target: &Option<String>)
    ensures
        appended(old(out)@, final(out)@),
        added_findings(old(out)@, final(out)@)
            == end_state_findings(target_view(*target), *state),
{
    let path = state.path.as_str();
    let ghost s0 = out@;
    proof { reveal_strlit("/requires"); reveal_strlit("/minimum_points"); reveal_strlit("/at_or_after"); reveal_strlit("/outcome"); }
    check_name_and_text(out, state, "end_states", "end state");
    let ghost s1 = out@;
    let lost = check_outcome(out, state);
    let ghost s2 = out@;
    let bad_requires = match get(&state.mapping, "requires") { Some(value) => !is_string_sequence(value), None => false };
    error_if(out, bad_requires, "end_states.requires_type", owned("end state `requires` must be a sequence of persistent requirement IDs"),
        path, cat(state.pointer.as_str(), "/requires"), None, Some(state.id.clone()));
    let ghost s3 = out@;
    error_if(out, !minimum_points_ok(&state.mapping), "end_states.minimum_points",
        owned("end state `minimum_points` must be a non-negative whole number"), path,
        cat(state.pointer.as_str(), "/minimum_points"), None, Some(state.id.clone()));
    let ghost s4 = out@;
    match get(&state.mapping, "at_or_after") {
        Some(YamlValue::String(time)) => {
            let ok = valid_time(time.as_str());
            let range = if ok { None } else { locate_scalar(state.source.as_str(), time.as_str()) };
            error_if(out, !ok, "end_states.at_or_after", owned("end state `at_or_after` must be a quoted 24-hour HH:MM value"), path,
                cat(state.pointer.as_str(), "/at_or_after"), range, Some(state.id.clone()));
        },
        Some(_) => {
            let range = match string_field(&state.mapping, "at_or_after") {
                Some(time) => locate_scalar(state.source.as_str(), time),
                None => None,
            };
            error_if(out, true, "end_states.at_or_after", owned("end state `at_or_after` must be a quoted 24-hour HH:MM value"), path,
                cat(state.pointer.as_str(), "/at_or_after"), range, Some(state.id.clone()));
        },
        None => { proof { lemma_added_findings_none(s4); } },
    }
    let ghost s5 = out@;
    let has_requirements = string_list_field(&state.mapping, "requires").len() > 0;
    let has_points = positive_minimum(&state.mapping);
    let has_time = match string_field(&state.mapping, "at_or_after") { Some(t) => valid_time(t), None => false };
    let is_target = match target { Some(t) => str_eq(t.as_str(), state.id.as_str()), None => false };
    error_if(out, is_target && lost, "end_states.solution_outcome_conflict",
        owned("the end state selected by `solution.win_state` must have outcome `won`"),
        path, cat(state.pointer.as_str(), "/outcome"), None, Some(state.id.clone()));
    let ghost s6 = out@;
    if is_target && (has_requirements || has_points || has_time) {
        error_if(out, true, "end_states.solution_condition_conflict",
            owned("the end state selected by `solution.win_state` must not duplicate completion conditions; answering all solution questions is its condition"),
            path, state.pointer.clone(), None, Some(state.id.clone()));
    } else {
        error_if(out, !is_target && !has_requirements && !has_points && !has_time, "end_states.unconditional",
            owned("end state must require a persistent condition, positive point threshold, or game-clock threshold"), path,
            state.pointer.clone(), None, Some(state.id.clone()));
    }
    let ghost s7 = out@;
    let allowed: &[&str] = &["id", "name", "outcome", "resolution", "requires", "minimum_points", "at_or_after", "text"];
    proof { assert(allowed@ == end_state_fields()); }
    check_terminal_fields(out, state, allowed, "end_states.unknown_field", "end-state");
    proof {
        lemma_added_findings_trans(s0, s1, s2);
        lemma_added_findings_trans(s0, s2, s3);
        lemma_added_findings_trans(s0, s3, s4);
        lemma_added_findings_trans(s0, s4, s5);
        lemma_added_findings_trans(s0, s5, s6);
        lemma_added_findings_trans(s0, s6, s7);
        lemma_added_findings_trans(s0, s7, out@);
    }
}

/// The view of an optional ID.
pub open spec fn target_view(target: Option<String>) -> Option<Seq<char>> {
    match target {
        Some(x) => Some(x@),
        None => None,
    }
}

/// The first position in `t` whose string is not below `x`.
pub open spec fn scan_pos(t: Seq<Seq<char>>, x: Seq<char>) -> int
    decreases t.len(),
{
    if t.len() == 0 {
        0
    } else if seq_less(t[0], x) {
        1 + scan_pos(t.drop_first(), x)
    } else {
        0
    }
}

/// The position found by a forward scan is `scan_pos`.
proof fn lemma_scan_pos(t: Seq<Seq<char>>, x: Seq<char>, p: int)
    requires
        0 <= p <= t.len(),
        forall|q: int| 0 <= q < p ==> seq_less(#[trigger] t[q], x),
        p == t.len() || !seq_less(t[p], x),
    ensures
        scan_pos(t, x) == p,
    decreases p,
{
    if p > 0 {
        assert forall|q: int| 0 <= q < p - 1 implies seq_less(#[trigger] t.drop_first()[q], x) by {
            assert(t.drop_first()[q] == t[q + 1]);
        }
        if p < t.len() {
            assert(t.drop_first()[p - 1] == t[p]);
        }
        lemma_scan_pos(t.drop_first(), x, p - 1);
        assert(seq_less(t[0], x));
    }
}

/// The requirements of a condition: the listed IDs without repeats, each new one inserted
/// before the first kept ID that is not below it.
pub open spec fn requirement_list(listed: Seq<Seq<char>>) -> Seq<Seq<char>>
    decreases listed.len(),
{
    if listed.len() == 0 {
        Seq::empty()
    } else {
        let kept = requirement_list(listed.drop_last());
        let x = listed.last();
        if kept.contains(x) { kept } else { kept.insert(scan_pos(kept, x), x) }
    }
}

/// A condition as values: requirements, `minimum_points`, and the clock gate in minutes.
pub type ConditionView = (Seq<Seq<char>>, u64, Option<u16>);

/// The condition of an end state, `None` when its `requires`, `minimum_points` or
/// `at_or_after` is malformed.
pub open spec fn spec_condition(item: Item) -> Option<ConditionView> {
    let m = item.mapping@;
    if map_get(m, "requires"@) matches Some(v) && !spec_is_string_sequence(v) {
        None
    } else if map_get(m, "minimum_points"@) matches Some(v) && spec_as_u64(v) is None {
        None
    } else if spec_string_field(m, "at_or_after"@) matches Some(t) && !spec_valid_time(t) {
        None
    } else {
        Some((requirement_list(spec_string_list_field(m, "requires"@)),
            match map_get(m, "minimum_points"@) { Some(v) => spec_as_u64(v)->0, None => 0 },
            match spec_string_field(m, "at_or_after"@) { Some(t) => Some(spec_minutes(t) as u16), None => None }))
    }
}

/// The values of a condition.
pub open spec fn condition_view(c: EndStateCondition) -> ConditionView {
    (c.requirements@.map_values(|s: String| s@), c.minimum_points, c.at_or_after_minutes)
}

/// `earlier` holds whenever `later` does.
pub open spec fn implies_view(earlier: ConditionView, later: ConditionView) -> bool {
    &&& forall|i: int| 0 <= i < earlier.0.len() ==> later.0.contains(#[trigger] earlier.0[i])
    &&& earlier.1 <= later.1
    &&& clock_implied(earlier.2, later.2)
}

/// The condition an end state takes part in precedence with: none for the solution's
/// target or a malformed condition.
pub open spec fn usable_condition(target: Option<Seq<char>>, state: Item) -> Option<ConditionView> {
    if target == Some(state.id@) { None } else { spec_condition(state) }
}

/// The first state before `e` whose condition is the same as `later` or holds whenever it
/// does.
pub open spec fn first_covering(states: Seq<Item>, target: Option<Seq<char>>, later: ConditionView, e: int) -> Option<int>
    decreases e,
{
    if e <= 0 {
        None
    } else {
        match first_covering(states, target, later, e - 1) {
            Some(i) => Some(i),
            None => match usable_condition(target, states[e - 1]) {
                Some(c) => if c == later || implies_view(c, later) { Some(e - 1) } else { None },
                None => None,
            },
        }
    }
}

/// The precedence finding of end state `l`.
pub open spec fn precedence_state_findings(states: Seq<Item>, target: Option<Seq<char>>, l: int) -> Seq<Finding> {
    match usable_condition(target, states[l]) {
        None => Seq::empty(),
        Some(later) => match first_covering(states, target, later, l) {
            None => Seq::empty(),
            Some(e) => seq![error_at(if usable_condition(target, states[e]) == Some(later) { "end_states.duplicate_precedence"@ }
                else { "end_states.unreachable_precedence"@ }, states[l].pointer@)],
        },
    }
}

/// The findings of end-state precedence.
pub open spec fn precedence_findings(states: Seq<Item>, target: Option<Seq<char>>) -> Seq<Finding> {
    findings_indexed(states, |l: int, s: Item| precedence_state_findings(states, target, l))
}

/// Implication between end-state conditions is a preorder: every condition implies itself,
/// implication chains compose, and a repeated condition implies the original.
pub proof fn lemma_implication_preorder(a: ConditionView, b: ConditionView, c: ConditionView)
    ensures
        implies_view(a, a),
        implies_view(a, b) && implies_view(b, c) ==> implies_view(a, c),
        a == b ==> implies_view(a, b),
{
    assert forall|i: int| 0 <= i < a.0.len() implies a.0.contains(#[trigger] a.0[i]) by {}
    if implies_view(a, b) && implies_view(b, c) {
        assert forall|i: int| 0 <= i < a.0.len() implies c.0.contains(#[trigger] a.0[i]) by {
            assert(b.0.contains(a.0[i]));
            let j = choose|j: int| 0 <= j < b.0.len() && b.0[j] == a.0[i];
            assert(c.0.contains(b.0[j]));
        }
    }
}

/// Two conditions are the same exactly when their values are.
proof fn lemma_same_views(earlier: EndStateCondition, later: EndStateCondition)
    ensures
        spec_same_condition(earlier, later) == (condition_view(earlier) == condition_view(later)),
{
}

/// The condition under which an end state holds: every listed requirement, at least
/// `minimum_points`, and, when given, a game clock at or after `at_or_after`.
pub struct EndStateCondition {
    /// The requirements in ascending order, without repeats.
    pub requirements: Vec<String>,
    pub minimum_points: u64,
    pub at_or_after_minutes: Option<u16>,
}

/// Every requirement of `a` is a requirement of `b`.
pub open spec fn requirements_subset(a: Seq<String>, b: Seq<String>) -> bool {
    forall|i: int| #![trigger a[i]] 0 <= i < a.len() ==> exists|j: int| #![trigger b[j]] 0 <= j < b.len() && b[j]@ == a[i]@
}

/// The clock gate of `earlier` holds whenever that of `later` does.
pub open spec fn clock_implied(earlier: Option<u16>, later: Option<u16>) -> bool {
    match (earlier, later) {
        (None, _) => true,
        (Some(_), None) => false,
        (Some(e), Some(l)) => e <= l,
    }
}

/// `earlier` is satisfied whenever `later` is: conditions are monotonic conjunctions.
pub open spec fn spec_is_implied_by(earlier: EndStateCondition, later: EndStateCondition) -> bool {
    &&& requirements_subset(earlier.requirements@, later.requirements@)
    &&& earlier.minimum_points <= later.minimum_points
    &&& clock_implied(earlier.at_or_after_minutes, later.at_or_after_minutes)
}

/// The two conditions are the same.
pub open spec fn spec_same_condition(a: EndStateCondition, b: EndStateCondition) -> bool {
    &&& a.requirements@.map_values(|s: String| s@) == b.requirements@.map_values(|s: String| s@)
    &&& a.minimum_points == b.minimum_points
    &&& a.at_or_after_minutes == b.at_or_after_minutes
}

impl EndStateCondition {
    /// `EndStateCondition::from_item`: `None` when `requires` is not a string list,
    /// `minimum_points` is not a non-negative integer, or `at_or_after` is not a valid time.
    pub fn from_item(item: &Item) -> (r: Option<EndStateCondition>)
        ensures
            match r {
                Some(c) => spec_condition(*item) == Some(condition_view(c)),
                None => spec_condition(*item) is None,
            },
    {
        if let Some(value) = get(&item.mapping, "requires") {
            if !is_string_sequence(value) {
                return None;
            }
        }
        let minimum_points = match get(&item.mapping, "minimum_points") {
            Some(v) => match v.as_u64() { Some(m) => m, None => { return None; } },
            None => 0,
        };
        let at_or_after_minutes = match string_field(&item.mapping, "at_or_after") {
            Some(time) => if valid_time(time) { Some(time_to_minutes(time)) } else { return None; },
            None => None,
        };
        let listed = string_list_field(&item.mapping, "requires");
        let ghost views = listed@.map_values(|s: String| s@);
        let mut requirements: Vec<String> = Vec::new();
        let mut i: usize = 0;
        proof { assert(requirements@.map_values(|s: String| s@) =~= requirement_list(views.take(0))); }
        while i < listed.len()
            invariant
                0 <= i <= listed@.len(),
                views == listed@.map_values(|s: String| s@),
                requirements@.map_values(|s: String| s@) == requirement_list(views.take(i as int)),
            decreases listed@.len() - i,
        {
            let ghost before = requirements@.map_values(|s: String| s@);
            proof {
                assert(views.take(i + 1).drop_last() =~= views.take(i as int));
                assert(views.take(i + 1).last() == listed@[i as int]@);
            }
            let present = contains_string(&requirements, listed[i].as_str());
            proof {
                if present {
                    let k = choose|k: int| 0 <= k < requirements@.len() && (#[trigger] requirements@[k])@ == listed@[i as int]@;
                    assert(before[k] == listed@[i as int]@);
                }
                if before.contains(listed@[i as int]@) {
                    let k = choose|k: int| 0 <= k < before.len() && before[k] == listed@[i as int]@;
                    assert(requirements@[k]@ == listed@[i as int]@);
                }
            }
            if !present {
                let mut pos: usize = 0;
                while pos < requirements.len() && str_less(requirements[pos].as_str(), listed[i].as_str())
                    invariant
                        0 <= pos <= requirements@.len(),
                        before == requirements@.map_values(|s: String| s@),
                        forall|q: int| 0 <= q < pos ==> seq_less(#[trigger] before[q], listed@[i as int]@),
                    decreases requirements@.len() - pos,
                {
                    proof { assert(before[pos as int] == requirements@[pos as int]@); }
                    pos += 1;
                }
                proof {
                    if pos < requirements@.len() {
                        assert(before[pos as int] == requirements@[pos as int]@);
                    }
                    lemma_scan_pos(before, listed@[i as int]@, pos as int);
                }
                let ghost x = listed@[i as int]@;
                requirements.insert(pos, owned(listed[i].as_str()));
                proof { assert(requirements@.map_values(|s: String| s@) =~= before.insert(pos as int, x)); }
            }
            i += 1;
        }
        proof { assert(views.take(listed@.len() as int) =~= views); }
        Some(EndStateCondition { requirements, minimum_points, at_or_after_minutes })
    }

    /// Whether this earlier condition holds whenever `later` holds.
    pub fn is_implied_by(&self, later: &EndStateCondition) -> (r: bool)
        ensures
            r == spec_is_implied_by(*self, *later),
            r == implies_view(condition_view(*self), condition_view(*later)),
    {
        let ghost av = condition_view(*self).0;
        let ghost bv = condition_view(*later).0;
        let n = self.requirements.len();
        let mut i: usize = 0;
        while i < n
            invariant
                n == self.requirements@.len(),
                0 <= i <= n,
                av == condition_view(*self).0,
                bv == condition_view(*later).0,
                requirements_subset(self.requirements@.subrange(0, i as int), later.requirements@),
                forall|q: int| 0 <= q < i ==> bv.contains(#[trigger] av[q]),
            decreases n - i,
        {
            if !contains_string(&later.requirements, self.requirements[i].as_str()) {
                proof {
                    if bv.contains(av[i as int]) {
                        let k = choose|k: int| 0 <= k < bv.len() && bv[k] == av[i as int];
                        assert(later.requirements@[k]@ == self.requirements@[i as int]@);
                    }
                    assert(!implies_view(condition_view(*self), condition_view(*later)));
                }
                proof {
                    assert(!requirements_subset(self.requirements@, later.requirements@)) by {
                        if requirements_subset(self.requirements@, later.requirements@) {
                            let x = self.requirements@[i as int];
                            let j = choose|j: int| #![trigger later.requirements@[j]] 0 <= j < later.requirements@.len()
                                && later.requirements@[j]@ == x@;
                            assert(later.requirements@[j]@ == x@);
                        }
                    }
                }
                return false;
            }
            proof {
                let k = choose|k: int| 0 <= k < later.requirements@.len() && (#[trigger] later.requirements@[k])@ == self.requirements@[i as int]@;
                assert(bv[k] == av[i as int]);
                assert(bv.contains(av[i as int]));
                let prefix = self.requirements@.subrange(0, i + 1);
                assert forall|k: int| #![trigger prefix[k]] 0 <= k < prefix.len() implies
                    exists|j: int| #![trigger later.requirements@[j]] 0 <= j < later.requirements@.len()
                        && later.requirements@[j]@ == prefix[k]@ by {
                    if k < i {
                        let old_prefix = self.requirements@.subrange(0, i as int);
                        assert(old_prefix[k] == prefix[k]);
                    } else {
                        assert(prefix[k] == self.requirements@[i as int]);
                    }
                }
            }
            i += 1;
        }
        proof {
            assert(self.requirements@.subrange(0, n as int) =~= self.requirements@);
        }
        let clock = match self.at_or_after_minutes {
            None => true,
            Some(e) => match later.at_or_after_minutes {
                None => false,
                Some(l) => e <= l,
            },
        };
        proof {
            assert(clock == clock_implied(self.at_or_after_minutes, later.at_or_after_minutes));
        }
        self.minimum_points <= later.minimum_points && clock
    }

    /// Whether both conditions are the same.
    pub fn same_as(&self, other: &EndStateCondition) -> (r: bool)
        ensures
            r == spec_same_condition(*self, *other),
    {
        if self.minimum_points != other.minimum_points || self.at_or_after_minutes != other.at_or_after_minutes {
            return false;
        }
        if self.requirements.len() != other.requirements.len() {
            proof {
                assert(self.requirements@.map_values(|s: String| s@).len() != other.requirements@.map_values(|s: String| s@).len());
            }
            return false;
        }
        let mut i: usize = 0;
        while i < self.requirements.len()
            invariant
                0 <= i <= self.requirements@.len(),
                self.requirements@.len() == other.requirements@.len(),
                forall|k: int| 0 <= k < i ==> self.requirements@[k]@ == other.requirements@[k]@,
            decreases self.requirements@.len() - i,
        {
            if !str_eq(self.requirements[i].as_str(), other.requirements[i].as_str()) {
                proof {
                    assert(self.requirements@.map_values(|s: String| s@)[i as int] != other.requirements@.map_values(|s: String| s@)[i as int]);
                }
                return false;
            }
            i += 1;
        }
        proof {
            assert(self.requirements@.map_values(|s: String| s@) =~= other.requirements@.map_values(|s: String| s@));
        }
        true
    }
}

/// An end state whose condition repeats, or always
/// holds with, that of an earlier state (neither the solution's target) is reported once,
/// at the first such earlier state.
fn validate_end_state_precedence(out: &mut Vec<Diagnostic>, end_states: &Vec<Item>, target: &Option<String>)
    ensures
        appended(old(out)@, final(out)@),
        added_findings(old(out)@, final(out)@)
            == precedence_findings(end_states@, target_view(*target)),
{
    let ghost t = target_view(*target);
    let ghost states = end_states@;
    let ghost f = |l: int, s: Item| precedence_state_findings(states, t, l);
    let mut later_index: usize = 0;
    proof { lemma_added_findings_none(out@); }
    while later_index < end_states.len()
        invariant
            0 <= later_index <= end_states@.len(),
            states == end_states@,
            t == target_view(*target),
            f == (|l: int, s: Item| precedence_state_findings(states, t, l)),
            appended(old(out)@, out@),
            added_findings(old(out)@, out@) == findings_indexed(states.take(later_index as int), f),
        decreases end_states@.len() - later_index,
    {
        let ghost b = out@;
        validate_state_precedence(out, end_states, target, later_index);
        proof {
            lemma_added_findings_trans(old(out)@, b, out@);
            lemma_findings_indexed_step(states, f, later_index as int);
        }
        later_index += 1;
    }
    proof { lemma_take_all(states); }
}

/// The condition of an end state unless it is the solution's target.
fn usable(state: &Item, target: &Option<String>) -> (r: Option<EndStateCondition>)
    ensures
        match r {
            Some(c) => usable_condition(target_view(*target), *state) == Some(condition_view(c)),
            None => usable_condition(target_view(*target), *state) is None,
        },
{
    let is_target = match target { Some(t) => str_eq(t.as_str(), state.id.as_str()), None => false };
    if is_target { None } else { EndStateCondition::from_item(state) }
}

/// The precedence check of end state `later_index` against the states before it.
fn validate_state_precedence(out: &mut Vec<Diagnostic>, end_states: &Vec<Item>, target: &Option<String>, later_index: usize)
    requires
        later_index < end_states@.len(),
    ensures
        appended(old(out)@, final(out)@),
        added_findings(old(out)@, final(out)@)
            == precedence_state_findings(end_states@, target_view(*target), later_index as int),
{
    let ghost t = target_view(*target);
    let ghost states = end_states@;
    proof { lemma_added_findings_none(out@); }
    let later = &end_states[later_index];
    let later_condition = match usable(later, target) { Some(c) => c, None => { return; } };
    let ghost lv = condition_view(later_condition);
    let mut e: usize = 0;
    let mut found: Option<usize> = None;
    let mut duplicate = false;
    while e < later_index && found.is_none()
        invariant
            0 <= e <= later_index,
            later_index < end_states@.len(),
            states == end_states@,
            lv == condition_view(later_condition),
            t == target_view(*target),
            match found {
                Some(j) => first_covering(states, t, lv, e as int) == Some(j as int) && j < e
                    && duplicate == (usable_condition(t, states[j as int]) == Some(lv)),
                None => first_covering(states, t, lv, e as int) is None,
            },
        decreases later_index - e,
    {
        let earlier = &end_states[e];
        if let Some(earlier_condition) = usable(earlier, target) {
            let same = earlier_condition.same_as(&later_condition);
            let implied = earlier_condition.is_implied_by(&later_condition);
            proof { lemma_same_views(earlier_condition, later_condition); }
            if same || implied {
                found = Some(e);
                duplicate = same;
            }
        }
        e += 1;
    }
    proof {
        if found is None {
            assert(e == later_index);
        }
    }
    match found {
        Some(j) => {
            let earlier = &end_states[j];
            let (code, message) = if duplicate {
                ("end_states.duplicate_precedence",
                    cat5("end state `", later.id.as_str(), "` repeats the exact condition of earlier `", earlier.id.as_str(),
                        "`; authored precedence would always select the earlier state"))
            } else {
                ("end_states.unreachable_precedence",
                    cat5("end state `", later.id.as_str(), "` is unreachable because earlier `", earlier.id.as_str(),
                        "` is always satisfied whenever it is; move the more specific state earlier or make the conditions distinct"))
            };
            let related = RelatedLocation {
                message: owned("earlier authored state is here"),
                path: earlier.path.clone(),
                pointer: Some(earlier.pointer.clone()),
                range: None,
            };
            proof { lemma_first_covering_stable(states, t, lv, e as int, later_index as int); }
            emit_related(out, code, message, later.path.as_str(), Some(later.pointer.clone()), None,
                Some(later.id.clone()), related);
        },
        None => {},
    }
}

/// Once found, the first covering state stays the first one for any longer prefix.
proof fn lemma_first_covering_stable(states: Seq<Item>, target: Option<Seq<char>>, later: ConditionView, e: int, n: int)
    requires
        e <= n,
        first_covering(states, target, later, e) is Some,
    ensures
        first_covering(states, target, later, n) == first_covering(states, target, later, e),
    decreases n - e,
{
    if e < n {
        lemma_first_covering_stable(states, target, later, e, n - 1);
    }
}

} // verus!
