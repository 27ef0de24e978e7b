//! Validating a repository snapshot: the ordered passes and the final report.

use vstd::prelude::*;
use crate::case::{VALIDATOR_VERSION, REFERENCE_TEXT_FEATURE, case_version_in, lemma_case_version_same, validate_case,
    compatible_version, declared_features_in, lemma_declared_features_same, features_findings_in, version_findings_in,
    lemma_features_findings_same, lemma_version_findings_same, lemma_features_supported_same, names_of,
    validate_command_migration, version_tuple};
use crate::commands::{validate_command_values, validate_testimony_question_signature};
use crate::facts::{validate_clue_values, validate_deduction_values, validate_disallowed_fact_owners, validate_fact_associations,
    validate_fact_reachability, validate_fact_values};
use crate::items::{items, lemma_section_contents_views, nested_items, parsed_view, section_contents, section_findings, section_items,
    section_records, view_contents};
use crate::kinds::Kind;
use crate::model::{Context, Finding, Item, ParsedFile, added_findings, appended, finding_of, lemma_added_findings_trans,
    lemma_map_to_multiset, findings_over};
use crate::navigation::{validate_graphs, validate_navigation};
use crate::repository::{canonical_files, filename_findings, recorded, section_locations};
use crate::version::{StoryVersion, spec_is_format_3_from};
use crate::references::{validate_deck, validate_duplicate_lists, validate_references};
use crate::report::{Diagnostic, Severity, SourceFile, ValidationReport};
use crate::repository::{bounds_findings, code_and_path, parse_failures, parsed_views, index_sections, parse_files, repository_bounds, validate_section_filenames,
    validate_sections, within_bounds};
use crate::strict::validate_strict_field_contract;
use crate::terminal::{validate_end_states, validate_solution, validate_terminal_configuration, validate_win_states};
use crate::text::{owned, seq_less, str_eq, str_less};
use crate::triggers::validate_trigger_values;
use crate::yaml::map_get;
use crate::values::{validate_character_values, validate_disallowed_point_owners, validate_entity_values, validate_event_values,
    validate_flag_values, validate_legacy_inline_tag_ids, validate_point_awards, validate_route_values};

verus! {

broadcast use vstd::seq_lib::group_to_multiset_ensures;

/// The line a diagnostic is sorted by (0 without a range).
pub open spec fn line_of(d: Diagnostic) -> int {
    match d.range { Some(r) => r.start.line as int, None => 0 }
}

/// The column a diagnostic is sorted by (0 without a range).
pub open spec fn column_of(d: Diagnostic) -> int {
    match d.range { Some(r) => r.start.column as int, None => 0 }
}

/// The report order: by path, line, column, code, then message.
pub open spec fn key_less(a: Diagnostic, b: Diagnostic) -> bool {
    ||| seq_less(a.path@, b.path@)
    ||| (a.path@ == b.path@ && line_of(a) < line_of(b))
    ||| (a.path@ == b.path@ && line_of(a) == line_of(b) && column_of(a) < column_of(b))
    ||| (a.path@ == b.path@ && line_of(a) == line_of(b) && column_of(a) == column_of(b) && seq_less(a.code@, b.code@))
    ||| (a.path@ == b.path@ && line_of(a) == line_of(b) && column_of(a) == column_of(b) && a.code@ == b.code@
        && seq_less(a.message@, b.message@))
}

/// No diagnostic sorts before an earlier one.
pub open spec fn sorted_diagnostics(s: Seq<Diagnostic>) -> bool {
    forall|i: int, j: int| 0 <= i < j < s.len() ==> !key_less(#[trigger] s[j], #[trigger] s[i])
}

/// The report order is transitive.
pub proof fn lemma_key_less_transitive(a: Diagnostic, b: Diagnostic, c: Diagnostic)
    requires
        key_less(a, b),
        key_less(b, c),
    ensures
        key_less(a, c),
{
    if seq_less(a.path@, b.path@) && seq_less(b.path@, c.path@) {
        crate::text::lemma_seq_less_transitive(a.path@, b.path@, c.path@);
    }
    if a.path@ == b.path@ && b.path@ == c.path@ && line_of(a) == line_of(b) && line_of(b) == line_of(c)
        && column_of(a) == column_of(b) && column_of(b) == column_of(c) {
        if seq_less(a.code@, b.code@) && seq_less(b.code@, c.code@) {
            crate::text::lemma_seq_less_transitive(a.code@, b.code@, c.code@);
        }
        if a.code@ == b.code@ && b.code@ == c.code@ && seq_less(a.message@, b.message@) && seq_less(b.message@, c.message@) {
            crate::text::lemma_seq_less_transitive(a.message@, b.message@, c.message@);
        }
    }
}

/// No diagnostic sorts before itself.
pub proof fn lemma_key_less_irreflexive(a: Diagnostic)
    ensures
        !key_less(a, a),
{
    crate::text::lemma_seq_less_irreflexive(a.path@);
    crate::text::lemma_seq_less_irreflexive(a.code@);
    crate::text::lemma_seq_less_irreflexive(a.message@);
}

/// Whether `a` sorts before `b` in the report order.
pub fn diagnostic_less(a: &Diagnostic, b: &Diagnostic) -> (r: bool)
    ensures
        r == key_less(*a, *b),
{
    let la: usize = match a.range { Some(r) => r.start.line, None => 0 };
    let lb: usize = match b.range { Some(r) => r.start.line, None => 0 };
    let ca: usize = match a.range { Some(r) => r.start.column, None => 0 };
    let cb: usize = match b.range { Some(r) => r.start.column, None => 0 };
    if str_less(a.path.as_str(), b.path.as_str()) {
        return true;
    }
    if !str_eq(a.path.as_str(), b.path.as_str()) {
        return false;
    }
    if la != lb {
        return la < lb;
    }
    if ca != cb {
        return ca < cb;
    }
    if str_less(a.code.as_str(), b.code.as_str()) {
        return true;
    }
    if !str_eq(a.code.as_str(), b.code.as_str()) {
        return false;
    }
    str_less(a.message.as_str(), b.message.as_str())
}

/// Sorts diagnostics into the report order, keeping the input order among equal keys
/// (a stable insertion sort). The result holds exactly the input diagnostics.
pub fn sort_diagnostics(input: Vec<Diagnostic>) -> (r: Vec<Diagnostic>)
    ensures
        sorted_diagnostics(r@),
        r@.to_multiset() == input@.to_multiset(),
        r@.len() == input@.len(),
{
    let ghost input_seq = input@;
    let n = input.len();
    let mut rest = input;
    let mut out: Vec<Diagnostic> = Vec::new();
    let mut i: usize = 0;
    while i < n
        invariant
            n == input_seq.len(),
            0 <= i <= n,
            rest@ == input_seq.subrange(i as int, n as int),
            out@.to_multiset() == input_seq.subrange(0, i as int).to_multiset(),
            out@.len() == i,
            sorted_diagnostics(out@),
        decreases n - i,
    {
        let x = rest.remove(0);
        proof {
            assert(x == input_seq[i as int]);
            assert(rest@ =~= input_seq.subrange(i + 1, n as int));
            assert(input_seq.subrange(0, i + 1) =~= input_seq.subrange(0, i as int).push(x));
        }
        let mut p: usize = 0;
        while p < out.len() && !diagnostic_less(&x, &out[p])
            invariant
                0 <= p <= out@.len(),
                forall|q: int| 0 <= q < p ==> !key_less(x, #[trigger] out@[q]),
            decreases out@.len() - p,
        {
            p += 1;
        }
        let ghost before = out@;
        proof {
            if p < before.len() {
                assert(key_less(x, before[p as int]));
            }
        }
        out.insert(p, x);
        proof {
            let s = out@;
            assert(s =~= before.insert(p as int, x));
            assert forall|a: int, b: int| 0 <= a < b < s.len() implies !key_less(#[trigger] s[b], #[trigger] s[a]) by {
                if b < p {
                    assert(s[a] == before[a] && s[b] == before[b]);
                } else if b == p {
                    assert(s[a] == before[a] && s[b] == x);
                } else if a < p {
                    assert(s[a] == before[a] && s[b] == before[b - 1]);
                    assert(!key_less(before[b - 1], before[a]));
                } else if a == p {
                    assert(s[a] == x && s[b] == before[b - 1]);
                    if key_less(before[b - 1], x) {
                        lemma_key_less_transitive(before[b - 1], x, before[p as int]);
                        if b - 1 == p {
                            lemma_key_less_irreflexive(before[p as int]);
                        } else {
                            assert(!key_less(before[b - 1], before[p as int]));
                        }
                    }
                } else {
                    assert(s[a] == before[a - 1] && s[b] == before[b - 1]);
                }
            }
        }
        i += 1;
    }
    proof {
        assert(input_seq.subrange(0, n as int) =~= input_seq);
    }
    out
}

/// Whether any diagnostic is an error.
fn has_error(diagnostics: &Vec<Diagnostic>) -> (r: bool)
    ensures
        r == exists|i: int| 0 <= i < diagnostics@.len() && (#[trigger] diagnostics@[i]).severity == Severity::Error,
{
    let mut i: usize = 0;
    while i < diagnostics.len()
        invariant
            0 <= i <= diagnostics@.len(),
            forall|k: int| 0 <= k < i ==> (#[trigger] diagnostics@[k]).severity != Severity::Error,
        decreases diagnostics@.len() - i,
    {
        if diagnostics[i].severity == Severity::Error {
            return true;
        }
        i += 1;
    }
    false
}

/// The features this validator implements.
pub fn supported_features() -> (r: Vec<String>)
    ensures
        r@.len() == 1,
        r@[0]@ == REFERENCE_TEXT_FEATURE@,
{
    let mut features: Vec<String> = Vec::new();
    features.push(owned(REFERENCE_TEXT_FEATURE));
    features
}

/// Validate a complete, immutable repository snapshot with every feature this validator
/// implements. The report names the case's format version and, for a compatible version,
/// its declared features; when the case stops validation (an incompatible version or a
/// refused feature) and every file parsed, the report holds exactly the findings of the
/// case, its version and its features.
pub fn validate(files: &[SourceFile]) -> (r: ValidationReport)
    ensures
        r.valid == forall|i: int| 0 <= i < r.diagnostics@.len() ==> (#[trigger] r.diagnostics@[i]).severity != Severity::Error,
        sorted_diagnostics(r.diagnostics@),
        r.validator_version@ == VALIDATOR_VERSION@,
        !within_bounds(files@) ==> {
            &&& !r.valid
            &&& r.format_version is None
            &&& r.features@.len() == 0
            &&& r.diagnostics@.len() == bounds_findings(files@).len()
            &&& forall|i: int| 0 <= i < r.diagnostics@.len() ==> bounds_findings(files@).contains(code_and_path(#[trigger] r.diagnostics@[i]))
        },
        within_bounds(files@) ==> {
            let failures = parse_failures(files@, files@.len() as int);
            &&& forall|t: int| #![trigger failures[t]] 0 <= t < failures.len() ==> exists|i: int| 0 <= i < r.diagnostics@.len()
                && code_and_path(#[trigger] r.diagnostics@[i]) == failures[t] && r.diagnostics@[i].severity == Severity::Error
            &&& failures.len() > 0 ==> !r.valid
        },
        within_bounds(files@) ==> text_view(r.format_version) == version_text(repository_version(files@)),
        within_bounds(files@) ==> r.features@.map_values(|s: String| s@) == repository_features(files@),
        within_bounds(files@) && parse_failures(files@, files@.len() as int).len() == 0 ==>
            forall|p: Seq<ParsedFile>, s: Seq<String>| #![trigger case_stops_checks(p, s)]
                p.map_values(|g: ParsedFile| parsed_view(g)) == parsed_views(files@, files@.len() as int)
                && s.map_values(|x: String| x@) == seq![REFERENCE_TEXT_FEATURE@]
                && case_stops_checks(p, s)
                ==> r.diagnostics@.map_values(|d: Diagnostic| finding_of(d)).to_multiset() == case_stop_findings(p, s).to_multiset(),
{
    let supported = supported_features();
    let r = validate_with_supported_features(files, supported.as_slice());
    proof {
        if within_bounds(files@) && parse_failures(files@, files@.len() as int).len() == 0 {
            assert(supported@.map_values(|x: String| x@) =~= seq![REFERENCE_TEXT_FEATURE@]);
            assert forall|p: Seq<ParsedFile>, s: Seq<String>| #![trigger case_stops_checks(p, s)]
                p.map_values(|g: ParsedFile| parsed_view(g)) == parsed_views(files@, files@.len() as int)
                && s.map_values(|x: String| x@) == seq![REFERENCE_TEXT_FEATURE@]
                && case_stops_checks(p, s)
                implies r.diagnostics@.map_values(|d: Diagnostic| finding_of(d)).to_multiset()
                    == case_stop_findings(p, s).to_multiset() by {
                lemma_case_stop_views(p, p, s, supported@);
                assert(case_stops_checks(p, supported@));
            }
        }
    }
    r
}

/// Validate using the exact feature set implemented by the calling consumer. Declared
/// capabilities not present in `supported_features` stop validation before story prose
/// is interpreted. The report is valid exactly when no diagnostic is an error, and its
/// diagnostics are sorted by path, line, column, code and message. A repository outside
/// the size bounds is reported with exactly its size findings.
pub fn validate_with_supported_features(files: &[SourceFile], supported_features: &[String]) -> (r: ValidationReport)
    ensures
        r.valid == forall|i: int| 0 <= i < r.diagnostics@.len() ==> (#[trigger] r.diagnostics@[i]).severity != Severity::Error,
        sorted_diagnostics(r.diagnostics@),
        r.validator_version@ == VALIDATOR_VERSION@,
        !within_bounds(files@) ==> {
            &&& !r.valid
            &&& r.format_version is None
            &&& r.features@.len() == 0
            &&& r.diagnostics@.len() == bounds_findings(files@).len()
            &&& forall|i: int| 0 <= i < r.diagnostics@.len() ==> bounds_findings(files@).contains(code_and_path(#[trigger] r.diagnostics@[i]))
        },
        within_bounds(files@) ==> {
            let failures = parse_failures(files@, files@.len() as int);
            &&& forall|t: int| #![trigger failures[t]] 0 <= t < failures.len() ==> exists|i: int| 0 <= i < r.diagnostics@.len()
                && code_and_path(#[trigger] r.diagnostics@[i]) == failures[t] && r.diagnostics@[i].severity == Severity::Error
            &&& failures.len() > 0 ==> !r.valid
        },
        within_bounds(files@) ==> text_view(r.format_version) == version_text(repository_version(files@)),
        within_bounds(files@) ==> r.features@.map_values(|s: String| s@) == repository_features(files@),
        within_bounds(files@) && parse_failures(files@, files@.len() as int).len() == 0 ==>
            forall|p: Seq<ParsedFile>| #![trigger case_stops_checks(p, supported_features@)]
                p.map_values(|g: ParsedFile| parsed_view(g)) == parsed_views(files@, files@.len() as int)
                && case_stops_checks(p, supported_features@)
                ==> r.diagnostics@.map_values(|d: Diagnostic| finding_of(d)).to_multiset()
                    == case_stop_findings(p, supported_features@).to_multiset(),
{
    let mut supported: Vec<String> = Vec::new();
    let mut k: usize = 0;
    while k < supported_features.len()
        invariant
            0 <= k <= supported_features@.len(),
            supported@ == supported_features@.take(k as int),
        decreases supported_features@.len() - k,
    {
        supported.push(supported_features[k].clone());
        k += 1;
        proof { assert(supported@ =~= supported_features@.take(k as int)); }
    }
    proof { assert(supported@ =~= supported_features@); }
    let (cx, diagnostics) = run(files, supported);
    let ghost unsorted = diagnostics@;
    let sorted = sort_diagnostics(diagnostics);
    let valid = !has_error(&sorted);
    let format_version = match &cx.format_version {
        Some(v) => Some(v.text.clone()),
        None => None,
    };
    proof {
        if within_bounds(files@) {
            let failures = parse_failures(files@, files@.len() as int);
            assert forall|t: int| #![trigger failures[t]] 0 <= t < failures.len() implies exists|i: int| 0 <= i < sorted@.len()
                && code_and_path(#[trigger] sorted@[i]) == failures[t] && sorted@[i].severity == Severity::Error by {
                let d = unsorted[t];
                assert(unsorted.subrange(0, failures.len() as int).map_values(|x: Diagnostic| code_and_path(x))[t] == failures[t]);
                assert(unsorted.to_multiset().count(d) > 0);
                assert(sorted@.to_multiset().count(d) > 0);
                assert(sorted@.contains(d));
                let i = choose|i: int| 0 <= i < sorted@.len() && sorted@[i] == d;
            }
            if failures.len() > 0 {
                let i = choose|i: int| 0 <= i < sorted@.len() && code_and_path(#[trigger] sorted@[i]) == failures[0]
                    && sorted@[i].severity == Severity::Error;
            }
        }
        if !within_bounds(files@) {
            assert forall|i: int| 0 <= i < sorted@.len() implies bounds_findings(files@).contains(code_and_path(#[trigger] sorted@[i])) by {
                let d = sorted@[i];
                assert(sorted@.to_multiset().count(d) > 0);
                assert(unsorted.contains(d));
                let j = choose|j: int| 0 <= j < unsorted.len() && unsorted[j] == d;
                assert(unsorted.map_values(|x: Diagnostic| code_and_path(x))[j] == code_and_path(d));
            }
            assert(unsorted.map_values(|x: Diagnostic| code_and_path(x)).len() == unsorted.len());
            if bounds_findings(files@).len() > 0 {
                assert(unsorted.map_values(|x: Diagnostic| code_and_path(x)).len() > 0);
                assert(unsorted[0].severity == Severity::Error);
                assert(sorted@.to_multiset().count(unsorted[0]) > 0);
                assert(sorted@.contains(unsorted[0]));
            }
        }
    }
    proof {
        if within_bounds(files@) && parse_failures(files@, files@.len() as int).len() == 0 {
            assert forall|p: Seq<ParsedFile>| #![trigger case_stops_checks(p, supported_features@)]
                p.map_values(|g: ParsedFile| parsed_view(g)) == parsed_views(files@, files@.len() as int)
                && case_stops_checks(p, supported_features@)
                implies sorted@.map_values(|d: Diagnostic| finding_of(d)).to_multiset()
                    == case_stop_findings(p, supported_features@).to_multiset() by {
                lemma_case_stop_views(p, cx.parsed@, supported_features@, supported_features@);
                assert(unsorted.subrange(0, 0).len() == 0);
                assert(unsorted.subrange(0, unsorted.len() as int) =~= unsorted);
                assert(added_findings(unsorted.subrange(0, 0), unsorted) == unsorted.map_values(|d: Diagnostic| finding_of(d)));
                lemma_map_to_multiset(sorted@, unsorted, |d: Diagnostic| finding_of(d));
            }
        }
    }
    ValidationReport {
        validator_version: owned(VALIDATOR_VERSION),
        format_version,
        valid,
        diagnostics: sorted,
        features: cx.features,
    }
}

/// The format version that the repository's one case declares; `None` without exactly
/// one case or without a semantic version.
pub open spec fn repository_version(files: Seq<SourceFile>) -> Option<(u64, u64, u64, Seq<char>)> {
    let cases = view_contents(parsed_views(files, files.len() as int), "case"@, false);
    if cases.len() == 1 { case_version_in(cases[0].0) } else { None }
}

/// The features that the repository's one case declares, when its format version is
/// compatible; none otherwise.
pub open spec fn repository_features(files: Seq<SourceFile>) -> Seq<Seq<char>> {
    let cases = view_contents(parsed_views(files, files.len() as int), "case"@, false);
    if cases.len() == 1 && compatible_version(case_version_in(cases[0].0)) {
        declared_features_in(case_version_in(cases[0].0), cases[0].0)
    } else {
        Seq::empty()
    }
}

/// Whether the one case of the parsed files stops validation: its format version is not
/// compatible, or its features are refused for the consumer's `supported` features.
pub open spec fn case_stops_checks(parsed: Seq<ParsedFile>, supported: Seq<String>) -> bool {
    let cs = section_contents(parsed, "case"@, false);
    let recs = section_records(parsed, "case"@, false);
    &&& cs.len() == 1
    &&& (!compatible_version(case_version_in(cs[0].0))
        || features_findings_in(supported, case_version_in(cs[0].0), cs[0].0, recs[0].2).len() > 0)
}

/// The findings a repository whose case stops validation gets after its parse failures:
/// those of collecting the case, its format version and, for a compatible version, its
/// features; no story rule runs.
pub open spec fn case_stop_findings(parsed: Seq<ParsedFile>, supported: Seq<String>) -> Seq<Finding> {
    let cs = section_contents(parsed, "case"@, false);
    let recs = section_records(parsed, "case"@, false);
    let version = case_version_in(cs[0].0);
    section_findings(Seq::empty(), parsed, "case"@, false, seq!["case"@])
    + version_findings_in(cs[0].0, recs[0].2)
    + if compatible_version(version) { features_findings_in(supported, version, cs[0].0, recs[0].2) } else { Seq::empty() }
}

/// Whether the case stops validation, and what it then reports, reads the parsed files
/// only through their views and the consumer's features only through their names.
pub proof fn lemma_case_stop_views(p1: Seq<ParsedFile>, p2: Seq<ParsedFile>, s1: Seq<String>, s2: Seq<String>)
    requires
        p1.map_values(|g: ParsedFile| parsed_view(g)) == p2.map_values(|g: ParsedFile| parsed_view(g)),
        forall|f: Seq<char>| #[trigger] names_of(s1).contains(f) == names_of(s2).contains(f),
    ensures
        case_stops_checks(p1, s1) == case_stops_checks(p2, s2),
        case_stops_checks(p1, s1) ==> case_stop_findings(p1, s1) == case_stop_findings(p2, s2),
{
    lemma_section_contents_views(p1, "case"@, false);
    lemma_section_contents_views(p2, "case"@, false);
    crate::items::lemma_section_views_agree(Seq::empty(), p1, p2, "case"@, false, seq!["case"@]);
    let cs = section_contents(p1, "case"@, false);
    let recs = section_records(p1, "case"@, false);
    if cs.len() == 1 {
        lemma_features_supported_same(s1, s2, case_version_in(cs[0].0), cs[0].0, recs[0].2);
    }
}

/// Whether the case stops validation, and what it then reports, depends on the consumer's
/// supported features only through the set of their names: reordering or repeating the
/// names changes nothing.
pub proof fn law_case_stop_reads_feature_names(parsed: Seq<ParsedFile>, s1: Seq<String>, s2: Seq<String>)
    requires
        forall|f: Seq<char>| #[trigger] names_of(s1).contains(f) == names_of(s2).contains(f),
    ensures
        case_stops_checks(parsed, s1) == case_stops_checks(parsed, s2),
        case_stop_findings(parsed, s1) == case_stop_findings(parsed, s2),
{
    let cs = section_contents(parsed, "case"@, false);
    let recs = section_records(parsed, "case"@, false);
    lemma_features_supported_same(s1, s2, case_version_in(cs[0].0), cs[0].0, recs[0].2);
}

/// A case that declares no features stops validation, or lets it go on, alike for every
/// consumer.
pub proof fn law_undeclared_features_ignore_the_consumer(parsed: Seq<ParsedFile>, s1: Seq<String>, s2: Seq<String>)
    requires
        forall|i: int| 0 <= i < section_contents(parsed, "case"@, false).len()
            ==> map_get((#[trigger] section_contents(parsed, "case"@, false)[i]).0, "features"@) is None,
    ensures
        case_stops_checks(parsed, s1) == case_stops_checks(parsed, s2),
        case_stops_checks(parsed, s1) ==> case_stop_findings(parsed, s1) == case_stop_findings(parsed, s2),
{
    let cs = section_contents(parsed, "case"@, false);
    if cs.len() == 1 {
        assert(map_get(cs[0].0, "features"@) is None);
    }
}

/// The findings of the checks on top-level sections: canonical file names, then required,
/// single and removed sections.
pub open spec fn section_check_findings(sections: Seq<(String, Vec<(String, String)>)>, version: Option<StoryVersion>)
    -> Seq<Finding> {
    findings_over(canonical_files(), |e: (&'static str, &'static str)| filename_findings(sections, e))
    + crate::repository::section_findings(sections, spec_is_format_3_from(version, 0))
}

/// `out` holds, from `i` on and in order, diagnostics with the findings `fs`.
pub open spec fn holds_block(out: Seq<Diagnostic>, i: int, fs: Seq<Finding>) -> bool {
    &&& 0 <= i
    &&& i + fs.len() <= out.len()
    &&& out.subrange(i, i + fs.len()).map_values(|d: Diagnostic| finding_of(d)) == fs
}

/// The text of a parsed version.
pub open spec fn version_text(v: Option<(u64, u64, u64, Seq<char>)>) -> Option<Seq<char>> {
    match v {
        Some(t) => Some(t.3),
        None => None,
    }
}

/// The view of an optional string.
pub open spec fn text_view(s: Option<String>) -> Option<Seq<char>> {
    match s {
        Some(t) => Some(t@),
        None => None,
    }
}

/// A fresh context for `supported_features`.
fn new_context(supported_features: Vec<String>) -> (cx: Context)
    ensures
        cx.format_version is None,
        cx.format_compatible,
        cx.feature_compatible,
        cx.parsed@.len() == 0,
        cx.definitions@.len() == 0,
        cx.sections@.len() == 0,
        cx.ruleset is None,
        cx.features@.len() == 0,
        cx.supported_features == supported_features,
{
    Context {
        parsed: Vec::new(),
        definitions: Vec::new(),
        sections: Vec::new(),
        format_version: None,
        format_compatible: true,
        ruleset: None,
        features: Vec::new(),
        supported_features,
        feature_compatible: true,
    }
}

/// The content checks of a repository whose case lets validation go on: every section's
/// items, then the story rules, in order.
#[verifier::rlimit(80)]
#[verifier::spinoff_prover]
fn content_checks(cx: &mut Context, out: &mut Vec<Diagnostic>, cases: &Vec<Item>)
    ensures
        appended(old(out)@, final(out)@),
        final(cx).parsed == old(cx).parsed,
        final(cx).sections == old(cx).sections,
        final(cx).format_version == old(cx).format_version,
        final(cx).features == old(cx).features,
        final(cx).supported_features == old(cx).supported_features,
{
    let settings = items(cx, out, "settings", Kind::Setting, true);
    let routes = items(cx, out, "routes", Kind::Route, true);
    let characters = items(cx, out, "characters", Kind::Character, true);
    let entities = items(cx, out, "entities", Kind::Entity, true);
    let events = items(cx, out, "events", Kind::Event, true);
    let clues = items(cx, out, "clues", Kind::Clue, true);
    let deductions = items(cx, out, "deductions", Kind::Deduction, true);
    let flags = items(cx, out, "flags", Kind::Flag, true);
    let commands = items(cx, out, "commands", Kind::Command, true);
    validate_command_migration(cx, out, &commands);
    let triggers = items(cx, out, "triggers", Kind::Trigger, true);
    let win_states = items(cx, out, "win_states", Kind::WinState, true);
    let end_states = section_items(cx, out, "end_states", Kind::EndState, true, &["end", "win"]);
    let claims = cx.is_format_3();
    let mut facts: Vec<Item> = Vec::new();
    if claims {
        nested_items(cx, out, &settings, "facts", Kind::Fact, &mut facts);
        nested_items(cx, out, &characters, "facts", Kind::Fact, &mut facts);
        nested_items(cx, out, &entities, "facts", Kind::Fact, &mut facts);
        nested_items(cx, out, &events, "facts", Kind::Fact, &mut facts);
        nested_items(cx, out, &triggers, "facts", Kind::Fact, &mut facts);
    }
    let mut testimonies: Vec<Item> = Vec::new();
    nested_items(cx, out, &characters, "testimony", Kind::Testimony, &mut testimonies);
    let facts_enabled = facts.len() > 0;
    if claims {
        validate_strict_field_contract(cx, out, cases, &settings, &routes, &characters, &entities, &events, &facts,
            &deductions, &flags, &commands, &triggers);
    }
    validate_terminal_configuration(cx, out, &end_states, &win_states);
    validate_solution(cx, out);
    validate_win_states(cx, out, &win_states);
    validate_end_states(cx, out, &end_states);
    validate_references(cx, out);
    validate_duplicate_lists(cx, out);
    validate_deck(cx, out);
    validate_legacy_inline_tag_ids(out, &settings);
    validate_legacy_inline_tag_ids(out, &characters);
    validate_legacy_inline_tag_ids(out, &entities);
    validate_legacy_inline_tag_ids(out, &commands);
    validate_event_values(out, &events);
    validate_route_values(out, &routes);
    validate_character_values(cx, out, &characters, facts_enabled);
    validate_entity_values(out, &entities);
    if !claims {
        validate_clue_values(cx, out, &clues, facts_enabled);
    }
    validate_fact_values(cx, out, &facts, &commands, claims);
    if claims {
        validate_disallowed_fact_owners(out, &routes);
        validate_disallowed_fact_owners(out, &commands);
    } else {
        validate_fact_associations(out, &settings);
        validate_fact_associations(out, &routes);
        validate_fact_associations(out, &characters);
        validate_fact_associations(out, &entities);
        validate_fact_associations(out, &events);
        validate_fact_associations(out, &commands);
        validate_fact_associations(out, &triggers);
    }
    validate_deduction_values(out, &deductions, claims);
    validate_command_values(cx, out, &commands);
    validate_point_awards(out, &settings);
    validate_point_awards(out, &entities);
    validate_point_awards(out, &deductions);
    validate_point_awards(out, &commands);
    validate_disallowed_point_owners(out, &routes);
    validate_disallowed_point_owners(out, &characters);
    validate_disallowed_point_owners(out, &events);
    validate_disallowed_point_owners(out, &triggers);
    validate_testimony_question_signature(out, &characters, &commands);
    validate_trigger_values(cx, out, &triggers, &commands, claims);
    if !claims {
        let owners: Vec<&Vec<Item>> = vec![&settings, &routes, &characters, &entities, &events, &commands, &triggers];
        validate_fact_reachability(out, &facts, &owners, &clues);
    }
    validate_graphs(cx, out, &settings, &entities, &clues, &facts, &deductions, &triggers, claims);
    validate_navigation(cx, out, cases, &settings, &routes);
    validate_flag_values(out, &flags);
}

/// The passes in order: size bounds first (an oversized repository is
/// reported with its size findings alone), then parsing, sections, the case and its
/// format (an incompatible format or feature stops here), and every content check.
#[verifier::rlimit(80)]
#[verifier::spinoff_prover]
pub fn run(files: &[SourceFile], supported_features: Vec<String>) -> (r: (Context, Vec<Diagnostic>))
    ensures
        !within_bounds(files@) ==> {
            &&& r.1@.map_values(|d: Diagnostic| code_and_path(d)) == bounds_findings(files@)
            &&& forall|i: int| 0 <= i < r.1@.len() ==> (#[trigger] r.1@[i]).severity == Severity::Error
            &&& r.0.format_version is None
            &&& r.0.features@.len() == 0
        },
        within_bounds(files@) ==> {
            let failures = parse_failures(files@, files@.len() as int);
            &&& r.1@.len() >= failures.len()
            &&& r.1@.subrange(0, failures.len() as int).map_values(|d: Diagnostic| code_and_path(d)) == failures
            &&& forall|i: int| 0 <= i < failures.len() ==> (#[trigger] r.1@[i]).severity == Severity::Error
        },
        within_bounds(files@) ==> r.0.parsed@.map_values(|p: ParsedFile| parsed_view(p)) == parsed_views(files@, files@.len() as int),
        within_bounds(files@) ==> version_tuple(r.0.format_version) == repository_version(files@),
        within_bounds(files@) ==> r.0.features@.map_values(|s: String| s@) == repository_features(files@),
        within_bounds(files@) ==> forall|x: Seq<char>| #[trigger] recorded(r.0.sections@, x) == section_locations(r.0.parsed@, x),
        within_bounds(files@) && !case_stops_checks(r.0.parsed@, supported_features@) ==>
            exists|i: int| #[trigger] holds_block(r.1@, i, section_check_findings(r.0.sections@, r.0.format_version)),
        within_bounds(files@) && case_stops_checks(r.0.parsed@, supported_features@) ==>
            added_findings(r.1@.subrange(0, parse_failures(files@, files@.len() as int).len() as int), r.1@)
                == case_stop_findings(r.0.parsed@, supported_features@),
{
    let mut cx = new_context(supported_features);
    let (bounds, within) = repository_bounds(files);
    if !within {
        return (cx, bounds);
    }
    let mut out = bounds;
    assert(out@.len() == 0);
    parse_files(&mut cx, &mut out, files);
    let ghost parsed_out = out@;
    proof {
        assert(parsed_out.subrange(0, parsed_out.len() as int) =~= parsed_out);
    }
    index_sections(&mut cx);
    proof {
        assert forall|x: Seq<char>| #[trigger] recorded(cx.sections@, x) == section_locations(cx.parsed@, x) by {
            assert(Seq::<(Seq<char>, Seq<char>)>::empty() + section_locations(cx.parsed@, x) =~= section_locations(cx.parsed@, x));
        }
    }
    let ghost secs = cx.sections;
    proof {
        assert(cx.parsed@.subrange(0, cx.parsed@.len() as int) =~= cx.parsed@);
        assert(cx.format_version is None);
        assert(cx.definitions@ =~= Seq::<(String, crate::model::Definition)>::empty());
    }
    let cases = items(&mut cx, &mut out, "case", Kind::Case, false);
    let ghost case_parsed = cx.parsed@;
    let ghost items_out = out@;
    validate_case(&mut cx, &mut out, &cases);
    let ghost case_version = cx.format_version;
    let ghost case_features = cx.features@;
    proof {
        reveal_strlit("case");
        let cs = section_contents(case_parsed, "case"@, false);
        lemma_section_contents_views(case_parsed, "case"@, false);
        if cs.len() == 1 {
            assert(crate::items::item_holds(cases@[0], cs[0]));
            lemma_case_version_same(cs[0].0, cases@[0].mapping@);
            lemma_declared_features_same(case_version_in(cs[0].0), cs[0].0, cases@[0].mapping@);
            assert(version_tuple(case_version) == case_version_in(cs[0].0));
        }
        assert(version_tuple(case_version) == repository_version(files@));
        assert(case_features.map_values(|s: String| s@) =~= repository_features(files@));
        lemma_added_findings_trans(parsed_out, items_out, out@);
        if cs.len() == 1 {
            let recs = section_records(case_parsed, "case"@, false);
            assert(crate::items::item_record(cases@[0]) == recs[0]);
            lemma_version_findings_same(cs[0].0, cases@[0].mapping@, recs[0].2);
            lemma_features_findings_same(supported_features@, case_version_in(cs[0].0), cs[0].0, cases@[0].mapping@, recs[0].2);
            assert(cx.format_compatible == compatible_version(case_version_in(cs[0].0)));
            if case_stops_checks(case_parsed, supported_features@) {
                assert(crate::kinds::kind_prefix(Kind::Case) =~= "case"@);
                assert(added_findings(parsed_out, items_out)
                    == section_findings(Seq::empty(), case_parsed, "case"@, false, seq!["case"@]));
                let version = case_version_in(cs[0].0);
                let vf = version_findings_in(cs[0].0, recs[0].2);
                let ff = features_findings_in(supported_features@, version, cs[0].0, recs[0].2);
                if compatible_version(version) {
                    assert(ff.len() > 0);
                    assert(added_findings(items_out, out@) == vf + (ff + Seq::<Finding>::empty()));
                    assert(ff + Seq::<Finding>::empty() =~= ff);
                } else {
                    assert(added_findings(items_out, out@) == vf + Seq::<Finding>::empty());
                }
                assert(added_findings(parsed_out, out@) =~= case_stop_findings(case_parsed, supported_features@));
            }
        }
        assert(case_stops_checks(case_parsed, supported_features@) <==> (!cx.format_compatible || !cx.feature_compatible));
    }
    if !cx.format_compatible || !cx.feature_compatible {
        assert(appended(parsed_out, out@));
        assert(cx.parsed@ == case_parsed && cx.format_version == case_version && cx.features@ == case_features);
        assert(cx.sections == secs);
        return (cx, out);
    }
    let ghost case_out = out@;
    validate_section_filenames(&cx, &mut out);
    let ghost names_out = out@;
    validate_sections(&cx, &mut out);
    let ghost sections_out = out@;
    proof {
        lemma_added_findings_trans(case_out, names_out, sections_out);
        assert(added_findings(case_out, sections_out) == section_check_findings(cx.sections@, cx.format_version));
    }
    content_checks(&mut cx, &mut out, &cases);
    assert(appended(parsed_out, out@));
    assert(cx.parsed@ == case_parsed && cx.format_version == case_version && cx.features@ == case_features);
    assert(cx.sections == secs);
    proof {
        assert(appended(sections_out, out@));
        let fs = section_check_findings(cx.sections@, cx.format_version);
        assert(out@.subrange(case_out.len() as int, sections_out.len() as int) =~= sections_out.subrange(case_out.len() as int,
            sections_out.len() as int));
        assert(holds_block(out@, case_out.len() as int, fs));
    }
    (cx, out)
}

} // verus!
