//! The case: format version, feature negotiation, players, ruleset, and case metadata.

use vstd::prelude::*;
use crate::locate::locate_scalar;
use crate::model::{Context, Finding, Item, RulesetReference, added_findings, appended, child, child_index, contains_string,
    emit, error, error_at, error_if, warning_at, warning_if, finding_if, findings_over, lemma_added_findings_none, lemma_added_findings_one,
    lemma_added_findings_trans, lemma_findings_indexed_step, lemma_findings_over_step, lemma_take_all, findings_indexed,
    one_of};
use crate::report::{Diagnostic, Severity};
use crate::text::{cat, cat3, cat4, cat5, decimal, has_text, i64_to_decimal, nonblank, owned, signed_decimal, spec_trim, str_eq, trim,
    u64_to_decimal};
use crate::version::{StoryVersion, parse_story_version, semver_version_of, spec_is_format_3_from};
use crate::values::spec_exact_time;
use crate::ids::spec_escape_pointer;
use crate::yaml::{YamlNumber, YamlValue, get, is_string_sequence, map_get, spec_as_mapping, spec_as_sequence, spec_as_str,
    spec_integer_field, spec_is_string_sequence, spec_string_field, string_field};

verus! {

/// The story format version this validator authors.
pub const STORY_FORMAT_VERSION: &'static str = "3.4.0";
/// This validator's version.
pub const VALIDATOR_VERSION: &'static str = "1.2.0";
/// The capability that enables reference-aware prose.
pub const REFERENCE_TEXT_FEATURE: &'static str = "reference_text_v1";
/// The standard mystery ruleset.
pub const STANDARD_MYSTERY_RULESET_ID: &'static str = "ruleset.standard_mystery";

/// Every capability this validator recognizes.
pub fn known_feature(feature: &str) -> (r: bool)
    ensures
        r == (feature@ == REFERENCE_TEXT_FEATURE@),
{
    str_eq(feature, REFERENCE_TEXT_FEATURE)
}

/// The text of a YAML number as it is rendered.
pub open spec fn spec_number_text(n: YamlNumber) -> Seq<char> {
    match n {
        YamlNumber::PosInt(u) => decimal(u as nat),
        YamlNumber::NegInt(i) => signed_decimal(i as int),
        YamlNumber::Float(text) => text@,
    }
}

/// The text of a YAML number as it is rendered.
fn number_text(n: &YamlNumber) -> (r: String)
    ensures
        r@ == spec_number_text(*n),
{
    match n {
        YamlNumber::PosInt(u) => u64_to_decimal(*u),
        YamlNumber::NegInt(i) => i64_to_decimal(*i),
        YamlNumber::Float(text) => text.clone(),
    }
}

/// The message for a format version outside the supported majors 1 and 3.
fn incompatible_version_message(version: &StoryVersion) -> (r: String)
    ensures
        r@ == (if version.major == 2 {
            "This story uses pre-migration format "@ + version.text@ + ". Please migrate it to story format "@ + STORY_FORMAT_VERSION@
                + " before opening it. Follow the focused migration guide at https://github.com/phurley/narrator-validator/blob/v1.0.0/MIGRATION.md."@
        } else if version.major == 0 {
            "This story uses format "@ + version.text@ + ", which is too old for this version of Narrator. Please migrate it to story format "@
                + STORY_FORMAT_VERSION@ + " before opening it."@
        } else {
            "This story uses format "@ + version.text@
                + ", which is newer than this version of Narrator supports. Please update Narrator before opening it."@
        }),
{
    let text = version.text.as_str();
    if version.major == 2 {
        cat5("This story uses pre-migration format ", text, ". Please migrate it to story format ", STORY_FORMAT_VERSION,
            " before opening it. Follow the focused migration guide at https://github.com/phurley/narrator-validator/blob/v1.0.0/MIGRATION.md.")
    } else if version.major == 0 {
        cat5("This story uses format ", text, ", which is too old for this version of Narrator. Please migrate it to story format ",
            STORY_FORMAT_VERSION, " before opening it.")
    } else {
        cat3("This story uses format ", text,
            ", which is newer than this version of Narrator supports. Please update Narrator before opening it.")
    }
}

/// What `case.format_version` parses to: an untagged string that is a semantic version.
pub open spec fn case_version(case: Item) -> Option<(u64, u64, u64, Seq<char>)> {
    case_version_in(case.mapping@)
}

/// What `format_version` in the case mapping `m` parses to: an untagged string that is a
/// semantic version.
pub open spec fn case_version_in(m: Seq<(YamlValue, YamlValue)>) -> Option<(u64, u64, u64, Seq<char>)> {
    match map_get(m, "format_version"@) {
        Some(YamlValue::String(raw)) => semver_version_of(raw@),
        _ => None,
    }
}

/// Tree-equal case mappings declare the same format version.
pub proof fn lemma_case_version_same(a: Seq<(YamlValue, YamlValue)>, b: Seq<(YamlValue, YamlValue)>)
    requires
        crate::yaml::same_entries(a, b),
    ensures
        case_version_in(a) == case_version_in(b),
{
    crate::yaml::lemma_map_get_same(a, b, "format_version"@);
}

/// A parsed format version in the supported majors 1 and 3.
pub open spec fn compatible_version(v: Option<(u64, u64, u64, Seq<char>)>) -> bool {
    v matches Some(t) && (t.0 == 1 || t.0 == 3)
}

/// The findings for `case.format_version`: a quoted semantic version of a supported major.
pub open spec fn version_findings(case: Item) -> Seq<Finding> {
    version_findings_in(case.mapping@, case.pointer@)
}

/// The findings for the `format_version` of the case mapping `m` at `pointer`.
pub open spec fn version_findings_in(m: Seq<(YamlValue, YamlValue)>, pointer: Seq<char>) -> Seq<Finding> {
    let p = pointer + "/format_version"@;
    match map_get(m, "format_version"@) {
        Some(YamlValue::String(raw)) => match semver_version_of(raw@) {
            Some(v) => finding_if(!(v.0 == 1 || v.0 == 3), error_at("format.incompatible_version"@, p)),
            None => seq![error_at("format.version_invalid"@, p)],
        },
        Some(YamlValue::Number(_)) => seq![error_at("format.incompatible_version"@, p)],
        Some(_) => seq![error_at("format.version_type"@, p)],
        None => seq![error_at("format.version_missing"@, p)],
    }
}

/// The version a context holds, as the parser's tuple.
pub open spec fn version_tuple(v: Option<StoryVersion>) -> Option<(u64, u64, u64, Seq<char>)> {
    match v {
        Some(v) => Some((v.major, v.minor, v.patch, v.text@)),
        None => None,
    }
}

/// Lets validation go on unless exactly one case stops it: with one case, reads
/// `format_version` (only majors 1 and 3 are compatible; anything else stops validation),
/// then negotiates features and checks the case's navigation contract, players, ruleset,
/// genre, tone and initial time.
pub fn validate_case(cx: &mut Context, out: &mut Vec<Diagnostic>, cases: &Vec<Item>)
    ensures
        appended(old(out)@, final(out)@),
        final(cx).parsed == old(cx).parsed,
        final(cx).sections == old(cx).sections,
        final(cx).definitions == old(cx).definitions,
        cases@.len() != 1 ==> final(cx).format_compatible && final(cx).feature_compatible
            && final(cx).format_version == old(cx).format_version
            && final(out)@ == old(out)@,
        cases@.len() != 1 ==> final(cx).features == old(cx).features,
        cases@.len() == 1 ==> final(cx).feature_compatible == (!compatible_version(case_version(cases@[0]))
                || features_findings(old(cx).supported_features@, final(cx).format_version, cases@[0]).len() == 0),
        cases@.len() == 1 ==> final(cx).features@.map_values(|s: String| s@) == old(cx).features@.map_values(|s: String| s@)
            + if compatible_version(case_version(cases@[0])) { declared_features(final(cx).format_version, cases@[0]) }
              else { Seq::empty() },
        cases@.len() == 1 ==> (final(cx).format_compatible <==> match final(cx).format_version {
            Some(v) => v.major == 1 || v.major == 3,
            None => false,
        }),
        cases@.len() == 1 ==> version_tuple(final(cx).format_version) == case_version(cases@[0])
            && final(cx).format_compatible == compatible_version(case_version(cases@[0])),
        cases@.len() == 1 ==> added_findings(old(out)@, final(out)@) == version_findings(cases@[0]) + if !compatible_version(case_version(cases@[0])) {
            Seq::empty()
        } else {
            features_findings(old(cx).supported_features@, final(cx).format_version, cases@[0])
            + if features_findings(old(cx).supported_features@, final(cx).format_version, cases@[0]).len() == 0 {
                case_field_findings(final(cx).format_version, cases@[0])
            } else {
                Seq::empty()
            }
        },
{
    cx.format_compatible = true;
    cx.feature_compatible = true;
    if cases.len() != 1 {
        return;
    }
    cx.format_compatible = false;
    cx.format_version = None;
    let case = &cases[0];
    let version_pointer = cat(case.pointer.as_str(), "/format_version");
    let path = case.path.as_str();
    let ghost start = out@;
    match get(&case.mapping, "format_version") {
        Some(YamlValue::String(raw)) => {
            match parse_story_version(raw.as_str()) {
                Some(version) => {
                    let compatible = version.major == 1 || version.major == 3;
                    cx.format_compatible = compatible;
                    if !compatible {
                        error_if(out, true, "format.incompatible_version", incompatible_version_message(&version), path,
                            version_pointer.clone(), locate_scalar(case.source.as_str(), raw.as_str()), Some(case.id.clone()));
                    } else {
                        proof { lemma_added_findings_none(start); }
                    }
                    cx.format_version = Some(version);
                },
                None => {
                    error_if(out, true, "format.version_invalid",
                        cat3("`case.format_version` must be a valid quoted semantic version such as \"", STORY_FORMAT_VERSION, "\""),
                        path, version_pointer.clone(), locate_scalar(case.source.as_str(), raw.as_str()), Some(case.id.clone()));
                },
            }
        },
        Some(YamlValue::Number(number)) => {
            let text = number_text(number);
            let message = cat5("This story uses legacy format version ", text.as_str(),
                ". Narrator now uses semantic story-format versions and cannot safely open it. Please migrate the story to format ",
                STORY_FORMAT_VERSION, " first.");
            error_if(out, true, "format.incompatible_version", message, path, version_pointer.clone(),
                locate_scalar(case.source.as_str(), text.as_str()), Some(case.id.clone()));
        },
        Some(_) => {
            error_if(out, true, "format.version_type",
                cat3("`case.format_version` must be a quoted semantic version such as \"", STORY_FORMAT_VERSION, "\""),
                path, version_pointer.clone(), None, Some(case.id.clone()));
        },
        None => {
            error_if(out, true, "format.version_missing",
                cat3("This story does not declare a semantic format version, so Narrator cannot safely open it. Please migrate it and add `case.format_version: \"",
                    STORY_FORMAT_VERSION, "\"`."),
                path, version_pointer.clone(), None, Some(case.id.clone()));
        },
    }
    let ghost mid = out@;
    if !cx.format_compatible {
        proof {
            assert(cx.features@.map_values(|s: String| s@) + Seq::<Seq<char>>::empty() =~= cx.features@.map_values(|s: String| s@));
            assert(Seq::<Finding>::empty() + Seq::<Finding>::empty() =~= Seq::<Finding>::empty());
            assert(added_findings(start, out@) + Seq::<Finding>::empty() =~= added_findings(start, out@));
        }
        return;
    }
    let ghost compatible0 = cx.feature_compatible;
    validate_features(cx, out, case);
    let ghost mid2 = out@;
    proof { lemma_added_findings_trans(start, mid, mid2); }
    if !cx.feature_compatible {
        proof {
            assert(added_findings(mid, mid2) + Seq::<Finding>::empty() =~= added_findings(mid, mid2));
        }
        return;
    }
    validate_case_fields(cx, out, case);
    proof { lemma_added_findings_trans(start, mid2, out@); }
}

/// The findings for the case once its format and features are accepted: the navigation
/// contract lists; in format 3 the players and the ruleset; the genre; the tone; and in
/// format 3 an exact `initial_time`.
pub open spec fn case_field_findings(version: Option<StoryVersion>, case: Item) -> Seq<Finding> {
    let p = case.pointer@;
    let m = case.mapping@;
    let format_3 = spec_is_format_3_from(version, 0);
    finding_if(map_get(m, "entry_settings"@) matches Some(v) && !spec_is_string_sequence(v),
        error_at("navigation.contract_type"@, p + "/entry_settings"@))
    + finding_if(map_get(m, "exit_settings"@) matches Some(v) && !spec_is_string_sequence(v),
        error_at("navigation.contract_type"@, p + "/exit_settings"@))
    + (if format_3 { player_limit_findings(case) + ruleset_findings(version, case) } else { Seq::empty() })
    + finding_if(map_get(m, "genre"@) matches Some(v) && nonblank_text(v) is None, error_at("case.genre"@, p + "/genre"@))
    + tone_findings(case)
    + (if format_3 {
        match map_get(m, "initial_time"@) {
            Some(v) => finding_if(!spec_exact_time(v), error_at("case.initial_time"@, p + "/initial_time"@)),
            None => seq![error_at("case.initial_time_missing"@, p + "/initial_time"@)],
        }
    } else {
        Seq::empty()
    })
}

/// The rest of the case once its format and features are accepted.
fn validate_case_fields(cx: &mut Context, out: &mut Vec<Diagnostic>, case: &Item)
    ensures
        appended(old(out)@, final(out)@),
        added_findings(old(out)@, final(out)@) == case_field_findings(old(cx).format_version, *case),
        final(cx).parsed == old(cx).parsed,
        final(cx).sections == old(cx).sections,
        final(cx).definitions == old(cx).definitions,
        final(cx).format_compatible == old(cx).format_compatible,
        final(cx).format_version == old(cx).format_version,
        final(cx).supported_features == old(cx).supported_features,
        final(cx).feature_compatible == old(cx).feature_compatible,
        final(cx).features == old(cx).features,
        spec_is_format_3_from(old(cx).format_version, 0) ==> match selected_ruleset(old(cx).format_version, *case) {
            Some(r) => final(cx).ruleset matches Some(x) && x.id@ == r.0 && x.version@ == r.1,
            None => final(cx).ruleset == old(cx).ruleset,
        },
        !spec_is_format_3_from(old(cx).format_version, 0) ==> final(cx).ruleset == old(cx).ruleset,
{
    let path = case.path.as_str();
    let ghost start = out@;
    let bad_entry = match get(&case.mapping, "entry_settings") { Some(v) => !is_string_sequence(v), None => false };
    error_if(out, bad_entry, "navigation.contract_type", owned("`entry_settings` must be a sequence of setting IDs"), path,
        cat(case.pointer.as_str(), "/entry_settings"), None, Some(case.id.clone()));
    let ghost n1 = out@;
    let bad_exit = match get(&case.mapping, "exit_settings") { Some(v) => !is_string_sequence(v), None => false };
    error_if(out, bad_exit, "navigation.contract_type", owned("`exit_settings` must be a sequence of setting IDs"), path,
        cat(case.pointer.as_str(), "/exit_settings"), None, Some(case.id.clone()));
    let ghost mid = out@;
    proof { lemma_added_findings_trans(start, n1, mid); }
    if cx.is_format_3() {
        validate_player_limits(out, case);
        let ghost mid1 = out@;
        validate_ruleset_reference(cx, out, case);
        proof { lemma_added_findings_trans(mid, mid1, out@); }
    } else {
        proof { lemma_added_findings_none(mid); }
    }
    let ghost mid2 = out@;
    let genre_ok = match get(&case.mapping, "genre") {
        None => true,
        Some(value) => match value.as_str() {
            Some(genre) => nonblank(genre),
            None => false,
        },
    };
    error_if(out, !genre_ok, "case.genre", owned("`case.genre` must be a non-empty string"), path,
        cat(case.pointer.as_str(), "/genre"), None, Some(case.id.clone()));
    let ghost mid3 = out@;
    validate_tone(out, case);
    let ghost mid4 = out@;
    if cx.is_format_3() {
        match get(&case.mapping, "initial_time") {
            Some(value) => {
                let ok = match value { YamlValue::String(time) => crate::ids::valid_time(time.as_str()), _ => false };
                error_if(out, !ok, "case.initial_time", owned("`case.initial_time` must be a quoted 24-hour HH:MM value"), path,
                    cat(case.pointer.as_str(), "/initial_time"), None, Some(case.id.clone()));
            },
            None => {
                error_if(out, true, "case.initial_time_missing",
                    owned("format 3 games require `case.initial_time` so runtime time effects are deterministic"), path,
                    cat(case.pointer.as_str(), "/initial_time"), None, Some(case.id.clone()));
            },
        }
    } else {
        proof { lemma_added_findings_none(mid4); }
    }
    proof {
        lemma_added_findings_trans(start, mid, mid2);
        lemma_added_findings_trans(start, mid2, mid3);
        lemma_added_findings_trans(start, mid3, mid4);
        lemma_added_findings_trans(start, mid4, out@);
    }
}

/// A non-blank string.
pub open spec fn nonblank_text(v: YamlValue) -> Option<Seq<char>> {
    match spec_as_str(v) {
        Some(s) => if has_text(s) { Some(s) } else { None },
        None => None,
    }
}

/// The trimmed text of a non-blank string tone entry.
pub open spec fn tone_key(v: YamlValue) -> Option<Seq<char>> {
    match nonblank_text(v) {
        Some(s) => Some(spec_trim(s)),
        None => None,
    }
}

/// Some entry before `i` is a non-blank string that trims to `t`.
pub open spec fn earlier_tone(entries: Seq<YamlValue>, i: int, t: Seq<char>) -> bool {
    exists|j: int| 0 <= j < i && #[trigger] tone_key(entries[j]) == Some(t)
}

/// One `case.tone` entry: a non-blank string whose trimmed text no earlier entry has.
pub open spec fn tone_entry_findings(entries: Seq<YamlValue>, i: int, v: YamlValue, pointer: Seq<char>) -> Seq<Finding> {
    let p = pointer + seq!['/'] + decimal(i as nat);
    match nonblank_text(v) {
        None => seq![error_at("case.tone_entry"@, p)],
        Some(s) => finding_if(earlier_tone(entries, i, spec_trim(s)), error_at("case.tone_duplicate"@, p)),
    }
}

/// The findings for `case.tone`: a sequence of unique non-empty strings.
pub open spec fn tone_findings(case: Item) -> Seq<Finding> {
    let p = case.pointer@ + "/tone"@;
    match map_get(case.mapping@, "tone"@) {
        None => Seq::empty(),
        Some(v) => match spec_as_sequence(v) {
            None => seq![error_at("case.tone_type"@, p)],
            Some(entries) => findings_indexed(entries, |i: int, e: YamlValue| tone_entry_findings(entries, i, e, p)),
        },
    }
}

/// `case.tone`: a sequence of unique non-empty strings (compared trimmed).
fn validate_tone(out: &mut Vec<Diagnostic>, case: &Item)
    ensures
        appended(old(out)@, final(out)@),
        added_findings(old(out)@, final(out)@) == tone_findings(*case),
{
    let path = case.path.as_str();
    let ghost s0 = out@;
    let tone = match get(&case.mapping, "tone") {
        Some(tone) => tone,
        None => {
            proof { lemma_added_findings_none(s0); }
            return;
        },
    };
    let tone_pointer = cat(case.pointer.as_str(), "/tone");
    match tone.as_sequence() {
        Some(entries) => {
            let mut seen: Vec<String> = Vec::new();
            let mut i: usize = 0;
            proof { lemma_added_findings_none(s0); }
            while i < entries.len()
                invariant
                    0 <= i <= entries@.len(),
                    appended(s0, out@),
                    added_findings(s0, out@) == findings_indexed(entries@.take(i as int),
                        |i: int, e: YamlValue| tone_entry_findings(entries@, i, e, tone_pointer@)),
                    forall|t: Seq<char>| #![trigger earlier_tone(entries@, i as int, t)]
                        (exists|k: int| 0 <= k < seen@.len() && (#[trigger] seen@[k])@ == t)
                            <==> earlier_tone(entries@, i as int, t),
                decreases entries@.len() - i,
            {
                let pointer = child_index(tone_pointer.as_str(), i);
                let ghost before = out@;
                let ghost old_seen = seen@;
                let value = match entries[i].as_str() {
                    Some(v) => if nonblank(v) { Some(v) } else { None },
                    None => None,
                };
                match value {
                    None => {
                        error_if(out, true, "case.tone_entry", owned("`case.tone` entries must be non-empty strings"), path,
                            pointer, None, Some(case.id.clone()));
                    },
                    Some(v) => {
                        let trimmed = trim(v);
                        let duplicate = contains_string(&seen, trimmed.as_str());
                        error_if(out, duplicate, "case.tone_duplicate",
                            cat3("`case.tone` entry `", trimmed.as_str(), "` occurs more than once"),
                            path, pointer, None, Some(case.id.clone()));
                        if !duplicate {
                            seen.push(trimmed);
                        }
                    },
                }
                proof {
                    lemma_added_findings_trans(s0, before, out@);
                    lemma_findings_indexed_step(entries@,
                        |i: int, e: YamlValue| tone_entry_findings(entries@, i, e, tone_pointer@), i as int);
                    assert forall|t: Seq<char>| #![trigger earlier_tone(entries@, i + 1, t)]
                        (exists|k: int| 0 <= k < seen@.len() && (#[trigger] seen@[k])@ == t)
                            <==> earlier_tone(entries@, i + 1, t) by {
                        if earlier_tone(entries@, i + 1, t) {
                            let j = choose|j: int| 0 <= j < i + 1 && #[trigger] tone_key(entries@[j]) == Some(t);
                            if j < i {
                                assert(earlier_tone(entries@, i as int, t));
                                let k = choose|k: int| 0 <= k < old_seen.len() && (#[trigger] old_seen[k])@ == t;
                                assert(seen@[k] == old_seen[k]);
                            } else {
                                if earlier_tone(entries@, i as int, t) {
                                    let k = choose|k: int| 0 <= k < old_seen.len() && (#[trigger] old_seen[k])@ == t;
                                    assert(seen@[k] == old_seen[k]);
                                } else {
                                    assert(seen@[seen@.len() - 1]@ == t);
                                }
                            }
                        }
                        if exists|k: int| 0 <= k < seen@.len() && (#[trigger] seen@[k])@ == t {
                            let k = choose|k: int| 0 <= k < seen@.len() && (#[trigger] seen@[k])@ == t;
                            if k < old_seen.len() {
                                assert(old_seen[k] == seen@[k]);
                                assert(earlier_tone(entries@, i as int, t));
                                let j = choose|j: int| 0 <= j < i && #[trigger] tone_key(entries@[j]) == Some(t);
                                assert(0 <= j < i + 1);
                            } else {
                                assert(tone_key(entries@[i as int]) == Some(t));
                            }
                        }
                    }
                }
                i += 1;
            }
            proof { lemma_take_all(entries@); }
        },
        None => {
            error_if(out, true, "case.tone_type", owned("`case.tone` must be a sequence of unique non-empty strings"), path,
                tone_pointer, None, Some(case.id.clone()));
        },
    }
}

/// Some entry before `i` is the feature name `f`.
pub open spec fn earlier_feature(entries: Seq<YamlValue>, i: int, f: Seq<char>) -> bool {
    exists|j: int| 0 <= j < i && #[trigger] nonblank_text(entries[j]) == Some(f)
}

/// One `case.features` entry: a non-blank name, not declared before, known to this
/// validator, and advertised by the consumer.
pub open spec fn feature_entry_findings(supported: Seq<String>, entries: Seq<YamlValue>, i: int, v: YamlValue, pointer: Seq<char>) -> Seq<Finding> {
    let p = pointer + seq!['/'] + decimal(i as nat);
    match nonblank_text(v) {
        None => seq![error_at("feature.name_type"@, p)],
        Some(f) => if earlier_feature(entries, i, f) {
            seq![error_at("feature.duplicate"@, p)]
        } else if f != REFERENCE_TEXT_FEATURE@ {
            seq![error_at("feature.unknown"@, p)]
        } else {
            finding_if(!(exists|k: int| 0 <= k < supported.len() && (#[trigger] supported[k])@ == f),
                error_at("feature.consumer_unsupported"@, p))
        },
    }
}

/// The findings for `case.features`: only from format 3.2, a sequence of entries.
pub open spec fn features_findings(supported: Seq<String>, version: Option<StoryVersion>, case: Item) -> Seq<Finding> {
    features_findings_in(supported, version_tuple(version), case.mapping@, case.pointer@)
}

/// The findings for the `features` of the case mapping `m` at `pointer`, read as of the
/// format version `version`.
pub open spec fn features_findings_in(supported: Seq<String>, version: Option<(u64, u64, u64, Seq<char>)>,
    m: Seq<(YamlValue, YamlValue)>, pointer: Seq<char>) -> Seq<Finding> {
    let p = pointer + "/features"@;
    match map_get(m, "features"@) {
        None => Seq::empty(),
        Some(v) => if !(version matches Some(t) && t.0 == 3 && t.1 >= 2) {
            seq![error_at("feature.format_incompatible"@, p)]
        } else {
            match spec_as_sequence(v) {
                None => seq![error_at("feature.list_type"@, p)],
                Some(entries) => findings_indexed(entries,
                    |i: int, e: YamlValue| feature_entry_findings(supported, entries, i, e, p)),
            }
        },
    }
}

/// Tree-equal features lists name the same features.
proof fn lemma_feature_names_same(a: Seq<YamlValue>, b: Seq<YamlValue>)
    requires
        a.len() == b.len(),
        forall|i: int| 0 <= i < a.len() ==> crate::yaml::same_yaml(#[trigger] a[i], b[i]),
    ensures
        declared_feature_names(a) == declared_feature_names(b),
    decreases a.len(),
{
    if a.len() > 0 {
        lemma_feature_names_same(a.drop_last(), b.drop_last());
        crate::yaml::lemma_as_str_same(a.last(), b.last());
    }
}

/// Tree-equal case mappings declare the same features.
pub proof fn lemma_declared_features_same(version: Option<(u64, u64, u64, Seq<char>)>, a: Seq<(YamlValue, YamlValue)>,
    b: Seq<(YamlValue, YamlValue)>)
    requires
        crate::yaml::same_entries(a, b),
    ensures
        declared_features_in(version, a) == declared_features_in(version, b),
{
    crate::yaml::lemma_map_get_same(a, b, "features"@);
    if map_get(a, "features"@) is Some {
        let x = map_get(a, "features"@)->0;
        let y = map_get(b, "features"@)->0;
        crate::yaml::lemma_as_str_same(x, y);
        if spec_as_sequence(x) is Some {
            lemma_feature_names_same(spec_as_sequence(x)->0, spec_as_sequence(y)->0);
        }
    }
}

/// The non-blank names of a features list, in order.
pub open spec fn declared_feature_names(entries: Seq<YamlValue>) -> Seq<Seq<char>>
    decreases entries.len(),
{
    if entries.len() == 0 {
        Seq::empty()
    } else {
        let rest = declared_feature_names(entries.drop_last());
        match nonblank_text(entries.last()) {
            Some(f) => rest.push(f),
            None => rest,
        }
    }
}

/// Tree-equal case mappings give the same format-version findings.
pub proof fn lemma_version_findings_same(a: Seq<(YamlValue, YamlValue)>, b: Seq<(YamlValue, YamlValue)>, pointer: Seq<char>)
    requires
        crate::yaml::same_entries(a, b),
    ensures
        version_findings_in(a, pointer) == version_findings_in(b, pointer),
{
    crate::yaml::lemma_map_get_same(a, b, "format_version"@);
}

/// Tree-equal case mappings give the same feature findings.
pub proof fn lemma_features_findings_same(supported: Seq<String>, version: Option<(u64, u64, u64, Seq<char>)>,
    a: Seq<(YamlValue, YamlValue)>, b: Seq<(YamlValue, YamlValue)>, pointer: Seq<char>)
    requires
        crate::yaml::same_entries(a, b),
    ensures
        features_findings_in(supported, version, a, pointer) == features_findings_in(supported, version, b, pointer),
{
    crate::yaml::lemma_map_get_same(a, b, "features"@);
    if map_get(a, "features"@) is Some {
        let va = map_get(a, "features"@)->0;
        let vb = map_get(b, "features"@)->0;
        crate::yaml::lemma_as_str_same(va, vb);
        if spec_as_sequence(va) is Some {
            let ea = spec_as_sequence(va)->0;
            let eb = spec_as_sequence(vb)->0;
            let p = pointer + "/features"@;
            assert forall|i: int| #![trigger ea[i]] 0 <= i < ea.len() ==> nonblank_text(ea[i]) == nonblank_text(eb[i]) by {
                if 0 <= i < ea.len() {
                    crate::yaml::lemma_as_str_same(ea[i], eb[i]);
                }
            }
            assert forall|i: int| 0 <= i < ea.len() implies
                feature_entry_findings(supported, ea, i, #[trigger] ea[i], p) == feature_entry_findings(supported, eb, i, eb[i], p) by {
                assert(nonblank_text(ea[i]) == nonblank_text(eb[i]));
                if let Some(f) = nonblank_text(ea[i]) {
                    if earlier_feature(ea, i, f) {
                        let j = choose|j: int| 0 <= j < i && #[trigger] nonblank_text(ea[j]) == Some(f);
                        assert(nonblank_text(eb[j]) == Some(f));
                    }
                    if earlier_feature(eb, i, f) {
                        let j = choose|j: int| 0 <= j < i && #[trigger] nonblank_text(eb[j]) == Some(f);
                        assert(nonblank_text(ea[j]) == nonblank_text(eb[j]));
                    }
                }
            }
            crate::model::lemma_findings_indexed_same(ea, |i: int, e: YamlValue| feature_entry_findings(supported, ea, i, e, p),
                eb, |i: int, e: YamlValue| feature_entry_findings(supported, eb, i, e, p));
        }
    }
}

/// The names of a list of features.
pub open spec fn names_of(features: Seq<String>) -> Seq<Seq<char>> {
    features.map_values(|x: String| x@)
}

/// Consumers advertising features with the same names get the same feature findings.
pub proof fn lemma_features_supported_same(s1: Seq<String>, s2: Seq<String>, version: Option<(u64, u64, u64, Seq<char>)>,
    m: Seq<(YamlValue, YamlValue)>, pointer: Seq<char>)
    requires
        forall|f: Seq<char>| #[trigger] names_of(s1).contains(f) == names_of(s2).contains(f),
    ensures
        features_findings_in(s1, version, m, pointer) == features_findings_in(s2, version, m, pointer),
{
    let n1 = names_of(s1);
    let n2 = names_of(s2);
    if map_get(m, "features"@) is Some {
        let v = map_get(m, "features"@)->0;
        if spec_as_sequence(v) is Some {
            let es = spec_as_sequence(v)->0;
            let p = pointer + "/features"@;
            assert forall|i: int| 0 <= i < es.len() implies
                feature_entry_findings(s1, es, i, #[trigger] es[i], p) == feature_entry_findings(s2, es, i, es[i], p) by {
                if let Some(f) = nonblank_text(es[i]) {
                    if exists|k: int| 0 <= k < s1.len() && (#[trigger] s1[k])@ == f {
                        let k = choose|k: int| 0 <= k < s1.len() && (#[trigger] s1[k])@ == f;
                        assert(n1[k] == f);
                        assert(n1.contains(f));
                        assert(n2.contains(f));
                        let j = choose|j: int| 0 <= j < n2.len() && n2[j] == f;
                        assert(s2[j]@ == f);
                    }
                    if exists|k: int| 0 <= k < s2.len() && (#[trigger] s2[k])@ == f {
                        let k = choose|k: int| 0 <= k < s2.len() && (#[trigger] s2[k])@ == f;
                        assert(n2[k] == f);
                        assert(n2.contains(f));
                        assert(n1.contains(f));
                        let j = choose|j: int| 0 <= j < n1.len() && n1[j] == f;
                        assert(s1[j]@ == f);
                    }
                }
            }
            crate::model::lemma_findings_indexed_same(es, |i: int, e: YamlValue| feature_entry_findings(s1, es, i, e, p),
                es, |i: int, e: YamlValue| feature_entry_findings(s2, es, i, e, p));
        }
    }
}

/// The feature names a case declares, once its features list is read.
pub open spec fn declared_features(version: Option<StoryVersion>, case: Item) -> Seq<Seq<char>> {
    declared_features_in(version_tuple(version), case.mapping@)
}

/// The feature names that the case mapping `m` declares for the format version `version`:
/// from format 3.2 on, the non-blank names of its `features` sequence.
pub open spec fn declared_features_in(version: Option<(u64, u64, u64, Seq<char>)>, m: Seq<(YamlValue, YamlValue)>) -> Seq<Seq<char>> {
    match map_get(m, "features"@) {
        Some(v) => if (version matches Some(t) && t.0 == 3 && t.1 >= 2) {
            match spec_as_sequence(v) {
                Some(entries) => declared_feature_names(entries),
                None => Seq::empty(),
            }
        } else {
            Seq::empty()
        },
        None => Seq::empty(),
    }
}

/// `case.features` needs format 3.2; every name must be a non-empty,
/// unique, known feature that the consumer supports. Any failure stops validation.
pub fn validate_features(cx: &mut Context, out: &mut Vec<Diagnostic>, case: &Item)
    ensures
        appended(old(out)@, final(out)@),
        added_findings(old(out)@, final(out)@)
            == features_findings(old(cx).supported_features@, old(cx).format_version, *case),
        final(cx).feature_compatible == (old(cx).feature_compatible
            && features_findings(old(cx).supported_features@, old(cx).format_version, *case).len() == 0),
        final(cx).features@.map_values(|s: String| s@)
            == old(cx).features@.map_values(|s: String| s@) + declared_features(old(cx).format_version, *case),
        final(cx).parsed == old(cx).parsed,
        final(cx).sections == old(cx).sections,
        final(cx).definitions == old(cx).definitions,
        final(cx).format_compatible == old(cx).format_compatible,
        final(cx).format_version == old(cx).format_version,
        final(cx).supported_features == old(cx).supported_features,
        final(cx).ruleset == old(cx).ruleset,
{
    let ghost s0 = out@;
    let ghost old_features = cx.features@.map_values(|s: String| s@);
    let value = match get(&case.mapping, "features") {
        Some(value) => value,
        None => {
            proof {
                lemma_added_findings_none(s0);
                assert(old_features + Seq::<Seq<char>>::empty() =~= old_features);
            }
            return;
        },
    };
    let path = case.path.as_str();
    let pointer = cat(case.pointer.as_str(), "/features");
    if !cx.is_format_3_from(2) {
        cx.feature_compatible = false;
        error_if(out, true, "feature.format_incompatible", owned("`case.features` requires story format 3.2.0 or later"), path,
            pointer, None, Some(case.id.clone()));
        proof { assert(old_features + Seq::<Seq<char>>::empty() =~= old_features); }
        return;
    }
    let entries = match value.as_sequence() {
        Some(entries) => entries,
        None => {
            cx.feature_compatible = false;
            error_if(out, true, "feature.list_type", owned("`case.features` must be an ordered sequence of unique feature names"),
                path, pointer, None, Some(case.id.clone()));
            proof { assert(old_features + Seq::<Seq<char>>::empty() =~= old_features); }
            return;
        },
    };
    let ghost supported = cx.supported_features@;
    let ghost compatible0 = cx.feature_compatible;
    let mut seen: Vec<String> = Vec::new();
    let mut i: usize = 0;
    proof {
        lemma_added_findings_none(s0);
        assert(entries@.take(0) =~= Seq::<YamlValue>::empty());
        assert(old_features + declared_feature_names(entries@.take(0)) =~= old_features);
    }
    while i < entries.len()
        invariant
            0 <= i <= entries@.len(),
            appended(s0, out@),
            supported == cx.supported_features@,
            cx.supported_features == old(cx).supported_features,
            added_findings(s0, out@) == findings_indexed(entries@.take(i as int),
                |i: int, e: YamlValue| feature_entry_findings(supported, entries@, i, e, pointer@)),
            cx.feature_compatible == (compatible0 && added_findings(s0, out@).len() == 0),
            cx.features@.map_values(|s: String| s@) == old_features + declared_feature_names(entries@.take(i as int)),
            forall|f: Seq<char>| #![trigger earlier_feature(entries@, i as int, f)]
                (exists|k: int| 0 <= k < seen@.len() && (#[trigger] seen@[k])@ == f)
                    <==> earlier_feature(entries@, i as int, f),
            cx.parsed == old(cx).parsed,
            cx.sections == old(cx).sections,
            cx.definitions == old(cx).definitions,
            cx.format_compatible == old(cx).format_compatible,
            cx.format_version == old(cx).format_version,
            cx.ruleset == old(cx).ruleset,
        decreases entries@.len() - i,
    {
        let entry_pointer = child_index(pointer.as_str(), i);
        let ghost before = out@;
        let ghost old_seen = seen@;
        let ghost features_before = cx.features@;
        let feature = match entries[i].as_str() {
            Some(f) => if nonblank(f) { Some(f) } else { None },
            None => None,
        };
        match feature {
            None => {
                cx.feature_compatible = false;
                error_if(out, true, "feature.name_type", owned("feature names must be non-empty strings"), path,
                    entry_pointer, None, Some(case.id.clone()));
                proof {
                    assert(nonblank_text(entries@[i as int]) is None);
                    assert(cx.features@.map_values(|s: String| s@) =~= features_before.map_values(|s: String| s@));
                }
            },
            Some(feature) => {
                cx.features.push(owned(feature));
                proof {
                    assert(nonblank_text(entries@[i as int]) == Some(feature@));
                    assert(cx.features@.map_values(|s: String| s@)
                        =~= features_before.map_values(|s: String| s@).push(feature@));
                }
                if contains_string(&seen, feature) {
                    cx.feature_compatible = false;
                    error_if(out, true, "feature.duplicate", cat3("feature `", feature, "` is declared more than once"), path,
                        entry_pointer, locate_scalar(case.source.as_str(), feature), Some(case.id.clone()));
                } else {
                    seen.push(owned(feature));
                    if !known_feature(feature) {
                        cx.feature_compatible = false;
                        error_if(out, true, "feature.unknown",
                            cat4("feature `", feature, "` is not recognized by validator ", VALIDATOR_VERSION), path,
                            entry_pointer, locate_scalar(case.source.as_str(), feature), Some(case.id.clone()));
                    } else {
                        let unsupported = !contains_string(&cx.supported_features, feature);
                        if unsupported {
                            cx.feature_compatible = false;
                        }
                        error_if(out, unsupported, "feature.consumer_unsupported",
                            cat3("this consumer does not advertise support for feature `", feature, "`"), path,
                            entry_pointer, locate_scalar(case.source.as_str(), feature), Some(case.id.clone()));
                    }
                }
            },
        }
        proof {
            lemma_added_findings_trans(s0, before, out@);
            lemma_findings_indexed_step(entries@,
                |i: int, e: YamlValue| feature_entry_findings(supported, entries@, i, e, pointer@), i as int);
            assert(entries@.take(i + 1).drop_last() =~= entries@.take(i as int));
            assert(entries@.take(i + 1).last() == entries@[i as int]);
            assert(cx.features@.map_values(|s: String| s@) =~= old_features + declared_feature_names(entries@.take(i + 1)));
            assert forall|f: Seq<char>| #![trigger earlier_feature(entries@, i + 1, f)]
                (exists|k: int| 0 <= k < seen@.len() && (#[trigger] seen@[k])@ == f)
                    <==> earlier_feature(entries@, i + 1, f) by {
                if earlier_feature(entries@, i + 1, f) {
                    let j = choose|j: int| 0 <= j < i + 1 && #[trigger] nonblank_text(entries@[j]) == Some(f);
                    if j < i || earlier_feature(entries@, i as int, f) {
                        if j < i {
                            assert(earlier_feature(entries@, i as int, f));
                        }
                        let k = choose|k: int| 0 <= k < old_seen.len() && (#[trigger] old_seen[k])@ == f;
                        assert(seen@[k] == old_seen[k]);
                    } else {
                        assert(seen@[seen@.len() - 1]@ == f);
                    }
                }
                if exists|k: int| 0 <= k < seen@.len() && (#[trigger] seen@[k])@ == f {
                    let k = choose|k: int| 0 <= k < seen@.len() && (#[trigger] seen@[k])@ == f;
                    if k < old_seen.len() {
                        assert(old_seen[k] == seen@[k]);
                        assert(earlier_feature(entries@, i as int, f));
                        let j = choose|j: int| 0 <= j < i && #[trigger] nonblank_text(entries@[j]) == Some(f);
                        assert(0 <= j < i + 1);
                    } else {
                        assert(nonblank_text(entries@[i as int]) == Some(f));
                    }
                }
            }
        }
        i += 1;
    }
    proof { lemma_take_all(entries@); }
}

/// The finding for one mapping entry: a key that is not a string is `{namespace}.field`
/// at the mapping, a string key outside `allowed` is `{namespace}.unknown_field` at the key.
pub open spec fn field_findings(
    entry: (YamlValue, YamlValue),
    allowed: Seq<&str>,
    namespace: Seq<char>,
    pointer: Seq<char>,
) -> Seq<Finding> {
    match spec_as_str(entry.0) {
        None => seq![error_at(namespace + ".field"@, pointer)],
        Some(key) => finding_if(!(exists|i: int| 0 <= i < allowed.len() && (#[trigger] allowed[i])@ == key),
            error_at(namespace + ".unknown_field"@, pointer + seq!['/'] + spec_escape_pointer(key))),
    }
}

/// Reports every key of `mapping` that is not a string or not in `allowed`:
/// `{namespace}.field` and `{namespace}.unknown_field`.
pub fn validate_mapping_fields(
    out: &mut Vec<Diagnostic>,
    mapping: &Vec<(YamlValue, YamlValue)>,
    allowed: &[&str],
    namespace: &str,
    path: &str,
    source: &str,
    pointer: &str,
    subject_id: Option<&str>,
)
    ensures
        appended(old(out)@, final(out)@),
        added_findings(old(out)@, final(out)@)
            == findings_over(mapping@, |e: (YamlValue, YamlValue)| field_findings(e, allowed@, namespace@, pointer@)),
{
    let mut i: usize = 0;
    proof { lemma_added_findings_none(out@); }
    while i < mapping.len()
        invariant
            0 <= i <= mapping@.len(),
            appended(old(out)@, out@),
            added_findings(old(out)@, out@) == findings_over(mapping@.take(i as int),
                |e: (YamlValue, YamlValue)| field_findings(e, allowed@, namespace@, pointer@)),
        decreases mapping@.len() - i,
    {
        let ghost before = out@;
        let subject = match subject_id { Some(s) => Some(owned(s)), None => None };
        match mapping[i].0.as_str() {
            None => {
                error(out, cat(namespace, ".field").as_str(), cat(namespace, " field names must be strings"), path,
                    Some(owned(pointer)), None, subject);
                proof { lemma_added_findings_one(before, out@); }
            },
            Some(key) => {
                error_if(out, !one_of(key, allowed), cat(namespace, ".unknown_field").as_str(),
                    cat4("`", key, "` is not supported by format 3 ", namespace), path,
                    child(pointer, key), locate_scalar(source, key), subject);
            },
        }
        proof {
            lemma_added_findings_trans(old(out)@, before, out@);
            lemma_findings_over_step(mapping@,
                |e: (YamlValue, YamlValue)| field_findings(e, allowed@, namespace@, pointer@), i as int);
        }
        i += 1;
    }
    proof { lemma_take_all(mapping@); }
}

/// A player limit that is a positive whole number.
pub open spec fn player_limit_ok(v: Option<i64>) -> bool {
    v matches Some(x) && 0 < x <= usize::MAX
}

/// The findings for `case.players`: a mapping of `min` and `max`, both positive whole
/// numbers, with `min <= max`.
pub open spec fn player_limit_findings(case: Item) -> Seq<Finding> {
    let p = case.pointer@ + "/players"@;
    match map_get(case.mapping@, "players"@) {
        None => seq![error_at("case.players_missing"@, p)],
        Some(v) => match spec_as_mapping(v) {
            None => seq![error_at("case.players_type"@, p)],
            Some(players) => {
                let min = spec_integer_field(players, "min"@);
                let max = spec_integer_field(players, "max"@);
                findings_over(players, |e: (YamlValue, YamlValue)| field_findings(e, seq!["min", "max"], "case.players"@, p))
                + finding_if(!player_limit_ok(min), error_at("case.players_min"@, p + "/min"@))
                + finding_if(!player_limit_ok(max), error_at("case.players_max"@, p + "/max"@))
                + finding_if(
                    match (min, max) {
                        (Some(a), Some(b)) => a > b,
                        _ => false,
                    },
                    error_at("case.players_order"@, p))
            },
        },
    }
}

/// The order of the player limits: when `min` and `max` are both whole numbers,
/// `case.players_order` is reported exactly when `min` exceeds `max`, so equal limits (a
/// solo story with `min: 1, max: 1`) are in order.
pub proof fn law_player_order_only_when_min_exceeds_max(case: Item, players: Seq<(YamlValue, YamlValue)>, min: i64, max: i64)
    requires
        (map_get(case.mapping@, "players"@) matches Some(v) && spec_as_mapping(v) == Some(players)),
        spec_integer_field(players, "min"@) == Some(min),
        spec_integer_field(players, "max"@) == Some(max),
    ensures
        player_limit_findings(case).contains(error_at("case.players_order"@, case.pointer@ + "/players"@)) <==> min > max,
{
    reveal_strlit("case.players");
    reveal_strlit(".field");
    reveal_strlit(".unknown_field");
    reveal_strlit("case.players_order");
    reveal_strlit("case.players_min");
    reveal_strlit("case.players_max");
    let p = case.pointer@ + "/players"@;
    let target = error_at("case.players_order"@, p);
    let f = |e: (YamlValue, YamlValue)| field_findings(e, seq!["min", "max"], "case.players"@, p);
    let fields = findings_over(players, f);
    let low = finding_if(!player_limit_ok(Some(min)), error_at("case.players_min"@, p + "/min"@));
    let high = finding_if(!player_limit_ok(Some(max)), error_at("case.players_max"@, p + "/max"@));
    let order = finding_if(min > max, target);
    assert(player_limit_findings(case) == fields + low + high + order);
    if fields.contains(target) {
        crate::model::lemma_findings_over_member(players, f, target);
        let k = choose|k: int| 0 <= k < players.len() && #[trigger] f(players[k]).contains(target);
        let x = f(players[k]);
        let j = choose|j: int| 0 <= j < x.len() && x[j] == target;
        assert(x[j].1 == "case.players"@ + ".field"@ || x[j].1 == "case.players"@ + ".unknown_field"@);
        assert(("case.players"@ + ".field"@)[12] == '.');
        assert("case.players_order"@[12] == '_');
        assert(false);
    }
    if low.contains(target) {
        assert(low[0].1.len() != target.1.len());
    }
    if high.contains(target) {
        assert(high[0].1.len() != target.1.len());
    }
    if min > max {
        assert(order[0] == target);
    }
    crate::model::lemma_findings_concat_contains(fields, low, target);
    crate::model::lemma_findings_concat_contains(fields + low, high, target);
    crate::model::lemma_findings_concat_contains(fields + low + high, order, target);
}

/// Format 3 needs `case.players` with positive whole `min` and
/// `max`, `min <= max`.
fn validate_player_limits(out: &mut Vec<Diagnostic>, case: &Item)
    ensures
        appended(old(out)@, final(out)@),
        added_findings(old(out)@, final(out)@) == player_limit_findings(*case),
{
    let path = case.path.as_str();
    let pointer = cat(case.pointer.as_str(), "/players");
    let value = match get(&case.mapping, "players") {
        Some(value) => value,
        None => {
            error_if(out, true, "case.players_missing", owned("format 3 requires structured `case.players` limits with `min` and `max`"),
                path, pointer, None, Some(case.id.clone()));
            return;
        },
    };
    let players = match value.as_mapping() {
        Some(players) => players,
        None => {
            error_if(out, true, "case.players_type", owned("`case.players` must be a mapping with positive whole-number `min` and `max`"),
                path, pointer, None, Some(case.id.clone()));
            return;
        },
    };
    let ghost start = out@;
    let allowed: &[&str] = &["min", "max"];
    proof { assert(allowed@ == seq!["min", "max"]); }
    validate_mapping_fields(out, players, allowed, "case.players", path, case.source.as_str(), pointer.as_str(),
        Some(case.id.as_str()));
    let min = crate::yaml::integer_field(players, "min");
    let max = crate::yaml::integer_field(players, "max");
    let ghost mid = out@;
    let min_ok = match min { Some(v) => v > 0 && (v as u64) <= (usize::MAX as u64), None => false };
    error_if(out, !min_ok, "case.players_min", owned("`case.players.min` must be a positive whole number"), path,
        cat(pointer.as_str(), "/min"), None, Some(case.id.clone()));
    let ghost mid2 = out@;
    let max_ok = match max { Some(v) => v > 0 && (v as u64) <= (usize::MAX as u64), None => false };
    error_if(out, !max_ok, "case.players_max", owned("`case.players.max` must be a positive whole number"), path,
        cat(pointer.as_str(), "/max"), None, Some(case.id.clone()));
    let ghost mid3 = out@;
    let order_bad = match (min, max) { (Some(a), Some(b)) => a > b, _ => false };
    error_if(out, order_bad, "case.players_order", owned("`case.players.min` cannot exceed `case.players.max`"), path,
        pointer, None, Some(case.id.clone()));
    proof {
        lemma_added_findings_trans(start, mid, mid2);
        lemma_added_findings_trans(start, mid2, mid3);
        lemma_added_findings_trans(start, mid3, out@);
    }
}

/// The ruleset versions the standard mystery catalog publishes.
pub open spec fn spec_known_ruleset_version(v: Seq<char>) -> bool {
    v == "1.0.0"@ || v == "2.0.0"@ || v == "3.0.0"@ || v == "4.0.0"@ || v == "5.0.0"@
}

/// The ruleset versions the standard mystery catalog publishes.
fn known_ruleset_version(version: &str) -> (r: bool)
    ensures
        r == spec_known_ruleset_version(version@),
{
    str_eq(version, "1.0.0") || str_eq(version, "2.0.0") || str_eq(version, "3.0.0") || str_eq(version, "4.0.0")
        || str_eq(version, "5.0.0")
}

/// A ruleset reference: a mapping whose keys are all the strings `id` and `version`, with
/// string `id` and `version`.
pub open spec fn ruleset_shape_ok(v: YamlValue) -> bool {
    &&& spec_as_mapping(v) is Some
    &&& forall|i: int| 0 <= i < spec_as_mapping(v)->0.len()
        ==> ruleset_key(#[trigger] spec_as_mapping(v)->0[i].0)
    &&& spec_string_field(spec_as_mapping(v)->0, "id"@) is Some
    &&& spec_string_field(spec_as_mapping(v)->0, "version"@) is Some
}

/// A key of a ruleset reference: the string `id` or `version`.
pub open spec fn ruleset_key(k: YamlValue) -> bool {
    match spec_as_str(k) {
        Some(s) => s == "id"@ || s == "version"@,
        None => false,
    }
}

/// The `id` and `version` of a well-formed ruleset reference.
pub open spec fn ruleset_fields_of(v: YamlValue) -> (Seq<char>, Seq<char>) {
    let m = spec_as_mapping(v)->0;
    (spec_string_field(m, "id"@)->0, spec_string_field(m, "version"@)->0)
}

/// The ruleset a case selects: a well-formed reference to a published version of the
/// standard ruleset, compatible with the story's format.
pub open spec fn selected_ruleset(version: Option<StoryVersion>, case: Item) -> Option<(Seq<char>, Seq<char>)> {
    match map_get(case.mapping@, "ruleset"@) {
        Some(v) => if ruleset_shape_ok(v) {
            let (id, ver) = ruleset_fields_of(v);
            if id == STANDARD_MYSTERY_RULESET_ID@ && spec_known_ruleset_version(ver)
                && !(ver == "2.0.0"@ && !spec_is_format_3_from(version, 1))
                && !(ver == "3.0.0"@ && !spec_is_format_3_from(version, 3)) {
                Some((id, ver))
            } else {
                None
            }
        } else {
            None
        },
        None => None,
    }
}

/// The findings for `case.ruleset`: a well-formed reference; the standard ruleset's version
/// 2.0.0 needs format 3.1 and its version 3.0.0 format 3.3; anything else that is not a
/// published standard version is unsupported.
pub open spec fn ruleset_findings(version: Option<StoryVersion>, case: Item) -> Seq<Finding> {
    let p = case.pointer@ + "/ruleset"@;
    match map_get(case.mapping@, "ruleset"@) {
        None => Seq::empty(),
        Some(v) => if !ruleset_shape_ok(v) {
            seq![error_at("ruleset.reference_invalid"@, p)]
        } else {
            let (id, ver) = ruleset_fields_of(v);
            let standard = id == STANDARD_MYSTERY_RULESET_ID@;
            if standard && ver == "2.0.0"@ && !spec_is_format_3_from(version, 1) {
                seq![error_at("ruleset.format_incompatible"@, p + "/version"@)]
            } else if standard && ver == "3.0.0"@ && !spec_is_format_3_from(version, 3) {
                seq![error_at("ruleset.format_incompatible"@, p + "/version"@)]
            } else {
                finding_if(!(standard && spec_known_ruleset_version(ver)), error_at("ruleset.unsupported"@, p))
            }
        },
    }
}

/// `case.ruleset` holds exactly string `id` and `version`;
/// version 2.0.0 needs format 3.1 and version 3.0.0 needs format 3.3; a known reference is
/// selected, any other is `ruleset.unsupported`.
fn validate_ruleset_reference(cx: &mut Context, out: &mut Vec<Diagnostic>, case: &Item)
    ensures
        appended(old(out)@, final(out)@),
        added_findings(old(out)@, final(out)@) == ruleset_findings(old(cx).format_version, *case),
        match selected_ruleset(old(cx).format_version, *case) {
            Some(r) => final(cx).ruleset matches Some(x) && x.id@ == r.0 && x.version@ == r.1,
            None => final(cx).ruleset == old(cx).ruleset,
        },
        final(cx).parsed == old(cx).parsed,
        final(cx).sections == old(cx).sections,
        final(cx).definitions == old(cx).definitions,
        final(cx).format_compatible == old(cx).format_compatible,
        final(cx).format_version == old(cx).format_version,
        final(cx).supported_features == old(cx).supported_features,
        final(cx).feature_compatible == old(cx).feature_compatible,
        final(cx).features == old(cx).features,
{
    let ghost s0 = out@;
    let value = match get(&case.mapping, "ruleset") {
        Some(value) => value,
        None => {
            proof { lemma_added_findings_none(s0); }
            return;
        },
    };
    let path = case.path.as_str();
    let pointer = cat(case.pointer.as_str(), "/ruleset");
    let (id, version) = match ruleset_fields(value) {
        Ok(fields) => fields,
        Err(problem) => {
            error_if(out, true, "ruleset.reference_invalid",
                cat("`case.ruleset` must contain exactly string `id` and `version` fields: ", problem.as_str()),
                path, pointer, None, Some(case.id.clone()));
            return;
        },
    };
    let standard = str_eq(id.as_str(), STANDARD_MYSTERY_RULESET_ID);
    if standard && str_eq(version.as_str(), "2.0.0") && !cx.is_format_3_from(1) {
        error_if(out, true, "ruleset.format_incompatible",
            owned("ruleset.standard_mystery@2.0.0 declares format-3.1 candidate semantics; set `case.format_version` to \"3.1.0\" or select ruleset version \"1.0.0\""),
            path, cat(pointer.as_str(), "/version"), None, Some(case.id.clone()));
        return;
    }
    if standard && str_eq(version.as_str(), "3.0.0") && !cx.is_format_3_from(3) {
        error_if(out, true, "ruleset.format_incompatible",
            owned("ruleset.standard_mystery@3.0.0 declares the Format 3.3 authored-question Solve contract; set `case.format_version` to \"3.3.0\" or select an earlier ruleset version"),
            path, cat(pointer.as_str(), "/version"), None, Some(case.id.clone()));
        return;
    }
    let selected = standard && known_ruleset_version(version.as_str());
    let head = cat4("unsupported ruleset `", id.as_str(), "@", version.as_str());
    error_if(out, !selected, "ruleset.unsupported",
        cat(head.as_str(), "`; supported rulesets: ruleset.standard_mystery version 1.0.0 or 2.0.0 or 3.0.0 or 4.0.0 or 5.0.0"),
        path, pointer, None, Some(case.id.clone()));
    if selected {
        cx.ruleset = Some(RulesetReference { id, version });
    }
}

/// Reads a ruleset reference: a mapping with exactly the string fields `id` and `version`.
fn ruleset_fields(value: &YamlValue) -> (r: Result<(String, String), String>)
    ensures
        r is Ok <==> ruleset_shape_ok(*value),
        r matches Ok(f) ==> (f.0@, f.1@) == ruleset_fields_of(*value),
{
    let mapping = match value.as_mapping() {
        Some(m) => m,
        None => { return Err(owned("expected a mapping")); },
    };
    let mut i: usize = 0;
    while i < mapping.len()
        invariant
            0 <= i <= mapping@.len(),
            spec_as_mapping(*value) == Some(mapping@),
            forall|k: int| 0 <= k < i ==> ruleset_key(#[trigger] mapping@[k].0),
        decreases mapping@.len() - i,
    {
        match mapping[i].0.as_str() {
            Some(key) => {
                if !str_eq(key, "id") && !str_eq(key, "version") {
                    proof { assert(!ruleset_key(mapping@[i as int].0)); }
                    return Err(cat3("unknown field `", key, "`, expected `id` or `version`"));
                }
            },
            None => { return Err(owned("field names must be strings")); },
        }
        i += 1;
    }
    let id = match get(mapping, "id") {
        Some(v) => match v.as_str() { Some(s) => owned(s), None => { return Err(owned("`id` must be a string")); } },
        None => { return Err(owned("missing field `id`")); },
    };
    let version = match get(mapping, "version") {
        Some(v) => match v.as_str() { Some(s) => owned(s), None => { return Err(owned("`version` must be a string")); } },
        None => { return Err(owned("missing field `version`")); },
    };
    Ok((id, version))
}

/// The IDs of the maintained standard mystery commands.
pub open spec fn standard_command_ids() -> Seq<&'static str> {
    seq!["command.move", "command.open", "command.search", "command.examine", "command.take",
        "command.drop", "command.use", "command.question", "command.deduce", "command.solve"]
}

/// `id` is one of the maintained standard commands.
pub open spec fn is_standard_command(id: Seq<char>) -> bool {
    exists|i: int| 0 <= i < standard_command_ids().len() && (#[trigger] standard_command_ids()[i])@ == id
}

/// How many commands copy a standard command ID.
pub open spec fn standard_count(commands: Seq<Item>) -> nat
    decreases commands.len(),
{
    if commands.len() == 0 {
        0
    } else {
        standard_count(commands.drop_last()) + if is_standard_command(commands.last().id@) { 1nat } else { 0nat }
    }
}

/// A story that copies at least three standard commands together with `command.claim`.
pub open spec fn copies_legacy_catalog(commands: Seq<Item>) -> bool {
    standard_count(commands) >= 3 && exists|i: int| 0 <= i < commands.len() && (#[trigger] commands[i]).id@ == "command.claim"@
}

/// The legacy `type`/`required` parameters of one copied standard command.
pub open spec fn legacy_parameter_findings(legacy: bool, command: Item) -> Seq<Finding> {
    if legacy && is_standard_command(command.id@) {
        match map_get(command.mapping@, "parameters"@) {
            Some(v) => match spec_as_sequence(v) {
                Some(parameters) => findings_indexed(parameters, |i: int, p: YamlValue| finding_if(
                    spec_as_mapping(p) matches Some(m) && (map_get(m, "type"@) is Some || map_get(m, "required"@) is Some),
                    warning_at("ruleset.legacy_command_parameter"@,
                        command.pointer@ + "/parameters"@ + seq!['/'] + decimal(i as nat)))),
                None => Seq::empty(),
            },
            None => Seq::empty(),
        }
    } else {
        Seq::empty()
    }
}

/// The migration warnings for a format 3 story's commands.
pub open spec fn command_migration_findings(version: Option<StoryVersion>, ruleset_selected: bool, commands: Seq<Item>) -> Seq<Finding> {
    if !spec_is_format_3_from(version, 0) {
        Seq::empty()
    } else {
        findings_over(commands, |c: Item| legacy_parameter_findings(copies_legacy_catalog(commands), c))
        + finding_if(!ruleset_selected && copies_legacy_catalog(commands),
            warning_at("ruleset.copied_standard_commands"@, "/commands"@))
    }
}

/// The legacy parameter warnings of one command.
fn warn_legacy_parameters(out: &mut Vec<Diagnostic>, command: &Item, legacy: bool)
    ensures
        appended(old(out)@, final(out)@),
        added_findings(old(out)@, final(out)@) == legacy_parameter_findings(legacy, *command),
{
    let ghost s0 = out@;
    let standard: &[&str] = &["command.move", "command.open", "command.search", "command.examine", "command.take",
        "command.drop", "command.use", "command.question", "command.deduce", "command.solve"];
    proof { assert(standard@ == standard_command_ids()); }
    if !(legacy && one_of(command.id.as_str(), standard)) {
        proof { lemma_added_findings_none(s0); }
        return;
    }
    let parameters = match get(&command.mapping, "parameters") {
        Some(value) => match value.as_sequence() {
            Some(parameters) => parameters,
            None => {
                proof { lemma_added_findings_none(s0); }
                return;
            },
        },
        None => {
            proof { lemma_added_findings_none(s0); }
            return;
        },
    };
    let base = cat(command.pointer.as_str(), "/parameters");
    let mut p: usize = 0;
    proof { lemma_added_findings_none(s0); }
    while p < parameters.len()
        invariant
            0 <= p <= parameters@.len(),
            appended(s0, out@),
            added_findings(s0, out@) == findings_indexed(parameters@.take(p as int), |i: int, q: YamlValue| finding_if(
                spec_as_mapping(q) matches Some(m) && (map_get(m, "type"@) is Some || map_get(m, "required"@) is Some),
                warning_at("ruleset.legacy_command_parameter"@, base@ + seq!['/'] + decimal(i as nat)))),
        decreases parameters@.len() - p,
    {
        let ghost b = out@;
        let legacy_shape = match parameters[p].as_mapping() {
            Some(parameter) => crate::yaml::contains_key(parameter, "type") || crate::yaml::contains_key(parameter, "required"),
            None => false,
        };
        warning_if(out, legacy_shape, "ruleset.legacy_command_parameter",
            owned("migrate legacy `type`/`required` to ordered `types` plus `min`/`max`; standard commands can be removed after selecting `case.ruleset`"),
            command.path.as_str(), child_index(base.as_str(), p), None, Some(command.id.clone()));
        proof {
            lemma_added_findings_trans(s0, b, out@);
            lemma_findings_indexed_step(parameters@, |i: int, q: YamlValue| finding_if(
                spec_as_mapping(q) matches Some(m) && (map_get(m, "type"@) is Some || map_get(m, "required"@) is Some),
                warning_at("ruleset.legacy_command_parameter"@, base@ + seq!['/'] + decimal(i as nat))), p as int);
        }
        p += 1;
    }
    proof { lemma_take_all(parameters@); }
}

/// In format 3, a story that copies at least three standard
/// commands together with `command.claim` is told to select the ruleset, and its legacy
/// `type`/`required` parameters are flagged.
pub fn validate_command_migration(cx: &Context, out: &mut Vec<Diagnostic>, commands: &Vec<Item>)
    ensures
        appended(old(out)@, final(out)@),
        added_findings(old(out)@, final(out)@)
            == command_migration_findings(cx.format_version, cx.ruleset is Some, commands@),
{
    let ghost s0 = out@;
    if !cx.is_format_3() {
        proof { lemma_added_findings_none(s0); }
        return;
    }
    let standard: &[&str] = &["command.move", "command.open", "command.search", "command.examine", "command.take",
        "command.drop", "command.use", "command.question", "command.deduce", "command.solve"];
    proof { assert(standard@ == standard_command_ids()); }
    let mut copied: usize = 0;
    let mut has_claim = false;
    let mut first_copied: Option<usize> = None;
    let mut c: usize = 0;
    while c < commands.len()
        invariant
            0 <= c <= commands@.len(),
            standard@ == standard_command_ids(),
            copied == standard_count(commands@.take(c as int)),
            copied <= c,
            has_claim == exists|i: int| 0 <= i < c && (#[trigger] commands@[i]).id@ == "command.claim"@,
            copied > 0 ==> first_copied is Some,
            match first_copied { Some(k) => k < commands@.len(), None => true },
        decreases commands@.len() - c,
    {
        proof { assert(commands@.take(c + 1).drop_last() =~= commands@.take(c as int)); }
        if one_of(commands[c].id.as_str(), standard) {
            copied += 1;
            if first_copied.is_none() {
                first_copied = Some(c);
            }
        }
        if str_eq(commands[c].id.as_str(), "command.claim") {
            has_claim = true;
        }
        proof {
            if has_claim {
                assert(exists|i: int| 0 <= i < c + 1 && (#[trigger] commands@[i]).id@ == "command.claim"@);
            }
        }
        c += 1;
    }
    proof { lemma_take_all(commands@); }
    let copied_legacy_catalog = copied >= 3 && has_claim;
    let mut k: usize = 0;
    proof { lemma_added_findings_none(s0); }
    while k < commands.len()
        invariant
            0 <= k <= commands@.len(),
            appended(s0, out@),
            copied_legacy_catalog == copies_legacy_catalog(commands@),
            added_findings(s0, out@) == findings_over(commands@.take(k as int),
                |c: Item| legacy_parameter_findings(copies_legacy_catalog(commands@), c)),
        decreases commands@.len() - k,
    {
        let ghost b = out@;
        warn_legacy_parameters(out, &commands[k], copied_legacy_catalog);
        proof {
            lemma_added_findings_trans(s0, b, out@);
            lemma_findings_over_step(commands@, |c: Item| legacy_parameter_findings(copies_legacy_catalog(commands@), c), k as int);
        }
        k += 1;
    }
    proof { lemma_take_all(commands@); }
    let ghost s1 = out@;
    let warn = cx.ruleset.is_none() && copied_legacy_catalog;
    match first_copied {
        Some(first) => {
            warning_if(out, warn, "ruleset.copied_standard_commands",
                owned("this story copies maintained mystery commands; select `case.ruleset: { id: ruleset.standard_mystery, version: \"1.0.0\" }` and keep only story-specific extensions in `commands.yaml`"),
                commands[first].path.as_str(), owned("/commands"), None, None);
        },
        None => {
            proof { lemma_added_findings_none(s1); }
        },
    }
    proof { lemma_added_findings_trans(s0, s1, out@); }
}

} // verus!
