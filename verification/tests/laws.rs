use narrator_validator::api::{diagnostic_less, sort_diagnostics};
use narrator_validator::graph::{find_cycles, reachable, Graph};
use narrator_validator::kinds::{CandidateSource, CommandParameterType};
use narrator_validator::locate::{contains_yaml_anchor_or_alias, locate_item_field};
use narrator_validator::references::{classify_tag, TagCheck};
use narrator_validator::terminal::EndStateCondition;
use narrator_validator::yaml::{YamlNumber, YamlValue};
use narrator_validator::{validate, Diagnostic, Severity, SourceFile};

fn file(path: &str, source: &str) -> SourceFile {
    SourceFile { path: path.to_string(), source: source.to_string() }
}

fn codes_of(files: &[SourceFile]) -> Vec<String> {
    validate(files).diagnostics.into_iter().map(|d| d.code).collect()
}

fn diagnostic(path: &str, code: &str, message: &str) -> Diagnostic {
    Diagnostic {
        severity: Severity::Error,
        code: code.to_string(),
        message: message.to_string(),
        path: path.to_string(),
        pointer: None,
        range: None,
        subject_id: None,
        related: Vec::new(),
    }
}

const BROKEN_CASE: &str = r#"
case:
  id: case.broken
  format_version: "3.0.0"
  players:
    min: 3
    max: 1
settings:
  - id: setting.hall
    type: room
"#;

#[test]
fn report_is_valid_exactly_when_no_error_and_is_sorted() {
    let report = validate(&[file("case.yaml", BROKEN_CASE), file("notes.yaml", "[unclosed")]);
    let has_error = report.diagnostics.iter().any(|d| d.severity == Severity::Error);
    assert!(has_error);
    assert_eq!(report.valid, !has_error);
    for pair in report.diagnostics.windows(2) {
        assert!(!diagnostic_less(&pair[1], &pair[0]), "{:?} sorts before {:?}", pair[1], pair[0]);
    }
    assert_eq!(report.validator_version, "1.2.0");
}

#[test]
fn oversized_file_is_reported_with_size_findings_alone() {
    let big = format!("case:\n  id: case.big\n  notes: \"{}\"\n", "x".repeat(262_200));
    let report = validate(&[file("case.yaml", &big)]);
    assert!(!report.valid);
    assert_eq!(report.format_version, None);
    let codes: Vec<&str> = report.diagnostics.iter().map(|d| d.code.as_str()).collect();
    assert_eq!(codes, vec!["repository.file_too_large"]);
    assert_eq!(report.diagnostics[0].path, "case.yaml");
}

#[test]
fn too_many_files_is_reported_with_size_findings_alone() {
    let files: Vec<SourceFile> = (0..513).map(|i| file(&format!("f{i}.yaml"), "a: 1\n")).collect();
    let report = validate(&files);
    assert!(!report.valid);
    let codes: Vec<&str> = report.diagnostics.iter().map(|d| d.code.as_str()).collect();
    assert_eq!(codes, vec!["repository.too_many_files"]);
}

#[test]
fn yaml_nesting_beyond_the_depth_limit_is_too_complex() {
    let deep = format!("{}1{}", "[".repeat(70), "]".repeat(70));
    let codes = codes_of(&[file("deep.yaml", &deep)]);
    assert!(codes.iter().any(|c| c == "yaml.too_complex"), "{codes:?}");
    let shallow = format!("{}1{}", "[".repeat(10), "]".repeat(10));
    let codes = codes_of(&[file("shallow.yaml", &shallow)]);
    assert!(!codes.iter().any(|c| c == "yaml.too_complex"), "{codes:?}");
}

#[test]
fn malformed_yaml_and_several_documents_are_reported() {
    let codes = codes_of(&[file("bad.yaml", "key: [unclosed")]);
    assert!(codes.iter().any(|c| c == "yaml.invalid"), "{codes:?}");
    let codes = codes_of(&[file("two.yaml", "a: 1\n---\nb: 2\n")]);
    assert!(codes.iter().any(|c| c == "yaml.document_count"), "{codes:?}");
}

fn case_with_version(version: &str) -> SourceFile {
    file("case.yaml", &format!("case:\n  id: case.version\n  format_version: \"{version}\"\n"))
}

#[test]
fn story_versions_follow_semantic_versioning() {
    let report = validate(&[case_with_version("3.2.1")]);
    assert_eq!(report.format_version.as_deref(), Some("3.2.1"));
    let report = validate(&[case_with_version("3.x")]);
    assert_eq!(report.format_version, None);
    assert!(report.diagnostics.iter().any(|d| d.code == "format.version_invalid"), "{:?}", report.diagnostics);
    let report = validate(&[case_with_version("3.2")]);
    assert_eq!(report.format_version, None);
}

#[test]
fn classify_tag_accepts_only_whole_numbers_up_to_the_last_tag() {
    assert!(matches!(classify_tag(Some(&YamlValue::Number(YamlNumber::PosInt(0)))), TagCheck::Valid(0)));
    assert!(matches!(classify_tag(Some(&YamlValue::Number(YamlNumber::PosInt(2114)))), TagCheck::Valid(2114)));
    assert!(matches!(classify_tag(Some(&YamlValue::Number(YamlNumber::PosInt(2115)))), TagCheck::OutOfRange(2115)));
    assert!(matches!(classify_tag(Some(&YamlValue::Number(YamlNumber::NegInt(-1)))), TagCheck::OutOfRange(-1)));
    assert!(matches!(classify_tag(Some(&YamlValue::String("7".to_string()))), TagCheck::Invalid));
    assert!(matches!(classify_tag(None), TagCheck::Invalid));
}

fn condition(requirements: &[&str], minimum_points: u64, at_or_after_minutes: Option<u16>) -> EndStateCondition {
    EndStateCondition {
        requirements: requirements.iter().map(|s| s.to_string()).collect(),
        minimum_points,
        at_or_after_minutes,
    }
}

#[test]
fn end_state_conditions_are_monotonic_conjunctions() {
    let broad = condition(&["flag.a"], 0, None);
    let narrow = condition(&["flag.a", "flag.b"], 5, Some(60));
    assert!(broad.is_implied_by(&narrow));
    assert!(!narrow.is_implied_by(&broad));
    assert!(broad.is_implied_by(&broad));
    let later_clock = condition(&["flag.a"], 0, Some(30));
    assert!(!later_clock.is_implied_by(&broad));
    assert!(broad.same_as(&condition(&["flag.a"], 0, None)));
    assert!(!broad.same_as(&narrow));
}

#[test]
fn graph_cycles_are_closed_walks_from_their_least_node() {
    let mut g = Graph::new();
    g.insert("b".to_string(), vec!["a".to_string()]);
    g.insert("a".to_string(), vec!["b".to_string()]);
    g.insert("c".to_string(), vec!["a".to_string()]);
    let cycles = find_cycles(&g);
    assert_eq!(cycles, vec![vec!["a".to_string(), "b".to_string(), "a".to_string()]]);
    let mut acyclic = Graph::new();
    acyclic.insert("a".to_string(), vec!["b".to_string()]);
    acyclic.insert("b".to_string(), Vec::new());
    assert!(find_cycles(&acyclic).is_empty());
}

#[test]
fn reachability_follows_edges_from_the_starts() {
    let mut g = Graph::new();
    g.insert("a".to_string(), vec!["b".to_string()]);
    g.insert("b".to_string(), Vec::new());
    g.insert("c".to_string(), vec!["a".to_string()]);
    assert_eq!(g.nodes, vec!["a".to_string(), "b".to_string(), "c".to_string()]);
    assert_eq!(reachable(&g, &vec!["a".to_string()]), vec![true, true, false]);
    assert_eq!(reachable(&g, &vec!["c".to_string()]), vec![true, true, true]);
    assert_eq!(reachable(&g, &vec!["missing".to_string()]), vec![false, false, false]);
}

#[test]
fn sorting_orders_by_path_then_code_and_keeps_every_diagnostic() {
    let input = vec![
        diagnostic("b.yaml", "x.first", "m"),
        diagnostic("a.yaml", "z.last", "m"),
        diagnostic("a.yaml", "a.first", "m"),
        diagnostic("a.yaml", "a.first", "m"),
    ];
    let sorted = sort_diagnostics(input);
    let keys: Vec<(&str, &str)> = sorted.iter().map(|d| (d.path.as_str(), d.code.as_str())).collect();
    assert_eq!(keys, vec![("a.yaml", "a.first"), ("a.yaml", "a.first"), ("a.yaml", "z.last"), ("b.yaml", "x.first")]);
}

#[test]
fn candidate_sources_parse_their_exact_names() {
    assert_eq!(CandidateSource::parse("inventory"), Some(CandidateSource::Inventory));
    assert_eq!(CandidateSource::parse("current_location"), Some(CandidateSource::CurrentLocation));
    assert_eq!(CandidateSource::parse("Inventory"), None);
    assert_eq!(CandidateSource::Inventory.produced_types(), vec![CommandParameterType::Entity]);
    assert_eq!(CommandParameterType::parse("deduction"), Some(CommandParameterType::Deduction));
    assert_eq!(CommandParameterType::parse("flag"), None);
}

const QUESTION_STORY_CASE: &str = r#"
case:
  id: case.questions
  format_version: "3.3.0"
  ruleset:
    id: ruleset.standard_mystery
    version: "3.0.0"
  players:
    min: 1
    max: 2
solution:
  win_state: end_state.solved
  questions:
    - prompt: Who did it?
      answer: [character.culprit, character.culprit]
    - prompt: Where?
      answer: [character.culprit, setting.unknown]
"#;

#[test]
fn solution_answers_are_unique_within_and_across_questions() {
    let codes = codes_of(&[file("case.yaml", QUESTION_STORY_CASE)]);
    assert!(codes.iter().any(|c| c == "solution.question_answer_duplicate"), "{codes:?}");
    assert!(codes.iter().any(|c| c == "solution.answer_reused"), "{codes:?}");
    assert!(codes.iter().any(|c| c == "solution.question_answer_unknown"), "{codes:?}");
}

const PARAMETER_COMMANDS: &str = r#"
commands:
  - id: command.inspect
    name: Inspect
    parameters:
      - name: target
        types: [entity, entity, gadget]
        min: 2
        max: 1
        candidates:
          from: [inventory, inventory, reachable]
          capabilities: [portable, portable]
"#;

#[test]
fn command_parameters_report_each_faulty_declaration() {
    let case = "case:\n  id: case.params\n  format_version: \"3.1.0\"\n  players:\n    min: 1\n    max: 2\n";
    let codes = codes_of(&[file("case.yaml", case), file("commands.yaml", PARAMETER_COMMANDS)]);
    for expected in [
        "command.parameter_kind_duplicate",
        "command.parameter_kind",
        "command.parameter_cardinality",
        "command.candidates_source_duplicate",
        "command.candidates_source_incompatible",
        "command.candidates_capability_duplicate",
    ] {
        assert!(codes.iter().any(|c| c == expected), "missing {expected}: {codes:?}");
    }
}

const LEGACY_CASE: &str = "case:\n  id: case.legacy\n  format_version: \"1.0.0\"\n  entry_settings: [setting.a]\n  exit_settings: [setting.a]\n";

fn count(codes: &[String], code: &str) -> usize {
    codes.iter().filter(|c| c.as_str() == code).count()
}

#[test]
fn repeated_ids_are_reported_once_per_repeat() {
    let settings = "settings:\n  - id: setting.a\n    type: room\n  - id: setting.a\n    type: room\n  - id: place.b\n    type: room\n";
    let codes = codes_of(&[file("case.yaml", LEGACY_CASE), file("settings.yaml", settings)]);
    assert_eq!(count(&codes, "id.duplicate"), 1, "{codes:?}");
    assert_eq!(count(&codes, "id.wrong_prefix"), 1, "{codes:?}");
}

#[test]
fn settings_must_reach_and_be_reached_along_routes() {
    let settings = "settings:\n  - id: setting.a\n    type: room\n  - id: setting.b\n    type: room\n  - id: setting.c\n    type: room\nroutes:\n  - id: route.a_b\n    from: setting.a\n    to: setting.b\n";
    let report = validate(&[file("case.yaml", LEGACY_CASE), file("settings.yaml", settings)]);
    let located = |code: &str| -> Vec<String> {
        report.diagnostics.iter().filter(|d| d.code == code).filter_map(|d| d.subject_id.clone()).collect()
    };
    assert_eq!(located("navigation.unreachable"), vec!["setting.c".to_string()]);
    let mut no_exit = located("navigation.no_exit");
    no_exit.sort();
    assert_eq!(no_exit, vec!["setting.b".to_string(), "setting.c".to_string()]);
}

#[test]
fn legacy_trigger_parameter_bindings_are_typed() {
    let commands = "commands:\n  - id: command.examine\n    name: Examine\n    parameters:\n      - name: target\n        type: entity\n        required: true\n";
    let world = "characters:\n  - id: character.c\nentities:\n  - id: entity.e\n";
    let triggers = "triggers:\n  - id: trigger.t\n    command: command.examine\n    parameters:\n      target: character.c\n      tool: entity.e\n";
    let codes = codes_of(&[
        file("case.yaml", LEGACY_CASE),
        file("commands.yaml", commands),
        file("characters.yaml", world),
        file("triggers.yaml", triggers),
    ]);
    assert_eq!(count(&codes, "reference.wrong_type"), 1, "{codes:?}");
    assert_eq!(count(&codes, "trigger.parameter_unknown"), 1, "{codes:?}");
}

#[test]
fn a_cycle_is_reported_exactly_when_the_graph_has_one() {
    let mut g = Graph::new();
    g.insert("a".to_string(), vec!["b".to_string()]);
    g.insert("b".to_string(), vec!["c".to_string()]);
    g.insert("c".to_string(), vec!["b".to_string(), "missing".to_string()]);
    assert_eq!(find_cycles(&g), vec![vec!["b".to_string(), "c".to_string(), "b".to_string()]]);
    let mut self_loop = Graph::new();
    self_loop.insert("x".to_string(), vec!["x".to_string()]);
    assert_eq!(find_cycles(&self_loop), vec![vec!["x".to_string(), "x".to_string()]]);
    let mut replaced = Graph::new();
    replaced.insert("a".to_string(), vec!["b".to_string()]);
    replaced.insert("b".to_string(), vec!["a".to_string()]);
    replaced.insert("b".to_string(), Vec::new());
    assert!(find_cycles(&replaced).is_empty());
}

#[test]
fn anchors_and_aliases_are_found_only_at_node_positions() {
    assert!(contains_yaml_anchor_or_alias("base: &shared\n  a: 1\nother: *shared\n"));
    assert!(contains_yaml_anchor_or_alias("items:\n  - *alias\n"));
    assert!(!contains_yaml_anchor_or_alias("text: 'a &quoted value'\n"));
    assert!(!contains_yaml_anchor_or_alias("text: \"see *this*\"\n"));
    assert!(!contains_yaml_anchor_or_alias("# &comment\nkey: value # *also\n"));
    assert!(!contains_yaml_anchor_or_alias("body: |\n  &not an anchor\n  *nor an alias\nnext: 1\n"));
    assert!(contains_yaml_anchor_or_alias("body: |\n  plain\nnext: &back 1\n"));
    assert!(!contains_yaml_anchor_or_alias("math: a & b\n"));
    assert!(!contains_yaml_anchor_or_alias("word: x&y\n"));
    assert!(contains_yaml_anchor_or_alias("key's: &x 1\nlist: [it's, *x]\n"));
    assert!(contains_yaml_anchor_or_alias("note: it's fine\nlater: *x\n"));
    assert!(!contains_yaml_anchor_or_alias("note: it's & fine\n"));
    assert!(!contains_yaml_anchor_or_alias("say: \"a \\\" *b\"\n"));
}

#[test]
fn item_fields_are_located_in_the_item_that_declares_the_id() {
    let source = "entities:\n  - id: entity.box\n    initial:\n      container: entity.crate\n  - id: entity.crate\n    name: 'Crate'\n";
    let range = locate_item_field(source, "entity.crate", "name").expect("name field");
    assert_eq!((range.start.line, range.start.column, range.end.column), (6, 12, 17));
    assert!(locate_item_field(source, "entity.box", "name").is_none());
    assert!(locate_item_field(source, "entity.missing", "name").is_none());
    let box_initial = locate_item_field(source, "entity.box", "initial").expect("initial field");
    assert_eq!((box_initial.start.line, box_initial.start.column, box_initial.end.column), (3, 13, 13));
}

#[test]
fn yaml_copies_keep_every_node() {
    let value = YamlValue::Mapping(vec![(
        YamlValue::String("k".to_string()),
        YamlValue::Sequence(vec![YamlValue::Number(YamlNumber::PosInt(3)), YamlValue::Null]),
    )]);
    let copy = value.duplicate();
    assert_eq!(format!("{copy:?}"), format!("{value:?}"));
}

#[test]
fn cycles_are_listed_once_each_in_ascending_order() {
    let mut g = Graph::new();
    g.insert("d".to_string(), vec!["c".to_string()]);
    g.insert("c".to_string(), vec!["d".to_string()]);
    g.insert("a".to_string(), vec!["b".to_string(), "a".to_string()]);
    g.insert("b".to_string(), vec!["a".to_string()]);
    assert_eq!(
        find_cycles(&g),
        vec![
            vec!["a".to_string(), "a".to_string()],
            vec!["a".to_string(), "b".to_string(), "a".to_string()],
            vec!["c".to_string(), "d".to_string(), "c".to_string()],
        ]
    );
}

#[test]
fn every_file_that_does_not_parse_is_reported_at_its_path() {
    let files = vec![
        file("a.yaml", "case: [unterminated\n"),
        file("b.yaml", "- just\n- a list\n"),
        file("a.yaml", "case: {}\n"),
        file("c.yaml", "x: &anchor 1\n"),
        file("d.yaml", "one: 1\n---\ntwo: 2\n"),
    ];
    let report = validate(&files);
    assert!(!report.valid);
    let found: Vec<(String, String)> = report.diagnostics.iter().map(|d| (d.code.clone(), d.path.clone())).collect();
    for expected in [
        ("yaml.invalid", "a.yaml"),
        ("schema.root_type", "b.yaml"),
        ("repository.duplicate_path", "a.yaml"),
        ("yaml.alias_unsupported", "c.yaml"),
        ("yaml.document_count", "d.yaml"),
    ] {
        assert!(found.contains(&(expected.0.to_string(), expected.1.to_string())), "{expected:?} in {found:?}");
    }
}

fn gated_case(version: &str) -> SourceFile {
    file(
        "case.yaml",
        &format!("case:\n  id: case.gate\n  format_version: \"{version}\"\n  features: [reference_text_v1]\n"),
    )
}

#[test]
fn an_incompatible_format_stops_validation_with_its_version_finding_alone() {
    let report = validate(&[gated_case("4.0.0")]);
    assert!(!report.valid);
    assert_eq!(report.format_version.as_deref(), Some("4.0.0"));
    assert!(report.features.is_empty(), "{:?}", report.features);
    assert_eq!(report.diagnostics.len(), 1, "{:#?}", report.diagnostics);
    assert_eq!(report.diagnostics[0].code, "format.incompatible_version");
    assert_eq!(report.diagnostics[0].pointer.as_deref(), Some("/case/format_version"));
}

#[test]
fn a_refused_feature_stops_validation_and_still_reports_the_declared_features() {
    let report = narrator_validator::validate_with_supported_features(&[gated_case("3.2.0")], &[]);
    assert!(!report.valid);
    assert_eq!(report.features, ["reference_text_v1"]);
    assert_eq!(report.diagnostics.len(), 1, "{:#?}", report.diagnostics);
    assert_eq!(report.diagnostics[0].code, "feature.consumer_unsupported");
    assert_eq!(report.diagnostics[0].pointer.as_deref(), Some("/case/features/0"));
    let supported = vec!["reference_text_v1".to_string(), "reference_text_v1".to_string()];
    let accepted = narrator_validator::validate_with_supported_features(&[gated_case("3.2.0")], &supported);
    assert_eq!(accepted.features, ["reference_text_v1"]);
    assert!(accepted.diagnostics.iter().all(|d| d.code != "feature.consumer_unsupported"), "{:#?}", accepted.diagnostics);
}

fn report_codes(report: &narrator_validator::ValidationReport) -> Vec<(String, Option<String>)> {
    report.diagnostics.iter().map(|d| (d.code.clone(), d.pointer.clone())).collect()
}

#[test]
fn the_order_and_repeats_of_supported_feature_names_do_not_matter() {
    let files = [gated_case("3.2.0")];
    let one = narrator_validator::validate_with_supported_features(&files, &["reference_text_v1".to_string()]);
    let several = narrator_validator::validate_with_supported_features(
        &files,
        &["other_feature".to_string(), "reference_text_v1".to_string(), "reference_text_v1".to_string()],
    );
    assert_eq!(report_codes(&one), report_codes(&several));
    assert_eq!(one.features, several.features);
    assert_eq!(one.valid, several.valid);
}

#[test]
fn a_story_without_features_is_validated_alike_for_every_consumer() {
    let files = [case_with_version("3.0.0")];
    let none = narrator_validator::validate_with_supported_features(&files, &[]);
    let all = validate(&files);
    assert_eq!(report_codes(&none), report_codes(&all));
    assert!(none.features.is_empty() && all.features.is_empty());
}
