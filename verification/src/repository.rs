//! Repository-level checks: size bounds, parsing every file, and the top-level sections.

use vstd::prelude::*;
use crate::model::{Context, Finding, ParsedFile, added_findings, appended, child, contains_string, emit, error, error_at,
    error_if, finding_if, findings_over, lemma_added_findings_none, lemma_added_findings_trans, lemma_findings_over_step,
    lemma_take_all, section_lookup, concat_over, lemma_concat_over_step};
use crate::ids::spec_escape_pointer;
use crate::version::spec_is_format_3_from;
use crate::report::{Diagnostic, Position, Severity, SourceFile, point_range};
use crate::text::{cat, cat3, owned, str_eq, usize_to_decimal};
use crate::yaml::{YamlStream, YamlValue, spec_as_str, yaml_stream_of, entries_depth, entries_nodes, items_depth, items_nodes, lemma_entries_prefix,
    lemma_items_prefix, parse_yaml_stream, yaml_depth, yaml_nodes};
use crate::locate::contains_yaml_anchor_or_alias;
use vstd::utf8::encode_utf8;

verus! {

/// At most this many files.
pub const MAX_REPOSITORY_FILES: usize = 512;
/// At most this many bytes over all files.
pub const MAX_REPOSITORY_BYTES: usize = 1048576;
/// At most this many bytes in one file.
pub const MAX_FILE_BYTES: usize = 262144;
/// At most this nesting depth in one YAML document.
pub const MAX_YAML_DEPTH: usize = 64;
/// At most this many nodes in one YAML document.
pub const MAX_YAML_NODES: usize = 100000;

/// Bytes in the UTF-8 encoding of `s`, as `str::len` reports them.
pub open spec fn byte_len(s: Seq<char>) -> nat {
    (encode_utf8(s).len() as usize) as nat
}

/// Total bytes of all files.
pub open spec fn total_bytes(files: Seq<SourceFile>) -> nat
    decreases files.len(),
{
    if files.len() == 0 { 0 } else { total_bytes(files.drop_last()) + byte_len(files.last().source@) }
}

/// The `(code, path)` of each `repository.file_too_large` finding, in file order.
pub open spec fn oversized_files(files: Seq<SourceFile>) -> Seq<(Seq<char>, Seq<char>)>
    decreases files.len(),
{
    if files.len() == 0 {
        Seq::empty()
    } else {
        let rest = oversized_files(files.drop_last());
        if byte_len(files.last().source@) > MAX_FILE_BYTES {
            rest.push(("repository.file_too_large"@, files.last().path@))
        } else {
            rest
        }
    }
}

/// The `(code, path)` of every finding of the repository size check, in report order.
pub open spec fn bounds_findings(files: Seq<SourceFile>) -> Seq<(Seq<char>, Seq<char>)> {
    (if files.len() > MAX_REPOSITORY_FILES { seq![("repository.too_many_files"@, Seq::<char>::empty())] } else { Seq::empty() })
    + (if total_bytes(files) > MAX_REPOSITORY_BYTES { seq![("repository.too_large"@, Seq::<char>::empty())] } else { Seq::empty() })
    + oversized_files(files)
}

/// The repository is within every size bound.
pub open spec fn within_bounds(files: Seq<SourceFile>) -> bool {
    bounds_findings(files).len() == 0
}

/// The `(code, path)` of a diagnostic.
pub open spec fn code_and_path(d: Diagnostic) -> (Seq<char>, Seq<char>) {
    (d.code@, d.path@)
}

proof fn lemma_oversized_files_len(files: Seq<SourceFile>)
    ensures
        oversized_files(files).len() == 0 <==> forall|i: int| 0 <= i < files.len() ==> byte_len((#[trigger] files[i]).source@) <= MAX_FILE_BYTES,
    decreases files.len(),
{
    if files.len() > 0 {
        lemma_oversized_files_len(files.drop_last());
        assert forall|i: int| 0 <= i < files.len() - 1 implies files.drop_last()[i] == files[i] by {}
    }
}

/// The repository size check: at most 512 files, at most
/// 1 MiB in all and 256 KiB per file. Returns the findings, all errors, and whether the
/// repository is within bounds.
pub fn repository_bounds(files: &[SourceFile]) -> (r: (Vec<Diagnostic>, bool))
    ensures
        r.0@.map_values(|d: Diagnostic| code_and_path(d)) == bounds_findings(files@),
        forall|i: int| 0 <= i < r.0@.len() ==> (#[trigger] r.0@[i]).severity == Severity::Error,
        r.1 == within_bounds(files@),
        r.1 <==> (files@.len() <= MAX_REPOSITORY_FILES && total_bytes(files@) <= MAX_REPOSITORY_BYTES
            && forall|i: int| 0 <= i < files@.len() ==> byte_len((#[trigger] files@[i]).source@) <= MAX_FILE_BYTES),
{
    let mut out: Vec<Diagnostic> = Vec::new();
    let ghost head: Seq<(Seq<char>, Seq<char>)> = Seq::empty();
    if files.len() > MAX_REPOSITORY_FILES {
        let count = usize_to_decimal(files.len());
        error(&mut out, "repository.too_many_files",
            cat3("repository has ", count.as_str(), " files; the limit is 512"), "", None, None, None);
        proof {
            reveal_strlit("");
            assert(""@ =~= Seq::<char>::empty());
            head = seq![("repository.too_many_files"@, Seq::<char>::empty())];
            assert(out@.map_values(|d: Diagnostic| code_and_path(d)) =~= head);
        }
    }
    let mut total: usize = 0;
    let mut i: usize = 0;
    while i < files.len()
        invariant
            0 <= i <= files@.len(),
            total == (if total_bytes(files@.subrange(0, i as int)) > usize::MAX { usize::MAX as nat } else { total_bytes(files@.subrange(0, i as int)) }),
        decreases files@.len() - i,
    {
        proof {
            assert(files@.subrange(0, i + 1).drop_last() =~= files@.subrange(0, i as int));
            assert(files@.subrange(0, i + 1).last() == files@[i as int]);
        }
        let n = files[i].source.as_str().len();
        total = total.saturating_add(n);
        i += 1;
    }
    proof {
        assert(files@.subrange(0, files@.len() as int) =~= files@);
    }
    if total > MAX_REPOSITORY_BYTES {
        let amount = usize_to_decimal(total);
        error(&mut out, "repository.too_large",
            cat3("repository is ", amount.as_str(), " bytes; the limit is 1048576"), "", None, None, None);
        proof {
            reveal_strlit("");
            assert(""@ =~= Seq::<char>::empty());
            head = head.push(("repository.too_large"@, Seq::<char>::empty()));
        }
    }
    proof {
        let a = if files@.len() > MAX_REPOSITORY_FILES { seq![("repository.too_many_files"@, Seq::<char>::empty())] } else { Seq::empty() };
        let b = if total_bytes(files@) > MAX_REPOSITORY_BYTES { seq![("repository.too_large"@, Seq::<char>::empty())] } else { Seq::empty() };
        assert(head =~= a + b);
        assert(out@.map_values(|d: Diagnostic| code_and_path(d)) =~= head);
    }
    let ghost base = out@;
    let mut j: usize = 0;
    while j < files.len()
        invariant
            0 <= j <= files@.len(),
            base.map_values(|d: Diagnostic| code_and_path(d)) == head,
            out@.map_values(|d: Diagnostic| code_and_path(d)) == head + oversized_files(files@.subrange(0, j as int)),
            forall|k: int| 0 <= k < out@.len() ==> (#[trigger] out@[k]).severity == Severity::Error,
        decreases files@.len() - j,
    {
        proof {
            assert(files@.subrange(0, j + 1).drop_last() =~= files@.subrange(0, j as int));
            assert(files@.subrange(0, j + 1).last() == files@[j as int]);
        }
        let n = files[j].source.as_str().len();
        if n > MAX_FILE_BYTES {
            let ghost before = out@;
            let size = usize_to_decimal(n);
            error(&mut out, "repository.file_too_large",
                cat3("file is ", size.as_str(), " bytes; the limit is 262144"), files[j].path.as_str(), None, None, None);
            proof {
                assert(out@ =~= before.push(out@.last()));
                assert(out@.map_values(|d: Diagnostic| code_and_path(d)) =~= before.map_values(|d: Diagnostic| code_and_path(d)).push(code_and_path(out@.last())));
            }
        }
        j += 1;
    }
    proof {
        assert(files@.subrange(0, files@.len() as int) =~= files@);
        lemma_oversized_files_len(files@);
    }
    let within = out.len() == 0;
    proof {
        assert(out@.map_values(|d: Diagnostic| code_and_path(d)).len() == out@.len());
    }
    (out, within)
}

/// The node behind any `!tag` wrappers, taken by value.
fn into_untagged(v: YamlValue) -> (r: YamlValue)
    ensures
        r == crate::yaml::untag(v),
    decreases v,
{
    match v {
        YamlValue::Tagged(_, inner) => into_untagged(*inner),
        other => other,
    }
}

/// Counts the nodes of `value` into `nodes` and fails when the nesting passes
/// `MAX_YAML_DEPTH` or the count passes `MAX_YAML_NODES`: it
/// succeeds exactly when every node of `value` lies within the depth limit (counting from
/// `depth`) and the running count stays within the node limit.
fn check_yaml_complexity(value: &YamlValue, depth: usize, nodes: &mut usize) -> (r: Result<(), String>)
    requires
        depth <= MAX_YAML_DEPTH + 1,
        *old(nodes) <= MAX_YAML_NODES,
    ensures
        r is Ok <==> (depth + yaml_depth(*value) <= MAX_YAML_DEPTH && *old(nodes) + yaml_nodes(*value) <= MAX_YAML_NODES),
        r is Ok ==> *final(nodes) == *old(nodes) + yaml_nodes(*value),
    decreases value,
{
    if depth > MAX_YAML_DEPTH {
        return Err(owned("YAML nesting exceeds the limit of 64"));
    }
    let ghost start = *nodes;
    *nodes = nodes.saturating_add(1);
    if *nodes > MAX_YAML_NODES {
        return Err(owned("YAML node count exceeds the limit of 100000"));
    }
    match value {
        YamlValue::Sequence(items) => {
            let mut i: usize = 0;
            while i < items.len()
                invariant
                    0 <= i <= items@.len(),
                    depth <= MAX_YAML_DEPTH,
                    *nodes == start + 1 + items_nodes(items@.take(i as int)),
                    *nodes <= MAX_YAML_NODES,
                    depth + items_depth(items@.take(i as int)) <= MAX_YAML_DEPTH,
                decreases items@.len() - i,
            {
                proof {
                    assert(decreases_to!(items => items@[i as int]));
                    assert(items@.take(i + 1).drop_last() =~= items@.take(i as int));
                    assert(items@.take(i + 1).last() == items@[i as int]);
                    lemma_items_prefix(items@, i + 1);
                }
                match check_yaml_complexity(&items[i], depth + 1, nodes) {
                    Ok(()) => {},
                    Err(message) => { return Err(message); },
                }
                i += 1;
            }
            proof { assert(items@.take(items@.len() as int) =~= items@); }
        },
        YamlValue::Mapping(entries) => {
            let mut i: usize = 0;
            while i < entries.len()
                invariant
                    0 <= i <= entries@.len(),
                    depth <= MAX_YAML_DEPTH,
                    *nodes == start + 1 + entries_nodes(entries@.take(i as int)),
                    *nodes <= MAX_YAML_NODES,
                    depth + entries_depth(entries@.take(i as int)) <= MAX_YAML_DEPTH,
                decreases entries@.len() - i,
            {
                proof {
                    assert(decreases_to!(entries => entries@[i as int]));
                    assert(decreases_to!(entries@[i as int] => entries@[i as int].0));
                    assert(decreases_to!(entries@[i as int] => entries@[i as int].1));
                    assert(entries@.take(i + 1).drop_last() =~= entries@.take(i as int));
                    assert(entries@.take(i + 1).last() == entries@[i as int]);
                    lemma_entries_prefix(entries@, i + 1);
                }
                match check_yaml_complexity(&entries[i].0, depth + 1, nodes) {
                    Ok(()) => {},
                    Err(message) => { return Err(message); },
                }
                match check_yaml_complexity(&entries[i].1, depth + 1, nodes) {
                    Ok(()) => {},
                    Err(message) => { return Err(message); },
                }
                i += 1;
            }
            proof { assert(entries@.take(entries@.len() as int) =~= entries@); }
        },
        YamlValue::Tagged(_, inner) => {
            match check_yaml_complexity(inner, depth + 1, nodes) {
                Ok(()) => {},
                Err(message) => { return Err(message); },
            }
        },
        _ => {},
    }
    Ok(())
}

/// `file` parsed into `parsed`: one YAML document within the complexity limits whose root
/// (behind any tags) is the mapping `parsed.root`.
pub open spec fn parsed_from(file: SourceFile, parsed: ParsedFile) -> bool {
    &&& parsed.path@ == file.path@
    &&& parsed.source@ == file.source@
    &&& yaml_stream_of(file.source@) matches YamlStream::Parsed { value, more }
    &&& !more
    &&& yaml_depth(value) <= MAX_YAML_DEPTH
    &&& yaml_nodes(value) <= MAX_YAML_NODES
    &&& crate::yaml::untag(value) == YamlValue::Mapping(parsed.root)
}

/// Why `f` is not parsed, as the code it is reported with; `None` when it is parsed.
/// `duplicate` tells whether an earlier file has its path; then anchors and aliases, the
/// YAML stream, the complexity limits and the root's shape are checked in turn.
pub open spec fn file_failure(f: SourceFile, duplicate: bool) -> Option<Seq<char>> {
    if duplicate {
        Some("repository.duplicate_path"@)
    } else if crate::locate::scan_lines(crate::locate::spec_lines(f.source@), 0, None) {
        Some("yaml.alias_unsupported"@)
    } else {
        match yaml_stream_of(f.source@) {
            YamlStream::Empty => Some("yaml.document_count"@),
            YamlStream::Invalid { .. } => Some("yaml.invalid"@),
            YamlStream::Parsed { value, more } => {
                if more {
                    Some("yaml.document_count"@)
                } else if !(yaml_depth(value) <= MAX_YAML_DEPTH && yaml_nodes(value) <= MAX_YAML_NODES) {
                    Some("yaml.too_complex"@)
                } else if crate::yaml::untag(value) is Mapping {
                    None
                } else {
                    Some("schema.root_type"@)
                }
            },
        }
    }
}

/// Why file `i` of `files` is not parsed; a path that an earlier file has is a duplicate.
pub open spec fn parse_failure(files: Seq<SourceFile>, i: int) -> Option<Seq<char>> {
    file_failure(files[i], exists|j: int| 0 <= j < i && (#[trigger] files[j]).path@ == files[i].path@)
}

/// The `(code, path)` of every file among the first `n` that is not parsed, in order.
pub open spec fn parse_failures(files: Seq<SourceFile>, n: int) -> Seq<(Seq<char>, Seq<char>)>
    decreases n,
{
    if n <= 0 {
        Seq::empty()
    } else {
        parse_failures(files, n - 1) + match parse_failure(files, n - 1) {
            Some(code) => seq![(code, files[n - 1].path@)],
            None => Seq::empty(),
        }
    }
}

/// The root mapping of a file that parses.
pub open spec fn parsed_root(f: SourceFile) -> Seq<(YamlValue, YamlValue)> {
    match yaml_stream_of(f.source@) {
        YamlStream::Parsed { value, more: _ } => match crate::yaml::untag(value) {
            YamlValue::Mapping(m) => m@,
            _ => Seq::empty(),
        },
        _ => Seq::empty(),
    }
}

/// The path, source text and root mapping of each file among the first `n` that parses, in
/// order.
pub open spec fn parsed_views(files: Seq<SourceFile>, n: int) -> Seq<(Seq<char>, Seq<char>, Seq<(YamlValue, YamlValue)>)>
    decreases n,
{
    if n <= 0 {
        Seq::empty()
    } else {
        parsed_views(files, n - 1) + if parse_failure(files, n - 1) is None {
            seq![(files[n - 1].path@, files[n - 1].source@, parsed_root(files[n - 1]))]
        } else {
            Seq::empty()
        }
    }
}

/// The paths of the files among the first `n` that are parsed, in order.
pub open spec fn parsed_paths(files: Seq<SourceFile>, n: int) -> Seq<Seq<char>>
    decreases n,
{
    if n <= 0 {
        Seq::empty()
    } else {
        parsed_paths(files, n - 1) + if parse_failure(files, n - 1) is None { seq![files[n - 1].path@] } else { Seq::empty() }
    }
}

/// `parsed` came from one of `files`.
pub open spec fn parsed_from_some(files: Seq<SourceFile>, parsed: ParsedFile) -> bool {
    exists|j: int| 0 <= j < files.len() && #[trigger] parsed_from(files[j], parsed)
}

/// Parses one file, or reports why it is not parsed (`duplicate`: an earlier file has its
/// path): one error with the code of `file_failure` at the file's path, or the parsed file
/// appended to `cx.parsed`.
fn parse_one(cx: &mut Context, out: &mut Vec<Diagnostic>, file: &SourceFile, duplicate: bool)
    ensures
        final(cx).definitions == old(cx).definitions,
        final(cx).sections == old(cx).sections,
        final(cx).format_version == old(cx).format_version,
        final(cx).features == old(cx).features,
        final(cx).format_compatible == old(cx).format_compatible,
        final(cx).feature_compatible == old(cx).feature_compatible,
        final(cx).supported_features == old(cx).supported_features,
        appended(old(out)@, final(out)@),
        match file_failure(*file, duplicate) {
            Some(code) => {
                &&& final(out)@.len() == old(out)@.len() + 1
                &&& final(out)@.last().code@ == code
                &&& final(out)@.last().path@ == file.path@
                &&& final(out)@.last().severity == Severity::Error
                &&& final(cx).parsed@ == old(cx).parsed@
            },
            None => {
                &&& final(out)@ == old(out)@
                &&& final(cx).parsed@.len() == old(cx).parsed@.len() + 1
                &&& final(cx).parsed@.drop_last() == old(cx).parsed@
                &&& parsed_from(*file, final(cx).parsed@.last())
            },
        },
{
    let path = file.path.as_str();
    if duplicate {
        error(out, "repository.duplicate_path", cat3("path `", path, "` occurs more than once"),
            path, None, None, None);
        return;
    }
    if contains_yaml_anchor_or_alias(file.source.as_str()) {
        error(out, "yaml.alias_unsupported", owned("YAML anchors and aliases are not supported"),
            path, None, None, None);
        return;
    }
    match parse_yaml_stream(file.source.as_str()) {
        YamlStream::Empty => {
            error(out, "yaml.document_count", owned("expected exactly one YAML document, found 0"),
                path, None, None, None);
        },
        YamlStream::Invalid { message, location } => {
            let range = match location {
                Some((line, column)) => Some(point_range(Position { line, column })),
                None => None,
            };
            error(out, "yaml.invalid", message, path, None, range, None);
        },
        YamlStream::Parsed { value, more } => {
            if more {
                error(out, "yaml.document_count",
                    owned("expected exactly one YAML document, found more than one"), path, None, None, None);
            } else {
                let mut nodes: usize = 0;
                match check_yaml_complexity(&value, 0, &mut nodes) {
                    Err(message) => {
                        error(out, "yaml.too_complex", message, path, None, None, None);
                    },
                    Ok(()) => {
                        match into_untagged(value) {
                            YamlValue::Mapping(root) => {
                                let entry = ParsedFile {
                                    path: file.path.clone(),
                                    source: file.source.clone(),
                                    root,
                                };
                                let ghost before = cx.parsed@;
                                cx.parsed.push(entry);
                                proof {
                                    assert(cx.parsed@.drop_last() =~= before);
                                }
                            },
                            _ => {
                                error(out, "schema.root_type", owned("YAML document root must be a mapping"),
                                    path, Some(String::new()), None, None);
                            },
                        }
                    },
                }
            }
        },
    }
}

/// The paths seen so far are exactly those of the files before `i`.
#[verifier::opaque]
pub open spec fn seen_files(seen: Seq<String>, files: Seq<SourceFile>, i: int) -> bool {
    &&& forall|m: int| 0 <= m < seen.len() ==> exists|j: int| 0 <= j < i && (#[trigger] seen[m])@ == files[j].path@
    &&& forall|j: int| 0 <= j < i ==> exists|m: int| 0 <= m < seen.len() && (#[trigger] seen[m])@ == (#[trigger] files[j]).path@
}

proof fn lemma_seen_step(before: Seq<String>, after: Seq<String>, files: Seq<SourceFile>, i: int, duplicate: bool)
    requires
        0 <= i < files.len(),
        seen_files(before, files, i),
        duplicate <==> exists|m: int| 0 <= m < before.len() && (#[trigger] before[m])@ == files[i].path@,
        duplicate ==> after == before,
        !duplicate ==> after.len() == before.len() + 1 && after.drop_last() == before && after.last()@ == files[i].path@,
    ensures
        seen_files(after, files, i + 1),
        parse_failure(files, i) == file_failure(files[i], duplicate),
{
    reveal(seen_files);
    if duplicate {
        let m = choose|m: int| 0 <= m < before.len() && (#[trigger] before[m])@ == files[i].path@;
        let j = choose|j: int| 0 <= j < i && (#[trigger] before[m])@ == files[j].path@;
        assert(files[j].path@ == files[i].path@);
    } else {
        assert forall|j: int| 0 <= j < i implies (#[trigger] files[j]).path@ != files[i].path@ by {
            let m = choose|m: int| 0 <= m < before.len() && (#[trigger] before[m])@ == (#[trigger] files[j]).path@;
        }
    }
    assert forall|m: int| 0 <= m < after.len() implies exists|j: int| 0 <= j < i + 1 && (#[trigger] after[m])@ == files[j].path@ by {
        if m < before.len() {
            assert(after[m] == before[m]);
            let j = choose|j: int| 0 <= j < i && (#[trigger] before[m])@ == files[j].path@;
        } else {
            assert(after[m]@ == files[i].path@);
        }
    }
    assert forall|j: int| 0 <= j < i + 1 implies exists|m: int| 0 <= m < after.len() && (#[trigger] after[m])@ == (#[trigger] files[j]).path@ by {
        if j < i {
            let m = choose|m: int| 0 <= m < before.len() && (#[trigger] before[m])@ == (#[trigger] files[j]).path@;
            assert(after[m] == before[m]);
        } else if duplicate {
            let m = choose|m: int| 0 <= m < before.len() && (#[trigger] before[m])@ == files[i].path@;
        } else {
            assert(after[after.len() - 1]@ == files[j].path@);
        }
    }
}

proof fn lemma_out_step(before: Seq<Diagnostic>, after: Seq<Diagnostic>, o: int, files: Seq<SourceFile>, i: int)
    requires
        0 <= i < files.len(),
        0 <= o <= before.len(),
        appended(before, after),
        forall|k: int| o <= k < before.len() ==> (#[trigger] before[k]).severity == Severity::Error,
        before.subrange(o, before.len() as int).map_values(|d: Diagnostic| code_and_path(d)) == parse_failures(files, i),
        match parse_failure(files, i) {
            Some(code) => after.len() == before.len() + 1 && after.last().code@ == code
                && after.last().path@ == files[i].path@ && after.last().severity == Severity::Error,
            None => after == before,
        },
    ensures
        forall|k: int| o <= k < after.len() ==> (#[trigger] after[k]).severity == Severity::Error,
        after.subrange(o, after.len() as int).map_values(|d: Diagnostic| code_and_path(d)) == parse_failures(files, i + 1),
{
    let next = after.subrange(o, after.len() as int).map_values(|d: Diagnostic| code_and_path(d));
    let prev = before.subrange(o, before.len() as int).map_values(|d: Diagnostic| code_and_path(d));
    match parse_failure(files, i) {
        Some(code) => {
            assert(next =~= prev.push((code, files[i].path@)));
        },
        None => {
            assert(next =~= prev);
        },
    }
    assert forall|k: int| o <= k < after.len() implies (#[trigger] after[k]).severity == Severity::Error by {
        if k < before.len() {
            assert(after[k] == before[k]);
        }
    }
}

/// The files parsed since position `p0`: each came from `files`, their paths are those of
/// the parsed files among the first `i`, distinct, and each was seen.
#[verifier::opaque]
pub open spec fn parsed_so_far(parsed: Seq<ParsedFile>, p0: int, files: Seq<SourceFile>, i: int, seen: Seq<String>) -> bool {
    &&& p0 <= parsed.len()
    &&& forall|k: int| p0 <= k < parsed.len() ==> #[trigger] parsed_from_some(files, parsed[k])
    &&& forall|k: int| p0 <= k < parsed.len()
        ==> exists|m: int| 0 <= m < seen.len() && (#[trigger] seen[m])@ == (#[trigger] parsed[k]).path@
    &&& forall|k1: int, k2: int| p0 <= k1 < k2 < parsed.len() ==> (#[trigger] parsed[k1]).path@ != (#[trigger] parsed[k2]).path@
    &&& parsed.subrange(p0, parsed.len() as int).map_values(|p: ParsedFile| p.path@) == parsed_paths(files, i)
    &&& parsed.subrange(p0, parsed.len() as int).map_values(|p: ParsedFile| crate::items::parsed_view(p)) == parsed_views(files, i)
}

proof fn lemma_parsed_step(before: Seq<ParsedFile>, after: Seq<ParsedFile>, p0: int, files: Seq<SourceFile>, i: int,
    seen_before: Seq<String>, seen_after: Seq<String>, duplicate: bool)
    requires
        0 <= i < files.len(),
        0 <= p0,
        parsed_so_far(before, p0, files, i, seen_before),
        duplicate <==> exists|m: int| 0 <= m < seen_before.len() && (#[trigger] seen_before[m])@ == files[i].path@,
        duplicate ==> seen_after == seen_before,
        !duplicate ==> seen_after.len() == seen_before.len() + 1 && seen_after.drop_last() == seen_before
            && seen_after.last()@ == files[i].path@,
        parse_failure(files, i) == file_failure(files[i], duplicate),
        match file_failure(files[i], duplicate) {
            Some(_) => after == before,
            None => after.len() == before.len() + 1 && after.drop_last() == before && parsed_from(files[i], after.last()),
        },
    ensures
        parsed_so_far(after, p0, files, i + 1, seen_after),
{
    reveal(parsed_so_far);
    let grew = file_failure(files[i], duplicate) is None;
    if grew {
        assert(!duplicate);
        assert(after.last().path@ == files[i].path@);
    }
    let pnext = after.subrange(p0, after.len() as int).map_values(|p: ParsedFile| p.path@);
    let pprev = before.subrange(p0, before.len() as int).map_values(|p: ParsedFile| p.path@);
    assert(pprev == parsed_paths(files, i));
    assert(parsed_paths(files, i + 1) == parsed_paths(files, i)
        + if parse_failure(files, i) is None { seq![files[i].path@] } else { Seq::<Seq<char>>::empty() });
    let vnext = after.subrange(p0, after.len() as int).map_values(|p: ParsedFile| crate::items::parsed_view(p));
    let vprev = before.subrange(p0, before.len() as int).map_values(|p: ParsedFile| crate::items::parsed_view(p));
    assert(vprev == parsed_views(files, i));
    if file_failure(files[i], duplicate) is Some {
        assert(pnext =~= pprev);
        assert(pnext == parsed_paths(files, i + 1));
        assert(vnext =~= vprev);
        assert(vprev + Seq::<(Seq<char>, Seq<char>, Seq<(YamlValue, YamlValue)>)>::empty() =~= vprev);
    } else {
        assert(pnext =~= pprev.push(files[i].path@));
        assert(pprev.push(files[i].path@) =~= pprev + seq![files[i].path@]);
        assert(pnext == parsed_paths(files, i + 1));
        let l = after.last();
        assert(crate::yaml::untag(yaml_stream_of(files[i].source@)->value) == YamlValue::Mapping(l.root));
        assert(l.root@ == parsed_root(files[i]));
        assert(vnext =~= vprev.push((files[i].path@, files[i].source@, parsed_root(files[i]))));
        assert(vprev.push((files[i].path@, files[i].source@, parsed_root(files[i])))
            =~= vprev + seq![(files[i].path@, files[i].source@, parsed_root(files[i]))]);
    }
    assert(parsed_views(files, i + 1) == parsed_views(files, i)
        + if parse_failure(files, i) is None { seq![(files[i].path@, files[i].source@, parsed_root(files[i]))] }
          else { Seq::<(Seq<char>, Seq<char>, Seq<(YamlValue, YamlValue)>)>::empty() });
    assert(vnext == parsed_views(files, i + 1));
    assert forall|k: int| p0 <= k < after.len() implies #[trigger] parsed_from_some(files, after[k]) by {
        if k < before.len() {
            assert(after[k] == before[k]);
        } else {
            assert(parsed_from(files[i], after[k]));
        }
    }
    assert forall|k: int| p0 <= k < after.len()
        implies exists|m: int| 0 <= m < seen_after.len() && (#[trigger] seen_after[m])@ == (#[trigger] after[k]).path@ by {
        if k < before.len() {
            assert(after[k] == before[k]);
            let m = choose|m: int| 0 <= m < seen_before.len() && (#[trigger] seen_before[m])@ == before[k].path@;
            assert(seen_after[m] == seen_before[m]);
        } else {
            assert(grew);
            assert(after[k] == after.last());
            assert(seen_after[seen_after.len() - 1]@ == after[k].path@);
        }
    }
    assert forall|k1: int, k2: int| p0 <= k1 < k2 < after.len()
        implies (#[trigger] after[k1]).path@ != (#[trigger] after[k2]).path@ by {
        if k2 >= before.len() {
            assert(grew);
            assert(after[k2] == after.last());
            assert(after[k1] == before[k1]);
            let m = choose|m: int| 0 <= m < seen_before.len() && (#[trigger] seen_before[m])@ == before[k1].path@;
            assert(seen_before[m]@ == after[k1].path@);
            if after[k1].path@ == after[k2].path@ {
                assert(seen_before[m]@ == files[i].path@);
                assert(duplicate);
            }
        } else {
            assert(after[k1] == before[k1]);
            assert(after[k2] == before[k2]);
        }
    }
}

/// Parses every file into `cx.parsed`: duplicate paths, YAML anchors and
/// aliases, syntax errors, document count, complexity, and non-mapping roots are reported
/// and the file is skipped. Every file either yields one error or is parsed, and each
/// parsed file is a distinct path whose single document fits the limits and has a mapping
/// root.
#[verifier::rlimit(60)]
#[verifier::spinoff_prover]
pub fn parse_files(cx: &mut Context, out: &mut Vec<Diagnostic>, files: &[SourceFile])
    ensures
        appended(old(out)@, final(out)@),
        final(cx).definitions == old(cx).definitions,
        final(cx).sections == old(cx).sections,
        final(cx).format_version == old(cx).format_version,
        final(cx).features == old(cx).features,
        final(cx).supported_features == old(cx).supported_features,
        final(cx).parsed@.len() >= old(cx).parsed@.len(),
        forall|k: int| 0 <= k < old(cx).parsed@.len() ==> final(cx).parsed@[k] == old(cx).parsed@[k],
        (final(out)@.len() - old(out)@.len()) + (final(cx).parsed@.len() - old(cx).parsed@.len()) == files@.len(),
        forall|k: int| old(cx).parsed@.len() <= k < final(cx).parsed@.len()
            ==> #[trigger] parsed_from_some(files@, final(cx).parsed@[k]),
        forall|k1: int, k2: int| old(cx).parsed@.len() <= k1 < k2 < final(cx).parsed@.len()
            ==> (#[trigger] final(cx).parsed@[k1]).path@ != (#[trigger] final(cx).parsed@[k2]).path@,
        forall|k: int| old(out)@.len() <= k < final(out)@.len() ==> (#[trigger] final(out)@[k]).severity == Severity::Error,
        final(out)@.subrange(old(out)@.len() as int, final(out)@.len() as int).map_values(|d: Diagnostic| code_and_path(d))
            == parse_failures(files@, files@.len() as int),
        final(cx).parsed@.subrange(old(cx).parsed@.len() as int, final(cx).parsed@.len() as int).map_values(|p: ParsedFile| p.path@)
            == parsed_paths(files@, files@.len() as int),
        final(cx).parsed@.subrange(old(cx).parsed@.len() as int, final(cx).parsed@.len() as int)
            .map_values(|p: ParsedFile| crate::items::parsed_view(p)) == parsed_views(files@, files@.len() as int),
{
    let ghost parsed0 = cx.parsed@.len();
    let mut seen: Vec<String> = Vec::new();
    let mut i: usize = 0;
    proof {
        assert(out@.subrange(old(out)@.len() as int, out@.len() as int).map_values(|d: Diagnostic| code_and_path(d))
            =~= parse_failures(files@, 0));
        assert(cx.parsed@.subrange(parsed0 as int, cx.parsed@.len() as int).map_values(|p: ParsedFile| p.path@)
            =~= parsed_paths(files@, 0));
        assert(cx.parsed@.subrange(parsed0 as int, cx.parsed@.len() as int).map_values(|p: ParsedFile| crate::items::parsed_view(p))
            =~= parsed_views(files@, 0));
        reveal(parsed_so_far);
        reveal(seen_files);
    }
    while i < files.len()
        invariant
            0 <= i <= files@.len(),
            appended(old(out)@, out@),
            cx.definitions == old(cx).definitions,
            cx.sections == old(cx).sections,
            cx.format_version == old(cx).format_version,
            cx.features == old(cx).features,
            cx.supported_features == old(cx).supported_features,
            parsed0 == old(cx).parsed@.len(),
            cx.parsed@.len() >= parsed0,
            forall|k: int| 0 <= k < parsed0 ==> cx.parsed@[k] == old(cx).parsed@[k],
            (out@.len() - old(out)@.len()) + (cx.parsed@.len() - parsed0) == i,
            forall|k: int| old(out)@.len() <= k < out@.len() ==> (#[trigger] out@[k]).severity == Severity::Error,
            out@.subrange(old(out)@.len() as int, out@.len() as int).map_values(|d: Diagnostic| code_and_path(d))
                == parse_failures(files@, i as int),
            parsed_so_far(cx.parsed@, parsed0 as int, files@, i as int, seen@),
            seen_files(seen@, files@, i as int),
        decreases files@.len() - i,
    {
        let file = &files[i];
        let path = file.path.as_str();
        let ghost before = out@;
        let ghost parsed_before = cx.parsed@;
        let ghost seen_before = seen@;
        let duplicate = contains_string(&seen, path);
        if !duplicate {
            seen.push(file.path.clone());
        }
        parse_one(cx, out, file, duplicate);
        proof {
            if !duplicate {
                assert(seen@.drop_last() =~= seen_before);
            }
            lemma_seen_step(seen_before, seen@, files@, i as int, duplicate);
            lemma_out_step(before, out@, old(out)@.len() as int, files@, i as int);
            lemma_parsed_step(parsed_before, cx.parsed@, parsed0 as int, files@, i as int, seen_before, seen@, duplicate);
            crate::model::lemma_appended_trans(old(out)@, before, out@);
        }
        i += 1;
    }
    proof {
        reveal(parsed_so_far);
    }
}

/// The location of `name` contributed by one root entry: the file's path and the key's
/// pointer, when the entry's key is `name`.
pub open spec fn entry_location(e: (YamlValue, YamlValue), path: Seq<char>, name: Seq<char>) -> Seq<(Seq<char>, Seq<char>)> {
    if spec_as_str(e.0) == Some(name) { seq![(path, seq!['/'] + spec_escape_pointer(name))] } else { Seq::empty() }
}

/// The locations of top-level key `name` in one file.
pub open spec fn file_locations(file: ParsedFile, name: Seq<char>) -> Seq<(Seq<char>, Seq<char>)> {
    concat_over(file.root@, |e: (YamlValue, YamlValue)| entry_location(e, file.path@, name))
}

/// The locations of top-level key `name` over every file, in file order.
pub open spec fn section_locations(parsed: Seq<ParsedFile>, name: Seq<char>) -> Seq<(Seq<char>, Seq<char>)> {
    concat_over(parsed, |f: ParsedFile| file_locations(f, name))
}

/// The views of recorded locations.
pub open spec fn location_views(locations: Seq<(String, String)>) -> Seq<(Seq<char>, Seq<char>)> {
    locations.map_values(|l: (String, String)| (l.0@, l.1@))
}

/// The locations recorded for `name` (none when it has no section).
pub open spec fn recorded(sections: Seq<(String, Vec<(String, String)>)>, name: Seq<char>) -> Seq<(Seq<char>, Seq<char>)> {
    match section_lookup(sections, name) {
        Some(l) => location_views(l@),
        None => Seq::empty(),
    }
}

/// Replacing the first entry for a key changes what that key finds and nothing else.
proof fn lemma_section_update(secs: Seq<(String, Vec<(String, String)>)>, s: int, entry: (String, Vec<(String, String)>), x: Seq<char>)
    requires
        0 <= s < secs.len(),
        forall|j: int| 0 <= j < s ==> (#[trigger] secs[j]).0@ != secs[s].0@,
        entry.0@ == secs[s].0@,
    ensures
        section_lookup(secs.update(s, entry), x) == if x == secs[s].0@ { Some(entry.1) } else { section_lookup(secs, x) },
    decreases s,
{
    let u = secs.update(s, entry);
    if s == 0 {
        assert(u[0] == entry);
        assert(u.drop_first() =~= secs.drop_first());
    } else {
        assert(u[0] == secs[0]);
        assert(u.drop_first() =~= secs.drop_first().update(s - 1, entry));
        assert forall|j: int| 0 <= j < s - 1 implies (#[trigger] secs.drop_first()[j]).0@ != secs.drop_first()[s - 1].0@ by {
            assert(secs.drop_first()[j] == secs[j + 1]);
        }
        lemma_section_update(secs.drop_first(), s - 1, entry, x);
    }
}

/// A section appended after the others is found only when no earlier one has its key.
proof fn lemma_section_push(secs: Seq<(String, Vec<(String, String)>)>, entry: (String, Vec<(String, String)>), x: Seq<char>)
    ensures
        section_lookup(secs.push(entry), x) == if section_lookup(secs, x) is Some { section_lookup(secs, x) }
            else if entry.0@ == x { Some(entry.1) } else { None },
    decreases secs.len(),
{
    if secs.len() > 0 {
        assert(secs.push(entry)[0] == secs[0]);
        assert(secs.push(entry).drop_first() =~= secs.drop_first().push(entry));
        lemma_section_push(secs.drop_first(), entry, x);
    } else {
        assert(secs.push(entry)[0] == entry);
        assert(secs.push(entry).drop_first() =~= Seq::<(String, Vec<(String, String)>)>::empty());
        assert(section_lookup(secs.push(entry).drop_first(), x) is None);
    }
}

/// `section_lookup` misses a key that no entry has.
proof fn lemma_section_none(secs: Seq<(String, Vec<(String, String)>)>, x: Seq<char>)
    requires
        forall|j: int| 0 <= j < secs.len() ==> (#[trigger] secs[j]).0@ != x,
    ensures
        section_lookup(secs, x) is None,
    decreases secs.len(),
{
    if secs.len() > 0 {
        assert forall|j: int| 0 <= j < secs.drop_first().len() implies (#[trigger] secs.drop_first()[j]).0@ != x by {
            assert(secs.drop_first()[j] == secs[j + 1]);
        }
        lemma_section_none(secs.drop_first(), x);
    }
}

/// Records one location of `key`.
fn record_location(cx: &mut Context, key: String, path: String, pointer: String)
    ensures
        final(cx).parsed == old(cx).parsed,
        final(cx).definitions == old(cx).definitions,
        final(cx).format_version == old(cx).format_version,
        final(cx).features == old(cx).features,
        final(cx).format_compatible == old(cx).format_compatible,
        final(cx).feature_compatible == old(cx).feature_compatible,
        final(cx).supported_features == old(cx).supported_features,
        forall|x: Seq<char>| #[trigger] recorded(final(cx).sections@, x) == if x == key@ {
            recorded(old(cx).sections@, x).push((path@, pointer@)) } else { recorded(old(cx).sections@, x) },
        forall|x: Seq<char>| #[trigger] section_lookup(final(cx).sections@, x) is Some
            <==> (section_lookup(old(cx).sections@, x) is Some || x == key@),
{
    let ghost secs = cx.sections@;
    let mut s: usize = 0;
    let mut found = false;
    while s < cx.sections.len() && !found
        invariant
            0 <= s <= cx.sections@.len(),
            cx.sections@ == secs,
            found ==> s < cx.sections@.len() && cx.sections@[s as int].0@ == key@,
            forall|j: int| 0 <= j < s ==> (#[trigger] secs[j]).0@ != key@,
        decreases cx.sections@.len() - s + if found { 0int } else { 1int },
    {
        if str_eq(cx.sections[s].0.as_str(), key.as_str()) {
            found = true;
        } else {
            s += 1;
        }
    }
    let ghost pv = (path@, pointer@);
    if found {
        let mut entry = cx.sections.remove(s);
        let ghost old_locs = entry.1@;
        entry.1.push((path, pointer));
        let ghost e = entry;
        cx.sections.insert(s, entry);
        proof {
            assert(cx.sections@ =~= secs.update(s as int, e));
            assert forall|x: Seq<char>| #[trigger] recorded(cx.sections@, x) == if x == key@ {
                recorded(secs, x).push(pv) } else { recorded(secs, x) } by {
                lemma_section_update(secs, s as int, e, x);
                lemma_section_update(secs, s as int, e, key@);
                if x == key@ {
                    lemma_section_update(secs, s as int, secs[s as int], x);
                    assert(secs.update(s as int, secs[s as int]) =~= secs);
                    assert(location_views(e.1@) =~= location_views(old_locs).push(pv));
                }
            }
            assert forall|x: Seq<char>| #[trigger] section_lookup(cx.sections@, x) is Some
                <==> (section_lookup(secs, x) is Some || x == key@) by {
                lemma_section_update(secs, s as int, e, x);
                if x == key@ {
                    lemma_section_update(secs, s as int, secs[s as int], x);
                    assert(secs.update(s as int, secs[s as int]) =~= secs);
                }
            }
        }
    } else {
        let mut locations: Vec<(String, String)> = Vec::new();
        locations.push((path, pointer));
        let ghost e = (key, locations);
        cx.sections.push((key, locations));
        proof {
            lemma_section_none(secs, key@);
            assert(cx.sections@ =~= secs.push(e));
            assert forall|x: Seq<char>| #[trigger] recorded(cx.sections@, x) == if x == key@ {
                recorded(secs, x).push(pv) } else { recorded(secs, x) } by {
                lemma_section_push(secs, e, x);
                if x == key@ {
                    assert(location_views(e.1@) =~= seq![pv]);
                    assert(recorded(secs, x) =~= Seq::<(Seq<char>, Seq<char>)>::empty());
                }
            }
            assert forall|x: Seq<char>| #[trigger] section_lookup(cx.sections@, x) is Some
                <==> (section_lookup(secs, x) is Some || x == key@) by {
                lemma_section_push(secs, e, x);
            }
        }
    }
}

/// The top-level string keys of every file, each with the file's path
/// and the key's pointer, in file and key order.
pub fn index_sections(cx: &mut Context)
    ensures
        final(cx).parsed == old(cx).parsed,
        final(cx).definitions == old(cx).definitions,
        final(cx).format_version == old(cx).format_version,
        final(cx).features == old(cx).features,
        final(cx).format_compatible == old(cx).format_compatible,
        final(cx).feature_compatible == old(cx).feature_compatible,
        final(cx).supported_features == old(cx).supported_features,
        forall|x: Seq<char>| #[trigger] recorded(final(cx).sections@, x)
            == recorded(old(cx).sections@, x) + section_locations(old(cx).parsed@, x),
        forall|x: Seq<char>| #[trigger] section_lookup(final(cx).sections@, x) is Some
            <==> (section_lookup(old(cx).sections@, x) is Some || section_locations(old(cx).parsed@, x).len() > 0),
{
    let ghost parsed = cx.parsed@;
    let ghost secs0 = cx.sections@;
    let mut f: usize = 0;
    proof {
        assert forall|x: Seq<char>| #[trigger] recorded(cx.sections@, x) == recorded(secs0, x) + section_locations(parsed.take(0), x) by {
            assert(recorded(secs0, x) + section_locations(parsed.take(0), x) =~= recorded(secs0, x));
        }
    }
    while f < cx.parsed.len()
        invariant
            0 <= f <= cx.parsed@.len(),
            cx.parsed == old(cx).parsed,
            parsed == old(cx).parsed@,
            secs0 == old(cx).sections@,
            cx.definitions == old(cx).definitions,
            cx.format_version == old(cx).format_version,
            cx.features == old(cx).features,
            cx.format_compatible == old(cx).format_compatible,
            cx.feature_compatible == old(cx).feature_compatible,
            cx.supported_features == old(cx).supported_features,
            forall|x: Seq<char>| #[trigger] recorded(cx.sections@, x) == recorded(secs0, x) + section_locations(parsed.take(f as int), x),
            forall|x: Seq<char>| #[trigger] section_lookup(cx.sections@, x) is Some
                <==> (section_lookup(secs0, x) is Some || section_locations(parsed.take(f as int), x).len() > 0),
        decreases cx.parsed@.len() - f,
    {
        let ghost file = parsed[f as int];
        let ghost mid = cx.sections@;
        let mut k: usize = 0;
        while k < cx.parsed[f].root.len()
            invariant
                0 <= f < cx.parsed@.len(),
                0 <= k <= cx.parsed@[f as int].root@.len(),
                cx.parsed == old(cx).parsed,
                parsed == old(cx).parsed@,
                file == parsed[f as int],
                cx.definitions == old(cx).definitions,
                cx.format_version == old(cx).format_version,
                cx.features == old(cx).features,
                cx.format_compatible == old(cx).format_compatible,
                cx.feature_compatible == old(cx).feature_compatible,
                cx.supported_features == old(cx).supported_features,
                forall|x: Seq<char>| #[trigger] recorded(cx.sections@, x) == recorded(mid, x)
                    + concat_over(file.root@.take(k as int), |e: (YamlValue, YamlValue)| entry_location(e, file.path@, x)),
                forall|x: Seq<char>| #[trigger] section_lookup(cx.sections@, x) is Some
                    <==> (section_lookup(mid, x) is Some
                        || concat_over(file.root@.take(k as int), |e: (YamlValue, YamlValue)| entry_location(e, file.path@, x)).len() > 0),
            decreases cx.parsed@[f as int].root@.len() - k,
        {
            let ghost before = cx.sections@;
            let key_text = match cx.parsed[f].root[k].0.as_str() {
                Some(key) => Some(owned(key)),
                None => None,
            };
            let ghost entry = file.root@[k as int];
            if let Some(key) = key_text {
                let path = cx.parsed[f].path.clone();
                let pointer = child("", key.as_str());
                proof { reveal_strlit(""); assert(Seq::<char>::empty() + seq!['/'] + spec_escape_pointer(key@) =~= seq!['/'] + spec_escape_pointer(key@)); }
                record_location(cx, key, path, pointer);
            }
            proof {
                assert forall|x: Seq<char>| #[trigger] recorded(cx.sections@, x) == recorded(mid, x)
                    + concat_over(file.root@.take(k + 1), |e: (YamlValue, YamlValue)| entry_location(e, file.path@, x)) by {
                    lemma_concat_over_step(file.root@, |e: (YamlValue, YamlValue)| entry_location(e, file.path@, x), k as int);
                    let prev = concat_over(file.root@.take(k as int), |e: (YamlValue, YamlValue)| entry_location(e, file.path@, x));
                    assert(recorded(mid, x) + (prev + entry_location(entry, file.path@, x)) =~= (recorded(mid, x) + prev) + entry_location(entry, file.path@, x));
                }
                assert forall|x: Seq<char>| #[trigger] section_lookup(cx.sections@, x) is Some
                    <==> (section_lookup(mid, x) is Some
                        || concat_over(file.root@.take(k + 1), |e: (YamlValue, YamlValue)| entry_location(e, file.path@, x)).len() > 0) by {
                    lemma_concat_over_step(file.root@, |e: (YamlValue, YamlValue)| entry_location(e, file.path@, x), k as int);
                }
            }
            k += 1;
        }
        proof {
            lemma_take_all(file.root@);
            assert forall|x: Seq<char>| #[trigger] recorded(cx.sections@, x) == recorded(secs0, x) + section_locations(parsed.take(f + 1), x) by {
                lemma_concat_over_step(parsed, |g: ParsedFile| file_locations(g, x), f as int);
                assert(recorded(mid, x) == recorded(secs0, x) + section_locations(parsed.take(f as int), x));
                assert(recorded(secs0, x) + (section_locations(parsed.take(f as int), x) + file_locations(file, x))
                    =~= (recorded(secs0, x) + section_locations(parsed.take(f as int), x)) + file_locations(file, x));
            }
            assert forall|x: Seq<char>| #[trigger] section_lookup(cx.sections@, x) is Some
                <==> (section_lookup(secs0, x) is Some || section_locations(parsed.take(f + 1), x).len() > 0) by {
                lemma_concat_over_step(parsed, |g: ParsedFile| file_locations(g, x), f as int);
                assert(section_lookup(mid, x) is Some <==> (section_lookup(secs0, x) is Some || section_locations(parsed.take(f as int), x).len() > 0));
            }
        }
        f += 1;
    }
    proof { lemma_take_all(parsed); }
}

/// An error with `code` at each location, in order.
pub open spec fn location_findings(locations: Seq<(String, String)>, code: Seq<char>) -> Seq<Finding> {
    findings_over(locations, |l: (String, String)| seq![error_at(code, l.1@)])
}

/// Reports one diagnostic at each location of a section.
fn report_locations(out: &mut Vec<Diagnostic>, locations: &Vec<(String, String)>, code: &str, message: &str)
    ensures
        appended(old(out)@, final(out)@),
        added_findings(old(out)@, final(out)@) == location_findings(locations@, code@),
{
    let mut i: usize = 0;
    proof { lemma_added_findings_none(out@); }
    while i < locations.len()
        invariant
            0 <= i <= locations@.len(),
            appended(old(out)@, out@),
            added_findings(old(out)@, out@) == findings_over(locations@.take(i as int),
                |l: (String, String)| seq![error_at(code@, l.1@)]),
        decreases locations@.len() - i,
    {
        let ghost before = out@;
        error_if(out, true, code, owned(message), locations[i].0.as_str(), locations[i].1.clone(), None, None);
        proof {
            lemma_added_findings_trans(old(out)@, before, out@);
            lemma_findings_over_step(locations@, |l: (String, String)| seq![error_at(code@, l.1@)], i as int);
        }
        i += 1;
    }
    proof { lemma_take_all(locations@); }
}

/// The pointer of a top-level section.
pub open spec fn section_pointer(name: Seq<char>) -> Seq<char> {
    seq!['/'] + spec_escape_pointer(name)
}

/// A required section: missing, or defined more than once.
pub open spec fn required_section_findings(sections: Seq<(String, Vec<(String, String)>)>, name: Seq<char>) -> Seq<Finding> {
    match section_lookup(sections, name) {
        None => seq![error_at("schema.missing_section"@, section_pointer(name))],
        Some(locations) => single_section_findings(sections, name),
    }
}

/// A section that may appear once: every location when it is defined more than once.
pub open spec fn single_section_findings(sections: Seq<(String, Vec<(String, String)>)>, name: Seq<char>) -> Seq<Finding> {
    match section_lookup(sections, name) {
        Some(locations) => if locations@.len() > 1 {
            location_findings(locations@, "schema.duplicate_section"@)
        } else {
            Seq::empty()
        },
        None => Seq::empty(),
    }
}

/// Every location of a removed section.
pub open spec fn removed_section_findings(sections: Seq<(String, Vec<(String, String)>)>, name: Seq<char>, code: Seq<char>) -> Seq<Finding> {
    match section_lookup(sections, name) {
        Some(locations) => location_findings(locations@, code),
        None => Seq::empty(),
    }
}

/// The sections every repository defines.
pub open spec fn required_sections() -> Seq<&'static str> {
    seq!["case", "settings", "routes", "characters", "entities", "events", "deductions", "flags", "cards"]
}

/// The sections that may be defined only once.
pub open spec fn single_sections() -> Seq<&'static str> {
    seq!["solution", "end_states", "win_states", "commands", "triggers", "cards"]
}

/// The findings of the top-level section checks.
pub open spec fn section_findings(sections: Seq<(String, Vec<(String, String)>)>, format_3: bool) -> Seq<Finding> {
    findings_over(required_sections(), |name: &'static str| required_section_findings(sections, name@))
    + (if !format_3 { required_section_findings(sections, "clues"@) } else { Seq::empty() })
    + findings_over(single_sections(), |name: &'static str| single_section_findings(sections, name@))
    + (if format_3 { removed_section_findings(sections, "clues"@, "format.clues_removed"@) } else { Seq::empty() })
    + removed_section_findings(sections, "facts"@, "format.facts_section_removed"@)
    + removed_section_findings(sections, "tags"@, "format.tags_removed"@)
}

/// Reports a section that no file defines.
fn report_missing_section(out: &mut Vec<Diagnostic>, section: &str)
    ensures
        appended(old(out)@, final(out)@),
        added_findings(old(out)@, final(out)@) == seq![error_at("schema.missing_section"@, section_pointer(section@))],
{
    let pointer = child("", section);
    proof {
        reveal_strlit("");
        assert(pointer@ =~= section_pointer(section@));
    }
    error_if(out, true, "schema.missing_section", cat3("required top-level section `", section, "` is missing"),
        "", pointer, None, None);
}

/// One section that may be defined only once.
fn check_single_section(cx: &Context, out: &mut Vec<Diagnostic>, section: &str, required: bool)
    ensures
        appended(old(out)@, final(out)@),
        added_findings(old(out)@, final(out)@) == if required {
            required_section_findings(cx.sections@, section@)
        } else {
            single_section_findings(cx.sections@, section@)
        },
{
    match cx.section(section) {
        None => {
            if required {
                report_missing_section(out, section);
            } else {
                proof { lemma_added_findings_none(out@); }
            }
        },
        Some(locations) => {
            if locations.len() > 1 {
                let message = cat3("top-level section `", section, "` is defined more than once");
                report_locations(out, locations, "schema.duplicate_section", message.as_str());
            } else {
                proof { lemma_added_findings_none(out@); }
            }
        },
    }
}

/// Every location of a removed section.
fn check_removed_section(cx: &Context, out: &mut Vec<Diagnostic>, section: &str, code: &str, message: &str)
    ensures
        appended(old(out)@, final(out)@),
        added_findings(old(out)@, final(out)@) == removed_section_findings(cx.sections@, section@, code@),
{
    match cx.section(section) {
        Some(locations) => report_locations(out, locations, code, message),
        None => {
            proof { lemma_added_findings_none(out@); }
        },
    }
}

/// Required, single, removed and legacy top-level sections.
pub fn validate_sections(cx: &Context, out: &mut Vec<Diagnostic>)
    ensures
        appended(old(out)@, final(out)@),
        added_findings(old(out)@, final(out)@) == section_findings(cx.sections@, spec_is_format_3_from(cx.format_version, 0)),
{
    let required: &[&str] = &["case", "settings", "routes", "characters", "entities", "events", "deductions", "flags", "cards"];
    proof { assert(required@ == required_sections()); }
    let mut i: usize = 0;
    proof { lemma_added_findings_none(out@); }
    while i < required.len()
        invariant
            0 <= i <= required@.len(),
            required@ == required_sections(),
            appended(old(out)@, out@),
            added_findings(old(out)@, out@) == findings_over(required@.take(i as int),
                |name: &'static str| required_section_findings(cx.sections@, name@)),
        decreases required@.len() - i,
    {
        let ghost before = out@;
        check_single_section(cx, out, required[i], true);
        proof {
            lemma_added_findings_trans(old(out)@, before, out@);
            lemma_findings_over_step(required@, |name: &'static str| required_section_findings(cx.sections@, name@), i as int);
        }
        i += 1;
    }
    proof { lemma_take_all(required@); }
    let ghost mid = out@;
    if !cx.is_format_3() {
        check_single_section(cx, out, "clues", true);
    } else {
        proof { lemma_added_findings_none(mid); }
    }
    let ghost mid1 = out@;
    let single: &[&str] = &["solution", "end_states", "win_states", "commands", "triggers", "cards"];
    proof { assert(single@ == single_sections()); }
    let mut j: usize = 0;
    proof { lemma_added_findings_none(mid1); }
    while j < single.len()
        invariant
            0 <= j <= single@.len(),
            single@ == single_sections(),
            appended(mid1, out@),
            added_findings(mid1, out@) == findings_over(single@.take(j as int),
                |name: &'static str| single_section_findings(cx.sections@, name@)),
        decreases single@.len() - j,
    {
        let ghost before = out@;
        check_single_section(cx, out, single[j], false);
        proof {
            lemma_added_findings_trans(mid1, before, out@);
            lemma_findings_over_step(single@, |name: &'static str| single_section_findings(cx.sections@, name@), j as int);
        }
        j += 1;
    }
    proof { lemma_take_all(single@); }
    let ghost mid2 = out@;
    if cx.is_format_3() {
        check_removed_section(cx, out, "clues", "format.clues_removed",
            "format 3 removes clues; express player knowledge in `facts`");
    } else {
        proof { lemma_added_findings_none(mid2); }
    }
    let ghost mid3 = out@;
    check_removed_section(cx, out, "facts", "format.facts_section_removed",
        "top-level `facts` was removed; nest fact objects beneath characters, entities, settings, events, or triggers");
    let ghost mid4 = out@;
    check_removed_section(cx, out, "tags", "format.tags_removed",
        "top-level `tags` was removed; use authored boolean flags for world state");
    proof {
        lemma_added_findings_trans(old(out)@, mid, mid1);
        lemma_added_findings_trans(old(out)@, mid1, mid2);
        lemma_added_findings_trans(old(out)@, mid2, mid3);
        lemma_added_findings_trans(old(out)@, mid3, mid4);
        lemma_added_findings_trans(old(out)@, mid4, out@);
    }
}

/// Each known section and the file it must live in.
pub open spec fn canonical_files() -> Seq<(&'static str, &'static str)> {
    seq![
        ("case", "case.yaml"),
        ("solution", "case.yaml"),
        ("end_states", "end_states.yaml"),
        ("win_states", "win_states.yaml"),
        ("settings", "settings.yaml"),
        ("routes", "settings.yaml"),
        ("characters", "characters.yaml"),
        ("entities", "entities.yaml"),
        ("events", "events.yaml"),
        ("clues", "clues.yaml"),
        ("deductions", "deductions.yaml"),
        ("flags", "flags.yaml"),
        ("commands", "commands.yaml"),
        ("triggers", "triggers.yaml"),
        ("cards", "deck.yaml"),
    ]
}

/// The locations of a known section that are not in its canonical file.
pub open spec fn filename_findings(sections: Seq<(String, Vec<(String, String)>)>, entry: (&'static str, &'static str)) -> Seq<Finding> {
    match section_lookup(sections, entry.0@) {
        Some(locations) => findings_over(locations@, |l: (String, String)|
            finding_if(l.0@ != entry.1@, error_at("schema.noncanonical_filename"@, l.1@))),
        None => Seq::empty(),
    }
}

/// The locations of one known section that are not in `expected`.
fn check_section_filename(cx: &Context, out: &mut Vec<Diagnostic>, section: &'static str, expected: &'static str)
    ensures
        appended(old(out)@, final(out)@),
        added_findings(old(out)@, final(out)@) == filename_findings(cx.sections@, (section, expected)),
{
    let locations = match cx.section(section) {
        Some(locations) => locations,
        None => {
            proof { lemma_added_findings_none(out@); }
            return;
        },
    };
    let mut k: usize = 0;
    proof { lemma_added_findings_none(out@); }
    while k < locations.len()
        invariant
            0 <= k <= locations@.len(),
            appended(old(out)@, out@),
            added_findings(old(out)@, out@) == findings_over(locations@.take(k as int), |l: (String, String)|
                finding_if(l.0@ != expected@, error_at("schema.noncanonical_filename"@, l.1@))),
        decreases locations@.len() - k,
    {
        let ghost before = out@;
        let path = locations[k].0.as_str();
        let head = cat3("top-level section `", section, "` must be defined in `");
        let tail = cat3(expected, "`, not `", path);
        let message = cat3(head.as_str(), tail.as_str(), "`");
        error_if(out, !str_eq(path, expected), "schema.noncanonical_filename", message, path, locations[k].1.clone(), None, None);
        proof {
            lemma_added_findings_trans(old(out)@, before, out@);
            lemma_findings_over_step(locations@, |l: (String, String)|
                finding_if(l.0@ != expected@, error_at("schema.noncanonical_filename"@, l.1@)), k as int);
        }
        k += 1;
    }
    proof { lemma_take_all(locations@); }
}

/// Each known section must live in its canonical file.
pub fn validate_section_filenames(cx: &Context, out: &mut Vec<Diagnostic>)
    ensures
        appended(old(out)@, final(out)@),
        added_findings(old(out)@, final(out)@)
            == findings_over(canonical_files(), |e: (&'static str, &'static str)| filename_findings(cx.sections@, e)),
{
    let canonical: &[(&str, &str)] = &[
        ("case", "case.yaml"),
        ("solution", "case.yaml"),
        ("end_states", "end_states.yaml"),
        ("win_states", "win_states.yaml"),
        ("settings", "settings.yaml"),
        ("routes", "settings.yaml"),
        ("characters", "characters.yaml"),
        ("entities", "entities.yaml"),
        ("events", "events.yaml"),
        ("clues", "clues.yaml"),
        ("deductions", "deductions.yaml"),
        ("flags", "flags.yaml"),
        ("commands", "commands.yaml"),
        ("triggers", "triggers.yaml"),
        ("cards", "deck.yaml"),
    ];
    proof { assert(canonical@ == canonical_files()); }
    let mut i: usize = 0;
    proof { lemma_added_findings_none(out@); }
    while i < canonical.len()
        invariant
            0 <= i <= canonical@.len(),
            canonical@ == canonical_files(),
            appended(old(out)@, out@),
            added_findings(old(out)@, out@) == findings_over(canonical@.take(i as int),
                |e: (&'static str, &'static str)| filename_findings(cx.sections@, e)),
        decreases canonical@.len() - i,
    {
        let ghost before = out@;
        let (section, expected) = canonical[i];
        check_section_filename(cx, out, section, expected);
        proof {
            lemma_added_findings_trans(old(out)@, before, out@);
            lemma_findings_over_step(canonical@, |e: (&'static str, &'static str)| filename_findings(cx.sections@, e), i as int);
        }
        i += 1;
    }
    proof { lemma_take_all(canonical@); }
}

} // verus!
