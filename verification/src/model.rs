//! The validation state: parsed files, definitions, sections, and the diagnostics sink.

use vstd::prelude::*;
use crate::kinds::Kind;
use crate::report::{Diagnostic, RelatedLocation, Severity, SourceRange};
use crate::text::{cat, cat3, owned, str_eq, usize_to_decimal};
use crate::ids::escape_pointer;
use crate::version::{StoryVersion, is_format_3_from};
use crate::yaml::YamlValue;

verus! {

/// One file whose document parsed to a root mapping.
#[derive(Debug)]
pub struct ParsedFile {
    pub path: String,
    pub source: String,
    pub root: Vec<(YamlValue, YamlValue)>,
}

/// Where an ID is defined and what kind of object it names.
#[derive(Debug)]
pub struct Definition {
    pub kind: Kind,
    pub path: String,
    pub pointer: String,
    pub range: Option<SourceRange>,
}

impl Definition {
    /// A copy of this definition.
    pub fn copy(&self) -> (r: Definition)
        ensures
            r.kind == self.kind,
            r.path@ == self.path@,
            r.pointer@ == self.pointer@,
            r.range == self.range,
    {
        Definition { kind: self.kind, path: self.path.clone(), pointer: self.pointer.clone(), range: self.range }
    }
}

/// An authored object: its kind, ID, location, and its mapping.
#[derive(Debug)]
pub struct Item {
    pub kind: Kind,
    pub id: String,
    pub path: String,
    pub source: String,
    pub pointer: String,
    pub mapping: Vec<(YamlValue, YamlValue)>,
}

/// The `case.ruleset` selection.
#[derive(Debug)]
pub struct RulesetReference {
    pub id: String,
    pub version: String,
}

/// Everything learnt about the repository while validating it.
pub struct Context {
    pub parsed: Vec<ParsedFile>,
    /// Each ID with its first definition, in definition order; IDs are distinct.
    pub definitions: Vec<(String, Definition)>,
    /// Each top-level key with the `(path, pointer)` of every file that defines it.
    pub sections: Vec<(String, Vec<(String, String)>)>,
    pub format_version: Option<StoryVersion>,
    pub format_compatible: bool,
    pub ruleset: Option<RulesetReference>,
    pub features: Vec<String>,
    pub supported_features: Vec<String>,
    pub feature_compatible: bool,
}

/// `after` keeps every diagnostic of `before`, in place, and may add more.
pub open spec fn appended(before: Seq<Diagnostic>, after: Seq<Diagnostic>) -> bool {
    &&& before.len() <= after.len()
    &&& forall|i: int| 0 <= i < before.len() ==> after[i] == before[i]
}

pub proof fn lemma_appended_trans(a: Seq<Diagnostic>, b: Seq<Diagnostic>, c: Seq<Diagnostic>)
    requires
        appended(a, b),
        appended(b, c),
    ensures
        appended(a, c),
{
    assert forall|i: int| 0 <= i < a.len() implies c[i] == a[i] by {
        assert(c[i] == b[i]);
    }
}

/// What a diagnostic reports, without its prose: severity, rule code and JSON pointer.
pub type Finding = (Severity, Seq<char>, Option<Seq<char>>);

/// The finding of one diagnostic.
pub open spec fn finding_of(d: Diagnostic) -> Finding {
    (d.severity, d.code@, match d.pointer { Some(p) => Some(p@), None => None })
}

/// An error with `code` at `pointer`.
pub open spec fn error_at(code: Seq<char>, pointer: Seq<char>) -> Finding {
    (Severity::Error, code, Some(pointer))
}

/// A warning with `code` at `pointer`.
pub open spec fn warning_at(code: Seq<char>, pointer: Seq<char>) -> Finding {
    (Severity::Warning, code, Some(pointer))
}

/// The finding `f` when `condition` holds, nothing otherwise.
pub open spec fn finding_if(condition: bool, f: Finding) -> Seq<Finding> {
    if condition { seq![f] } else { Seq::empty() }
}

/// The findings of the diagnostics that `after` adds to `before`.
pub open spec fn added_findings(before: Seq<Diagnostic>, after: Seq<Diagnostic>) -> Seq<Finding> {
    after.subrange(before.len() as int, after.len() as int).map_values(|d: Diagnostic| finding_of(d))
}

/// The findings of every item in order: `f` applied to each item, concatenated.
pub open spec fn findings_over<A>(items: Seq<A>, f: spec_fn(A) -> Seq<Finding>) -> Seq<Finding>
    decreases items.len(),
{
    if items.len() == 0 {
        Seq::empty()
    } else {
        findings_over(items.drop_last(), f) + f(items.last())
    }
}

/// Findings added in two steps are the findings of the first step then of the second.
pub proof fn lemma_added_findings_trans(a: Seq<Diagnostic>, b: Seq<Diagnostic>, c: Seq<Diagnostic>)
    requires
        appended(a, b),
        appended(b, c),
    ensures
        appended(a, c),
        added_findings(a, c) == added_findings(a, b) + added_findings(b, c),
{
    lemma_appended_trans(a, b, c);
    assert(added_findings(a, c) =~= added_findings(a, b) + added_findings(b, c)) by {
        assert forall|i: int| 0 <= i < c.len() - a.len() implies
            #[trigger] added_findings(a, c)[i] == (added_findings(a, b) + added_findings(b, c))[i] by {
            if i < b.len() - a.len() {
                assert(c[a.len() + i] == b[a.len() + i]);
            }
        }
    }
}

/// Nothing added, no findings.
pub proof fn lemma_added_findings_none(a: Seq<Diagnostic>)
    ensures
        added_findings(a, a) == Seq::<Finding>::empty(),
{
    assert(added_findings(a, a) =~= Seq::<Finding>::empty());
}

/// One diagnostic added: its finding.
pub proof fn lemma_added_findings_one(a: Seq<Diagnostic>, b: Seq<Diagnostic>)
    requires
        appended(a, b),
        b.len() == a.len() + 1,
    ensures
        added_findings(a, b) == seq![finding_of(b.last())],
{
    assert(added_findings(a, b) =~= seq![finding_of(b.last())]);
}

/// The findings over the first `i + 1` items extend those over the first `i`.
pub proof fn lemma_findings_over_step<A>(items: Seq<A>, f: spec_fn(A) -> Seq<Finding>, i: int)
    requires
        0 <= i < items.len(),
    ensures
        findings_over(items.take(i + 1), f) == findings_over(items.take(i), f) + f(items[i]),
{
    assert(items.take(i + 1).drop_last() =~= items.take(i));
}

/// A finding of one item is a finding of the whole list.
pub proof fn lemma_findings_over_contains<A>(items: Seq<A>, f: spec_fn(A) -> Seq<Finding>, k: int, x: Finding)
    requires
        0 <= k < items.len(),
        f(items[k]).contains(x),
    ensures
        findings_over(items, f).contains(x),
    decreases items.len(),
{
    let rest = findings_over(items.drop_last(), f);
    let last = f(items.last());
    if k == items.len() - 1 {
        let j = choose|j: int| 0 <= j < last.len() && last[j] == x;
        assert((rest + last)[rest.len() + j] == x);
    } else {
        assert(items.drop_last()[k] == items[k]);
        lemma_findings_over_contains(items.drop_last(), f, k, x);
        let j = choose|j: int| 0 <= j < rest.len() && rest[j] == x;
        assert((rest + last)[j] == x);
    }
}

/// A finding of the whole list is a finding of one of its items.
pub proof fn lemma_findings_over_member<A>(items: Seq<A>, f: spec_fn(A) -> Seq<Finding>, x: Finding)
    requires
        findings_over(items, f).contains(x),
    ensures
        exists|k: int| 0 <= k < items.len() && #[trigger] f(items[k]).contains(x),
    decreases items.len(),
{
    let rest = findings_over(items.drop_last(), f);
    let last = f(items.last());
    let j = choose|j: int| 0 <= j < (rest + last).len() && (rest + last)[j] == x;
    if j < rest.len() {
        assert(rest[j] == x);
        lemma_findings_over_member(items.drop_last(), f, x);
        let k = choose|k: int| 0 <= k < items.drop_last().len() && #[trigger] f(items.drop_last()[k]).contains(x);
        assert(items.drop_last()[k] == items[k]);
    } else {
        assert(last[j - rest.len()] == x);
        assert(f(items[items.len() - 1]).contains(x));
    }
}

/// A finding of two lists in turn is a finding of one of them.
pub proof fn lemma_findings_concat_contains(a: Seq<Finding>, b: Seq<Finding>, x: Finding)
    ensures
        (a + b).contains(x) <==> (a.contains(x) || b.contains(x)),
{
    if (a + b).contains(x) {
        let j = choose|j: int| 0 <= j < (a + b).len() && (a + b)[j] == x;
        if j < a.len() { assert(a[j] == x); } else { assert(b[j - a.len()] == x); }
    }
    if a.contains(x) {
        let j = choose|j: int| 0 <= j < a.len() && a[j] == x;
        assert((a + b)[j] == x);
    }
    if b.contains(x) {
        let j = choose|j: int| 0 <= j < b.len() && b[j] == x;
        assert((a + b)[a.len() + j] == x);
    }
}

/// A finding of one item is a finding of the whole indexed list.
pub proof fn lemma_findings_indexed_contains<A>(items: Seq<A>, f: spec_fn(int, A) -> Seq<Finding>, k: int, x: Finding)
    requires
        0 <= k < items.len(),
        f(k, items[k]).contains(x),
    ensures
        findings_indexed(items, f).contains(x),
    decreases items.len(),
{
    let rest = findings_indexed(items.drop_last(), f);
    let last = f(items.len() - 1, items.last());
    if k == items.len() - 1 {
        let j = choose|j: int| 0 <= j < last.len() && last[j] == x;
        assert((rest + last)[rest.len() + j] == x);
    } else {
        assert(items.drop_last()[k] == items[k]);
        lemma_findings_indexed_contains(items.drop_last(), f, k, x);
        let j = choose|j: int| 0 <= j < rest.len() && rest[j] == x;
        assert((rest + last)[j] == x);
    }
}

/// The findings of every item in order, each told its index.
pub open spec fn findings_indexed<A>(items: Seq<A>, f: spec_fn(int, A) -> Seq<Finding>) -> Seq<Finding>
    decreases items.len(),
{
    if items.len() == 0 {
        Seq::empty()
    } else {
        findings_indexed(items.drop_last(), f) + f(items.len() - 1, items.last())
    }
}

/// The indexed findings over the first `i + 1` items extend those over the first `i`.
pub proof fn lemma_findings_indexed_step<A>(items: Seq<A>, f: spec_fn(int, A) -> Seq<Finding>, i: int)
    requires
        0 <= i < items.len(),
    ensures
        findings_indexed(items.take(i + 1), f) == findings_indexed(items.take(i), f) + f(i, items[i]),
{
    assert(items.take(i + 1).drop_last() =~= items.take(i));
}

/// Indexed findings agree over two sequences whose items give the same findings.
pub proof fn lemma_findings_indexed_same<A, B>(a: Seq<A>, f: spec_fn(int, A) -> Seq<Finding>, b: Seq<B>,
    g: spec_fn(int, B) -> Seq<Finding>)
    requires
        a.len() == b.len(),
        forall|i: int| 0 <= i < a.len() ==> f(i, #[trigger] a[i]) == g(i, b[i]),
    ensures
        findings_indexed(a, f) == findings_indexed(b, g),
    decreases a.len(),
{
    if a.len() > 0 {
        assert forall|i: int| 0 <= i < a.drop_last().len() implies f(i, #[trigger] a.drop_last()[i]) == g(i, b.drop_last()[i]) by {
            assert(a.drop_last()[i] == a[i]);
            assert(b.drop_last()[i] == b[i]);
        }
        lemma_findings_indexed_same(a.drop_last(), f, b.drop_last(), g);
        assert(f(a.len() - 1, a.last()) == g(b.len() - 1, b.last()));
    }
}

/// `f` applied to each item, concatenated.
pub open spec fn concat_over<A, B>(items: Seq<A>, f: spec_fn(A) -> Seq<B>) -> Seq<B>
    decreases items.len(),
{
    if items.len() == 0 {
        Seq::empty()
    } else {
        concat_over(items.drop_last(), f) + f(items.last())
    }
}

/// Sequences with the same elements, each counted, keep the same elements under a map.
pub proof fn lemma_map_to_multiset<A, B>(a: Seq<A>, b: Seq<A>, f: spec_fn(A) -> B)
    requires
        a.to_multiset() == b.to_multiset(),
    ensures
        a.map_values(f).to_multiset() == b.map_values(f).to_multiset(),
    decreases a.len(),
{
    broadcast use vstd::multiset::group_multiset_axioms;
    vstd::seq_lib::to_multiset_len(a);
    vstd::seq_lib::to_multiset_len(b);
    if a.len() == 0 {
        assert(a.map_values(f) =~= b.map_values(f));
    } else {
        let x = a.last();
        let rest = a.drop_last();
        assert(a =~= rest.push(x));
        vstd::seq_lib::to_multiset_build(rest, x);
        assert(a.contains(x));
        vstd::seq_lib::to_multiset_contains(a, x);
        vstd::seq_lib::to_multiset_contains(b, x);
        let j = choose|j: int| 0 <= j < b.len() && b[j] == x;
        let b2 = b.remove(j);
        vstd::seq_lib::to_multiset_remove(b, j);
        assert(rest.to_multiset() =~= a.to_multiset().remove(x));
        lemma_map_to_multiset(rest, b2, f);
        assert(a.map_values(f) =~= rest.map_values(f).push(f(x)));
        vstd::seq_lib::to_multiset_build(rest.map_values(f), f(x));
        assert(b.map_values(f) =~= b2.map_values(f).insert(j, f(x)));
        vstd::seq_lib::to_multiset_insert(b2.map_values(f), j, f(x));
    }
}

/// Concatenations agree over two sequences whose items give the same pieces.
pub proof fn lemma_concat_over_same<A, B, C>(a: Seq<A>, f: spec_fn(A) -> Seq<B>, b: Seq<C>, g: spec_fn(C) -> Seq<B>)
    requires
        a.len() == b.len(),
        forall|i: int| 0 <= i < a.len() ==> f(#[trigger] a[i]) == g(b[i]),
    ensures
        concat_over(a, f) == concat_over(b, g),
    decreases a.len(),
{
    if a.len() > 0 {
        assert forall|i: int| 0 <= i < a.drop_last().len() implies f(#[trigger] a.drop_last()[i]) == g(b.drop_last()[i]) by {
            assert(a.drop_last()[i] == a[i]);
            assert(b.drop_last()[i] == b[i]);
        }
        lemma_concat_over_same(a.drop_last(), f, b.drop_last(), g);
        assert(f(a.last()) == g(b.last()));
    }
}

/// The concatenation over the first `i + 1` items extends that over the first `i`.
pub proof fn lemma_concat_over_step<A, B>(items: Seq<A>, f: spec_fn(A) -> Seq<B>, i: int)
    requires
        0 <= i < items.len(),
    ensures
        concat_over(items.take(i + 1), f) == concat_over(items.take(i), f) + f(items[i]),
{
    assert(items.take(i + 1).drop_last() =~= items.take(i));
}

/// Over all of `items`.
pub proof fn lemma_take_all<A>(items: Seq<A>)
    ensures
        items.take(items.len() as int) == items,
{
    assert(items.take(items.len() as int) =~= items);
}

/// Adds one diagnostic without related locations.
pub fn emit(
    out: &mut Vec<Diagnostic>,
    severity: Severity,
    code: &str,
    message: String,
    path: &str,
    pointer: Option<String>,
    range: Option<SourceRange>,
    subject_id: Option<String>,
)
    ensures
        final(out)@.len() == old(out)@.len() + 1,
        appended(old(out)@, final(out)@),
        final(out)@.last().severity == severity,
        final(out)@.last().code@ == code@,
        final(out)@.last().message == message,
        final(out)@.last().path@ == path@,
        final(out)@.last().pointer == pointer,
        final(out)@.last().range == range,
        final(out)@.last().subject_id == subject_id,
        final(out)@.last().related@.len() == 0,
{
    out.push(Diagnostic {
        severity,
        code: owned(code),
        message,
        path: owned(path),
        pointer,
        range,
        subject_id,
        related: Vec::new(),
    });
}

/// Adds an error diagnostic without related locations.
pub fn error(
    out: &mut Vec<Diagnostic>,
    code: &str,
    message: String,
    path: &str,
    pointer: Option<String>,
    range: Option<SourceRange>,
    subject_id: Option<String>,
)
    ensures
        final(out)@.len() == old(out)@.len() + 1,
        appended(old(out)@, final(out)@),
        final(out)@.last().severity == Severity::Error,
        final(out)@.last().code@ == code@,
        final(out)@.last().path@ == path@,
        final(out)@.last().pointer == pointer,
        final(out)@.last().subject_id == subject_id,
        final(out)@.last().related@.len() == 0,
{
    emit(out, Severity::Error, code, message, path, pointer, range, subject_id);
}

/// Adds an error at `pointer` when `condition` holds; adds nothing otherwise.
pub fn error_if(
    out: &mut Vec<Diagnostic>,
    condition: bool,
    code: &str,
    message: String,
    path: &str,
    pointer: String,
    range: Option<SourceRange>,
    subject_id: Option<String>,
)
    ensures
        appended(old(out)@, final(out)@),
        added_findings(old(out)@, final(out)@) == finding_if(condition, error_at(code@, pointer@)),
        condition ==> final(out)@.len() == old(out)@.len() + 1 && final(out)@.last().path@ == path@,
        !condition ==> final(out)@ == old(out)@,
        forall|k: int| old(out)@.len() <= k < final(out)@.len() ==> (#[trigger] final(out)@[k]).related@.len() == 0,
{
    let ghost before = out@;
    if condition {
        error(out, code, message, path, Some(pointer), range, subject_id);
        proof { lemma_added_findings_one(before, out@); }
    } else {
        proof { lemma_added_findings_none(before); }
    }
}

/// Adds a warning at `pointer` when `condition` holds; adds nothing otherwise.
pub fn warning_if(
    out: &mut Vec<Diagnostic>,
    condition: bool,
    code: &str,
    message: String,
    path: &str,
    pointer: String,
    range: Option<SourceRange>,
    subject_id: Option<String>,
)
    ensures
        appended(old(out)@, final(out)@),
        added_findings(old(out)@, final(out)@) == finding_if(condition, warning_at(code@, pointer@)),
        condition ==> final(out)@.len() == old(out)@.len() + 1 && final(out)@.last().path@ == path@,
        !condition ==> final(out)@ == old(out)@,
{
    let ghost before = out@;
    if condition {
        emit(out, Severity::Warning, code, message, path, Some(pointer), range, subject_id);
        proof { lemma_added_findings_one(before, out@); }
    } else {
        proof { lemma_added_findings_none(before); }
    }
}

/// Adds a diagnostic with one related location.
pub fn emit_related(
    out: &mut Vec<Diagnostic>,
    code: &str,
    message: String,
    path: &str,
    pointer: Option<String>,
    range: Option<SourceRange>,
    subject_id: Option<String>,
    related: RelatedLocation,
)
    ensures
        final(out)@.len() == old(out)@.len() + 1,
        appended(old(out)@, final(out)@),
        final(out)@.last().severity == Severity::Error,
        final(out)@.last().code@ == code@,
        final(out)@.last().path@ == path@,
        final(out)@.last().pointer == pointer,
        final(out)@.last().related@.len() == 1,
        final(out)@.last().related@[0] == related,
        final(out)@.last().subject_id == subject_id,
        added_findings(old(out)@, final(out)@)
            == seq![(Severity::Error, code@, match pointer { Some(p) => Some(p@), None => None })],
{
    let ghost before = out@;
    let mut list: Vec<RelatedLocation> = Vec::new();
    list.push(related);
    out.push(Diagnostic {
        severity: Severity::Error,
        code: owned(code),
        message,
        path: owned(path),
        pointer,
        range,
        subject_id,
        related: list,
    });
    proof { lemma_added_findings_one(before, out@); }
}

/// `pointer/key` with `key` escaped as a JSON-pointer token.
pub fn child(pointer: &str, key: &str) -> (r: String)
    ensures
        r@ == pointer@ + seq!['/'] + crate::ids::spec_escape_pointer(key@),
{
    let escaped = escape_pointer(key);
    let r = cat3(pointer, "/", escaped.as_str());
    proof {
        reveal_strlit("/");
    }
    r
}

/// `pointer/key` with `key` inserted verbatim.
pub fn child_raw(pointer: &str, key: &str) -> (r: String)
    ensures
        r@ == pointer@ + seq!['/'] + key@,
{
    let r = cat3(pointer, "/", key);
    proof {
        reveal_strlit("/");
    }
    r
}

/// `pointer/index`.
pub fn child_index(pointer: &str, index: usize) -> (r: String)
    ensures
        r@ == pointer@ + seq!['/'] + crate::text::decimal(index as nat),
{
    let digits = usize_to_decimal(index);
    child_raw(pointer, digits.as_str())
}

/// Whether `value` is one of `names`.
pub fn one_of(value: &str, names: &[&str]) -> (r: bool)
    ensures
        r == exists|i: int| 0 <= i < names@.len() && (#[trigger] names@[i])@ == value@,
{
    let mut i: usize = 0;
    while i < names.len()
        invariant
            0 <= i <= names@.len(),
            forall|k: int| 0 <= k < i ==> (#[trigger] names@[k])@ != value@,
        decreases names@.len() - i,
    {
        if str_eq(names[i], value) {
            return true;
        }
        i += 1;
    }
    false
}

/// Whether some string of `values` equals `value`.
pub fn contains_string(values: &Vec<String>, value: &str) -> (r: bool)
    ensures
        r == exists|i: int| 0 <= i < values@.len() && (#[trigger] values@[i])@ == value@,
{
    let mut i: usize = 0;
    while i < values.len()
        invariant
            0 <= i <= values@.len(),
            forall|k: int| 0 <= k < i ==> (#[trigger] values@[k])@ != value@,
        decreases values@.len() - i,
    {
        if str_eq(values[i].as_str(), value) {
            return true;
        }
        i += 1;
    }
    false
}

/// Whether `s` begins with `prefix` (`str::starts_with`).
pub fn starts_with(s: &str, prefix: &str) -> (r: bool)
    ensures
        r == (prefix@.len() <= s@.len() && s@.subrange(0, prefix@.len() as int) == prefix@),
{
    let a = crate::text::chars_of(s);
    let b = crate::text::chars_of(prefix);
    if b.len() > a.len() {
        return false;
    }
    let mut i: usize = 0;
    while i < b.len()
        invariant
            0 <= i <= b@.len(),
            b@.len() <= a@.len(),
            forall|k: int| 0 <= k < i ==> a@[k] == b@[k],
        decreases b@.len() - i,
    {
        if a[i] != b[i] {
            proof { assert(s@.subrange(0, prefix@.len() as int)[i as int] != prefix@[i as int]); }
            return false;
        }
        i += 1;
    }
    proof { assert(s@.subrange(0, prefix@.len() as int) =~= prefix@); }
    true
}

/// The first definition recorded for `id`.
pub open spec fn lookup(defs: Seq<(String, Definition)>, id: Seq<char>) -> Option<Definition>
    decreases defs.len(),
{
    if defs.len() == 0 {
        None
    } else if defs[0].0@ == id {
        Some(defs[0].1)
    } else {
        lookup(defs.drop_first(), id)
    }
}

/// The kind of the first definition recorded for `id`.
pub open spec fn kind_in(defs: Seq<(String, Definition)>, id: Seq<char>) -> Option<Kind> {
    match lookup(defs, id) {
        Some(d) => Some(d.kind),
        None => None,
    }
}

/// The locations recorded for the first section named `name`.
pub open spec fn section_lookup(sections: Seq<(String, Vec<(String, String)>)>, name: Seq<char>) -> Option<Vec<(String, String)>>
    decreases sections.len(),
{
    if sections.len() == 0 {
        None
    } else if sections[0].0@ == name {
        Some(sections[0].1)
    } else {
        section_lookup(sections.drop_first(), name)
    }
}

/// A definition appended after the others is found only when no earlier one has its ID.
pub proof fn lemma_lookup_push(defs: Seq<(String, Definition)>, entry: (String, Definition), x: Seq<char>)
    ensures
        lookup(defs.push(entry), x) == if lookup(defs, x) is Some { lookup(defs, x) }
            else if entry.0@ == x { Some(entry.1) } else { None },
    decreases defs.len(),
{
    if defs.len() > 0 {
        assert(defs.push(entry)[0] == defs[0]);
        assert(defs.push(entry).drop_first() =~= defs.drop_first().push(entry));
        lemma_lookup_push(defs.drop_first(), entry, x);
    } else {
        assert(defs.push(entry)[0] == entry);
        assert(defs.push(entry).drop_first() =~= Seq::<(String, Definition)>::empty());
        assert(lookup(defs.push(entry).drop_first(), x) is None);
    }
}

/// `lookup` finds `id` exactly when some entry records it.
pub proof fn lemma_lookup_some(defs: Seq<(String, Definition)>, id: Seq<char>)
    ensures
        lookup(defs, id) is Some <==> exists|i: int| 0 <= i < defs.len() && (#[trigger] defs[i]).0@ == id,
    decreases defs.len(),
{
    if defs.len() > 0 {
        lemma_lookup_some(defs.drop_first(), id);
        if defs[0].0@ != id {
            if exists|i: int| 0 <= i < defs.len() && (#[trigger] defs[i]).0@ == id {
                let i = choose|i: int| 0 <= i < defs.len() && (#[trigger] defs[i]).0@ == id;
                assert(defs.drop_first()[i - 1] == defs[i]);
            }
            if exists|i: int| 0 <= i < defs.drop_first().len() && (#[trigger] defs.drop_first()[i]).0@ == id {
                let i = choose|i: int| 0 <= i < defs.drop_first().len() && (#[trigger] defs.drop_first()[i]).0@ == id;
                assert(defs[i + 1] == defs.drop_first()[i]);
            }
        }
    }
}

impl Context {
    /// Story format 3.
    pub fn is_format_3(&self) -> (r: bool)
        ensures
            r == crate::version::spec_is_format_3_from(self.format_version, 0),
    {
        is_format_3_from(&self.format_version, 0)
    }

    /// Story format 3 from minor version `minor` on.
    pub fn is_format_3_from(&self, minor: u64) -> (r: bool)
        ensures
            r == crate::version::spec_is_format_3_from(self.format_version, minor),
    {
        is_format_3_from(&self.format_version, minor)
    }

    /// The definition of `id`, if any.
    pub fn definition(&self, id: &str) -> (r: Option<&Definition>)
        ensures
            match r {
                Some(d) => lookup(self.definitions@, id@) == Some(*d),
                None => lookup(self.definitions@, id@) is None,
            },
            r is Some <==> exists|i: int| 0 <= i < self.definitions@.len() && (#[trigger] self.definitions@[i]).0@ == id@,
    {
        proof { lemma_lookup_some(self.definitions@, id@); }
        let mut i: usize = 0;
        proof { assert(self.definitions@.subrange(0, self.definitions@.len() as int) =~= self.definitions@); }
        while i < self.definitions.len()
            invariant
                0 <= i <= self.definitions@.len(),
                lookup(self.definitions@, id@)
                    == lookup(self.definitions@.subrange(i as int, self.definitions@.len() as int), id@),
            decreases self.definitions@.len() - i,
        {
            let ghost rest = self.definitions@.subrange(i as int, self.definitions@.len() as int);
            if str_eq(self.definitions[i].0.as_str(), id) {
                return Some(&self.definitions[i].1);
            }
            proof {
                assert(rest.drop_first() =~= self.definitions@.subrange(i + 1, self.definitions@.len() as int));
            }
            i += 1;
        }
        None
    }

    /// The kind of the object that `id` names, if it is defined.
    pub fn kind_of(&self, id: &str) -> (r: Option<Kind>)
        ensures
            r == kind_in(self.definitions@, id@),
            r is None <==> forall|i: int| 0 <= i < self.definitions@.len() ==> (#[trigger] self.definitions@[i]).0@ != id@,
    {
        match self.definition(id) {
            Some(d) => Some(d.kind),
            None => None,
        }
    }

    /// The locations of top-level section `name`, if any file defines it.
    pub fn section(&self, name: &str) -> (r: Option<&Vec<(String, String)>>)
        ensures
            match r {
                Some(v) => section_lookup(self.sections@, name@) == Some(*v),
                None => section_lookup(self.sections@, name@) is None,
            },
    {
        let mut i: usize = 0;
        proof { assert(self.sections@.subrange(0, self.sections@.len() as int) =~= self.sections@); }
        while i < self.sections.len()
            invariant
                0 <= i <= self.sections@.len(),
                section_lookup(self.sections@, name@)
                    == section_lookup(self.sections@.subrange(i as int, self.sections@.len() as int), name@),
            decreases self.sections@.len() - i,
        {
            let ghost rest = self.sections@.subrange(i as int, self.sections@.len() as int);
            if str_eq(self.sections[i].0.as_str(), name) {
                return Some(&self.sections[i].1);
            }
            proof {
                assert(rest.drop_first() =~= self.sections@.subrange(i + 1, self.sections@.len() as int));
            }
            i += 1;
        }
        None
    }

    /// Records the first definition of `id`; returns a copy of the earlier definition when
    /// `id` was already defined (and leaves it in place).
    pub fn define(&mut self, id: &str, definition: Definition) -> (r: Option<Definition>)
        ensures
            final(self).parsed == old(self).parsed,
            final(self).sections == old(self).sections,
            final(self).format_version == old(self).format_version,
            final(self).format_compatible == old(self).format_compatible,
            final(self).feature_compatible == old(self).feature_compatible,
            final(self).features == old(self).features,
            final(self).supported_features == old(self).supported_features,
            match r {
                Some(_) => final(self).definitions == old(self).definitions,
                None => final(self).definitions@.len() == old(self).definitions@.len() + 1
                    && final(self).definitions@.drop_last() == old(self).definitions@
                    && final(self).definitions@.last().0@ == id@
                    && final(self).definitions@.last().1 == definition,
            },
            r is Some <==> lookup(old(self).definitions@, id@) is Some,
            r matches Some(d) ==> (lookup(old(self).definitions@, id@) matches Some(e)
                && d.path@ == e.path@ && d.pointer@ == e.pointer@),
    {
        match self.definition(id) {
            Some(first) => Some(first.copy()),
            None => {
                self.definitions.push((owned(id), definition));
                None
            },
        }
    }
}

/// The related location that points back at a first definition.
pub fn first_defined_here(first: &Definition) -> (r: RelatedLocation)
    ensures
        r.path@ == first.path@,
        r.pointer matches Some(p) && p@ == first.pointer@ + "/id"@,
{
    proof { reveal_strlit("/id"); }
    RelatedLocation {
        message: owned("first defined here"),
        path: first.path.clone(),
        pointer: Some(cat(first.pointer.as_str(), "/id")),
        range: first.range,
    }
}

} // verus!
