//! ID references anywhere in a document, duplicate ID lists, and the physical deck.

use vstd::prelude::*;
use crate::ids::{looks_like_id, spec_escape_pointer, spec_looks_like_id};
use crate::kinds::Kind;
use crate::locate::locate_scalar;
use crate::model::{Context, Definition, Finding, ParsedFile, added_findings, appended, child, child_index, contains_string,
    emit_related, error, error_at, error_if, finding_if, findings_over, lemma_added_findings_none, lemma_added_findings_trans,
    lemma_findings_indexed_step, lemma_findings_over_step, lemma_take_all, lookup, kind_in, section_lookup, findings_indexed};
use crate::pointers::{expected_kind, is_blankable_reference_pointer, is_reference_pointer, kind_set_members,
    spec_expected_kind, spec_is_blankable_reference_pointer};
use crate::report::{Diagnostic, RelatedLocation, SourceRange};
use crate::text::{blank, cat, cat3, cat5, decimal, has_text, i64_to_decimal, is_blank, nonblank, owned, str_eq};
use crate::yaml::{YamlValue, get, is_nonempty_string_sequence, map_get, spec_as_mapping, spec_as_sequence, spec_as_str,
    spec_is_nonempty_string_sequence, spec_string_field, string_field};

verus! {

/// One string found at a reference position.
pub struct Reference {
    pub id: String,
    pub pointer: String,
}

/// A string at `pointer` under `key` is a reference: not the value of an `id` key, not a
/// blank string where a blank is allowed, and either ID-shaped or at a typed reference
/// position.
pub open spec fn is_reference_at(id: Seq<char>, pointer: Seq<char>, key: Option<Seq<char>>) -> bool {
    &&& key != Some("id"@)
    &&& !(is_blank(id) && spec_is_blankable_reference_pointer(pointer))
    &&& (spec_looks_like_id(id) || spec_expected_kind(pointer) is Some)
}

/// The `(id, pointer)` of every reference inside `v`, in document order.
pub open spec fn references_in(v: YamlValue, pointer: Seq<char>, key: Option<Seq<char>>) -> Seq<(Seq<char>, Seq<char>)>
    decreases v, 0nat,
{
    match v {
        YamlValue::String(id) => if is_reference_at(id@, pointer, key) { seq![(id@, pointer)] } else { Seq::empty() },
        YamlValue::Sequence(values) => references_in_items(values@, pointer, key),
        YamlValue::Mapping(entries) => references_in_entries(entries@, pointer),
        YamlValue::Tagged(_, inner) => references_in(*inner, pointer, key),
        _ => Seq::empty(),
    }
}

/// The references inside the items of a sequence at `pointer`.
pub open spec fn references_in_items(items: Seq<YamlValue>, pointer: Seq<char>, key: Option<Seq<char>>) -> Seq<(Seq<char>, Seq<char>)>
    decreases items, items.len(),
{
    if items.len() == 0 {
        Seq::empty()
    } else {
        references_in_items(items.drop_last(), pointer, key)
            + references_in(items.last(), pointer + seq!['/'] + decimal((items.len() - 1) as nat), key)
    }
}

/// The references inside the values of a mapping at `pointer`, each under its string key.
pub open spec fn references_in_entries(entries: Seq<(YamlValue, YamlValue)>, pointer: Seq<char>) -> Seq<(Seq<char>, Seq<char>)>
    decreases entries, entries.len(),
{
    if entries.len() == 0 {
        Seq::empty()
    } else {
        references_in_entries(entries.drop_last(), pointer) + match spec_as_str(entries.last().0) {
            Some(k) => references_in(entries.last().1, pointer + seq!['/'] + spec_escape_pointer(k), Some(k)),
            None => Seq::empty(),
        }
    }
}

/// The `(id, pointer)` of a list of references.
pub open spec fn reference_views(references: Seq<Reference>) -> Seq<(Seq<char>, Seq<char>)> {
    references.map_values(|r: Reference| (r.id@, r.pointer@))
}

/// Collects every string that is a reference: an ID-shaped string,
/// or any string at a typed reference position, except values of `id` keys and blank
/// trigger locations.
pub fn collect_references(value: &YamlValue, pointer: &str, key: Option<&str>, references: &mut Vec<Reference>)
    ensures
        reference_views(final(references)@) == reference_views(old(references)@)
            + references_in(*value, pointer@, match key { Some(k) => Some(k@), None => None }),
    decreases value,
{
    let ghost key_view = match key { Some(k) => Some(k@), None => None };
    let ghost start = reference_views(references@);
    match value {
        YamlValue::String(id) => {
            let is_id_key = match key { Some(k) => str_eq(k, "id"), None => false };
            if !is_id_key && !(blank(id.as_str()) && is_blankable_reference_pointer(pointer))
                && (looks_like_id(id.as_str()) || is_reference_pointer(pointer)) {
                references.push(Reference { id: id.clone(), pointer: owned(pointer) });
                proof { assert(reference_views(references@) =~= start + seq![(id@, pointer@)]); }
            } else {
                proof { assert(start + Seq::<(Seq<char>, Seq<char>)>::empty() =~= start); }
            }
        },
        YamlValue::Sequence(values) => {
            let mut i: usize = 0;
            proof { assert(start + Seq::<(Seq<char>, Seq<char>)>::empty() =~= start); }
            while i < values.len()
                invariant
                    0 <= i <= values@.len(),
                    reference_views(references@) == start + references_in_items(values@.take(i as int), pointer@, key_view),
                decreases values@.len() - i,
            {
                proof {
                    assert(decreases_to!(values => values@[i as int]));
                    assert(values@.take(i + 1).drop_last() =~= values@.take(i as int));
                    assert(values@.take(i + 1).last() == values@[i as int]);
                }
                let ghost before = reference_views(references@);
                let item_pointer = child_index(pointer, i);
                collect_references(&values[i], item_pointer.as_str(), key, references);
                proof {
                    assert(start + references_in_items(values@.take(i + 1), pointer@, key_view)
                        =~= before + references_in(values@[i as int], item_pointer@, key_view));
                }
                i += 1;
            }
            proof { assert(values@.take(values@.len() as int) =~= values@); }
        },
        YamlValue::Mapping(entries) => {
            let mut i: usize = 0;
            proof { assert(start + Seq::<(Seq<char>, Seq<char>)>::empty() =~= start); }
            while i < entries.len()
                invariant
                    0 <= i <= entries@.len(),
                    reference_views(references@) == start + references_in_entries(entries@.take(i as int), pointer@),
                decreases entries@.len() - i,
            {
                proof {
                    assert(decreases_to!(entries => entries@[i as int]));
                    assert(decreases_to!(entries@[i as int] => entries@[i as int].1));
                    assert(entries@.take(i + 1).drop_last() =~= entries@.take(i as int));
                    assert(entries@.take(i + 1).last() == entries@[i as int]);
                }
                let ghost before = reference_views(references@);
                if let Some(map_key) = entries[i].0.as_str() {
                    let entry_pointer = child(pointer, map_key);
                    collect_references(&entries[i].1, entry_pointer.as_str(), Some(map_key), references);
                    proof {
                        assert(start + references_in_entries(entries@.take(i + 1), pointer@)
                            =~= before + references_in(entries@[i as int].1, entry_pointer@, Some(map_key@)));
                    }
                } else {
                    proof {
                        assert(start + references_in_entries(entries@.take(i + 1), pointer@) =~= before);
                    }
                }
                i += 1;
            }
            proof { assert(entries@.take(entries@.len() as int) =~= entries@); }
        },
        YamlValue::Tagged(_, inner) => {
            collect_references(inner, pointer, key, references);
        },
        _ => {
            proof { assert(start + Seq::<(Seq<char>, Seq<char>)>::empty() =~= start); }
        },
    }
}

/// The references of a document: those inside each root value, under its key.
pub open spec fn document_references(root: Seq<(YamlValue, YamlValue)>) -> Seq<(Seq<char>, Seq<char>)> {
    references_in_entries(root, Seq::empty())
}

/// The finding for one reference: it must name a defined ID, of a kind its position
/// accepts.
pub open spec fn reference_findings(defs: Seq<(String, Definition)>, reference: (Seq<char>, Seq<char>)) -> Seq<Finding> {
    match lookup(defs, reference.0) {
        None => seq![error_at("reference.unknown"@, reference.1)],
        Some(d) => match spec_expected_kind(reference.1) {
            Some(kinds) => finding_if(!kind_set_members(kinds).contains(d.kind), error_at("reference.wrong_type"@, reference.1)),
            None => Seq::empty(),
        },
    }
}

/// A container position (a pointer whose last part is `container`, such as an entity's
/// `initial/container`) holds a setting, a character or an entity: a reference there to a
/// defined object has no finding exactly when the object is of one of those kinds, and is
/// of the wrong type otherwise.
pub proof fn law_containers_are_settings_characters_or_entities(defs: Seq<(String, Definition)>, id: Seq<char>,
    pointer: Seq<char>)
    requires
        crate::pointers::pointer_field(pointer) == "container"@,
        lookup(defs, id) is Some,
    ensures
        ({
            let kind = lookup(defs, id)->0.kind;
            &&& reference_findings(defs, (id, pointer)).len() == 0
                <==> (kind == Kind::Setting || kind == Kind::Character || kind == Kind::Entity)
            &&& reference_findings(defs, (id, pointer)).len() > 0
                ==> reference_findings(defs, (id, pointer)) == seq![error_at("reference.wrong_type"@, pointer)]
        }),
{
    reveal_strlit("container");
    reveal_strlit("victim");
    reveal_strlit("culprit");
    reveal_strlit("testimony_source");
    reveal_strlit("weapon");
    reveal_strlit("parent");
    reveal_strlit("from");
    reveal_strlit("to");
    reveal_strlit("location");
    assert("container"@.len() == 9);
    assert("victim"@.len() == 6 && "culprit"@.len() == 7 && "testimony_source"@.len() == 16 && "weapon"@.len() == 6);
    assert("parent"@.len() == 6 && "from"@.len() == 4 && "to"@.len() == 2 && "location"@.len() == 8);
    assert(crate::pointers::spec_expected_kind(pointer) == Some(crate::pointers::KindSet::Containers));
    let members = kind_set_members(crate::pointers::KindSet::Containers);
    let kind = lookup(defs, id)->0.kind;
    if kind == Kind::Setting { assert(members[0] == kind); }
    if kind == Kind::Character { assert(members[1] == kind); }
    if kind == Kind::Entity { assert(members[2] == kind); }
}

/// The reference findings of every file.
pub open spec fn references_findings(defs: Seq<(String, Definition)>, parsed: Seq<ParsedFile>) -> Seq<Finding> {
    findings_over(parsed, |f: ParsedFile| findings_over(document_references(f.root@),
        |r: (Seq<char>, Seq<char>)| reference_findings(defs, r)))
}

/// The references of one document.
fn document_reference_list(root: &Vec<(YamlValue, YamlValue)>) -> (r: Vec<Reference>)
    ensures
        reference_views(r@) == document_references(root@),
{
    let mut references: Vec<Reference> = Vec::new();
    let mut k: usize = 0;
    proof { assert(reference_views(references@) =~= Seq::<(Seq<char>, Seq<char>)>::empty()); }
    while k < root.len()
        invariant
            0 <= k <= root@.len(),
            reference_views(references@) == references_in_entries(root@.take(k as int), Seq::empty()),
        decreases root@.len() - k,
    {
        proof {
            assert(root@.take(k + 1).drop_last() =~= root@.take(k as int));
            assert(root@.take(k + 1).last() == root@[k as int]);
        }
        let ghost before = reference_views(references@);
        if let Some(map_key) = root[k].0.as_str() {
            let entry_pointer = child("", map_key);
            proof {
                reveal_strlit("");
                assert(entry_pointer@ =~= Seq::<char>::empty() + seq!['/'] + spec_escape_pointer(map_key@));
            }
            collect_references(&root[k].1, entry_pointer.as_str(), Some(map_key), &mut references);
        }
        k += 1;
    }
    proof { assert(root@.take(root@.len() as int) =~= root@); }
    references
}

/// Every reference must name a defined ID of an accepted kind.
pub fn validate_references(cx: &Context, out: &mut Vec<Diagnostic>)
    ensures
        appended(old(out)@, final(out)@),
        added_findings(old(out)@, final(out)@) == references_findings(cx.definitions@, cx.parsed@),
{
    let mut f: usize = 0;
    proof { lemma_added_findings_none(out@); }
    while f < cx.parsed.len()
        invariant
            0 <= f <= cx.parsed@.len(),
            appended(old(out)@, out@),
            added_findings(old(out)@, out@) == findings_over(cx.parsed@.take(f as int), |f: ParsedFile|
                findings_over(document_references(f.root@), |r: (Seq<char>, Seq<char>)| reference_findings(cx.definitions@, r))),
        decreases cx.parsed@.len() - f,
    {
        let file = &cx.parsed[f];
        let references = document_reference_list(&file.root);
        let ghost refs = reference_views(references@);
        let ghost s0 = out@;
        let mut r: usize = 0;
        proof { lemma_added_findings_none(s0); }
        while r < references.len()
            invariant
                0 <= r <= references@.len(),
                refs == reference_views(references@),
                appended(s0, out@),
                added_findings(s0, out@) == findings_over(refs.take(r as int),
                    |r: (Seq<char>, Seq<char>)| reference_findings(cx.definitions@, r)),
            decreases references@.len() - r,
        {
            let reference = &references[r];
            let id = reference.id.as_str();
            let ghost b = out@;
            proof { assert(refs[r as int] == (reference.id@, reference.pointer@)); }
            match cx.definition(id) {
                None => {
                    error_if(out, true, "reference.unknown", cat3("`", id, "` does not refer to a defined ID"), file.path.as_str(),
                        reference.pointer.clone(), locate_scalar(file.source.as_str(), id), Some(owned(id)));
                },
                Some(definition) => {
                    match expected_kind(reference.pointer.as_str()) {
                        Some(kinds) => {
                            let wrong = !kinds.contains(definition.kind);
                            let kind_name = definition.kind.name();
                            let expected = kinds.describe();
                            error_if(out, wrong, "reference.wrong_type",
                                cat5("`", id, "` refers to a ", kind_name.as_str(), cat("; expected ", expected.as_str()).as_str()),
                                file.path.as_str(), reference.pointer.clone(), locate_scalar(file.source.as_str(), id),
                                Some(owned(id)));
                        },
                        None => {
                            proof { lemma_added_findings_none(b); }
                        },
                    }
                },
            }
            proof {
                lemma_added_findings_trans(s0, b, out@);
                lemma_findings_over_step(refs, |r: (Seq<char>, Seq<char>)| reference_findings(cx.definitions@, r), r as int);
            }
            r += 1;
        }
        proof {
            lemma_take_all(refs);
            lemma_added_findings_trans(old(out)@, s0, out@);
            lemma_findings_over_step(cx.parsed@, |f: ParsedFile| findings_over(document_references(f.root@),
                |r: (Seq<char>, Seq<char>)| reference_findings(cx.definitions@, r)), f as int);
        }
        f += 1;
    }
    proof { lemma_take_all(cx.parsed@); }
}

/// Every node of `values` is a string.
pub open spec fn all_strings(values: Seq<YamlValue>) -> bool {
    forall|i: int| 0 <= i < values.len() ==> (#[trigger] spec_as_str(values[i])) is Some
}

/// The strings of a list of string nodes.
pub open spec fn string_items(values: Seq<YamlValue>) -> Seq<Seq<char>> {
    values.map_values(|v: YamlValue| spec_as_str(v)->0)
}

/// `(pointer/k, id)` for every entry `k` of `ids` that repeats an earlier one.
pub open spec fn repeated_ids(ids: Seq<Seq<char>>, pointer: Seq<char>) -> Seq<(Seq<char>, Seq<char>)>
    decreases ids.len(),
{
    if ids.len() == 0 {
        Seq::empty()
    } else {
        repeated_ids(ids.drop_last(), pointer) + if ids.drop_last().contains(ids.last()) {
            seq![(pointer + seq!['/'] + decimal((ids.len() - 1) as nat), ids.last())]
        } else {
            Seq::empty()
        }
    }
}

/// A sequence of strings that is a typed reference list or holds only ID-shaped strings.
pub open spec fn is_id_list(values: Seq<YamlValue>, pointer: Seq<char>) -> bool {
    &&& all_strings(values)
    &&& (spec_expected_kind(pointer + seq!['/'] + decimal(0)) is Some
        || forall|i: int| 0 <= i < values.len() ==> spec_looks_like_id(#[trigger] spec_as_str(values[i])->0))
}

/// `(pointer, id)` of every repeated ID in every ID list inside `v`.
pub open spec fn duplicates_in(v: YamlValue, pointer: Seq<char>) -> Seq<(Seq<char>, Seq<char>)>
    decreases v, 0nat,
{
    match v {
        YamlValue::Sequence(values) =>
            (if is_id_list(values@, pointer) { repeated_ids(string_items(values@), pointer) } else { Seq::empty() })
            + duplicates_in_items(values@, pointer),
        YamlValue::Mapping(entries) => duplicates_in_entries(entries@, pointer),
        YamlValue::Tagged(_, inner) => duplicates_in(*inner, pointer),
        _ => Seq::empty(),
    }
}

/// The duplicates inside the items of a sequence at `pointer`.
pub open spec fn duplicates_in_items(items: Seq<YamlValue>, pointer: Seq<char>) -> Seq<(Seq<char>, Seq<char>)>
    decreases items, items.len(),
{
    if items.len() == 0 {
        Seq::empty()
    } else {
        duplicates_in_items(items.drop_last(), pointer)
            + duplicates_in(items.last(), pointer + seq!['/'] + decimal((items.len() - 1) as nat))
    }
}

/// The duplicates inside the values of a mapping at `pointer`.
pub open spec fn duplicates_in_entries(entries: Seq<(YamlValue, YamlValue)>, pointer: Seq<char>) -> Seq<(Seq<char>, Seq<char>)>
    decreases entries, entries.len(),
{
    if entries.len() == 0 {
        Seq::empty()
    } else {
        duplicates_in_entries(entries.drop_last(), pointer) + match spec_as_str(entries.last().0) {
            Some(k) => duplicates_in(entries.last().1, pointer + seq!['/'] + spec_escape_pointer(k)),
            None => Seq::empty(),
        }
    }
}

/// The `(pointer, id)` views of a list of duplicates.
pub open spec fn pair_views(pairs: Seq<(String, String)>) -> Seq<(Seq<char>, Seq<char>)> {
    pairs.map_values(|p: (String, String)| (p.0@, p.1@))
}

/// The repeated IDs of one ID list, appended to `duplicates`.
fn push_repeated_ids(ids: &Vec<&str>, pointer: &str, duplicates: &mut Vec<(String, String)>)
    ensures
        pair_views(final(duplicates)@) == pair_views(old(duplicates)@)
            + repeated_ids(ids@.map_values(|s: &str| s@), pointer@),
{
    let ghost views = ids@.map_values(|s: &str| s@);
    let ghost start = pair_views(duplicates@);
    let mut seen: Vec<String> = Vec::new();
    let mut k: usize = 0;
    proof { assert(start + repeated_ids(views.take(0), pointer@) =~= start); }
    while k < ids.len()
        invariant
            0 <= k <= ids@.len(),
            views == ids@.map_values(|s: &str| s@),
            pair_views(duplicates@) == start + repeated_ids(views.take(k as int), pointer@),
            forall|x: Seq<char>| #![trigger views.take(k as int).contains(x)]
                (exists|m: int| 0 <= m < seen@.len() && (#[trigger] seen@[m])@ == x) <==> views.take(k as int).contains(x),
        decreases ids@.len() - k,
    {
        let ghost old_seen = seen@;
        let ghost before = pair_views(duplicates@);
        proof {
            assert(views.take(k + 1).drop_last() =~= views.take(k as int));
            assert(views.take(k + 1).last() == ids@[k as int]@);
        }
        if contains_string(&seen, ids[k]) {
            duplicates.push((child_index(pointer, k), owned(ids[k])));
            proof {
                assert(views.take(k as int).contains(ids@[k as int]@));
                assert(pair_views(duplicates@) =~= before + seq![(pointer@ + seq!['/'] + decimal(k as nat), ids@[k as int]@)]);
            }
        } else {
            seen.push(owned(ids[k]));
            proof {
                assert(!views.take(k as int).contains(ids@[k as int]@));
                assert(pair_views(duplicates@) =~= before + Seq::<(Seq<char>, Seq<char>)>::empty());
            }
        }
        proof {
            assert forall|x: Seq<char>| #![trigger views.take(k + 1).contains(x)]
                (exists|m: int| 0 <= m < seen@.len() && (#[trigger] seen@[m])@ == x) <==> views.take(k + 1).contains(x) by {
                if views.take(k + 1).contains(x) {
                    let j = choose|j: int| 0 <= j < k + 1 && #[trigger] views.take(k + 1)[j] == x;
                    if j < k {
                        assert(views.take(k as int)[j] == x);
                        assert(views.take(k as int).contains(x));
                        let m = choose|m: int| 0 <= m < old_seen.len() && (#[trigger] old_seen[m])@ == x;
                        assert(seen@[m] == old_seen[m]);
                    } else if views.take(k as int).contains(x) {
                        let m = choose|m: int| 0 <= m < old_seen.len() && (#[trigger] old_seen[m])@ == x;
                        assert(seen@[m] == old_seen[m]);
                    } else {
                        assert(seen@[seen@.len() - 1]@ == x);
                    }
                }
                if exists|m: int| 0 <= m < seen@.len() && (#[trigger] seen@[m])@ == x {
                    let m = choose|m: int| 0 <= m < seen@.len() && (#[trigger] seen@[m])@ == x;
                    if m < old_seen.len() {
                        assert(old_seen[m] == seen@[m]);
                        assert(views.take(k as int).contains(x));
                        let j = choose|j: int| 0 <= j < k && #[trigger] views.take(k as int)[j] == x;
                        assert(views.take(k + 1)[j] == x);
                    } else {
                        assert(views.take(k + 1)[k as int] == x);
                    }
                }
            }
        }
        k += 1;
    }
    proof { assert(views.take(ids@.len() as int) =~= views); }
}

/// Collects `(pointer, id)` for every repeated ID in an ID list:
/// a sequence of strings that is a typed reference list or holds only ID-shaped strings.
pub fn collect_duplicate_id_lists(value: &YamlValue, pointer: &str, duplicates: &mut Vec<(String, String)>)
    ensures
        pair_views(final(duplicates)@) == pair_views(old(duplicates)@) + duplicates_in(*value, pointer@),
    decreases value,
{
    let ghost start = pair_views(duplicates@);
    match value {
        YamlValue::Sequence(values) => {
            let mut ids: Vec<&str> = Vec::new();
            let mut all_ids = true;
            let mut i: usize = 0;
            while i < values.len()
                invariant
                    0 <= i <= values@.len(),
                    ids@.len() <= i,
                    (ids@.len() == i) == all_strings(values@.take(i as int)),
                    ids@.len() == i ==> ids@.map_values(|s: &str| s@) == string_items(values@.take(i as int)),
                    ids@.len() == i ==> (all_ids == forall|m: int| 0 <= m < i
                        ==> spec_looks_like_id(#[trigger] spec_as_str(values@[m])->0)),
                decreases values@.len() - i,
            {
                let ghost was_full = ids@.len() == i;
                let ghost old_ids = ids@;
                if let Some(s) = values[i].as_str() {
                    if !looks_like_id(s) {
                        all_ids = false;
                    }
                    ids.push(s);
                    proof {
                        assert(spec_as_str(values@[i as int]) == Some(s@));
                        assert(ids@.map_values(|s: &str| s@) =~= old_ids.map_values(|s: &str| s@).push(s@));
                    }
                }
                proof {
                    if ids@.len() == i + 1 {
                        assert(was_full);
                        assert(values@.take(i + 1) =~= values@.take(i as int).push(values@[i as int]));
                        assert(string_items(values@.take(i + 1)) =~= string_items(values@.take(i as int)).push(spec_as_str(values@[i as int])->0));
                        assert(ids@.map_values(|s: &str| s@) =~= string_items(values@.take(i + 1)));
                        assert forall|m: int| 0 <= m < i + 1 implies (#[trigger] spec_as_str(values@.take(i + 1)[m])) is Some by {
                            if m < i {
                                assert(values@.take(i as int)[m] == values@.take(i + 1)[m]);
                            }
                        }
                    } else {
                        if all_strings(values@.take(i + 1)) {
                            assert(spec_as_str(values@.take(i + 1)[i as int]) is Some);
                            if was_full {
                                assert(values@.take(i + 1)[i as int] == values@[i as int]);
                            } else {
                                assert forall|m: int| 0 <= m < i implies (#[trigger] spec_as_str(values@.take(i as int)[m])) is Some by {
                                    assert(values@.take(i as int)[m] == values@.take(i + 1)[m]);
                                }
                            }
                        }
                    }
                }
                i += 1;
            }
            proof { assert(values@.take(values@.len() as int) =~= values@); }
            let first = child_index(pointer, 0);
            let reference_list = is_reference_pointer(first.as_str());
            let ghost mid = pair_views(duplicates@);
            if ids.len() == values.len() && (reference_list || all_ids) {
                push_repeated_ids(&ids, pointer, duplicates);
                proof { assert(is_id_list(values@, pointer@)); }
            } else {
                proof {
                    assert(!is_id_list(values@, pointer@));
                    assert(mid + Seq::<(Seq<char>, Seq<char>)>::empty() =~= mid);
                }
            }
            let ghost mid2 = pair_views(duplicates@);
            let mut j: usize = 0;
            proof { assert(mid2 + duplicates_in_items(values@.take(0), pointer@) =~= mid2); }
            while j < values.len()
                invariant
                    0 <= j <= values@.len(),
                    pair_views(duplicates@) == mid2 + duplicates_in_items(values@.take(j as int), pointer@),
                decreases values@.len() - j,
            {
                proof {
                    assert(decreases_to!(values => values@[j as int]));
                    assert(values@.take(j + 1).drop_last() =~= values@.take(j as int));
                    assert(values@.take(j + 1).last() == values@[j as int]);
                }
                let ghost before = pair_views(duplicates@);
                let item_pointer = child_index(pointer, j);
                collect_duplicate_id_lists(&values[j], item_pointer.as_str(), duplicates);
                proof {
                    assert(mid2 + duplicates_in_items(values@.take(j + 1), pointer@)
                        =~= before + duplicates_in(values@[j as int], item_pointer@));
                }
                j += 1;
            }
            proof {
                assert(values@.take(values@.len() as int) =~= values@);
                assert(pair_views(duplicates@) =~= start + duplicates_in(*value, pointer@));
            }
        },
        YamlValue::Mapping(entries) => {
            let mut i: usize = 0;
            proof { assert(start + Seq::<(Seq<char>, Seq<char>)>::empty() =~= start); }
            while i < entries.len()
                invariant
                    0 <= i <= entries@.len(),
                    pair_views(duplicates@) == start + duplicates_in_entries(entries@.take(i as int), pointer@),
                decreases entries@.len() - i,
            {
                proof {
                    assert(decreases_to!(entries => entries@[i as int]));
                    assert(decreases_to!(entries@[i as int] => entries@[i as int].1));
                    assert(entries@.take(i + 1).drop_last() =~= entries@.take(i as int));
                    assert(entries@.take(i + 1).last() == entries@[i as int]);
                }
                let ghost before = pair_views(duplicates@);
                if let Some(key) = entries[i].0.as_str() {
                    let entry_pointer = child(pointer, key);
                    collect_duplicate_id_lists(&entries[i].1, entry_pointer.as_str(), duplicates);
                    proof {
                        assert(start + duplicates_in_entries(entries@.take(i + 1), pointer@)
                            =~= before + duplicates_in(entries@[i as int].1, entry_pointer@));
                    }
                } else {
                    proof { assert(start + duplicates_in_entries(entries@.take(i + 1), pointer@) =~= before); }
                }
                i += 1;
            }
            proof { assert(entries@.take(entries@.len() as int) =~= entries@); }
        },
        YamlValue::Tagged(_, inner) => {
            collect_duplicate_id_lists(inner, pointer, duplicates);
        },
        _ => {
            proof { assert(start + Seq::<(Seq<char>, Seq<char>)>::empty() =~= start); }
        },
    }
}

/// The duplicates of a document: those inside each root value, under its key.
pub open spec fn document_duplicates(root: Seq<(YamlValue, YamlValue)>) -> Seq<(Seq<char>, Seq<char>)> {
    duplicates_in_entries(root, Seq::empty())
}

/// The duplicate-ID findings of every file.
pub open spec fn duplicate_list_findings(parsed: Seq<ParsedFile>) -> Seq<Finding> {
    findings_over(parsed, |f: ParsedFile| findings_over(document_duplicates(f.root@),
        |d: (Seq<char>, Seq<char>)| seq![error_at("list.duplicate_reference"@, d.0)]))
}

/// The duplicates of one document.
fn document_duplicate_list(root: &Vec<(YamlValue, YamlValue)>) -> (r: Vec<(String, String)>)
    ensures
        pair_views(r@) == document_duplicates(root@),
{
    let mut duplicates: Vec<(String, String)> = Vec::new();
    let mut k: usize = 0;
    proof { assert(pair_views(duplicates@) =~= Seq::<(Seq<char>, Seq<char>)>::empty()); }
    while k < root.len()
        invariant
            0 <= k <= root@.len(),
            pair_views(duplicates@) == duplicates_in_entries(root@.take(k as int), Seq::empty()),
        decreases root@.len() - k,
    {
        proof {
            assert(root@.take(k + 1).drop_last() =~= root@.take(k as int));
            assert(root@.take(k + 1).last() == root@[k as int]);
        }
        if let Some(key) = root[k].0.as_str() {
            let entry_pointer = child("", key);
            proof {
                reveal_strlit("");
                assert(entry_pointer@ =~= Seq::<char>::empty() + seq!['/'] + spec_escape_pointer(key@));
            }
            collect_duplicate_id_lists(&root[k].1, entry_pointer.as_str(), &mut duplicates);
        }
        k += 1;
    }
    proof { assert(root@.take(root@.len() as int) =~= root@); }
    duplicates
}

/// An ID may occur only once in an ID list.
pub fn validate_duplicate_lists(cx: &Context, out: &mut Vec<Diagnostic>)
    ensures
        appended(old(out)@, final(out)@),
        added_findings(old(out)@, final(out)@) == duplicate_list_findings(cx.parsed@),
{
    let mut f: usize = 0;
    proof { lemma_added_findings_none(out@); }
    while f < cx.parsed.len()
        invariant
            0 <= f <= cx.parsed@.len(),
            appended(old(out)@, out@),
            added_findings(old(out)@, out@) == findings_over(cx.parsed@.take(f as int), |f: ParsedFile|
                findings_over(document_duplicates(f.root@), |d: (Seq<char>, Seq<char>)| seq![error_at("list.duplicate_reference"@, d.0)])),
        decreases cx.parsed@.len() - f,
    {
        let file = &cx.parsed[f];
        let duplicates = document_duplicate_list(&file.root);
        let ghost dups = pair_views(duplicates@);
        let ghost s0 = out@;
        let mut d: usize = 0;
        proof { lemma_added_findings_none(s0); }
        while d < duplicates.len()
            invariant
                0 <= d <= duplicates@.len(),
                dups == pair_views(duplicates@),
                appended(s0, out@),
                added_findings(s0, out@) == findings_over(dups.take(d as int),
                    |d: (Seq<char>, Seq<char>)| seq![error_at("list.duplicate_reference"@, d.0)]),
            decreases duplicates@.len() - d,
        {
            let id = duplicates[d].1.as_str();
            let ghost b = out@;
            proof { assert(dups[d as int] == (duplicates@[d as int].0@, duplicates@[d as int].1@)); }
            error_if(out, true, "list.duplicate_reference", cat3("`", id, "` occurs more than once in this list"), file.path.as_str(),
                duplicates[d].0.clone(), locate_scalar(file.source.as_str(), id), Some(owned(id)));
            proof {
                lemma_added_findings_trans(s0, b, out@);
                lemma_findings_over_step(dups, |d: (Seq<char>, Seq<char>)| seq![error_at("list.duplicate_reference"@, d.0)], d as int);
            }
            d += 1;
        }
        proof {
            lemma_take_all(dups);
            lemma_added_findings_trans(old(out)@, s0, out@);
            lemma_findings_over_step(cx.parsed@, |f: ParsedFile| findings_over(document_duplicates(f.root@),
                |d: (Seq<char>, Seq<char>)| seq![error_at("list.duplicate_reference"@, d.0)]), f as int);
        }
        f += 1;
    }
    proof { lemma_take_all(cx.parsed@); }
}

/// Every string under a `completed` key inside `v`, in document order.
pub open spec fn completed_in(v: YamlValue, key: Option<Seq<char>>) -> Seq<Seq<char>>
    decreases v, 0nat,
{
    match v {
        YamlValue::String(id) => if key == Some("completed"@) { seq![id@] } else { Seq::empty() },
        YamlValue::Sequence(values) => completed_in_items(values@, key),
        YamlValue::Mapping(entries) => completed_in_entries(entries@),
        YamlValue::Tagged(_, inner) => completed_in(*inner, key),
        _ => Seq::empty(),
    }
}

/// The `completed` strings inside the items of a sequence.
pub open spec fn completed_in_items(items: Seq<YamlValue>, key: Option<Seq<char>>) -> Seq<Seq<char>>
    decreases items, items.len(),
{
    if items.len() == 0 {
        Seq::empty()
    } else {
        completed_in_items(items.drop_last(), key) + completed_in(items.last(), key)
    }
}

/// The `completed` strings inside the values of a mapping, each under its key.
pub open spec fn completed_in_entries(entries: Seq<(YamlValue, YamlValue)>) -> Seq<Seq<char>>
    decreases entries, entries.len(),
{
    if entries.len() == 0 {
        Seq::empty()
    } else {
        completed_in_entries(entries.drop_last()) + completed_in(entries.last().1, spec_as_str(entries.last().0))
    }
}

/// The views of a list of strings.
pub open spec fn string_views(strings: Seq<String>) -> Seq<Seq<char>> {
    strings.map_values(|s: String| s@)
}

/// Every string whose key is `completed`, at any depth.
pub fn completed_trigger_references(value: &YamlValue, key: Option<&str>, result: &mut Vec<String>)
    ensures
        string_views(final(result)@) == string_views(old(result)@)
            + completed_in(*value, match key { Some(k) => Some(k@), None => None }),
    decreases value,
{
    let ghost key_view = match key { Some(k) => Some(k@), None => None };
    let ghost start = string_views(result@);
    match value {
        YamlValue::String(id) => {
            let completed = match key { Some(k) => str_eq(k, "completed"), None => false };
            if completed {
                result.push(id.clone());
                proof { assert(string_views(result@) =~= start + seq![id@]); }
            } else {
                proof { assert(string_views(result@) =~= start + Seq::<Seq<char>>::empty()); }
            }
        },
        YamlValue::Sequence(values) => {
            let mut i: usize = 0;
            proof { assert(start + completed_in_items(values@.take(0), key_view) =~= start); }
            while i < values.len()
                invariant
                    0 <= i <= values@.len(),
                    string_views(result@) == start + completed_in_items(values@.take(i as int), key_view),
                decreases values@.len() - i,
            {
                proof {
                    assert(decreases_to!(values => values@[i as int]));
                    assert(values@.take(i + 1).drop_last() =~= values@.take(i as int));
                    assert(values@.take(i + 1).last() == values@[i as int]);
                }
                let ghost before = string_views(result@);
                completed_trigger_references(&values[i], key, result);
                proof {
                    assert(start + completed_in_items(values@.take(i + 1), key_view)
                        =~= before + completed_in(values@[i as int], key_view));
                }
                i += 1;
            }
            proof { assert(values@.take(values@.len() as int) =~= values@); }
        },
        YamlValue::Mapping(entries) => {
            let mut i: usize = 0;
            proof { assert(start + completed_in_entries(entries@.take(0)) =~= start); }
            while i < entries.len()
                invariant
                    0 <= i <= entries@.len(),
                    string_views(result@) == start + completed_in_entries(entries@.take(i as int)),
                decreases entries@.len() - i,
            {
                proof {
                    assert(decreases_to!(entries => entries@[i as int]));
                    assert(decreases_to!(entries@[i as int] => entries@[i as int].1));
                    assert(entries@.take(i + 1).drop_last() =~= entries@.take(i as int));
                    assert(entries@.take(i + 1).last() == entries@[i as int]);
                }
                let ghost before = string_views(result@);
                let entry_key = entries[i].0.as_str();
                completed_trigger_references(&entries[i].1, entry_key, result);
                proof {
                    let kv = match entry_key { Some(k) => Some(k@), None => None };
                    assert(kv == spec_as_str(entries@[i as int].0));
                    assert(start + completed_in_entries(entries@.take(i + 1))
                        =~= before + completed_in(entries@[i as int].1, kv));
                }
                i += 1;
            }
            proof { assert(entries@.take(entries@.len() as int) =~= entries@); }
        },
        YamlValue::Tagged(_, inner) => {
            completed_trigger_references(inner, key, result);
        },
        _ => {
            proof { assert(start + Seq::<Seq<char>>::empty() =~= start); }
        },
    }
}

/// Every string inside `v`, in document order.
pub open spec fn strings_in(v: YamlValue) -> Seq<Seq<char>>
    decreases v, 0nat,
{
    match v {
        YamlValue::String(id) => seq![id@],
        YamlValue::Sequence(values) => strings_in_items(values@),
        YamlValue::Mapping(entries) => strings_in_entries(entries@),
        YamlValue::Tagged(_, inner) => strings_in(*inner),
        _ => Seq::empty(),
    }
}

/// The strings inside the items of a sequence.
pub open spec fn strings_in_items(items: Seq<YamlValue>) -> Seq<Seq<char>>
    decreases items, items.len(),
{
    if items.len() == 0 {
        Seq::empty()
    } else {
        strings_in_items(items.drop_last()) + strings_in(items.last())
    }
}

/// The strings inside the values of a mapping.
pub open spec fn strings_in_entries(entries: Seq<(YamlValue, YamlValue)>) -> Seq<Seq<char>>
    decreases entries, entries.len(),
{
    if entries.len() == 0 {
        Seq::empty()
    } else {
        strings_in_entries(entries.drop_last()) + strings_in(entries.last().1)
    }
}

/// Every string anywhere inside a fact association.
pub fn collect_fact_association_ids(value: &YamlValue, result: &mut Vec<String>)
    ensures
        string_views(final(result)@) == string_views(old(result)@) + strings_in(*value),
    decreases value,
{
    let ghost start = string_views(result@);
    match value {
        YamlValue::String(id) => {
            result.push(id.clone());
            proof { assert(string_views(result@) =~= start + seq![id@]); }
        },
        YamlValue::Sequence(values) => {
            let mut i: usize = 0;
            proof { assert(start + strings_in_items(values@.take(0)) =~= start); }
            while i < values.len()
                invariant
                    0 <= i <= values@.len(),
                    string_views(result@) == start + strings_in_items(values@.take(i as int)),
                decreases values@.len() - i,
            {
                proof {
                    assert(decreases_to!(values => values@[i as int]));
                    assert(values@.take(i + 1).drop_last() =~= values@.take(i as int));
                    assert(values@.take(i + 1).last() == values@[i as int]);
                }
                let ghost before = string_views(result@);
                collect_fact_association_ids(&values[i], result);
                proof {
                    assert(start + strings_in_items(values@.take(i + 1)) =~= before + strings_in(values@[i as int]));
                }
                i += 1;
            }
            proof { assert(values@.take(values@.len() as int) =~= values@); }
        },
        YamlValue::Mapping(entries) => {
            let mut i: usize = 0;
            proof { assert(start + strings_in_entries(entries@.take(0)) =~= start); }
            while i < entries.len()
                invariant
                    0 <= i <= entries@.len(),
                    string_views(result@) == start + strings_in_entries(entries@.take(i as int)),
                decreases entries@.len() - i,
            {
                proof {
                    assert(decreases_to!(entries => entries@[i as int]));
                    assert(decreases_to!(entries@[i as int] => entries@[i as int].1));
                    assert(entries@.take(i + 1).drop_last() =~= entries@.take(i as int));
                    assert(entries@.take(i + 1).last() == entries@[i as int]);
                }
                let ghost before = string_views(result@);
                collect_fact_association_ids(&entries[i].1, result);
                proof {
                    assert(start + strings_in_entries(entries@.take(i + 1)) =~= before + strings_in(entries@[i as int].1));
                }
                i += 1;
            }
            proof { assert(entries@.take(entries@.len() as int) =~= entries@); }
        },
        YamlValue::Tagged(_, inner) => {
            collect_fact_association_ids(inner, result);
        },
        _ => {
            proof { assert(start + Seq::<Seq<char>>::empty() =~= start); }
        },
    }
}

/// A fact association: a non-empty list of fact IDs, or a non-empty mapping from
/// non-blank observation levels to non-empty fact-ID lists.
pub open spec fn spec_valid_fact_association(v: YamlValue) -> bool {
    match v {
        YamlValue::Sequence(_) => spec_is_nonempty_string_sequence(v, false),
        YamlValue::Mapping(levels) => levels@.len() > 0 && forall|i: int| 0 <= i < levels@.len()
            ==> #[trigger] valid_association_level(levels@[i]),
        _ => false,
    }
}

/// One observation level of a fact association.
pub open spec fn valid_association_level(level: (YamlValue, YamlValue)) -> bool {
    (spec_as_str(level.0) matches Some(l) && has_text(l)) && spec_is_nonempty_string_sequence(level.1, false)
}

/// A fact association: a non-empty list of fact IDs, or a
/// non-empty mapping from non-blank observation levels to non-empty fact-ID lists.
pub fn valid_fact_association(value: &YamlValue) -> (r: bool)
    ensures
        r == spec_valid_fact_association(*value),
{
    match value {
        YamlValue::Sequence(_) => is_nonempty_string_sequence(value, false),
        YamlValue::Mapping(levels) => {
            if levels.len() == 0 {
                return false;
            }
            let mut i: usize = 0;
            while i < levels.len()
                invariant
                    0 <= i <= levels@.len(),
                    forall|k: int| 0 <= k < i ==> #[trigger] valid_association_level(levels@[k]),
                decreases levels@.len() - i,
            {
                let level_ok = match levels[i].0.as_str() { Some(l) => nonblank(l), None => false };
                if !level_ok || !is_nonempty_string_sequence(&levels[i].1, false) {
                    proof { assert(!valid_association_level(levels@[i as int])); }
                    return false;
                }
                i += 1;
            }
            true
        },
        _ => false,
    }
}

/// The highest `tag_id` of the tagStandard41h12 family, whose codes are numbered from zero.
pub const TAG_STANDARD_41H12_MAX_ID: i64 = 2114;

/// How a card's `tag_id` reads.
pub enum TagCheck {
    /// Not an integer.
    Invalid,
    /// An integer outside `0..=2114`.
    OutOfRange(i64),
    /// A usable tag.
    Valid(i64),
}

/// Classifies a deck card's `tag_id`: only whole numbers from 0 through 2114 are tags.
pub fn classify_tag(value: Option<&YamlValue>) -> (r: TagCheck)
    ensures
        match value {
            Some(v) => match crate::yaml::spec_as_i64(*v) {
                Some(n) => if 0 <= n <= TAG_STANDARD_41H12_MAX_ID { r == TagCheck::Valid(n) } else { r == TagCheck::OutOfRange(n) },
                None => r == TagCheck::Invalid,
            },
            None => r == TagCheck::Invalid,
        },
{
    match value {
        Some(v) => match v.as_i64() {
            Some(n) => if 0 <= n && n <= TAG_STANDARD_41H12_MAX_ID { TagCheck::Valid(n) } else { TagCheck::OutOfRange(n) },
            None => TagCheck::Invalid,
        },
        None => TagCheck::Invalid,
    }
}

/// A deck event: `(true, card, pointer)` for one card of a `cards` sequence, or
/// `(false, value, pointer)` for a `cards` section that is not a sequence.
pub type DeckEvent = (bool, YamlValue, Seq<char>);

/// The first parsed file with `path`.
pub open spec fn file_for(parsed: Seq<ParsedFile>, path: Seq<char>) -> Option<ParsedFile>
    decreases parsed.len(),
{
    if parsed.len() == 0 {
        None
    } else if parsed[0].path@ == path {
        Some(parsed[0])
    } else {
        file_for(parsed.drop_first(), path)
    }
}

/// The events of one location of the `cards` section.
pub open spec fn location_events(parsed: Seq<ParsedFile>, path: Seq<char>, pointer: Seq<char>) -> Seq<DeckEvent> {
    match file_for(parsed, path) {
        None => Seq::empty(),
        Some(file) => match map_get(file.root@, "cards"@) {
            None => Seq::empty(),
            Some(v) => match spec_as_sequence(v) {
                None => seq![(false, v, pointer)],
                Some(cards) => Seq::new(cards.len(), |k: int| (true, cards[k], pointer + seq!['/'] + decimal(k as nat))),
            },
        },
    }
}

/// The events of every location of the `cards` section, in order.
pub open spec fn deck_events(parsed: Seq<ParsedFile>, locations: Seq<(String, String)>) -> Seq<DeckEvent>
    decreases locations.len(),
{
    if locations.len() == 0 {
        Seq::empty()
    } else {
        deck_events(parsed, locations.drop_last()) + location_events(parsed, locations.last().0@, locations.last().1@)
    }
}

/// The tag of a card whose `tag_id` is a usable tag.
pub open spec fn valid_tag(card: Seq<(YamlValue, YamlValue)>) -> Option<i64> {
    match map_get(card, "tag_id"@) {
        Some(v) => match crate::yaml::spec_as_i64(v) {
            Some(n) => if 0 <= n <= TAG_STANDARD_41H12_MAX_ID { Some(n) } else { None },
            None => None,
        },
        None => None,
    }
}

/// The event binds tag `t`.
pub open spec fn registers_tag(e: DeckEvent, t: i64) -> bool {
    e.0 && (spec_as_mapping(e.1) matches Some(card) && valid_tag(card) == Some(t))
}

/// The event binds subject `s`.
pub open spec fn registers_subject(e: DeckEvent, s: Seq<char>) -> bool {
    e.0 && (spec_as_mapping(e.1) matches Some(card) && spec_string_field(card, "subject"@) == Some(s))
}

/// A kind that a physical card may name.
pub open spec fn bindable_kind(k: Kind) -> bool {
    k == Kind::Setting || k == Kind::Character || k == Kind::Entity || k == Kind::Command
}

/// The findings of one card, given the cards before it.
pub open spec fn card_findings(defs: Seq<(String, Definition)>, earlier: Seq<DeckEvent>, card: Seq<(YamlValue, YamlValue)>, p: Seq<char>) -> Seq<Finding> {
    let tag_pointer = p + "/tag_id"@;
    let subject_pointer = p + "/subject"@;
    (match map_get(card, "tag_id"@) {
        Some(v) => match crate::yaml::spec_as_i64(v) {
            Some(n) => finding_if(!(0 <= n <= TAG_STANDARD_41H12_MAX_ID), error_at("deck.tag_id_out_of_range"@, tag_pointer)),
            None => seq![error_at("deck.tag_id_invalid"@, tag_pointer)],
        },
        None => seq![error_at("deck.tag_id_invalid"@, tag_pointer)],
    })
    + (match spec_string_field(card, "subject"@) {
        None => seq![error_at("deck.subject_invalid"@, subject_pointer)],
        Some(s) => match kind_in(defs, s) {
            None => seq![error_at("deck.subject_unknown"@, subject_pointer)],
            Some(k) => finding_if(!bindable_kind(k), error_at("deck.subject_unsupported"@, subject_pointer)),
        },
    })
    + (match valid_tag(card) {
        Some(t) => finding_if(exists|j: int| 0 <= j < earlier.len() && #[trigger] registers_tag(earlier[j], t),
            error_at("deck.tag_id_duplicate"@, tag_pointer)),
        None => Seq::empty(),
    })
    + (match spec_string_field(card, "subject"@) {
        Some(s) => finding_if(exists|j: int| 0 <= j < earlier.len() && #[trigger] registers_subject(earlier[j], s),
            error_at("deck.subject_duplicate"@, subject_pointer)),
        None => Seq::empty(),
    })
}

/// The findings of one deck event, given the events before it.
pub open spec fn deck_event_findings(defs: Seq<(String, Definition)>, earlier: Seq<DeckEvent>, e: DeckEvent) -> Seq<Finding> {
    if !e.0 {
        seq![error_at("schema.section_type"@, e.2)]
    } else {
        match spec_as_mapping(e.1) {
            None => seq![error_at("deck.entry_type"@, e.2)],
            Some(card) => card_findings(defs, earlier, card, e.2),
        }
    }
}

/// The findings of the whole deck.
pub open spec fn deck_findings(defs: Seq<(String, Definition)>, events: Seq<DeckEvent>) -> Seq<Finding> {
    findings_indexed(events, |i: int, e: DeckEvent| deck_event_findings(defs, events.take(i), e))
}

/// The tags and subjects bound so far record exactly those of `earlier`.
pub open spec fn seen_match(
    earlier: Seq<DeckEvent>,
    seen_tags: Seq<(i64, String, String)>,
    seen_subjects: Seq<(String, String, String, Option<SourceRange>)>,
) -> bool {
    &&& forall|t: i64| #![trigger tag_bound(earlier, t)]
        (exists|m: int| 0 <= m < seen_tags.len() && (#[trigger] seen_tags[m]).0 == t) <==> tag_bound(earlier, t)
    &&& forall|s: Seq<char>| #![trigger subject_bound(earlier, s)]
        (exists|m: int| 0 <= m < seen_subjects.len() && (#[trigger] seen_subjects[m]).0@ == s) <==> subject_bound(earlier, s)
}

/// Some earlier card binds tag `t`.
pub open spec fn tag_bound(earlier: Seq<DeckEvent>, t: i64) -> bool {
    exists|j: int| 0 <= j < earlier.len() && #[trigger] registers_tag(earlier[j], t)
}

/// Some earlier card binds subject `s`.
pub open spec fn subject_bound(earlier: Seq<DeckEvent>, s: Seq<char>) -> bool {
    exists|j: int| 0 <= j < earlier.len() && #[trigger] registers_subject(earlier[j], s)
}

/// The index of the first parsed file with `path`.
fn find_file(cx: &Context, path: &str) -> (r: Option<usize>)
    ensures
        match r {
            Some(k) => k < cx.parsed@.len() && file_for(cx.parsed@, path@) == Some(cx.parsed@[k as int]),
            None => file_for(cx.parsed@, path@) is None,
        },
{
    let mut f: usize = 0;
    proof { assert(cx.parsed@.subrange(0, cx.parsed@.len() as int) =~= cx.parsed@); }
    while f < cx.parsed.len()
        invariant
            0 <= f <= cx.parsed@.len(),
            file_for(cx.parsed@, path@) == file_for(cx.parsed@.subrange(f as int, cx.parsed@.len() as int), path@),
        decreases cx.parsed@.len() - f,
    {
        proof {
            assert(cx.parsed@.subrange(f as int, cx.parsed@.len() as int).drop_first()
                =~= cx.parsed@.subrange(f + 1, cx.parsed@.len() as int));
        }
        if str_eq(cx.parsed[f].path.as_str(), path) {
            return Some(f);
        }
        f += 1;
    }
    None
}

/// The cards of one location of the `cards` section.
fn check_location(
    cx: &Context,
    out: &mut Vec<Diagnostic>,
    path: &str,
    section_pointer: &str,
    seen_tags: &mut Vec<(i64, String, String)>,
    seen_subjects: &mut Vec<(String, String, String, Option<SourceRange>)>,
    Ghost(base): Ghost<Seq<Diagnostic>>,
    Ghost(done): Ghost<Seq<DeckEvent>>,
    Ghost(all): Ghost<Seq<DeckEvent>>,
)
    requires
        appended(base, old(out)@),
        added_findings(base, old(out)@) == findings_indexed(done,
            |i: int, e: DeckEvent| deck_event_findings(cx.definitions@, all.take(i), e)),
        seen_match(done, old(seen_tags)@, old(seen_subjects)@),
        ({
            let here = location_events(cx.parsed@, path@, section_pointer@);
            (done + here).len() <= all.len() && all.take((done + here).len() as int) == done + here
        }),
    ensures
        appended(base, final(out)@),
        ({
            let here = location_events(cx.parsed@, path@, section_pointer@);
            &&& added_findings(base, final(out)@) == findings_indexed(done + here,
                |i: int, e: DeckEvent| deck_event_findings(cx.definitions@, all.take(i), e))
            &&& seen_match(done + here, final(seen_tags)@, final(seen_subjects)@)
        }),
{
    let ghost here = location_events(cx.parsed@, path@, section_pointer@);
    let ghost s0 = out@;
    let file_index = find_file(cx, path);
    match file_index {
        None => {
            proof {
                assert(here =~= Seq::<DeckEvent>::empty());
                assert(done + here =~= done);
            }
        },
        Some(fi) => {
            let file = &cx.parsed[fi];
            match get(&file.root, "cards") {
                None => {
                    proof {
                        assert(here =~= Seq::<DeckEvent>::empty());
                        assert(done + here =~= done);
                    }
                },
                Some(cards_value) => {
                    match cards_value.as_sequence() {
                        None => {
                            let ghost e: DeckEvent = (false, *cards_value, section_pointer@);
                            error_if(out, true, "schema.section_type", owned("`cards` must be a sequence"), path,
                                owned(section_pointer), None, None);
                            proof {
                                assert(here == seq![e]);
                                assert(done + here =~= done.push(e));
                                lemma_added_findings_trans(base, s0, out@);
                                lemma_findings_indexed_step(done.push(e),
                                    |i: int, e: DeckEvent| deck_event_findings(cx.definitions@, all.take(i), e), done.len() as int);
                                assert(done.push(e).take(done.len() as int) =~= done);
                                assert(done.push(e).take(done.len() + 1 as int) =~= done.push(e));
                                assert(all.take(done.len() as int) =~= done) by {
                                    assert((done + here).take(done.len() as int) =~= done);
                                }
                                lemma_seen_match_skip(done, e, seen_tags@, seen_subjects@);
                            }
                        },
                        Some(cards) => {
                            let mut index: usize = 0;
                            proof { assert(here.take(0) =~= Seq::<DeckEvent>::empty()); assert(done + here.take(0) =~= done); }
                            while index < cards.len()
                                invariant
                                    0 <= index <= cards@.len(),
                                    here == Seq::new(cards@.len(), |k: int| (true, cards@[k], section_pointer@ + seq!['/'] + decimal(k as nat))),
                                    all.take((done + here).len() as int) == done + here,
                                    (done + here).len() <= all.len(),
                                    appended(base, out@),
                                    added_findings(base, out@) == findings_indexed(done + here.take(index as int),
                                        |i: int, e: DeckEvent| deck_event_findings(cx.definitions@, all.take(i), e)),
                                    seen_match(done + here.take(index as int), seen_tags@, seen_subjects@),
                                decreases cards@.len() - index,
                            {
                                let ghost b = out@;
                                let ghost earlier = done + here.take(index as int);
                                let ghost e: DeckEvent = (true, cards@[index as int], section_pointer@ + seq!['/'] + decimal(index as nat));
                                proof {
                                    assert(here[index as int] == e);
                                    assert(earlier.push(e) =~= done + here.take(index + 1));
                                    assert(all.take(earlier.len() as int) == earlier) by {
                                        assert((done + here).take(earlier.len() as int) =~= earlier);
                                    }
                                }
                                check_card(cx, out, &cards[index], path, file.source.as_str(), child_index(section_pointer, index),
                                    seen_tags, seen_subjects, Ghost(earlier));
                                proof {
                                    lemma_added_findings_trans(base, b, out@);
                                    lemma_findings_indexed_step(earlier.push(e),
                                        |i: int, e: DeckEvent| deck_event_findings(cx.definitions@, all.take(i), e), earlier.len() as int);
                                    assert(earlier.push(e).take(earlier.len() as int) =~= earlier);
                                    assert(earlier.push(e).take(earlier.len() + 1 as int) =~= earlier.push(e));
                                }
                                index += 1;
                            }
                            proof { assert(here.take(cards@.len() as int) =~= here); }
                        },
                    }
                },
            }
        },
    }
}

/// Each card binds a tag from 0 through 2114 to a defined setting,
/// character, entity or command; tags and subjects are each bound at most once.
pub fn validate_deck(cx: &Context, out: &mut Vec<Diagnostic>)
    ensures
        appended(old(out)@, final(out)@),
        added_findings(old(out)@, final(out)@) == match section_lookup(cx.sections@, "cards"@) {
            Some(locations) => deck_findings(cx.definitions@, deck_events(cx.parsed@, locations@)),
            None => Seq::empty(),
        },
{
    let locations = match cx.section("cards") {
        Some(l) => l,
        None => {
            proof { lemma_added_findings_none(out@); }
            return;
        },
    };
    let ghost all = deck_events(cx.parsed@, locations@);
    let mut seen_tags: Vec<(i64, String, String)> = Vec::new();
    let mut seen_subjects: Vec<(String, String, String, Option<SourceRange>)> = Vec::new();
    let mut l: usize = 0;
    proof {
        lemma_added_findings_none(out@);
        assert(locations@.take(0) =~= Seq::<(String, String)>::empty());
    }
    while l < locations.len()
        invariant
            0 <= l <= locations@.len(),
            all == deck_events(cx.parsed@, locations@),
            appended(old(out)@, out@),
            added_findings(old(out)@, out@) == findings_indexed(deck_events(cx.parsed@, locations@.take(l as int)),
                |i: int, e: DeckEvent| deck_event_findings(cx.definitions@, all.take(i), e)),
            seen_match(deck_events(cx.parsed@, locations@.take(l as int)), seen_tags@, seen_subjects@),
        decreases locations@.len() - l,
    {
        let ghost done = deck_events(cx.parsed@, locations@.take(l as int));
        proof {
            assert(locations@.take(l + 1).drop_last() =~= locations@.take(l as int));
            assert(locations@.take(l + 1).last() == locations@[l as int]);
            lemma_deck_events_prefix(cx.parsed@, locations@, l + 1);
        }
        check_location(cx, out, locations[l].0.as_str(), locations[l].1.as_str(), &mut seen_tags, &mut seen_subjects,
            Ghost(old(out)@), Ghost(done), Ghost(all));
        l += 1;
    }
    proof { lemma_take_all(locations@); }
}

/// Events before a prefix of the locations are a prefix of all the events.
proof fn lemma_deck_events_prefix(parsed: Seq<ParsedFile>, locations: Seq<(String, String)>, l: int)
    requires
        0 <= l <= locations.len(),
    ensures
        deck_events(parsed, locations.take(l)).len() <= deck_events(parsed, locations).len(),
        deck_events(parsed, locations).take(deck_events(parsed, locations.take(l)).len() as int)
            == deck_events(parsed, locations.take(l)),
    decreases locations.len(),
{
    if l == locations.len() {
        assert(locations.take(l) =~= locations);
        assert(deck_events(parsed, locations).take(deck_events(parsed, locations).len() as int) =~= deck_events(parsed, locations));
    } else {
        lemma_deck_events_prefix(parsed, locations.drop_last(), l);
        assert(locations.drop_last().take(l) =~= locations.take(l));
        let a = deck_events(parsed, locations.drop_last());
        let b = location_events(parsed, locations.last().0@, locations.last().1@);
        let p = deck_events(parsed, locations.take(l));
        assert((a + b).take(p.len() as int) =~= a.take(p.len() as int));
    }
}

/// An event that is not a card leaves the bound tags and subjects as they are.
proof fn lemma_seen_match_skip(
    earlier: Seq<DeckEvent>,
    e: DeckEvent,
    seen_tags: Seq<(i64, String, String)>,
    seen_subjects: Seq<(String, String, String, Option<SourceRange>)>,
)
    requires
        !e.0,
        seen_match(earlier, seen_tags, seen_subjects),
    ensures
        seen_match(earlier.push(e), seen_tags, seen_subjects),
{
    assert forall|t: i64| #![trigger tag_bound(earlier.push(e), t)] tag_bound(earlier.push(e), t) == tag_bound(earlier, t) by {
        if tag_bound(earlier.push(e), t) {
            let j = choose|j: int| 0 <= j < earlier.push(e).len() && #[trigger] registers_tag(earlier.push(e)[j], t);
            assert(j < earlier.len());
            assert(registers_tag(earlier[j], t));
        }
        if tag_bound(earlier, t) {
            let j = choose|j: int| 0 <= j < earlier.len() && #[trigger] registers_tag(earlier[j], t);
            assert(registers_tag(earlier.push(e)[j], t));
        }
    }
    assert forall|s: Seq<char>| #![trigger subject_bound(earlier.push(e), s)] subject_bound(earlier.push(e), s) == subject_bound(earlier, s) by {
        if subject_bound(earlier.push(e), s) {
            let j = choose|j: int| 0 <= j < earlier.push(e).len() && #[trigger] registers_subject(earlier.push(e)[j], s);
            assert(j < earlier.len());
            assert(registers_subject(earlier[j], s));
        }
        if subject_bound(earlier, s) {
            let j = choose|j: int| 0 <= j < earlier.len() && #[trigger] registers_subject(earlier[j], s);
            assert(registers_subject(earlier.push(e)[j], s));
        }
    }
}

/// The checks of `validate_deck` for one card.
fn check_card(
    cx: &Context,
    out: &mut Vec<Diagnostic>,
    value: &YamlValue,
    path: &str,
    source: &str,
    pointer: String,
    seen_tags: &mut Vec<(i64, String, String)>,
    seen_subjects: &mut Vec<(String, String, String, Option<SourceRange>)>,
    Ghost(earlier): Ghost<Seq<DeckEvent>>,
)
    requires
        seen_match(earlier, old(seen_tags)@, old(seen_subjects)@),
    ensures
        appended(old(out)@, final(out)@),
        added_findings(old(out)@, final(out)@) == deck_event_findings(cx.definitions@, earlier, (true, *value, pointer@)),
        seen_match(earlier.push((true, *value, pointer@)), final(seen_tags)@, final(seen_subjects)@),
{
    let ghost e: DeckEvent = (true, *value, pointer@);
    let card = match value.as_mapping() {
        Some(card) => card,
        None => {
            error_if(out, true, "deck.entry_type", owned("deck entries must be mappings with `tag_id` and `subject`"), path,
                pointer, None, None);
            proof { lemma_seen_match_card_free(earlier, e, seen_tags@, seen_subjects@); }
            return;
        },
    };
    let tag_pointer = cat(pointer.as_str(), "/tag_id");
    let tag = classify_tag(get(card, "tag_id"));
    let ghost s0 = out@;
    match tag {
        TagCheck::Invalid => {
            error_if(out, true, "deck.tag_id_invalid", owned("deck `tag_id` must be a whole number from 0 through 2114"), path,
                tag_pointer.clone(), None, None);
        },
        TagCheck::OutOfRange(n) => {
            error_if(out, true, "deck.tag_id_out_of_range",
                cat3("deck `tag_id` ", i64_to_decimal(n).as_str(), " is outside the tagStandard41h12 range 0 through 2114"),
                path, tag_pointer.clone(), None, None);
        },
        TagCheck::Valid(_) => {
            proof { lemma_added_findings_none(s0); }
        },
    }
    let ghost s1 = out@;
    let subject_pointer = cat(pointer.as_str(), "/subject");
    let subject: Option<String> = match string_field(card, "subject") { Some(s) => Some(owned(s)), None => None };
    match &subject {
        None => {
            error_if(out, true, "deck.subject_invalid",
                owned("deck `subject` must be a canonical setting, character, entity, or command ID"), path,
                subject_pointer.clone(), None, None);
        },
        Some(subject) => {
            match cx.kind_of(subject.as_str()) {
                None => {
                    error_if(out, true, "deck.subject_unknown", cat3("deck subject `", subject.as_str(), "` is not defined by this story"),
                        path, subject_pointer.clone(), locate_scalar(source, subject.as_str()), Some(subject.clone()));
                },
                Some(kind) => {
                    let bindable = kind == Kind::Setting || kind == Kind::Character || kind == Kind::Entity || kind == Kind::Command;
                    let name = kind.name();
                    error_if(out, !bindable, "deck.subject_unsupported",
                        cat5(name.as_str(), " `", subject.as_str(),
                            "` cannot be bound to a physical card; use a setting, character, entity, or command", ""),
                        path, subject_pointer.clone(), locate_scalar(source, subject.as_str()), Some(subject.clone()));
                },
            }
        },
    }
    let ghost s2 = out@;
    let ghost old_tags = seen_tags@;
    if let TagCheck::Valid(tag_id) = tag {
        let mut found: Option<usize> = None;
        let mut k: usize = 0;
        while k < seen_tags.len() && found.is_none()
            invariant
                0 <= k <= seen_tags@.len(),
                match found { Some(j) => j < seen_tags@.len() && seen_tags@[j as int].0 == tag_id, None => true },
                found is None ==> forall|m: int| 0 <= m < k ==> (#[trigger] seen_tags@[m]).0 != tag_id,
            decreases seen_tags@.len() - k,
        {
            if seen_tags[k].0 == tag_id {
                found = Some(k);
            }
            k += 1;
        }
        match found {
            Some(j) => {
                let first_subject = seen_tags[j].1.clone();
                let shown = match &subject { Some(s) => s.clone(), None => owned("an invalid subject") };
                let head = cat3("tagStandard41h12 ID ", i64_to_decimal(tag_id).as_str(), " is assigned to both `");
                let message = cat5(head.as_str(), first_subject.as_str(), "` and `", shown.as_str(), "`");
                let related = RelatedLocation {
                    message: cat3("first assigned to `", first_subject.as_str(), "` here"),
                    path: owned(path),
                    pointer: Some(seen_tags[j].2.clone()),
                    range: None,
                };
                let subject_id = match &subject { Some(s) => Some(s.clone()), None => None };
                emit_related(out, "deck.tag_id_duplicate", message, path, Some(tag_pointer), None, subject_id, related);
                proof { assert(tag_bound(earlier, tag_id)); }
            },
            None => {
                let shown = match &subject { Some(s) => s.clone(), None => String::new() };
                seen_tags.push((tag_id, shown, tag_pointer));
                proof {
                    assert(!tag_bound(earlier, tag_id));
                    lemma_added_findings_none(s2);
                }
            },
        }
    } else {
        proof { lemma_added_findings_none(s2); }
    }
    let ghost s3 = out@;
    let ghost old_subjects = seen_subjects@;
    if let Some(subject) = subject {
        let range = locate_scalar(source, subject.as_str());
        let mut found: Option<usize> = None;
        let mut k: usize = 0;
        while k < seen_subjects.len() && found.is_none()
            invariant
                0 <= k <= seen_subjects@.len(),
                match found { Some(j) => j < seen_subjects@.len() && seen_subjects@[j as int].0@ == subject@, None => true },
                found is None ==> forall|m: int| 0 <= m < k ==> (#[trigger] seen_subjects@[m]).0@ != subject@,
            decreases seen_subjects@.len() - k,
        {
            if str_eq(seen_subjects[k].0.as_str(), subject.as_str()) {
                found = Some(k);
            }
            k += 1;
        }
        match found {
            Some(j) => {
                let related = RelatedLocation {
                    message: owned("first bound here"),
                    path: seen_subjects[j].1.clone(),
                    pointer: Some(seen_subjects[j].2.clone()),
                    range: seen_subjects[j].3,
                };
                emit_related(out, "deck.subject_duplicate", cat3("deck subject `", subject.as_str(), "` is bound more than once"),
                    path, Some(subject_pointer), range, Some(subject.clone()), related);
                proof { assert(subject_bound(earlier, subject@)); }
            },
            None => {
                seen_subjects.push((subject, owned(path), subject_pointer, range));
                proof {
                    assert(!subject_bound(earlier, seen_subjects@.last().0@));
                    lemma_added_findings_none(s3);
                }
            },
        }
    } else {
        proof { lemma_added_findings_none(s3); }
    }
    proof {
        lemma_added_findings_trans(s0, s1, s2);
        lemma_added_findings_trans(s0, s2, s3);
        lemma_added_findings_trans(s0, s3, out@);
        lemma_seen_match_card(earlier, e, old_tags, old_subjects, seen_tags@, seen_subjects@);
    }
}

/// A card entry that is not a mapping binds nothing.
proof fn lemma_seen_match_card_free(
    earlier: Seq<DeckEvent>,
    e: DeckEvent,
    seen_tags: Seq<(i64, String, String)>,
    seen_subjects: Seq<(String, String, String, Option<SourceRange>)>,
)
    requires
        spec_as_mapping(e.1) is None,
        seen_match(earlier, seen_tags, seen_subjects),
    ensures
        seen_match(earlier.push(e), seen_tags, seen_subjects),
{
    assert forall|t: i64| #![trigger tag_bound(earlier.push(e), t)] tag_bound(earlier.push(e), t) == tag_bound(earlier, t) by {
        if tag_bound(earlier.push(e), t) {
            let j = choose|j: int| 0 <= j < earlier.push(e).len() && #[trigger] registers_tag(earlier.push(e)[j], t);
            assert(j < earlier.len());
            assert(registers_tag(earlier[j], t));
        }
        if tag_bound(earlier, t) {
            let j = choose|j: int| 0 <= j < earlier.len() && #[trigger] registers_tag(earlier[j], t);
            assert(registers_tag(earlier.push(e)[j], t));
        }
    }
    assert forall|s: Seq<char>| #![trigger subject_bound(earlier.push(e), s)] subject_bound(earlier.push(e), s) == subject_bound(earlier, s) by {
        if subject_bound(earlier.push(e), s) {
            let j = choose|j: int| 0 <= j < earlier.push(e).len() && #[trigger] registers_subject(earlier.push(e)[j], s);
            assert(j < earlier.len());
            assert(registers_subject(earlier[j], s));
        }
        if subject_bound(earlier, s) {
            let j = choose|j: int| 0 <= j < earlier.len() && #[trigger] registers_subject(earlier[j], s);
            assert(registers_subject(earlier.push(e)[j], s));
        }
    }
}

/// A card binds its usable tag and its subject, when they were not bound before.
proof fn lemma_seen_match_card(
    earlier: Seq<DeckEvent>,
    e: DeckEvent,
    old_tags: Seq<(i64, String, String)>,
    old_subjects: Seq<(String, String, String, Option<SourceRange>)>,
    seen_tags: Seq<(i64, String, String)>,
    seen_subjects: Seq<(String, String, String, Option<SourceRange>)>,
)
    requires
        e.0,
        spec_as_mapping(e.1) is Some,
        seen_match(earlier, old_tags, old_subjects),
        seen_tags == old_tags || (seen_tags == old_tags.push(seen_tags.last())
            && valid_tag(spec_as_mapping(e.1)->0) == Some(seen_tags.last().0)),
        valid_tag(spec_as_mapping(e.1)->0) matches Some(t) ==> (tag_bound(earlier, t) || seen_tags != old_tags),
        seen_subjects == old_subjects || (seen_subjects == old_subjects.push(seen_subjects.last())
            && spec_string_field(spec_as_mapping(e.1)->0, "subject"@) == Some(seen_subjects.last().0@)),
        spec_string_field(spec_as_mapping(e.1)->0, "subject"@) matches Some(s) ==> (subject_bound(earlier, s) || seen_subjects != old_subjects),
    ensures
        seen_match(earlier.push(e), seen_tags, seen_subjects),
{
    let card = spec_as_mapping(e.1)->0;
    assert forall|t: i64| #![trigger tag_bound(earlier.push(e), t)]
        (exists|m: int| 0 <= m < seen_tags.len() && (#[trigger] seen_tags[m]).0 == t) <==> tag_bound(earlier.push(e), t) by {
        if tag_bound(earlier.push(e), t) {
            let j = choose|j: int| 0 <= j < earlier.push(e).len() && #[trigger] registers_tag(earlier.push(e)[j], t);
            if j < earlier.len() {
                assert(registers_tag(earlier[j], t));
                assert(tag_bound(earlier, t));
                let m = choose|m: int| 0 <= m < old_tags.len() && (#[trigger] old_tags[m]).0 == t;
                assert(seen_tags[m] == old_tags[m]);
            } else {
                assert(valid_tag(card) == Some(t));
                if tag_bound(earlier, t) {
                    let m = choose|m: int| 0 <= m < old_tags.len() && (#[trigger] old_tags[m]).0 == t;
                    assert(seen_tags[m] == old_tags[m]);
                } else {
                    assert(seen_tags[seen_tags.len() - 1].0 == t);
                }
            }
        }
        if exists|m: int| 0 <= m < seen_tags.len() && (#[trigger] seen_tags[m]).0 == t {
            let m = choose|m: int| 0 <= m < seen_tags.len() && (#[trigger] seen_tags[m]).0 == t;
            if m < old_tags.len() {
                assert(old_tags[m] == seen_tags[m]);
                assert(tag_bound(earlier, t));
                let j = choose|j: int| 0 <= j < earlier.len() && #[trigger] registers_tag(earlier[j], t);
                assert(registers_tag(earlier.push(e)[j], t));
            } else {
                assert(registers_tag(earlier.push(e)[earlier.len() as int], t));
            }
        }
    }
    assert forall|s: Seq<char>| #![trigger subject_bound(earlier.push(e), s)]
        (exists|m: int| 0 <= m < seen_subjects.len() && (#[trigger] seen_subjects[m]).0@ == s) <==> subject_bound(earlier.push(e), s) by {
        if subject_bound(earlier.push(e), s) {
            let j = choose|j: int| 0 <= j < earlier.push(e).len() && #[trigger] registers_subject(earlier.push(e)[j], s);
            if j < earlier.len() {
                assert(registers_subject(earlier[j], s));
                assert(subject_bound(earlier, s));
                let m = choose|m: int| 0 <= m < old_subjects.len() && (#[trigger] old_subjects[m]).0@ == s;
                assert(seen_subjects[m] == old_subjects[m]);
            } else {
                assert(spec_string_field(card, "subject"@) == Some(s));
                if subject_bound(earlier, s) {
                    let m = choose|m: int| 0 <= m < old_subjects.len() && (#[trigger] old_subjects[m]).0@ == s;
                    assert(seen_subjects[m] == old_subjects[m]);
                } else {
                    assert(seen_subjects[seen_subjects.len() - 1].0@ == s);
                }
            }
        }
        if exists|m: int| 0 <= m < seen_subjects.len() && (#[trigger] seen_subjects[m]).0@ == s {
            let m = choose|m: int| 0 <= m < seen_subjects.len() && (#[trigger] seen_subjects[m]).0@ == s;
            if m < old_subjects.len() {
                assert(old_subjects[m] == seen_subjects[m]);
                assert(subject_bound(earlier, s));
                let j = choose|j: int| 0 <= j < earlier.len() && #[trigger] registers_subject(earlier[j], s);
                assert(registers_subject(earlier.push(e)[j], s));
            } else {
                assert(registers_subject(earlier.push(e)[earlier.len() as int], s));
            }
        }
    }
}

} // verus!
