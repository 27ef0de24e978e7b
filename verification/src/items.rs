//! Authored objects: collecting the items of each section and registering their IDs.

use vstd::prelude::*;
use crate::ids::{id_prefix, spec_escape_pointer, spec_id_prefix, spec_valid_id, valid_id};
use crate::kinds::Kind;
use crate::locate::locate_id;
use crate::model::{Context, Definition, Finding, Item, ParsedFile, added_findings, appended, child, child_index, concat_over, lemma_concat_over_same,
    emit_related, error, error_at, error_if, finding_if, findings_indexed, first_defined_here, kind_in, lemma_added_findings_none,
    lemma_added_findings_one, lemma_added_findings_trans, lemma_concat_over_step, lemma_findings_indexed_contains,
    lemma_findings_indexed_step, lemma_lookup_push, lemma_take_all, lookup, one_of};
use crate::report::{Diagnostic, SourceRange};
use crate::text::{cat, cat3, decimal, joined, lemma_joined_step, owned, str_eq};
use crate::yaml::{YamlValue, duplicate_entries, lemma_same_entries_trans, same_entries, get, map_get, spec_as_mapping, spec_as_sequence, spec_string_field, string_field};

verus! {

/// The message for an ID without a kind prefix and a snake-case name.
fn invalid_id_message(id: &str) -> (r: String)
    ensures
        r@ == "`"@ + id@ + "` must contain a lowercase kind prefix, a dot, and a lowercase snake-case name"@,
{
    cat3("`", id, "` must contain a lowercase kind prefix, a dot, and a lowercase snake-case name")
}

/// The findings of registering `id` at `pointer`: its shape, its prefix among `allowed`,
/// and a duplicate when `taken`.
pub open spec fn id_findings(taken: bool, id: Seq<char>, pointer: Seq<char>, allowed: Seq<Seq<char>>) -> Seq<Finding> {
    let at = pointer + "/id"@;
    (if !spec_valid_id(id) {
        seq![error_at("id.invalid"@, at)]
    } else {
        finding_if(!(spec_id_prefix(id) matches Some(p) && allowed.contains(p)), error_at("id.wrong_prefix"@, at))
    })
    + finding_if(taken, error_at("id.duplicate"@, at))
}

/// An element of a concatenation is an element of one of its parts.
proof fn lemma_contains_concat(a: Seq<Seq<char>>, b: Seq<Seq<char>>, x: Seq<char>)
    ensures
        (a + b).contains(x) <==> (a.contains(x) || b.contains(x)),
{
    if (a + b).contains(x) {
        let j = choose|j: int| 0 <= j < (a + b).len() && (a + b)[j] == x;
        if j < a.len() { assert(a[j] == x); } else { assert(b[j - a.len()] == x); }
    }
    if a.contains(x) {
        let j = choose|j: int| 0 <= j < a.len() && a[j] == x;
        assert((a + b)[j] == x);
    }
    if b.contains(x) {
        let j = choose|j: int| 0 <= j < b.len() && b[j] == x;
        assert((a + b)[a.len() + j] == x);
    }
}

/// The texts of a list of prefixes.
pub open spec fn str_views(allowed: Seq<&str>) -> Seq<Seq<char>> {
    allowed.map_values(|a: &str| a@)
}

/// The definitions after registering `id` as a `kind`: an ID keeps its first kind.
pub open spec fn registered(before: Seq<(String, Definition)>, after: Seq<(String, Definition)>, id: Seq<char>, kind: Kind) -> bool {
    &&& forall|x: Seq<char>| #[trigger] lookup(after, x) is Some <==> (lookup(before, x) is Some || x == id)
    &&& forall|x: Seq<char>| #[trigger] kind_in(after, x) == if lookup(before, x) is Some { kind_in(before, x) }
        else if x == id { Some(kind) } else { None }
}

/// The definitions `before` stay, in order, at the start of `after`.
pub open spec fn defs_prefix(before: Seq<(String, Definition)>, after: Seq<(String, Definition)>) -> bool {
    &&& before.len() <= after.len()
    &&& after.subrange(0, before.len() as int) == before
}

/// `d` reports a duplicate ID: its subject is the ID, and its one related location is the
/// `id` of the ID's first definition in `defs`.
pub open spec fn cites_first_definition(d: Diagnostic, defs: Seq<(String, Definition)>) -> bool {
    &&& d.code@ == "id.duplicate"@
    &&& match d.subject_id {
        Some(x) => match lookup(defs, x@) {
            Some(first) => d.related@.len() == 1 && d.related@[0].path@ == first.path@
                && (d.related@[0].pointer matches Some(p) && p@ == first.pointer@ + "/id"@),
            None => false,
        },
        None => false,
    }
}

/// Every diagnostic of `out[lo..hi]` that names a related location reports a duplicate ID
/// and cites its first definition in `defs`.
pub open spec fn duplicates_cite_first(out: Seq<Diagnostic>, lo: int, hi: int, defs: Seq<(String, Definition)>) -> bool {
    forall|k: int| lo <= k < hi && (#[trigger] out[k]).related@.len() > 0 ==> cites_first_definition(out[k], defs)
}

/// The first definition of an ID stays first when definitions are added after it.
pub proof fn lemma_lookup_prefix(a: Seq<(String, Definition)>, b: Seq<(String, Definition)>, x: Seq<char>)
    requires
        defs_prefix(a, b),
        lookup(a, x) is Some,
    ensures
        lookup(b, x) == lookup(a, x),
    decreases a.len(),
{
    assert(b[0] == b.subrange(0, a.len() as int)[0]);
    if a[0].0@ != x {
        assert(b.drop_first().subrange(0, a.drop_first().len() as int) =~= a.drop_first()) by {
            assert forall|i: int| 0 <= i < a.drop_first().len() implies
                b.drop_first().subrange(0, a.drop_first().len() as int)[i] == a.drop_first()[i] by {
                assert(b.subrange(0, a.len() as int)[i + 1] == a[i + 1]);
            }
        }
        lemma_lookup_prefix(a.drop_first(), b.drop_first(), x);
    }
}

/// Citations carried over appended diagnostics and grown definitions.
pub proof fn lemma_cites_step(a: Seq<Diagnostic>, b: Seq<Diagnostic>, lo: int, d1: Seq<(String, Definition)>,
    d2: Seq<(String, Definition)>)
    requires
        appended(a, b),
        0 <= lo <= a.len(),
        duplicates_cite_first(a, lo, a.len() as int, d1),
        duplicates_cite_first(b, a.len() as int, b.len() as int, d2),
        defs_prefix(d1, d2),
    ensures
        duplicates_cite_first(b, lo, b.len() as int, d2),
{
    assert forall|k: int| lo <= k < b.len() && (#[trigger] b[k]).related@.len() > 0 implies cites_first_definition(b[k], d2) by {
        if k < a.len() {
            assert(b[k] == a[k]);
            assert(cites_first_definition(a[k], d1));
            let x = a[k].subject_id->0;
            lemma_lookup_prefix(d1, d2, x@);
        }
    }
}

/// Definitions that only grow keep their prefixes.
pub proof fn lemma_defs_prefix_trans(a: Seq<(String, Definition)>, b: Seq<(String, Definition)>, c: Seq<(String, Definition)>)
    requires
        defs_prefix(a, b),
        defs_prefix(b, c),
    ensures
        defs_prefix(a, c),
{
    assert(c.subrange(0, a.len() as int) =~= a) by {
        assert forall|i: int| 0 <= i < a.len() implies c.subrange(0, a.len() as int)[i] == a[i] by {
            assert(c.subrange(0, b.len() as int)[i] == b[i]);
            assert(b.subrange(0, a.len() as int)[i] == a[i]);
        }
    }
}

/// Checks the shape and prefix of an item's `id`, records its definition, and reports a
/// duplicate with the location of the first definition. Returns the located range.
fn register_id(
    cx: &mut Context,
    out: &mut Vec<Diagnostic>,
    kind: Kind,
    id: &str,
    path: &str,
    source: &str,
    pointer: &str,
    allowed: &[&str],
    wrong_prefix_message: String,
) -> (range: Option<SourceRange>)
    ensures
        appended(old(out)@, final(out)@),
        added_findings(old(out)@, final(out)@)
            == id_findings(lookup(old(cx).definitions@, id@) is Some, id@, pointer@, str_views(allowed@)),
        registered(old(cx).definitions@, final(cx).definitions@, id@, kind),
        defs_prefix(old(cx).definitions@, final(cx).definitions@),
        duplicates_cite_first(final(out)@, old(out)@.len() as int, final(out)@.len() as int, final(cx).definitions@),
        final(cx).parsed == old(cx).parsed,
        final(cx).sections == old(cx).sections,
        final(cx).format_version == old(cx).format_version,
        final(cx).features == old(cx).features,
        final(cx).supported_features == old(cx).supported_features,
        final(cx).format_compatible == old(cx).format_compatible,
        final(cx).feature_compatible == old(cx).feature_compatible,
{
    let id_pointer = cat(pointer, "/id");
    proof { reveal_strlit("/id"); }
    let range = locate_id(source, id);
    let ghost start = out@;
    if !valid_id(id) {
        error_if(out, true, "id.invalid", invalid_id_message(id), path, id_pointer.clone(), range, Some(owned(id)));
    } else {
        let allowed_prefix = match id_prefix(id) {
            Some(prefix) => one_of(prefix.as_str(), allowed),
            None => false,
        };
        proof {
            let views = str_views(allowed@);
            if let Some(p) = spec_id_prefix(id@) {
                if allowed_prefix {
                    let i = choose|i: int| 0 <= i < allowed@.len() && (#[trigger] allowed@[i])@ == p;
                    assert(views[i] == p);
                }
                if views.contains(p) {
                    let i = choose|i: int| 0 <= i < views.len() && views[i] == p;
                    assert(allowed@[i]@ == p);
                }
            }
        }
        error_if(out, !allowed_prefix, "id.wrong_prefix", wrong_prefix_message, path, id_pointer.clone(), range, Some(owned(id)));
    }
    let ghost mid = out@;
    let ghost defs = cx.definitions@;
    let definition = Definition { kind, path: owned(path), pointer: owned(pointer), range };
    match cx.define(id, definition) {
        Some(first) => {
            proof { reveal_strlit("id.duplicate"); }
            emit_related(out, "id.duplicate", cat3("ID `", id, "` is defined more than once"), path,
                Some(id_pointer), range, Some(owned(id)), first_defined_here(&first));
            proof {
                assert(cx.definitions@.subrange(0, defs.len() as int) =~= defs);
                assert(cites_first_definition(out@.last(), cx.definitions@));
            }
        },
        None => {
            proof {
                lemma_added_findings_none(mid);
                let last = cx.definitions@.last();
                assert(cx.definitions@ =~= defs.push(last));
                assert forall|x: Seq<char>| #[trigger] lookup(cx.definitions@, x) is Some <==> (lookup(defs, x) is Some || x == id@) by {
                    lemma_lookup_push(defs, last, x);
                }
                assert forall|x: Seq<char>| #[trigger] kind_in(cx.definitions@, x) == if lookup(defs, x) is Some { kind_in(defs, x) }
                    else if x == id@ { Some(kind) } else { None } by {
                    lemma_lookup_push(defs, last, x);
                }
            }
        },
    }
    proof {
        assert(cx.definitions@.subrange(0, defs.len() as int) =~= defs);
        lemma_added_findings_trans(start, mid, out@);
        if lookup(defs, id@) is Some {
            assert forall|x: Seq<char>| #[trigger] lookup(cx.definitions@, x) is Some <==> (lookup(defs, x) is Some || x == id@) by {}
        }
    }
    range
}

/// The `` `p.` or `q.` `` list of allowed prefixes.
fn prefix_list(allowed: &[&str]) -> (r: String)
    ensures
        r@ == joined(allowed@.map_values(|p: &str| "`"@ + p@ + ".`"@), " or "@),
{
    let ghost parts = allowed@.map_values(|p: &str| "`"@ + p@ + ".`"@);
    let mut text = String::new();
    let mut i: usize = 0;
    proof { assert(text@ =~= joined(parts.subrange(0, 0), " or "@)); }
    while i < allowed.len()
        invariant
            0 <= i <= allowed@.len(),
            parts == allowed@.map_values(|p: &str| "`"@ + p@ + ".`"@),
            text@ == joined(parts.subrange(0, i as int), " or "@),
        decreases allowed@.len() - i,
    {
        proof { lemma_joined_step(parts, " or "@, i as int, text@); }
        let ghost before = text@;
        if i > 0 {
            text.append(" or ");
        }
        let ghost mid = text@;
        text.append("`");
        text.append(allowed[i]);
        text.append(".`");
        proof {
            assert(text@ =~= mid + parts[i as int]);
        }
        i += 1;
    }
    proof { assert(parts.subrange(0, allowed@.len() as int) =~= parts); }
    text
}

/// The item mappings of the entries of a section sequence, each with its pointer.
pub open spec fn sequence_entries(entries: Seq<YamlValue>, base: Seq<char>) -> Seq<(Seq<(YamlValue, YamlValue)>, Seq<char>)>
    decreases entries.len(),
{
    if entries.len() == 0 {
        Seq::empty()
    } else {
        sequence_entries(entries.drop_last(), base) + match spec_as_mapping(entries.last()) {
            Some(m) => seq![(m, base + seq!['/'] + decimal((entries.len() - 1) as nat))],
            None => Seq::empty(),
        }
    }
}

/// The item mappings that a file holds under `section`, with their pointers.
pub open spec fn file_entries(file: ParsedFile, section: Seq<char>, sequence: bool) -> Seq<(Seq<(YamlValue, YamlValue)>, Seq<char>)> {
    root_entries(file.root@, section, sequence)
}

/// The item mappings that a document root holds under `section`, with their pointers.
pub open spec fn root_entries(root: Seq<(YamlValue, YamlValue)>, section: Seq<char>, sequence: bool) -> Seq<(Seq<(YamlValue, YamlValue)>, Seq<char>)> {
    match map_get(root, section) {
        None => Seq::empty(),
        Some(v) => if sequence {
            match spec_as_sequence(v) {
                Some(entries) => sequence_entries(entries, "/"@ + section),
                None => Seq::empty(),
            }
        } else {
            match spec_as_mapping(v) {
                Some(m) => seq![(m, "/"@ + section)],
                None => Seq::empty(),
            }
        },
    }
}

/// The findings about the shape of a file's `section`.
pub open spec fn file_shape_findings(file: ParsedFile, section: Seq<char>, sequence: bool) -> Seq<Finding> {
    match map_get(file.root@, section) {
        None => Seq::empty(),
        Some(v) => if sequence {
            match spec_as_sequence(v) {
                Some(entries) => findings_indexed(entries, |i: int, e: YamlValue| finding_if(spec_as_mapping(e) is None,
                    error_at("schema.item_type"@, "/"@ + section + seq!['/'] + decimal(i as nat)))),
                None => seq![error_at("schema.section_type"@, seq!['/'] + spec_escape_pointer(section))],
            }
        } else {
            match spec_as_mapping(v) {
                Some(m) => Seq::empty(),
                None => seq![error_at("schema.section_type"@, seq!['/'] + spec_escape_pointer(section))],
            }
        },
    }
}

/// The IDs of a list of entries.
pub open spec fn entry_ids(entries: Seq<(Seq<(YamlValue, YamlValue)>, Seq<char>)>) -> Seq<Seq<char>> {
    concat_over(entries, |e: (Seq<(YamlValue, YamlValue)>, Seq<char>)| match spec_string_field(e.0, "id"@) {
        Some(id) => seq![id],
        None => Seq::empty(),
    })
}

/// The finding of one entry: a missing `id`, or its registration.
pub open spec fn entry_findings(defs: Seq<(String, Definition)>, earlier: Seq<Seq<char>>, e: (Seq<(YamlValue, YamlValue)>, Seq<char>),
    allowed: Seq<Seq<char>>) -> Seq<Finding> {
    match spec_string_field(e.0, "id"@) {
        None => seq![error_at("id.missing"@, e.1 + "/id"@)],
        Some(id) => id_findings(lookup(defs, id) is Some || earlier.contains(id), id, e.1, allowed),
    }
}

/// The IDs of the section's items in the files before `f`.
pub open spec fn ids_before(parsed: Seq<ParsedFile>, section: Seq<char>, sequence: bool, f: int) -> Seq<Seq<char>> {
    concat_over(parsed.take(f), |g: ParsedFile| entry_ids(file_entries(g, section, sequence)))
}

/// The findings of one file's `section`.
pub open spec fn file_findings(defs: Seq<(String, Definition)>, parsed: Seq<ParsedFile>, section: Seq<char>, sequence: bool,
    allowed: Seq<Seq<char>>, f: int) -> Seq<Finding> {
    let entries = file_entries(parsed[f], section, sequence);
    file_shape_findings(parsed[f], section, sequence)
    + findings_indexed(entries, |k: int, e: (Seq<(YamlValue, YamlValue)>, Seq<char>)|
        entry_findings(defs, ids_before(parsed, section, sequence, f) + entry_ids(entries.take(k)), e, allowed))
}

/// The findings of collecting `section` over every file.
pub open spec fn section_findings(defs: Seq<(String, Definition)>, parsed: Seq<ParsedFile>, section: Seq<char>, sequence: bool,
    allowed: Seq<Seq<char>>) -> Seq<Finding> {
    findings_indexed(parsed, |f: int, p: ParsedFile| file_findings(defs, parsed, section, sequence, allowed, f))
}

/// The ID, path and pointer of each item of `section`, over every file.
pub open spec fn section_records(parsed: Seq<ParsedFile>, section: Seq<char>, sequence: bool) -> Seq<(Seq<char>, Seq<char>, Seq<char>)> {
    concat_over(parsed, |g: ParsedFile| concat_over(file_entries(g, section, sequence),
        |e: (Seq<(YamlValue, YamlValue)>, Seq<char>)| match spec_string_field(e.0, "id"@) {
            Some(id) => seq![(id, g.path@, e.1)],
            None => Seq::empty(),
        }))
}

/// The mapping and source text of the item that entry `e` of a file with `source` gives.
pub open spec fn entry_content(e: (Seq<(YamlValue, YamlValue)>, Seq<char>), source: Seq<char>) -> Seq<(Seq<(YamlValue, YamlValue)>, Seq<char>)> {
    match spec_string_field(e.0, "id"@) {
        Some(_) => seq![(e.0, source)],
        None => Seq::empty(),
    }
}

/// The mapping and source text of each item of `section` in one file.
pub open spec fn file_contents(g: ParsedFile, section: Seq<char>, sequence: bool) -> Seq<(Seq<(YamlValue, YamlValue)>, Seq<char>)> {
    concat_over(file_entries(g, section, sequence), |e: (Seq<(YamlValue, YamlValue)>, Seq<char>)| entry_content(e, g.source@))
}

/// The path, source text and root of a parsed file.
pub open spec fn parsed_view(g: ParsedFile) -> (Seq<char>, Seq<char>, Seq<(YamlValue, YamlValue)>) {
    (g.path@, g.source@, g.root@)
}

/// The mapping and source text of each item of `section`, over parsed files given by their
/// views.
pub open spec fn view_contents(views: Seq<(Seq<char>, Seq<char>, Seq<(YamlValue, YamlValue)>)>, section: Seq<char>, sequence: bool)
    -> Seq<(Seq<(YamlValue, YamlValue)>, Seq<char>)>
    decreases views.len(),
{
    if views.len() == 0 {
        Seq::empty()
    } else {
        view_contents(views.drop_last(), section, sequence) + concat_over(root_entries(views.last().2, section, sequence),
            |e: (Seq<(YamlValue, YamlValue)>, Seq<char>)| entry_content(e, views.last().1))
    }
}

/// The contents of a section depend only on the files' views.
pub proof fn lemma_section_contents_views(parsed: Seq<ParsedFile>, section: Seq<char>, sequence: bool)
    ensures
        section_contents(parsed, section, sequence) == view_contents(parsed.map_values(|g: ParsedFile| parsed_view(g)), section, sequence),
    decreases parsed.len(),
{
    if parsed.len() > 0 {
        lemma_section_contents_views(parsed.drop_last(), section, sequence);
        let views = parsed.map_values(|g: ParsedFile| parsed_view(g));
        assert(views.drop_last() =~= parsed.drop_last().map_values(|g: ParsedFile| parsed_view(g)));
        let last = parsed.last();
        assert(views.last() == parsed_view(last));
        assert((|e: (Seq<(YamlValue, YamlValue)>, Seq<char>)| entry_content(e, last.source@))
            =~= (|e: (Seq<(YamlValue, YamlValue)>, Seq<char>)| entry_content(e, views.last().1)));
    }
}

/// Collecting a section gives the same findings and records over files with the same views.
pub proof fn lemma_section_views_agree(defs: Seq<(String, Definition)>, p1: Seq<ParsedFile>, p2: Seq<ParsedFile>,
    section: Seq<char>, sequence: bool, allowed: Seq<Seq<char>>)
    requires
        p1.map_values(|g: ParsedFile| parsed_view(g)) == p2.map_values(|g: ParsedFile| parsed_view(g)),
    ensures
        section_findings(defs, p1, section, sequence, allowed) == section_findings(defs, p2, section, sequence, allowed),
        section_records(p1, section, sequence) == section_records(p2, section, sequence),
{
    assert(p1.len() == p2.map_values(|g: ParsedFile| parsed_view(g)).len());
    assert forall|i: int| 0 <= i < p1.len() implies (#[trigger] p1[i]).root@ == p2[i].root@ && p1[i].path@ == p2[i].path@ by {
        assert(p1.map_values(|g: ParsedFile| parsed_view(g))[i] == parsed_view(p1[i]));
        assert(p2.map_values(|g: ParsedFile| parsed_view(g))[i] == parsed_view(p2[i]));
    }
    let ids = |g: ParsedFile| entry_ids(file_entries(g, section, sequence));
    assert forall|f: int| 0 <= f <= p1.len() implies #[trigger] ids_before(p1, section, sequence, f) == ids_before(p2, section, sequence, f) by {
        assert forall|i: int| 0 <= i < p1.take(f).len() implies ids(#[trigger] p1.take(f)[i]) == ids(p2.take(f)[i]) by {
            assert(p1.take(f)[i] == p1[i]);
            assert(p2.take(f)[i] == p2[i]);
        }
        lemma_concat_over_same(p1.take(f), ids, p2.take(f), ids);
    }
    assert forall|f: int| 0 <= f < p1.len() implies
        file_findings(defs, p1, section, sequence, allowed, f) == file_findings(defs, p2, section, sequence, allowed, f) by {
        assert(ids_before(p1, section, sequence, f) == ids_before(p2, section, sequence, f));
        let entries = file_entries(p1[f], section, sequence);
        let c1 = |k: int, e: (Seq<(YamlValue, YamlValue)>, Seq<char>)|
            entry_findings(defs, ids_before(p1, section, sequence, f) + entry_ids(entries.take(k)), e, allowed);
        let c2 = |k: int, e: (Seq<(YamlValue, YamlValue)>, Seq<char>)|
            entry_findings(defs, ids_before(p2, section, sequence, f) + entry_ids(entries.take(k)), e, allowed);
        assert(c1 =~= c2);
    }
    crate::model::lemma_findings_indexed_same(p1, |f: int, p: ParsedFile| file_findings(defs, p1, section, sequence, allowed, f),
        p2, |f: int, p: ParsedFile| file_findings(defs, p2, section, sequence, allowed, f));
    let rec = |g: ParsedFile| concat_over(file_entries(g, section, sequence),
        |e: (Seq<(YamlValue, YamlValue)>, Seq<char>)| match spec_string_field(e.0, "id"@) {
            Some(id) => seq![(id, g.path@, e.1)],
            None => Seq::empty(),
        });
    assert forall|i: int| 0 <= i < p1.len() implies rec(#[trigger] p1[i]) == rec(p2[i]) by {
        let g1 = p1[i];
        let g2 = p2[i];
        assert((|e: (Seq<(YamlValue, YamlValue)>, Seq<char>)| match spec_string_field(e.0, "id"@) {
            Some(id) => seq![(id, g1.path@, e.1)],
            None => Seq::empty(),
        }) =~= (|e: (Seq<(YamlValue, YamlValue)>, Seq<char>)| match spec_string_field(e.0, "id"@) {
            Some(id) => seq![(id, g2.path@, e.1)],
            None => Seq::empty(),
        }));
    }
    lemma_concat_over_same(p1, rec, p2, rec);
}

/// The mapping and source text of each item of `section`, over every file.
pub open spec fn section_contents(parsed: Seq<ParsedFile>, section: Seq<char>, sequence: bool) -> Seq<(Seq<(YamlValue, YamlValue)>, Seq<char>)> {
    concat_over(parsed, |g: ParsedFile| file_contents(g, section, sequence))
}

/// `item` holds the mapping (node for node) and the source text of `c`.
pub open spec fn item_holds(item: Item, c: (Seq<(YamlValue, YamlValue)>, Seq<char>)) -> bool {
    same_entries(c.0, item.mapping@) && item.source@ == c.1
}

/// The items of `items` from `lo` on hold, in order, the contents `cs`.
pub open spec fn items_hold(items: Seq<Item>, lo: int, cs: Seq<(Seq<(YamlValue, YamlValue)>, Seq<char>)>) -> bool {
    &&& 0 <= lo
    &&& items.len() == lo + cs.len()
    &&& forall|i: int| lo <= i < items.len() ==> item_holds(#[trigger] items[i], cs[i - lo])
}

/// The ID, path and pointer of an item.
pub open spec fn item_record(item: Item) -> (Seq<char>, Seq<char>, Seq<char>) {
    (item.id@, item.path@, item.pointer@)
}

/// Every ID of `ids` is now defined, and definitions otherwise stay as they were.
pub open spec fn all_registered(before: Seq<(String, Definition)>, after: Seq<(String, Definition)>, ids: Seq<Seq<char>>, kind: Kind) -> bool {
    &&& forall|x: Seq<char>| #[trigger] lookup(after, x) is Some <==> (lookup(before, x) is Some || ids.contains(x))
    &&& forall|x: Seq<char>| #[trigger] kind_in(after, x) == if lookup(before, x) is Some { kind_in(before, x) }
        else if ids.contains(x) { Some(kind) } else { None }
}

/// The items of top-level section `section`: a sequence of
/// mappings, or one mapping when `sequence` is false. Every item needs a string `id` with
/// one of the `allowed` prefixes; IDs are registered as definitions of `kind`.
pub fn section_items(
    cx: &mut Context,
    out: &mut Vec<Diagnostic>,
    section: &str,
    kind: Kind,
    sequence: bool,
    allowed: &[&str],
) -> (result: Vec<Item>)
    ensures
        appended(old(out)@, final(out)@),
        added_findings(old(out)@, final(out)@) == section_findings(old(cx).definitions@, old(cx).parsed@, section@, sequence, str_views(allowed@)),
        all_registered(old(cx).definitions@, final(cx).definitions@,
            concat_over(old(cx).parsed@, |g: ParsedFile| entry_ids(file_entries(g, section@, sequence))), kind),
        result@.map_values(|it: Item| item_record(it)) == section_records(old(cx).parsed@, section@, sequence),
        items_hold(result@, 0, section_contents(old(cx).parsed@, section@, sequence)),
        defs_prefix(old(cx).definitions@, final(cx).definitions@),
        duplicates_cite_first(final(out)@, old(out)@.len() as int, final(out)@.len() as int, final(cx).definitions@),
        final(cx).parsed == old(cx).parsed,
        final(cx).sections == old(cx).sections,
        final(cx).format_version == old(cx).format_version,
        final(cx).features == old(cx).features,
        final(cx).supported_features == old(cx).supported_features,
        final(cx).format_compatible == old(cx).format_compatible,
        final(cx).feature_compatible == old(cx).feature_compatible,
        forall|i: int| 0 <= i < result@.len() ==> (#[trigger] result@[i]).kind == kind,
{
    let ghost defs0 = cx.definitions@;
    let ghost parsed = cx.parsed@;
    let ghost ids_of = |g: ParsedFile| entry_ids(file_entries(g, section@, sequence));
    let ghost recs = |g: ParsedFile| concat_over(file_entries(g, section@, sequence),
        |e: (Seq<(YamlValue, YamlValue)>, Seq<char>)| match spec_string_field(e.0, "id"@) {
            Some(id) => seq![(id, g.path@, e.1)],
            None => Seq::empty(),
        });
    let ghost ff = |f: int, p: ParsedFile| file_findings(defs0, parsed, section@, sequence, str_views(allowed@), f);
    let mut result: Vec<Item> = Vec::new();
    let mut f: usize = 0;
    proof {
        assert(cx.definitions@.subrange(0, cx.definitions@.len() as int) =~= cx.definitions@);
        lemma_added_findings_none(out@);
        assert(result@.map_values(|it: Item| item_record(it)) =~= concat_over(parsed.take(0), recs));
        assert(concat_over(parsed.take(0), |g: ParsedFile| file_contents(g, section@, sequence)).len() == 0);
    }
    while f < cx.parsed.len()
        invariant
            0 <= f <= cx.parsed@.len(),
            parsed == cx.parsed@,
            defs0 == old(cx).definitions@,
            parsed == old(cx).parsed@,
            cx.parsed == old(cx).parsed,
            ids_of == (|g: ParsedFile| entry_ids(file_entries(g, section@, sequence))),
            recs == (|g: ParsedFile| concat_over(file_entries(g, section@, sequence),
                |e: (Seq<(YamlValue, YamlValue)>, Seq<char>)| match spec_string_field(e.0, "id"@) {
                    Some(id) => seq![(id, g.path@, e.1)],
                    None => Seq::empty(),
                })),
            ff == (|f: int, p: ParsedFile| file_findings(defs0, parsed, section@, sequence, str_views(allowed@), f)),
            appended(old(out)@, out@),
            added_findings(old(out)@, out@) == findings_indexed(parsed.take(f as int), ff),
            duplicates_cite_first(out@, old(out)@.len() as int, out@.len() as int, cx.definitions@),
            defs_prefix(old(cx).definitions@, cx.definitions@),
            all_registered(defs0, cx.definitions@, concat_over(parsed.take(f as int), ids_of), kind),
            result@.map_values(|it: Item| item_record(it)) == concat_over(parsed.take(f as int), recs),
            items_hold(result@, 0, concat_over(parsed.take(f as int), |g: ParsedFile| file_contents(g, section@, sequence))),
            cx.sections == old(cx).sections,
            cx.format_version == old(cx).format_version,
            cx.features == old(cx).features,
            cx.supported_features == old(cx).supported_features,
            cx.format_compatible == old(cx).format_compatible,
            cx.feature_compatible == old(cx).feature_compatible,
            forall|i: int| 0 <= i < result@.len() ==> (#[trigger] result@[i]).kind == kind,
        decreases cx.parsed@.len() - f,
    {
        let ghost b = out@;
        let ghost r0 = result@;
        let ghost d0 = cx.definitions@;
        file_items(cx, out, f, section, kind, sequence, allowed, &mut result, Ghost(defs0));
        proof {
            lemma_cites_step(b, out@, old(out)@.len() as int, d0, cx.definitions@);
            lemma_defs_prefix_trans(old(cx).definitions@, d0, cx.definitions@);
            lemma_added_findings_trans(old(out)@, b, out@);
            lemma_findings_indexed_step(parsed, ff, f as int);
            lemma_concat_over_step(parsed, ids_of, f as int);
            lemma_concat_over_step(parsed, recs, f as int);
            lemma_concat_over_step(parsed, |g: ParsedFile| file_contents(g, section@, sequence), f as int);
            assert(result@.map_values(|it: Item| item_record(it)) =~= r0.map_values(|it: Item| item_record(it)) + recs(parsed[f as int]));
            let c0 = concat_over(parsed.take(f as int), |g: ParsedFile| file_contents(g, section@, sequence));
            let c1 = concat_over(parsed.take(f + 1), |g: ParsedFile| file_contents(g, section@, sequence));
            assert(c1 == c0 + file_contents(parsed[f as int], section@, sequence));
            assert forall|i: int| 0 <= i < result@.len() implies item_holds(#[trigger] result@[i], c1[i]) by {
                if i < r0.len() {
                    assert(result@[i] == r0[i]);
                    assert(item_holds(r0[i], c0[i]));
                }
            }
            let before_ids = concat_over(parsed.take(f as int), ids_of);
            let now_ids = concat_over(parsed.take(f + 1), ids_of);
            assert(now_ids == before_ids + ids_of(parsed[f as int]));
            assert forall|x: Seq<char>| #[trigger] now_ids.contains(x) <==> (before_ids.contains(x) || ids_of(parsed[f as int]).contains(x)) by {
                let here = ids_of(parsed[f as int]);
                if now_ids.contains(x) {
                    let j = choose|j: int| 0 <= j < now_ids.len() && now_ids[j] == x;
                    if j < before_ids.len() { assert(before_ids[j] == x); } else { assert(here[j - before_ids.len()] == x); }
                }
                if before_ids.contains(x) {
                    let j = choose|j: int| 0 <= j < before_ids.len() && before_ids[j] == x;
                    assert(now_ids[j] == x);
                }
                if here.contains(x) {
                    let j = choose|j: int| 0 <= j < here.len() && here[j] == x;
                    assert(now_ids[before_ids.len() + j] == x);
                }
            }
        }
        f += 1;
    }
    proof { lemma_take_all(parsed); }
    result
}

/// The section entries of file `f`, with their registration and items.
#[verifier::rlimit(60)]
fn file_items(
    cx: &mut Context,
    out: &mut Vec<Diagnostic>,
    f: usize,
    section: &str,
    kind: Kind,
    sequence: bool,
    allowed: &[&str],
    result: &mut Vec<Item>,
    Ghost(defs0): Ghost<Seq<(String, Definition)>>,
)
    requires
        f < old(cx).parsed@.len(),
        all_registered(defs0, old(cx).definitions@, ids_before(old(cx).parsed@, section@, sequence, f as int), kind),
    ensures
        appended(old(out)@, final(out)@),
        added_findings(old(out)@, final(out)@) == file_findings(defs0, old(cx).parsed@, section@, sequence, str_views(allowed@), f as int),
        all_registered(defs0, final(cx).definitions@, ids_before(old(cx).parsed@, section@, sequence, f as int)
            + entry_ids(file_entries(old(cx).parsed@[f as int], section@, sequence)), kind),
        final(result)@.map_values(|it: Item| item_record(it)) == old(result)@.map_values(|it: Item| item_record(it))
            + concat_over(file_entries(old(cx).parsed@[f as int], section@, sequence),
                |e: (Seq<(YamlValue, YamlValue)>, Seq<char>)| match spec_string_field(e.0, "id"@) {
                    Some(id) => seq![(id, old(cx).parsed@[f as int].path@, e.1)],
                    None => Seq::empty(),
                }),
        forall|i: int| 0 <= i < old(result)@.len() ==> final(result)@[i] == old(result)@[i],
        forall|i: int| old(result)@.len() <= i < final(result)@.len() ==> (#[trigger] final(result)@[i]).kind == kind,
        final(result)@.len() >= old(result)@.len(),
        items_hold(final(result)@, old(result)@.len() as int, file_contents(old(cx).parsed@[f as int], section@, sequence)),
        defs_prefix(old(cx).definitions@, final(cx).definitions@),
        duplicates_cite_first(final(out)@, old(out)@.len() as int, final(out)@.len() as int, final(cx).definitions@),
        final(cx).parsed == old(cx).parsed,
        final(cx).sections == old(cx).sections,
        final(cx).format_version == old(cx).format_version,
        final(cx).features == old(cx).features,
        final(cx).supported_features == old(cx).supported_features,
        final(cx).format_compatible == old(cx).format_compatible,
        final(cx).feature_compatible == old(cx).feature_compatible,
{
    let ghost parsed = cx.parsed@;
    let ghost file = cx.parsed@[f as int];
    let ghost entries = file_entries(file, section@, sequence);
    let path = cx.parsed[f].path.clone();
    let source = cx.parsed[f].source.clone();
    let mut values: Vec<(Vec<(YamlValue, YamlValue)>, String, Option<String>)> = Vec::new();
    proof { lemma_added_findings_none(out@); }
    match get(&cx.parsed[f].root, section) {
        None => {},
        Some(section_value) => {
            if sequence {
                match section_value.as_sequence() {
                    None => {
                        error_if(out, true, "schema.section_type", cat3("`", section, "` must be a sequence"),
                            path.as_str(), child("", section), None, None);
                        proof { reveal_strlit(""); assert(Seq::<char>::empty() + seq!['/'] == seq!['/']); }
                    },
                    Some(items) => {
                        let section_pointer = cat("/", section);
                        proof { reveal_strlit("/"); }
                        let ghost g = |i: int, e: YamlValue| finding_if(spec_as_mapping(e) is None,
                            error_at("schema.item_type"@, "/"@ + section@ + seq!['/'] + decimal(i as nat)));
                        let mut index: usize = 0;
                        while index < items.len()
                            invariant
                                0 <= index <= items@.len(),
                                section_pointer@ == "/"@ + section@,
                                g == (|i: int, e: YamlValue| finding_if(spec_as_mapping(e) is None,
                                    error_at("schema.item_type"@, "/"@ + section@ + seq!['/'] + decimal(i as nat)))),
                                appended(old(out)@, out@),
                                added_findings(old(out)@, out@) == findings_indexed(items@.take(index as int), g),
                                duplicates_cite_first(out@, old(out)@.len() as int, out@.len() as int, old(cx).definitions@),
                                values@.len() == sequence_entries(items@.take(index as int), section_pointer@).len(),
                                forall|j: int| 0 <= j < values@.len() ==> (#[trigger] values@[j]).1@
                                    == sequence_entries(items@.take(index as int), section_pointer@)[j].1
                                    && match values@[j].2 {
                                        Some(id) => spec_string_field(sequence_entries(items@.take(index as int), section_pointer@)[j].0, "id"@) == Some(id@),
                                        None => spec_string_field(sequence_entries(items@.take(index as int), section_pointer@)[j].0, "id"@) is None,
                                    }
                                    && same_entries(sequence_entries(items@.take(index as int), section_pointer@)[j].0, values@[j].0@),
                            decreases items@.len() - index,
                        {
                            let pointer = child_index(section_pointer.as_str(), index);
                            let ghost b = out@;
                            let ghost before = sequence_entries(items@.take(index as int), section_pointer@);
                            proof {
                                assert(items@.take(index + 1).drop_last() =~= items@.take(index as int));
                                assert(items@.take(index + 1).last() == items@[index as int]);
                            }
                            match items[index].as_mapping() {
                                Some(mapping) => {
                                    let id = match string_field(mapping, "id") { Some(i) => Some(owned(i)), None => None };
                                    values.push((duplicate_entries(mapping), pointer, id));
                                    proof { lemma_added_findings_none(b); }
                                },
                                None => {
                                    error_if(out, true, "schema.item_type", cat3("items in `", section, "` must be mappings"),
                                        path.as_str(), pointer, None, None);
                                },
                            }
                            proof {
                                lemma_added_findings_trans(old(out)@, b, out@);
                                lemma_findings_indexed_step(items@, g, index as int);
                                let d0 = old(cx).definitions@;
                                assert(d0.subrange(0, d0.len() as int) =~= d0);
                                lemma_cites_step(b, out@, old(out)@.len() as int, d0, d0);
                            }
                            index += 1;
                        }
                        proof { lemma_take_all(items@); }
                    },
                }
            } else {
                match section_value.as_mapping() {
                    None => {
                        error_if(out, true, "schema.section_type", cat3("`", section, "` must be a mapping"),
                            path.as_str(), child("", section), None, None);
                        proof { reveal_strlit(""); assert(Seq::<char>::empty() + seq!['/'] == seq!['/']); }
                    },
                    Some(mapping) => {
                        let id = match string_field(mapping, "id") { Some(i) => Some(owned(i)), None => None };
                        values.push((duplicate_entries(mapping), cat("/", section), id));
                        proof { reveal_strlit("/"); }
                    },
                }
            }
        },
    }
    proof {
        assert(values@.len() == entries.len());
    }
    let ghost s1 = out@;
    let ghost prior = ids_before(parsed, section@, sequence, f as int);
    let ghost r0 = result@;
    let ghost h = |k: int, e: (Seq<(YamlValue, YamlValue)>, Seq<char>)| entry_findings(defs0, prior + entry_ids(entries.take(k)), e, str_views(allowed@));
    let ghost rec = |e: (Seq<(YamlValue, YamlValue)>, Seq<char>)| match spec_string_field(e.0, "id"@) {
        Some(id) => seq![(id, file.path@, e.1)],
        None => Seq::empty(),
    };
    let ghost idf = |e: (Seq<(YamlValue, YamlValue)>, Seq<char>)| match spec_string_field(e.0, "id"@) {
        Some(id) => seq![id],
        None => Seq::empty(),
    };
    let mut v: usize = 0;
    proof {
        assert(cx.definitions@.subrange(0, cx.definitions@.len() as int) =~= cx.definitions@);
        lemma_added_findings_none(s1);
        assert(r0.map_values(|it: Item| item_record(it)) + concat_over(entries.take(0), rec) =~= r0.map_values(|it: Item| item_record(it)));
        assert(prior + entry_ids(entries.take(0)) =~= prior);
        assert(concat_over(entries.take(0), |e: (Seq<(YamlValue, YamlValue)>, Seq<char>)| entry_content(e, file.source@)).len() == 0);
    }
    while v < values.len()
        invariant
            0 <= v <= values@.len(),
            values@.len() == entries.len(),
            forall|j: int| 0 <= j < values@.len() ==> (#[trigger] values@[j]).1@ == entries[j].1
                && match values@[j].2 {
                    Some(id) => spec_string_field(entries[j].0, "id"@) == Some(id@),
                    None => spec_string_field(entries[j].0, "id"@) is None,
                }
                && same_entries(entries[j].0, values@[j].0@),
            source@ == file.source@,
            items_hold(result@, r0.len() as int, concat_over(entries.take(v as int),
                |e: (Seq<(YamlValue, YamlValue)>, Seq<char>)| entry_content(e, file.source@))),
            path@ == file.path@,
            h == (|k: int, e: (Seq<(YamlValue, YamlValue)>, Seq<char>)| entry_findings(defs0, prior + entry_ids(entries.take(k)), e, str_views(allowed@))),
            rec == (|e: (Seq<(YamlValue, YamlValue)>, Seq<char>)| match spec_string_field(e.0, "id"@) {
                Some(id) => seq![(id, file.path@, e.1)],
                None => Seq::empty(),
            }),
            idf == (|e: (Seq<(YamlValue, YamlValue)>, Seq<char>)| match spec_string_field(e.0, "id"@) {
                Some(id) => seq![id],
                None => Seq::empty(),
            }),
            appended(s1, out@),
            added_findings(s1, out@) == findings_indexed(entries.take(v as int), h),
            appended(old(out)@, s1),
            duplicates_cite_first(out@, old(out)@.len() as int, out@.len() as int, cx.definitions@),
            defs_prefix(old(cx).definitions@, cx.definitions@),
            all_registered(defs0, cx.definitions@, prior + entry_ids(entries.take(v as int)), kind),
            result@.map_values(|it: Item| item_record(it)) == r0.map_values(|it: Item| item_record(it)) + concat_over(entries.take(v as int), rec),
            forall|i: int| 0 <= i < r0.len() ==> result@[i] == r0[i],
            forall|i: int| r0.len() <= i < result@.len() ==> (#[trigger] result@[i]).kind == kind,
            result@.len() >= r0.len(),
            cx.parsed@ == parsed,
            cx.parsed == old(cx).parsed,
            cx.sections == old(cx).sections,
            cx.format_version == old(cx).format_version,
            cx.features == old(cx).features,
            cx.supported_features == old(cx).supported_features,
            cx.format_compatible == old(cx).format_compatible,
            cx.feature_compatible == old(cx).feature_compatible,
        decreases values@.len() - v,
    {
        let pointer = values[v].1.clone();
        let ghost b = out@;
        let ghost d = cx.definitions@;
        let ghost rv = result@;
        let ghost known = prior + entry_ids(entries.take(v as int));
        proof {
            lemma_concat_over_step(entries, idf, v as int);
            lemma_concat_over_step(entries, rec, v as int);
            lemma_concat_over_step(entries, |e: (Seq<(YamlValue, YamlValue)>, Seq<char>)| entry_content(e, file.source@), v as int);
        }
        match &values[v].2 {
            None => {
                let name = kind.name();
                proof { reveal_strlit("/id"); }
                error_if(out, true, "id.missing", cat(name.as_str(), " is missing a string `id`"), path.as_str(),
                    cat(pointer.as_str(), "/id"), None, None);
                proof {
                    assert(entry_ids(entries.take(v + 1)) =~= entry_ids(entries.take(v as int)));
                    assert(concat_over(entries.take(v + 1), rec) =~= concat_over(entries.take(v as int), rec));
                    assert(concat_over(entries.take(v + 1), |e: (Seq<(YamlValue, YamlValue)>, Seq<char>)| entry_content(e, file.source@))
                        =~= concat_over(entries.take(v as int), |e: (Seq<(YamlValue, YamlValue)>, Seq<char>)| entry_content(e, file.source@)));
                }
            },
            Some(id_text) => {
                let id = owned(id_text.as_str());
                let name = kind.name();
                let head = cat3(name.as_str(), " ID `", id.as_str());
                let message = cat3(head.as_str(), "` must start with ", prefix_list(allowed).as_str());
                proof {
                    assert(lookup(d, id@) is Some <==> (lookup(defs0, id@) is Some || known.contains(id@)));
                }
                register_id(cx, out, kind, id.as_str(), path.as_str(), source.as_str(), pointer.as_str(), allowed, message);
                let mapping = duplicate_entries(&values[v].0);
                let item_source = source.clone();
                proof {
                    lemma_same_entries_trans(entries[v as int].0, values@[v as int].0@, mapping@);
                }
                result.push(Item {
                    kind,
                    id,
                    path: path.clone(),
                    source: item_source,
                    pointer,
                    mapping,
                });
                proof {
                    let c0 = concat_over(entries.take(v as int), |e: (Seq<(YamlValue, YamlValue)>, Seq<char>)| entry_content(e, file.source@));
                    let c1 = concat_over(entries.take(v + 1), |e: (Seq<(YamlValue, YamlValue)>, Seq<char>)| entry_content(e, file.source@));
                    assert(c1 == c0 + seq![(entries[v as int].0, file.source@)]);
                    assert forall|i: int| r0.len() <= i < result@.len() implies item_holds(#[trigger] result@[i], c1[i - r0.len()]) by {
                        if i < rv.len() {
                            assert(result@[i] == rv[i]);
                            assert(item_holds(rv[i], c0[i - r0.len()]));
                        }
                    }
                }
                proof {
                    let now = prior + entry_ids(entries.take(v + 1));
                    assert(entry_ids(entries.take(v + 1)) == entry_ids(entries.take(v as int)) + seq![id_text@]);
                    assert(now =~= known + seq![id_text@]);
                    assert forall|x: Seq<char>| #[trigger] lookup(cx.definitions@, x) is Some <==> (lookup(defs0, x) is Some || now.contains(x)) by {
                        if now.contains(x) {
                            let j = choose|j: int| 0 <= j < now.len() && now[j] == x;
                            if j < known.len() { assert(known[j] == x); }
                        }
                        if known.contains(x) {
                            let j = choose|j: int| 0 <= j < known.len() && known[j] == x;
                            assert(now[j] == x);
                        }
                        if x == id_text@ { assert(now[known.len() as int] == x); }
                    }
                    assert forall|x: Seq<char>| #[trigger] kind_in(cx.definitions@, x) == if lookup(defs0, x) is Some { kind_in(defs0, x) }
                        else if now.contains(x) { Some(kind) } else { None } by {
                        if now.contains(x) {
                            let j = choose|j: int| 0 <= j < now.len() && now[j] == x;
                            if j < known.len() { assert(known[j] == x); }
                        }
                        if known.contains(x) {
                            let j = choose|j: int| 0 <= j < known.len() && known[j] == x;
                            assert(now[j] == x);
                        }
                        if x == id_text@ { assert(now[known.len() as int] == x); }
                    }
                    assert(result@.map_values(|it: Item| item_record(it)) =~= rv.map_values(|it: Item| item_record(it))
                        + seq![(id_text@, file.path@, entries[v as int].1)]);
                }
            },
        }
        proof {
            lemma_added_findings_trans(s1, b, out@);
            lemma_findings_indexed_step(entries, h, v as int);
        }
        proof {
            assert(d.subrange(0, d.len() as int) =~= d);
            lemma_cites_step(b, out@, old(out)@.len() as int, d, cx.definitions@);
            lemma_defs_prefix_trans(old(cx).definitions@, d, cx.definitions@);
        }
        v += 1;
    }
    proof {
        lemma_take_all(entries);
        lemma_added_findings_trans(old(out)@, s1, out@);
    }
}

/// The items of `section` whose IDs carry the prefix of `kind`.
pub fn items(cx: &mut Context, out: &mut Vec<Diagnostic>, section: &str, kind: Kind, sequence: bool) -> (result: Vec<Item>)
    ensures
        appended(old(out)@, final(out)@),
        added_findings(old(out)@, final(out)@)
            == section_findings(old(cx).definitions@, old(cx).parsed@, section@, sequence, seq![crate::kinds::kind_prefix(kind)]),
        all_registered(old(cx).definitions@, final(cx).definitions@,
            concat_over(old(cx).parsed@, |g: ParsedFile| entry_ids(file_entries(g, section@, sequence))), kind),
        result@.map_values(|it: Item| item_record(it)) == section_records(old(cx).parsed@, section@, sequence),
        items_hold(result@, 0, section_contents(old(cx).parsed@, section@, sequence)),
        defs_prefix(old(cx).definitions@, final(cx).definitions@),
        duplicates_cite_first(final(out)@, old(out)@.len() as int, final(out)@.len() as int, final(cx).definitions@),
        final(cx).parsed == old(cx).parsed,
        final(cx).sections == old(cx).sections,
        final(cx).format_version == old(cx).format_version,
        final(cx).features == old(cx).features,
        final(cx).supported_features == old(cx).supported_features,
        final(cx).format_compatible == old(cx).format_compatible,
        final(cx).feature_compatible == old(cx).feature_compatible,
        forall|i: int| 0 <= i < result@.len() ==> (#[trigger] result@[i]).kind == kind,
{
    let prefix = kind.prefix();
    let allowed: [&str; 1] = [prefix.as_str()];
    proof { assert(str_views(allowed@) =~= seq![crate::kinds::kind_prefix(kind)]); }
    section_items(cx, out, section, kind, sequence, &allowed)
}

/// The findings of the objects nested under `field` of one owner.
pub open spec fn nested_owner_findings(defs: Seq<(String, Definition)>, earlier: Seq<Seq<char>>, owner: Item, field: Seq<char>,
    kind: Kind) -> Seq<Finding> {
    let is_fact = field == "facts"@;
    let base = owner.pointer@ + "/"@ + field;
    match map_get(owner.mapping@, field) {
        None => Seq::empty(),
        Some(v) => match spec_as_sequence(v) {
            None => seq![error_at(if is_fact { "fact.collection_type"@ } else { "character.testimony_type"@ }, base)],
            Some(values) => findings_indexed(values, |i: int, e: YamlValue| {
                let at = base + seq!['/'] + decimal(i as nat);
                match spec_as_mapping(e) {
                    None => seq![error_at(if is_fact { "fact.item_type"@ } else { "character.testimony_entry_type"@ }, at)],
                    Some(m) => match spec_string_field(m, "id"@) {
                        None => seq![error_at("id.missing"@, at + "/id"@)],
                        Some(id) => id_findings(lookup(defs, id) is Some || earlier.contains(id)
                            || nested_ids(values.take(i)).contains(id), id, at, seq![crate::kinds::kind_prefix(kind)]),
                    },
                }
            }),
        },
    }
}

/// The IDs of nested object nodes.
pub open spec fn nested_ids(values: Seq<YamlValue>) -> Seq<Seq<char>> {
    concat_over(values, |e: YamlValue| match spec_as_mapping(e) {
        Some(m) => match spec_string_field(m, "id"@) {
            Some(id) => seq![id],
            None => Seq::empty(),
        },
        None => Seq::empty(),
    })
}

/// The ID, path and pointer of each nested item among the first `n` of `values`, whose
/// pointers extend `base` and which lie in the file at `path`.
pub open spec fn nested_records(values: Seq<YamlValue>, n: int, base: Seq<char>, path: Seq<char>) -> Seq<(Seq<char>, Seq<char>, Seq<char>)>
    decreases n,
{
    if n <= 0 {
        Seq::empty()
    } else {
        nested_records(values, n - 1, base, path) + match spec_as_mapping(values[n - 1]) {
            Some(m) => match spec_string_field(m, "id"@) {
                Some(id) => seq![(id, path, base + seq!['/'] + decimal((n - 1) as nat))],
                None => Seq::empty(),
            },
            None => Seq::empty(),
        }
    }
}

/// The mapping and source text of each nested item among the first `n` of `values`.
pub open spec fn nested_contents(values: Seq<YamlValue>, n: int, source: Seq<char>) -> Seq<(Seq<(YamlValue, YamlValue)>, Seq<char>)>
    decreases n,
{
    if n <= 0 {
        Seq::empty()
    } else {
        nested_contents(values, n - 1, source) + match spec_as_mapping(values[n - 1]) {
            Some(m) => match spec_string_field(m, "id"@) {
                Some(_) => seq![(m, source)],
                None => Seq::empty(),
            },
            None => Seq::empty(),
        }
    }
}

/// The sequence under `field` of an owner, if it is one.
pub open spec fn owner_values(owner: Item, field: Seq<char>) -> Seq<YamlValue> {
    match map_get(owner.mapping@, field) {
        Some(v) => match spec_as_sequence(v) {
            Some(values) => values,
            None => Seq::empty(),
        },
        None => Seq::empty(),
    }
}

/// The ID, path and pointer of each object nested under `field` of one owner.
pub open spec fn owner_records(owner: Item, field: Seq<char>) -> Seq<(Seq<char>, Seq<char>, Seq<char>)> {
    let values = owner_values(owner, field);
    nested_records(values, values.len() as int, owner.pointer@ + "/"@ + field, owner.path@)
}

/// The mapping and source text of each object nested under `field` of one owner.
pub open spec fn owner_contents(owner: Item, field: Seq<char>) -> Seq<(Seq<(YamlValue, YamlValue)>, Seq<char>)> {
    let values = owner_values(owner, field);
    nested_contents(values, values.len() as int, owner.source@)
}

/// The IDs nested under `field` of one owner.
pub open spec fn owner_nested_ids(owner: Item, field: Seq<char>) -> Seq<Seq<char>> {
    match map_get(owner.mapping@, field) {
        Some(v) => match spec_as_sequence(v) {
            Some(values) => nested_ids(values),
            None => Seq::empty(),
        },
        None => Seq::empty(),
    }
}

/// Owned objects nested under `field` of each owner (`nested_facts`, `nested_testimonies`):
/// `field` must be a sequence of mappings, each with a string `id` of `kind`.
pub fn nested_items(
    cx: &mut Context,
    out: &mut Vec<Diagnostic>,
    owners: &Vec<Item>,
    field: &str,
    kind: Kind,
    result: &mut Vec<Item>,
)
    ensures
        appended(old(out)@, final(out)@),
        added_findings(old(out)@, final(out)@) == findings_indexed(owners@, |o: int, owner: Item|
            nested_owner_findings(old(cx).definitions@, concat_over(owners@.take(o), |w: Item| owner_nested_ids(w, field@)), owner,
                field@, kind)),
        final(cx).parsed == old(cx).parsed,
        final(cx).sections == old(cx).sections,
        final(cx).format_version == old(cx).format_version,
        final(cx).features == old(cx).features,
        final(cx).supported_features == old(cx).supported_features,
        final(cx).format_compatible == old(cx).format_compatible,
        final(cx).feature_compatible == old(cx).feature_compatible,
        old(result)@.len() <= final(result)@.len(),
        forall|i: int| 0 <= i < old(result)@.len() ==> final(result)@[i] == old(result)@[i],
        forall|i: int| old(result)@.len() <= i < final(result)@.len() ==> (#[trigger] final(result)@[i]).kind == kind,
        all_registered(old(cx).definitions@, final(cx).definitions@,
            concat_over(owners@, |w: Item| owner_nested_ids(w, field@)), kind),
        final(result)@.subrange(old(result)@.len() as int, final(result)@.len() as int).map_values(|it: Item| item_record(it))
            == concat_over(owners@, |w: Item| owner_records(w, field@)),
        items_hold(final(result)@, old(result)@.len() as int, concat_over(owners@, |w: Item| owner_contents(w, field@))),
        defs_prefix(old(cx).definitions@, final(cx).definitions@),
        duplicates_cite_first(final(out)@, old(out)@.len() as int, final(out)@.len() as int, final(cx).definitions@),
{
    let is_fact = str_eq(field, "facts");
    let ghost defs0 = cx.definitions@;
    let ghost oid = |w: Item| owner_nested_ids(w, field@);
    let ghost ff = |o: int, owner: Item| nested_owner_findings(defs0, concat_over(owners@.take(o), oid), owner, field@, kind);
    let mut o: usize = 0;
    proof {
        assert(cx.definitions@.subrange(0, cx.definitions@.len() as int) =~= cx.definitions@);
        lemma_added_findings_none(out@);
        assert(result@.subrange(result@.len() as int, result@.len() as int).map_values(|it: Item| item_record(it))
            =~= concat_over(owners@.take(0), |w: Item| owner_records(w, field@)));
        assert(concat_over(owners@.take(0), |w: Item| owner_contents(w, field@)).len() == 0);
    }
    while o < owners.len()
        invariant
            0 <= o <= owners@.len(),
            is_fact == (field@ == "facts"@),
            defs0 == old(cx).definitions@,
            oid == (|w: Item| owner_nested_ids(w, field@)),
            ff == (|o: int, owner: Item| nested_owner_findings(defs0, concat_over(owners@.take(o), oid), owner, field@, kind)),
            appended(old(out)@, out@),
            added_findings(old(out)@, out@) == findings_indexed(owners@.take(o as int), ff),
            duplicates_cite_first(out@, old(out)@.len() as int, out@.len() as int, cx.definitions@),
            defs_prefix(old(cx).definitions@, cx.definitions@),
            all_registered(defs0, cx.definitions@, concat_over(owners@.take(o as int), oid), kind),
            cx.parsed == old(cx).parsed,
            cx.sections == old(cx).sections,
            cx.format_version == old(cx).format_version,
            cx.features == old(cx).features,
            cx.supported_features == old(cx).supported_features,
            cx.format_compatible == old(cx).format_compatible,
            cx.feature_compatible == old(cx).feature_compatible,
            old(result)@.len() <= result@.len(),
            forall|i: int| 0 <= i < old(result)@.len() ==> result@[i] == old(result)@[i],
            forall|i: int| old(result)@.len() <= i < result@.len() ==> (#[trigger] result@[i]).kind == kind,
            result@.subrange(old(result)@.len() as int, result@.len() as int).map_values(|it: Item| item_record(it))
                == concat_over(owners@.take(o as int), |w: Item| owner_records(w, field@)),
            items_hold(result@, old(result)@.len() as int, concat_over(owners@.take(o as int), |w: Item| owner_contents(w, field@))),
        decreases owners@.len() - o,
    {
        let ghost b = out@;
        let ghost d = cx.definitions@;
        let ghost rv = result@;
        let ghost prior = concat_over(owners@.take(o as int), oid);
        owner_items(cx, out, &owners[o], field, kind, is_fact, result, Ghost(defs0), Ghost(prior));
        proof {
            lemma_cites_step(b, out@, old(out)@.len() as int, d, cx.definitions@);
            lemma_defs_prefix_trans(old(cx).definitions@, d, cx.definitions@);
            lemma_added_findings_trans(old(out)@, b, out@);
            lemma_findings_indexed_step(owners@, ff, o as int);
            lemma_concat_over_step(owners@, oid, o as int);
            lemma_concat_over_step(owners@, |w: Item| owner_records(w, field@), o as int);
            lemma_concat_over_step(owners@, |w: Item| owner_contents(w, field@), o as int);
            let o0 = old(result)@.len() as int;
            assert(result@.subrange(o0, result@.len() as int).map_values(|it: Item| item_record(it))
                =~= rv.subrange(o0, rv.len() as int).map_values(|it: Item| item_record(it))
                    + result@.subrange(rv.len() as int, result@.len() as int).map_values(|it: Item| item_record(it)));
            let c0 = concat_over(owners@.take(o as int), |w: Item| owner_contents(w, field@));
            assert forall|i: int| o0 <= i < result@.len() implies item_holds(#[trigger] result@[i],
                concat_over(owners@.take(o + 1), |w: Item| owner_contents(w, field@))[i - o0]) by {
                if i < rv.len() {
                    assert(result@[i] == rv[i]);
                    assert(item_holds(rv[i], c0[i - o0]));
                }
            }
        }
        o += 1;
    }
    proof { lemma_take_all(owners@); }
}

/// The objects nested under `field` of one owner.
#[verifier::rlimit(60)]
fn owner_items(
    cx: &mut Context,
    out: &mut Vec<Diagnostic>,
    owner: &Item,
    field: &str,
    kind: Kind,
    is_fact: bool,
    result: &mut Vec<Item>,
    Ghost(defs0): Ghost<Seq<(String, Definition)>>,
    Ghost(prior): Ghost<Seq<Seq<char>>>,
)
    requires
        is_fact == (field@ == "facts"@),
        all_registered(defs0, old(cx).definitions@, prior, kind),
    ensures
        appended(old(out)@, final(out)@),
        added_findings(old(out)@, final(out)@) == nested_owner_findings(defs0, prior, *owner, field@, kind),
        all_registered(defs0, final(cx).definitions@, prior + owner_nested_ids(*owner, field@), kind),
        final(cx).parsed == old(cx).parsed,
        final(cx).sections == old(cx).sections,
        final(cx).format_version == old(cx).format_version,
        final(cx).features == old(cx).features,
        final(cx).supported_features == old(cx).supported_features,
        final(cx).format_compatible == old(cx).format_compatible,
        final(cx).feature_compatible == old(cx).feature_compatible,
        old(result)@.len() <= final(result)@.len(),
        forall|i: int| 0 <= i < old(result)@.len() ==> final(result)@[i] == old(result)@[i],
        forall|i: int| old(result)@.len() <= i < final(result)@.len() ==> (#[trigger] final(result)@[i]).kind == kind,
        final(result)@.subrange(old(result)@.len() as int, final(result)@.len() as int).map_values(|it: Item| item_record(it))
            == owner_records(*owner, field@),
        items_hold(final(result)@, old(result)@.len() as int, owner_contents(*owner, field@)),
        defs_prefix(old(cx).definitions@, final(cx).definitions@),
        duplicates_cite_first(final(out)@, old(out)@.len() as int, final(out)@.len() as int, final(cx).definitions@),
{
    proof {
        assert(cx.definitions@.subrange(0, cx.definitions@.len() as int) =~= cx.definitions@);
        lemma_added_findings_none(out@);
        assert(prior + Seq::<Seq<char>>::empty() =~= prior);
        assert(result@.subrange(result@.len() as int, result@.len() as int).map_values(|it: Item| item_record(it))
            =~= Seq::<(Seq<char>, Seq<char>, Seq<char>)>::empty());
    }
    let value = match get(&owner.mapping, field) {
        Some(v) => v,
        None => {
            proof {
                assert(owner_records(*owner, field@) =~= Seq::<(Seq<char>, Seq<char>, Seq<char>)>::empty());
                assert(owner_contents(*owner, field@) =~= Seq::<(Seq<(YamlValue, YamlValue)>, Seq<char>)>::empty());
            }
            return;
        },
    };
    let collection_pointer = cat3(owner.pointer.as_str(), "/", field);
    proof { reveal_strlit("/"); reveal_strlit("/id"); }
    let values = match value.as_sequence() {
        Some(values) => values,
        None => {
            proof {
                assert(owner_records(*owner, field@) =~= Seq::<(Seq<char>, Seq<char>, Seq<char>)>::empty());
                assert(owner_contents(*owner, field@) =~= Seq::<(Seq<(YamlValue, YamlValue)>, Seq<char>)>::empty());
            }
            if is_fact {
                error_if(out, true, "fact.collection_type", owned("owner `facts` must be a sequence of fact mappings"),
                    owner.path.as_str(), collection_pointer, None, Some(owner.id.clone()));
            } else {
                error_if(out, true, "character.testimony_type",
                    owned("character `testimony` must be a sequence of player-safe testimony mappings"),
                    owner.path.as_str(), collection_pointer, None, Some(owner.id.clone()));
            }
            return;
        },
    };
    let ghost all = values@;
    let ghost nid = |e: YamlValue| match spec_as_mapping(e) {
        Some(m) => match spec_string_field(m, "id"@) {
            Some(id) => seq![id],
            None => Seq::empty(),
        },
        None => Seq::empty(),
    };
    let ghost g = |i: int, e: YamlValue| {
        let at = collection_pointer@ + seq!['/'] + decimal(i as nat);
        match spec_as_mapping(e) {
            None => seq![error_at(if is_fact { "fact.item_type"@ } else { "character.testimony_entry_type"@ }, at)],
            Some(m) => match spec_string_field(m, "id"@) {
                None => seq![error_at("id.missing"@, at + "/id"@)],
                Some(id) => id_findings(lookup(defs0, id) is Some || prior.contains(id)
                    || nested_ids(all.take(i)).contains(id), id, at, seq![crate::kinds::kind_prefix(kind)]),
            },
        }
    };
    let mut index: usize = 0;
    proof { assert(prior + nested_ids(all.take(0)) =~= prior); }
    while index < values.len()
        invariant
            0 <= index <= values@.len(),
            all == values@,
            is_fact == (field@ == "facts"@),
            collection_pointer@ == owner.pointer@ + "/"@ + field@,
            nid == (|e: YamlValue| match spec_as_mapping(e) {
                Some(m) => match spec_string_field(m, "id"@) {
                    Some(id) => seq![id],
                    None => Seq::empty(),
                },
                None => Seq::empty(),
            }),
            g == (|i: int, e: YamlValue| {
                let at = collection_pointer@ + seq!['/'] + decimal(i as nat);
                match spec_as_mapping(e) {
                    None => seq![error_at(if is_fact { "fact.item_type"@ } else { "character.testimony_entry_type"@ }, at)],
                    Some(m) => match spec_string_field(m, "id"@) {
                        None => seq![error_at("id.missing"@, at + "/id"@)],
                        Some(id) => id_findings(lookup(defs0, id) is Some || prior.contains(id)
                            || nested_ids(all.take(i)).contains(id), id, at, seq![crate::kinds::kind_prefix(kind)]),
                    },
                }
            }),
            appended(old(out)@, out@),
            added_findings(old(out)@, out@) == findings_indexed(all.take(index as int), g),
            duplicates_cite_first(out@, old(out)@.len() as int, out@.len() as int, cx.definitions@),
            defs_prefix(old(cx).definitions@, cx.definitions@),
            all_registered(defs0, cx.definitions@, prior + nested_ids(all.take(index as int)), kind),
            cx.parsed == old(cx).parsed,
            cx.sections == old(cx).sections,
            cx.format_version == old(cx).format_version,
            cx.features == old(cx).features,
            cx.supported_features == old(cx).supported_features,
            cx.format_compatible == old(cx).format_compatible,
            cx.feature_compatible == old(cx).feature_compatible,
            old(result)@.len() <= result@.len(),
            forall|i: int| 0 <= i < old(result)@.len() ==> result@[i] == old(result)@[i],
            forall|i: int| old(result)@.len() <= i < result@.len() ==> (#[trigger] result@[i]).kind == kind,
            result@.subrange(old(result)@.len() as int, result@.len() as int).map_values(|it: Item| item_record(it))
                == nested_records(all, index as int, collection_pointer@, owner.path@),
            items_hold(result@, old(result)@.len() as int, nested_contents(all, index as int, owner.source@)),
        decreases values@.len() - index,
    {
        let pointer = child_index(collection_pointer.as_str(), index);
        let ghost rv = result@;
        let ghost b = out@;
        let ghost known = prior + nested_ids(all.take(index as int));
        let ghost d = cx.definitions@;
        proof { lemma_concat_over_step(all, nid, index as int); }
        match values[index].as_mapping() {
            None => {
                if is_fact {
                    error_if(out, true, "fact.item_type", owned("items in owner `facts` must be mappings"),
                        owner.path.as_str(), pointer, None, Some(owner.id.clone()));
                } else {
                    error_if(out, true, "character.testimony_entry_type",
                        owned("character testimony entries must be mappings"),
                        owner.path.as_str(), pointer, None, Some(owner.id.clone()));
                }
                proof { assert(nested_ids(all.take(index + 1)) =~= nested_ids(all.take(index as int))); }
            },
            Some(mapping) => {
                match string_field(mapping, "id") {
                    None => {
                        if is_fact {
                            error_if(out, true, "id.missing", owned("fact is missing a string `id`"),
                                owner.path.as_str(), cat(pointer.as_str(), "/id"), None, None);
                        } else {
                            error_if(out, true, "id.missing", owned("character testimony is missing a string `id`"),
                                owner.path.as_str(), cat(pointer.as_str(), "/id"), None, Some(owner.id.clone()));
                        }
                        proof { assert(nested_ids(all.take(index + 1)) =~= nested_ids(all.take(index as int))); }
                    },
                    Some(id_text) => {
                        let id = owned(id_text);
                        let prefix = kind.prefix();
                        let allowed: [&str; 1] = [prefix.as_str()];
                        proof {
                            lemma_contains_concat(prior, nested_ids(all.take(index as int)), id_text@);
                            assert(lookup(cx.definitions@, id@) is Some <==> (lookup(defs0, id@) is Some || prior.contains(id@)
                                || nested_ids(all.take(index as int)).contains(id@)));
                        }
                        proof { assert(str_views(allowed@) =~= seq![crate::kinds::kind_prefix(kind)]); }
                        let head = if is_fact { cat3("fact ID `", id.as_str(), "` must start with `fact.`") }
                            else { cat3("testimony ID `", id.as_str(), "` must start with `testimony.`") };
                        register_id(cx, out, kind, id.as_str(), owner.path.as_str(), owner.source.as_str(),
                            pointer.as_str(), &allowed, head);
                        let ghost item_pointer = pointer@;
                        let ghost item_id = id@;
                        let copy = duplicate_entries(mapping);
                        result.push(Item {
                            kind,
                            id,
                            path: owner.path.clone(),
                            source: owner.source.clone(),
                            pointer,
                            mapping: copy,
                        });
                        proof {
                            let o0 = old(result)@.len() as int;
                            assert(result@.subrange(o0, result@.len() as int).map_values(|it: Item| item_record(it))
                                =~= rv.subrange(o0, rv.len() as int).map_values(|it: Item| item_record(it))
                                    + seq![(item_id, owner.path@, item_pointer)]);
                            assert forall|i: int| o0 <= i < result@.len() implies item_holds(#[trigger] result@[i],
                                nested_contents(all, index + 1, owner.source@)[i - o0]) by {
                                if i < rv.len() {
                                    assert(result@[i] == rv[i]);
                                    assert(item_holds(rv[i], nested_contents(all, index as int, owner.source@)[i - o0]));
                                }
                            }
                            let now = prior + nested_ids(all.take(index + 1));
                            assert(now =~= known + seq![id_text@]);
                            assert forall|x: Seq<char>| #[trigger] lookup(cx.definitions@, x) is Some <==> (lookup(defs0, x) is Some || now.contains(x)) by {
                                if now.contains(x) {
                                    let j = choose|j: int| 0 <= j < now.len() && now[j] == x;
                                    if j < known.len() { assert(known[j] == x); }
                                }
                                if known.contains(x) {
                                    let j = choose|j: int| 0 <= j < known.len() && known[j] == x;
                                    assert(now[j] == x);
                                }
                                if x == id_text@ { assert(now[known.len() as int] == x); }
                            }
                            assert forall|x: Seq<char>| #[trigger] kind_in(cx.definitions@, x) == if lookup(defs0, x) is Some { kind_in(defs0, x) }
                                else if now.contains(x) { Some(kind) } else { None } by {
                                if now.contains(x) {
                                    let j = choose|j: int| 0 <= j < now.len() && now[j] == x;
                                    if j < known.len() { assert(known[j] == x); }
                                }
                                if known.contains(x) {
                                    let j = choose|j: int| 0 <= j < known.len() && known[j] == x;
                                    assert(now[j] == x);
                                }
                                if x == id_text@ { assert(now[known.len() as int] == x); }
                            }
                        }
                    },
                }
            },
        }
        proof {
            lemma_added_findings_trans(old(out)@, b, out@);
            lemma_findings_indexed_step(all, g, index as int);
            assert(d.subrange(0, d.len() as int) =~= d);
            lemma_cites_step(b, out@, old(out)@.len() as int, d, cx.definitions@);
            lemma_defs_prefix_trans(old(cx).definitions@, d, cx.definitions@);
        }
        index += 1;
    }
    proof { lemma_take_all(all); }
}

/// Every ID is defined once: an item of `section` whose ID an earlier item (or an earlier
/// definition) already has is reported as a duplicate at its own `id`.
pub proof fn lemma_repeated_id_is_reported(defs: Seq<(String, Definition)>, parsed: Seq<ParsedFile>, section: Seq<char>,
    sequence: bool, allowed: Seq<Seq<char>>, f: int, k: int)
    requires
        0 <= f < parsed.len(),
        0 <= k < file_entries(parsed[f], section, sequence).len(),
        spec_string_field(file_entries(parsed[f], section, sequence)[k].0, "id"@) matches Some(id)
            && (lookup(defs, id) is Some || ids_before(parsed, section, sequence, f).contains(id)
                || entry_ids(file_entries(parsed[f], section, sequence).take(k)).contains(id)),
    ensures
        section_findings(defs, parsed, section, sequence, allowed).contains(
            error_at("id.duplicate"@, file_entries(parsed[f], section, sequence)[k].1 + "/id"@)),
{
    let entries = file_entries(parsed[f], section, sequence);
    let e = entries[k];
    let id = spec_string_field(e.0, "id"@)->0;
    let x = error_at("id.duplicate"@, e.1 + "/id"@);
    let earlier = ids_before(parsed, section, sequence, f) + entry_ids(entries.take(k));
    lemma_contains_concat(ids_before(parsed, section, sequence, f), entry_ids(entries.take(k)), id);
    let found = id_findings(lookup(defs, id) is Some || earlier.contains(id), id, e.1, allowed);
    assert(found.last() == x);
    assert(found.contains(x));
    let h = |k2: int, e2: (Seq<(YamlValue, YamlValue)>, Seq<char>)|
        entry_findings(defs, ids_before(parsed, section, sequence, f) + entry_ids(entries.take(k2)), e2, allowed);
    assert(h(k, e) == found);
    lemma_findings_indexed_contains(entries, h, k, x);
    let shape = file_shape_findings(parsed[f], section, sequence);
    let body = findings_indexed(entries, h);
    let j = choose|j: int| 0 <= j < body.len() && body[j] == x;
    assert((shape + body)[shape.len() + j] == x);
    assert(file_findings(defs, parsed, section, sequence, allowed, f) == shape + body);
    lemma_findings_indexed_contains(parsed, |f2: int, p: ParsedFile| file_findings(defs, parsed, section, sequence, allowed, f2), f, x);
}

} // verus!
