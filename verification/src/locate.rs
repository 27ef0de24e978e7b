//! Best-effort source ranges for diagnostics.

use vstd::prelude::*;
use crate::pointers::{spec_split, split_chars, first_occurrence, spec_contains, find_chars, occurs_at};
use crate::report::{Position, SourceRange};
use crate::text::{chars_of, is_white_space, char_is_white_space, skip_white_space};

verus! {

/// Bytes in the UTF-8 encoding of `c`.
pub open spec fn char_utf8_len(c: char) -> nat {
    if (c as u32) < 0x80 { 1 } else if (c as u32) < 0x800 { 2 } else if (c as u32) < 0x10000 { 3 } else { 4 }
}

/// Bytes in the UTF-8 encoding of `s`.
pub open spec fn utf8_len(s: Seq<char>) -> nat
    decreases s.len(),
{
    if s.len() == 0 { 0 } else { utf8_len(s.drop_last()) + char_utf8_len(s.last()) }
}

/// Byte length of `s` (`str::len`), computed from its characters.
pub fn utf8_len_exec(s: &[char]) -> (r: usize)
    requires
        utf8_len(s@) <= usize::MAX,
    ensures
        r == utf8_len(s@),
{
    let mut n: usize = 0;
    let mut i: usize = 0;
    while i < s.len()
        invariant
            0 <= i <= s@.len(),
            n == utf8_len(s@.subrange(0, i as int)),
            utf8_len(s@) <= usize::MAX,
        decreases s@.len() - i,
    {
        proof {
            assert(s@.subrange(0, i + 1).drop_last() =~= s@.subrange(0, i as int));
            lemma_utf8_len_prefix(s@, i + 1);
        }
        let c = s[i];
        let w: usize = if (c as u32) < 0x80 { 1 } else if (c as u32) < 0x800 { 2 } else if (c as u32) < 0x10000 { 3 } else { 4 };
        n = n + w;
        i += 1;
    }
    proof {
        assert(s@.subrange(0, s@.len() as int) =~= s@);
    }
    n
}

pub proof fn lemma_utf8_len_prefix(s: Seq<char>, i: int)
    requires
        0 <= i <= s.len(),
    ensures
        utf8_len(s.subrange(0, i)) <= utf8_len(s),
    decreases s.len() - i,
{
    if i < s.len() {
        lemma_utf8_len_prefix(s, i + 1);
        assert(s.subrange(0, i + 1).drop_last() =~= s.subrange(0, i));
    } else {
        assert(s.subrange(0, i) =~= s);
    }
}

/// `l` without one trailing carriage return.
pub open spec fn strip_cr(l: Seq<char>) -> Seq<char> {
    if l.len() > 0 && l.last() == '\r' { l.drop_last() } else { l }
}

/// The lines of `s` as `str::lines` yields them: split at `\n`, a `\r` before a `\n`
/// dropped, and no empty line after a final `\n`.
pub open spec fn spec_lines(s: Seq<char>) -> Seq<Seq<char>> {
    let parts = spec_split(s, '\n');
    let n = parts.len() as int;
    let count = if parts[n - 1].len() == 0 { n - 1 } else { n };
    Seq::new(count as nat, |i: int| if i < n - 1 { strip_cr(parts[i]) } else { parts[i] })
}

/// `str::lines`.
pub fn lines_of(s: &[char]) -> (r: Vec<Vec<char>>)
    ensures
        r@.len() == spec_lines(s@).len(),
        forall|i: int| 0 <= i < r@.len() ==> (#[trigger] r@[i])@ == spec_lines(s@)[i],
{
    let parts = split_chars(s, '\n');
    proof {
        crate::pointers::lemma_split_nonempty_pub(s@, '\n');
    }
    let n = parts.len();
    let count = if parts[n - 1].len() == 0 { n - 1 } else { n };
    let mut r: Vec<Vec<char>> = Vec::new();
    let mut i: usize = 0;
    while i < count
        invariant
            0 <= i <= count <= n,
            n == parts@.len(),
            n == spec_split(s@, '\n').len(),
            count == spec_lines(s@).len(),
            r@.len() == i,
            forall|k: int| 0 <= k < i ==> (#[trigger] r@[k])@ == spec_lines(s@)[k],
        decreases count - i,
    {
        let p = &parts[i];
        let line: Vec<char> = if i + 1 < n && p.len() > 0 && p[p.len() - 1] == '\r' {
            let mut l = p.clone();
            l.pop();
            l
        } else {
            p.clone()
        };
        proof {
            if i + 1 < n && p@.len() > 0 && p@.last() == '\r' {
                assert(line@ =~= p@.drop_last());
            }
        }
        r.push(line);
        i += 1;
    }
    r
}

/// The range of the first occurrence of `scalar` in the first line that contains it;
/// columns count bytes.
pub open spec fn spec_locate_scalar(source: Seq<char>, scalar: Seq<char>, r: Option<SourceRange>) -> bool {
    let lines = spec_lines(source);
    match r {
        Some(range) => exists|li: int, ci: int| {
            &&& 0 <= li < lines.len()
            &&& (forall|lj: int| 0 <= lj < li ==> !spec_contains(#[trigger] lines[lj], scalar))
            &&& first_occurrence(lines[li], scalar, ci)
            &&& range.start.line == li + 1
            &&& range.end.line == li + 1
            &&& range.start.column == utf8_len(lines[li].subrange(0, ci)) + 1
            &&& range.end.column == utf8_len(lines[li].subrange(0, ci)) + utf8_len(scalar) + 1
        },
        None => forall|li: int| 0 <= li < lines.len() ==> !spec_contains(#[trigger] lines[li], scalar),
    }
}

/// Text small enough for byte offsets to be computed without overflow (at most 1 GiB).
pub open spec fn fits(source: Seq<char>) -> bool {
    utf8_len(source) <= 0x4000_0000 && source.len() <= 0x4000_0000
}

/// `s.len() <= utf8_len(s)`: every character takes at least one byte.
proof fn lemma_len_le_utf8_len(s: Seq<char>)
    ensures
        s.len() <= utf8_len(s),
    decreases s.len(),
{
    if s.len() > 0 {
        lemma_len_le_utf8_len(s.drop_last());
    }
}

/// Whether `s` fits: its UTF-8 length is at most 1 GiB.
pub fn fits_exec(s: &[char]) -> (r: bool)
    ensures
        r == fits(s@),
{
    let mut n: usize = 0;
    let mut i: usize = 0;
    while i < s.len()
        invariant
            0 <= i <= s@.len(),
            n == utf8_len(s@.subrange(0, i as int)),
            n <= 0x4000_0000,
        decreases s@.len() - i,
    {
        proof {
            assert(s@.subrange(0, i + 1).drop_last() =~= s@.subrange(0, i as int));
        }
        let c = s[i];
        let w: usize = if (c as u32) < 0x80 { 1 } else if (c as u32) < 0x800 { 2 } else if (c as u32) < 0x10000 { 3 } else { 4 };
        if n + w > 0x4000_0000 {
            proof {
                lemma_utf8_len_prefix(s@, i + 1);
            }
            return false;
        }
        n = n + w;
        i += 1;
    }
    proof {
        assert(s@.subrange(0, s@.len() as int) =~= s@);
        lemma_len_le_utf8_len(s@);
    }
    true
}

proof fn lemma_split_bound(s: Seq<char>, sep: char)
    ensures
        forall|i: int| 0 <= i < spec_split(s, sep).len() ==> utf8_len(#[trigger] spec_split(s, sep)[i]) <= utf8_len(s),
    decreases s.len(),
{
    crate::pointers::lemma_split_nonempty_pub(s, sep);
    if s.len() > 0 {
        lemma_split_bound(s.drop_last(), sep);
        crate::pointers::lemma_split_nonempty_pub(s.drop_last(), sep);
        let parts = spec_split(s.drop_last(), sep);
        if s.last() != sep {
            let last = parts.last().push(s.last());
            assert(last.drop_last() =~= parts.last());
            assert forall|i: int| 0 <= i < spec_split(s, sep).len() implies utf8_len(#[trigger] spec_split(s, sep)[i]) <= utf8_len(s) by {
                if i < parts.len() - 1 {
                    assert(spec_split(s, sep)[i] == parts[i]);
                }
            }
        } else {
            assert forall|i: int| 0 <= i < spec_split(s, sep).len() implies utf8_len(#[trigger] spec_split(s, sep)[i]) <= utf8_len(s) by {
                if i < parts.len() {
                    assert(spec_split(s, sep)[i] == parts[i]);
                } else {
                    assert(spec_split(s, sep)[i] =~= Seq::<char>::empty());
                }
            }
        }
    }
}

proof fn lemma_line_bound(source: Seq<char>, li: int)
    requires
        0 <= li < spec_lines(source).len(),
    ensures
        utf8_len(spec_lines(source)[li]) <= utf8_len(source),
{
    lemma_split_bound(source, '\n');
    crate::pointers::lemma_split_nonempty_pub(source, '\n');
    let parts = spec_split(source, '\n');
    assert(utf8_len(parts[li]) <= utf8_len(source));
    let l = parts[li];
    if l.len() > 0 && l.last() == '\r' {
        assert(utf8_len(l.drop_last()) <= utf8_len(l));
    }
}

pub fn locate_scalar(source: &str, scalar: &str) -> (r: Option<SourceRange>)
    ensures
        fits(source@) && fits(scalar@) ==> spec_locate_scalar(source@, scalar@, r),
        !(fits(source@) && fits(scalar@)) ==> r is None,
{
    let s = chars_of(source);
    let t = chars_of(scalar);
    if !(fits_exec(s.as_slice()) && fits_exec(t.as_slice())) {
        return None;
    }
    let lines = lines_of(s.as_slice());
    let mut li: usize = 0;
    while li < lines.len()
        invariant
            0 <= li <= lines@.len(),
            forall|lj: int| 0 <= lj < li ==> !spec_contains(#[trigger] spec_lines(source@)[lj], scalar@),
        decreases lines@.len() - li,
    {
        let line = lines[li].as_slice();
        match find_chars(line, t.as_slice()) {
            Some(ci) => {
                proof {
                    assert(line@ == spec_lines(source@)[li as int]);
                    lemma_line_bound(source@, li as int);
                    lemma_utf8_len_prefix(line@, ci as int);
                }
                let col = utf8_len_exec(&line[0..ci]);
                let width = utf8_len_exec(t.as_slice());
                assert(col <= utf8_len(source@));
                let range = SourceRange {
                    start: Position { line: li + 1, column: col + 1 },
                    end: Position { line: li + 1, column: col + width + 1 },
                };
                return Some(range);
            },
            None => {},
        }
        li += 1;
    }
    None
}

} // verus!

verus! {

/// Index just past the white space that starts `s` (`trim_start`).
pub fn skip_ws(s: &[char], from: usize) -> (r: usize)
    requires
        from <= s@.len(),
    ensures
        from <= r <= s@.len(),
        forall|k: int| from <= k < r ==> is_white_space(#[trigger] s@[k]),
        r == s@.len() || !is_white_space(s@[r as int]),
        r == skip_white_space(s@, from as int),
{
    let mut i = from;
    while i < s.len() && char_is_white_space(s[i])
        invariant
            from <= i <= s@.len(),
            forall|k: int| from <= k < i ==> is_white_space(#[trigger] s@[k]),
            skip_white_space(s@, i as int) == skip_white_space(s@, from as int),
        decreases s@.len() - i,
    {
        i += 1;
    }
    i
}

pub proof fn lemma_skip_is_spec(s: Seq<char>, r: int)
    requires
        0 <= r <= s.len(),
        forall|k: int| 0 <= k < r ==> is_white_space(#[trigger] s[k]),
        r == s.len() || !is_white_space(s[r]),
    ensures
        crate::text::skip_white_space(s, 0) == r,
{
    crate::text::lemma_skip_white_space(s, r);
}

/// The character column at which an `id:` line of `line` names `id`, if it does: `id:` is
/// the first such key on the line, only blanks or a `-` precede it, and after optional
/// white space and one optional quote the value starts with `id`.
pub open spec fn id_line_column(line: Seq<char>, id: Seq<char>) -> Option<int> {
    let key = "id:"@;
    if spec_contains(line, key) {
        let k = choose|k: int| first_occurrence(line, key, k);
        let prefix = crate::text::spec_trim(line.subrange(0, k));
        if !(prefix.len() == 0 || prefix == "-"@) {
            None
        } else {
            let u = line.subrange(k + 3, line.len() as int);
            let w = crate::text::skip_white_space(u, 0);
            let rest = u.subrange(w, u.len() as int);
            let q = if rest.len() > 0 && (rest[0] == '\'' || rest[0] == '"') { 1int } else { 0int };
            if occurs_at(rest, id, q) { Some(k + 3 + w + q) } else { None }
        }
    } else {
        None
    }
}

/// The range of `id` on the first `id:` line that declares it; columns count bytes.
pub open spec fn spec_locate_id(source: Seq<char>, id: Seq<char>, r: Option<SourceRange>) -> bool {
    let lines = spec_lines(source);
    match r {
        Some(range) => exists|li: int| {
            &&& 0 <= li < lines.len()
            &&& (forall|lj: int| 0 <= lj < li ==> (#[trigger] id_line_column(lines[lj], id)) is None)
            &&& id_line_column(lines[li], id) is Some
            &&& range.start.line == li + 1
            &&& range.end.line == li + 1
            &&& range.start.column == utf8_len(lines[li].subrange(0, id_line_column(lines[li], id)->0)) + 1
            &&& range.end.column == range.start.column + utf8_len(id)
        },
        None => forall|li: int| 0 <= li < lines.len() ==> (#[trigger] id_line_column(lines[li], id)) is None,
    }
}

fn is_blank_or_dash(s: &[char]) -> (r: bool)
    ensures
        r == (crate::text::spec_trim(s@).len() == 0 || crate::text::spec_trim(s@) == "-"@),
{
    let owned = crate::text::string_from_chars(s);
    let t = crate::text::trim(owned.as_str());
    t.as_str().is_empty() || crate::text::str_eq(t.as_str(), "-")
}

fn id_line_column_exec(line: &[char], id: &[char]) -> (r: Option<usize>)
    ensures
        match r {
            Some(c) => id_line_column(line@, id@) == Some(c as int) && c <= line@.len(),
            None => id_line_column(line@, id@) is None,
        },
{
    let key = chars_of("id:");
    proof {
        reveal_strlit("id:");
    }
    match find_chars(line, key.as_slice()) {
        None => None,
        Some(k) => {
            proof {
                let c = choose|c: int| first_occurrence(line@, key@, c);
                assert(c == k);
            }
            if !is_blank_or_dash(&line[0..k]) {
                return None;
            }
            let n = line.len();
            let w = skip_ws(line, k + 3);
            let ghost u = line@.subrange(k + 3, n as int);
            proof {
                assert forall|j: int| 0 <= j < w - (k + 3) implies is_white_space(#[trigger] u[j]) by {
                    assert(u[j] == line@[k + 3 + j]);
                }
                if w < n {
                    assert(u[w - (k + 3)] == line@[w as int]);
                }
                lemma_skip_is_spec(u, w - (k + 3));
            }
            let q: usize = if w < n && (line[w] == '\'' || line[w] == '"') { 1 } else { 0 };
            let ghost rest = u.subrange(w - (k + 3), u.len() as int);
            proof {
                assert(rest =~= line@.subrange(w as int, n as int));
            }
            let matches = crate::pointers::occurs_at_exec(&line[w..n], id, q);
            if matches {
                Some(w + q)
            } else {
                None
            }
        },
    }
}

pub fn locate_id(source: &str, id: &str) -> (r: Option<SourceRange>)
    ensures
        fits(source@) && fits(id@) ==> spec_locate_id(source@, id@, r),
        !(fits(source@) && fits(id@)) ==> r is None,
{
    let s = chars_of(source);
    let t = chars_of(id);
    if !(fits_exec(s.as_slice()) && fits_exec(t.as_slice())) {
        return None;
    }
    let lines = lines_of(s.as_slice());
    let mut li: usize = 0;
    while li < lines.len()
        invariant
            0 <= li <= lines@.len(),
            forall|lj: int| 0 <= lj < li ==> (#[trigger] id_line_column(spec_lines(source@)[lj], id@)) is None,
        decreases lines@.len() - li,
    {
        let line = lines[li].as_slice();
        match id_line_column_exec(line, t.as_slice()) {
            Some(ci) => {
                proof {
                    assert(line@ == spec_lines(source@)[li as int]);
                    lemma_line_bound(source@, li as int);
                    lemma_utf8_len_prefix(line@, ci as int);
                }
                let col = utf8_len_exec(&line[0..ci]);
                let width = utf8_len_exec(t.as_slice());
                assert(col <= utf8_len(source@));
                return Some(SourceRange {
                    start: Position { line: li + 1, column: col + 1 },
                    end: Position { line: li + 1, column: col + 1 + width },
                });
            },
            None => {},
        }
        li += 1;
    }
    None
}

/// A quote character: `'` or `"`.
pub open spec fn is_quote(c: char) -> bool {
    c == '\'' || c == '"'
}

/// Index just past the quote characters of `s` that start at `i`.
pub open spec fn skip_quote_chars(s: Seq<char>, i: int) -> int
    decreases s.len() - i,
{
    if 0 <= i < s.len() && is_quote(s[i]) { skip_quote_chars(s, i + 1) } else { i }
}

/// Index just past the characters of `s` from `i` that are neither white space nor quotes.
pub open spec fn value_end(s: Seq<char>, i: int) -> int
    decreases s.len() - i,
{
    if 0 <= i < s.len() && !is_white_space(s[i]) && !is_quote(s[i]) { value_end(s, i + 1) } else { i }
}

/// Index just past the quote characters of `s` that start at `from`.
fn skip_quotes(s: &[char], from: usize) -> (r: usize)
    requires
        from <= s@.len(),
    ensures
        from <= r <= s@.len(),
        r == skip_quote_chars(s@, from as int),
        forall|k: int| from <= k < r ==> is_quote(#[trigger] s@[k]),
        r == s@.len() || !is_quote(s@[r as int]),
{
    let mut i = from;
    while i < s.len() && (s[i] == '\'' || s[i] == '"')
        invariant
            from <= i <= s@.len(),
            skip_quote_chars(s@, i as int) == skip_quote_chars(s@, from as int),
            forall|k: int| from <= k < i ==> is_quote(#[trigger] s@[k]),
        decreases s@.len() - i,
    {
        i += 1;
    }
    i
}

/// A text occurs first at one position only.
proof fn lemma_first_occurrence_unique(s: Seq<char>, t: Seq<char>, i: int, j: int)
    requires
        first_occurrence(s, t, i),
        first_occurrence(s, t, j),
    ensures
        i == j,
{
}

/// The character index of the `id:` key of `line` when the line declares an item whose ID
/// value starts with `t`: `id:` is the first such key, only blanks or a `-` precede it,
/// and after white space and any quotes the value starts with `t`.
pub open spec fn item_key_index(line: Seq<char>, t: Seq<char>) -> Option<int> {
    let key = "id:"@;
    if spec_contains(line, key) {
        let k = choose|k: int| first_occurrence(line, key, k);
        let prefix = crate::text::spec_trim(line.subrange(0, k));
        if prefix.len() == 0 || prefix == "-"@ {
            let v = skip_quote_chars(line, skip_white_space(line, k + 3));
            if occurs_at(line.subrange(v, line.len() as int), t, 0) { Some(k) } else { None }
        } else {
            None
        }
    } else {
        None
    }
}

/// The first line that declares an item whose ID value starts with `t`.
pub open spec fn first_item_line(ls: Seq<Seq<char>>, t: Seq<char>) -> Option<int> {
    if exists|li: int| 0 <= li < ls.len() && (#[trigger] item_key_index(ls[li], t)) is Some {
        Some(choose|li: int| 0 <= li < ls.len() && (#[trigger] item_key_index(ls[li], t)) is Some
            && forall|j: int| 0 <= j < li ==> (#[trigger] item_key_index(ls[j], t)) is None)
    } else {
        None
    }
}

/// The line, start column and end column of the first line from `off` on that holds
/// `field:` at the item's key column, stopping at a non-blank line indented less.
pub open spec fn field_line_range(ls: Seq<Seq<char>>, off: int, key_column: int, f: Seq<char>) -> Option<(int, int, int)>
    decreases ls.len() - off,
{
    if 0 <= off < ls.len() {
        let line = ls[off];
        let w = skip_white_space(line, 0);
        let indentation = utf8_len(line.subrange(0, w)) as int;
        if w < line.len() && indentation < key_column {
            None
        } else if indentation == key_column && occurs_at(line, f, w) && w + f.len() < line.len() && line[w + f.len()] == ':' {
            let span = value_span(line, w + f.len() + 1);
            Some((off + 1, span.0 + 1, span.0 + span.1 + 1))
        } else {
            field_line_range(ls, off + 1, key_column, f)
        }
    } else {
        None
    }
}

/// What `locate_item_field` finds: the line and byte columns of the value of `field` in the
/// item that `id` names, for a source within the size that ranges are computed for.
pub open spec fn item_field_range(source: Seq<char>, id: Seq<char>, field: Seq<char>) -> Option<(int, int, int)> {
    if !fits(source) {
        None
    } else {
        let ls = spec_lines(source);
        match first_item_line(ls, id) {
            Some(li) => field_line_range(ls, li + 1, utf8_len(ls[li].subrange(0, item_key_index(ls[li], id)->0)) as int, field),
            None => None,
        }
    }
}

/// The item line whose `id:` value starts with `id`, and the byte column of that key.
fn find_item_key(Ghost(source): Ghost<Seq<char>>, lines: &Vec<Vec<char>>, t: &[char]) -> (r: Option<(usize, usize)>)
    requires
        fits(source),
        lines@.len() == spec_lines(source).len(),
        forall|k: int| 0 <= k < lines@.len() ==> (#[trigger] lines@[k])@ == spec_lines(source)[k],
    ensures
        r matches Some((a, b)) ==> a < lines@.len() && b <= utf8_len(source),
        match r {
            Some((a, b)) => {
                &&& item_key_index(spec_lines(source)[a as int], t@) is Some
                &&& b == utf8_len(spec_lines(source)[a as int].subrange(0, item_key_index(spec_lines(source)[a as int], t@)->0))
                &&& forall|j: int| 0 <= j < a ==> (#[trigger] item_key_index(spec_lines(source)[j], t@)) is None
            },
            None => forall|j: int| 0 <= j < lines@.len() ==> (#[trigger] item_key_index(spec_lines(source)[j], t@)) is None,
        },
{
    let key = chars_of("id:");
    proof {
        reveal_strlit("id:");
    }
    let mut li: usize = 0;
    while li < lines.len()
        invariant
            0 <= li <= lines@.len(),
            key@ == "id:"@,
            lines@.len() == spec_lines(source).len(),
            forall|k: int| 0 <= k < lines@.len() ==> (#[trigger] lines@[k])@ == spec_lines(source)[k],
            forall|j: int| 0 <= j < li ==> (#[trigger] item_key_index(spec_lines(source)[j], t@)) is None,
        decreases lines@.len() - li,
    {
        let line = lines[li].as_slice();
        let ghost ln = spec_lines(source)[li as int];
        assert(line@ == ln);
        match find_chars(line, key.as_slice()) {
            Some(k) => {
                proof {
                    assert(spec_contains(ln, "id:"@));
                    let c = choose|c: int| first_occurrence(ln, "id:"@, c);
                    lemma_first_occurrence_unique(ln, "id:"@, k as int, c);
                    assert(line@.subrange(0, k as int) == ln.subrange(0, k as int));
                }
                if is_blank_or_dash(&line[0..k]) {
                    let n = line.len();
                    let w = skip_ws(line, k + 3);
                    let v = skip_quotes(line, w);
                    if crate::pointers::occurs_at_exec(&line[v..n], t, 0) {
                        proof {
                            lemma_line_bound(source, li as int);
                            lemma_utf8_len_prefix(line@, k as int);
                            assert(item_key_index(ln, t@) == Some(k as int));
                        }
                        let column = utf8_len_exec(&line[0..k]);
                        return Some((li, column));
                    }
                }
            },
            None => {},
        }
        assert(item_key_index(ln, t@) is None);
        li += 1;
    }
    None
}

/// Byte column and byte length of the value that starts after white space at character
/// `after` of `line`: the column is past one opening quote, and the value runs from past
/// all opening quotes up to white space, a quote or the end of the line.
pub open spec fn value_span(line: Seq<char>, after: int) -> (int, int) {
    let value_start = skip_white_space(line, after);
    let q = if value_start < line.len() && is_quote(line[value_start]) { 1int } else { 0int };
    let inner = skip_quote_chars(line, value_start);
    (utf8_len(line.subrange(0, value_start + q)) as int,
        utf8_len(line.subrange(inner, value_end(line, inner))) as int)
}

/// Byte column and byte length of the value after `field:` at character `w` of `line`.
fn field_value_span(line: &[char], f: &[char], w: usize) -> (r: (usize, usize))
    requires
        w + f@.len() < line@.len(),
        2 * utf8_len(line@) + 8192 < usize::MAX,
    ensures
        r.0 <= utf8_len(line@),
        r.1 <= utf8_len(line@),
        (r.0 as int, r.1 as int) == value_span(line@, w + f@.len() + 1),
{
    let n = line.len();
    let after = w + f.len() + 1;
    let value_start = skip_ws(line, after);
    let q: usize = if value_start < n && (line[value_start] == '\'' || line[value_start] == '"') { 1 } else { 0 };
    let inner = skip_quotes(line, value_start);
    let mut end = inner;
    while end < n && !char_is_white_space(line[end]) && line[end] != '\'' && line[end] != '"'
        invariant
            inner <= end <= n,
            n == line@.len(),
            value_end(line@, end as int) == value_end(line@, inner as int),
        decreases n - end,
    {
        end += 1;
    }
    proof {
        lemma_utf8_len_prefix(line@, (value_start + q) as int);
        lemma_utf8_len_suffix_bound(line@, inner as int);
        lemma_utf8_len_prefix(line@.subrange(inner as int, n as int), (end - inner) as int);
        assert(line@.subrange(inner as int, n as int).subrange(0, (end - inner) as int) =~= line@.subrange(inner as int, end as int));
    }
    let column = utf8_len_exec(&line[0..value_start + q]);
    let value_len = utf8_len_exec(&line[inner..end]);
    (column, value_len)
}

/// The range of the value of `field` inside the item whose `id:` line names `id`: the
/// first later line at the item's key indentation that starts with `field:`, stopping at
/// the first non-blank line indented less than the item's keys.
pub fn locate_item_field(source: &str, id: &str, field: &str) -> (r: Option<SourceRange>)
    ensures
        match r {
            Some(range) => 1 <= range.start.line == range.end.line <= spec_lines(source@).len()
                && range.start.column <= range.end.column,
            None => true,
        },
        match r {
            Some(range) => item_field_range(source@, id@, field@)
                == Some((range.start.line as int, range.start.column as int, range.end.column as int)),
            None => item_field_range(source@, id@, field@) is None,
        },
{
    let s = chars_of(source);
    let t = chars_of(id);
    let f = chars_of(field);
    if !fits_exec(s.as_slice()) {
        return None;
    }
    let lines = lines_of(s.as_slice());
    let ghost ls = spec_lines(source@);
    let (item_line, key_column) = match find_item_key(Ghost(source@), &lines, t.as_slice()) {
        Some(found) => found,
        None => {
            proof {
                assert(!exists|li: int| 0 <= li < ls.len() && (#[trigger] item_key_index(ls[li], id@)) is Some);
            }
            return None;
        },
    };
    assert(item_line < lines.len());
    let ghost kc = key_column as int;
    proof {
        let li = item_line as int;
        assert(0 <= li < ls.len() && item_key_index(ls[li], id@) is Some);
        let c = choose|c: int| 0 <= c < ls.len() && (#[trigger] item_key_index(ls[c], id@)) is Some
            && forall|j: int| 0 <= j < c ==> (#[trigger] item_key_index(ls[j], id@)) is None;
        if c < li {
            assert(item_key_index(ls[c], id@) is None);
        }
        if li < c {
            assert(item_key_index(ls[li], id@) is None);
        }
        assert(first_item_line(ls, id@) == Some(li));
        assert(item_field_range(source@, id@, field@) == field_line_range(ls, li + 1, kc, field@));
    }
    let mut offset: usize = item_line + 1;
    while offset < lines.len()
        invariant
            item_line < offset <= lines@.len(),
            key_column <= utf8_len(source@),
            kc == key_column,
            fits(source@),
            ls == spec_lines(source@),
            f@ == field@,
            lines@.len() == ls.len(),
            forall|k: int| 0 <= k < lines@.len() ==> (#[trigger] lines@[k])@ == ls[k],
            item_field_range(source@, id@, field@) == field_line_range(ls, offset as int, kc, field@),
        decreases lines@.len() - offset,
    {
        let line = lines[offset].as_slice();
        let n = line.len();
        let w = skip_ws(line, 0);
        proof {
            lemma_line_bound(source@, offset as int);
            lemma_utf8_len_prefix(line@, w as int);
        }
        let indentation = utf8_len_exec(&line[0..w]);
        proof {
            assert(line@ == ls[offset as int]);
            assert(line@.subrange(0, w as int) == ls[offset as int].subrange(0, w as int));
        }
        if w < n && indentation < key_column {
            return None;
        }
        if indentation == key_column && crate::pointers::occurs_at_exec(line, f.as_slice(), w)
            && w + f.len() < n && line[w + f.len()] == ':' {
            let (column, value_len) = field_value_span(line, f.as_slice(), w);
            return Some(SourceRange {
                start: Position { line: offset + 1, column: column + 1 },
                end: Position { line: offset + 1, column: column + value_len + 1 },
            });
        }
        offset += 1;
    }
    None
}

proof fn lemma_utf8_len_concat(a: Seq<char>, b: Seq<char>)
    ensures
        utf8_len(a + b) == utf8_len(a) + utf8_len(b),
    decreases b.len(),
{
    if b.len() > 0 {
        lemma_utf8_len_concat(a, b.drop_last());
        assert((a + b).drop_last() =~= a + b.drop_last());
    } else {
        assert(a + b =~= a);
    }
}

proof fn lemma_utf8_len_suffix_bound(s: Seq<char>, i: int)
    requires
        0 <= i <= s.len(),
    ensures
        utf8_len(s.subrange(i, s.len() as int)) <= utf8_len(s),
{
    lemma_utf8_len_concat(s.subrange(0, i), s.subrange(i, s.len() as int));
    assert(s.subrange(0, i) + s.subrange(i, s.len() as int) =~= s);
}

} // verus!

verus! {

/// `u8::is_ascii_whitespace` on a character.
pub open spec fn is_ascii_ws(c: char) -> bool {
    c == ' ' || c == '\t' || c == '\n' || c == '\x0C' || c == '\r'
}

fn ascii_ws(c: char) -> (r: bool)
    ensures
        r == is_ascii_ws(c),
{
    c == ' ' || c == '\t' || c == '\n' || c == '\x0C' || c == '\r'
}

/// Some line of `source` holds an `&` or `*` character.
pub open spec fn has_anchor_char(source: Seq<char>) -> bool {
    exists|li: int, j: int| 0 <= li < spec_lines(source).len() && 0 <= j < spec_lines(source)[li].len()
        && (spec_lines(source)[li][j] == '&' || spec_lines(source)[li][j] == '*')
}

/// How the scan of one line ends: at its end or a comment, at an anchor or alias token, or
/// at the indicator of a block scalar whose body follows on the next lines.
pub enum LineEnd {
    Plain,
    Anchor,
    BlockScalar,
}

/// The character after position `i` of `line`, if any.
pub open spec fn next_char(line: Seq<char>, i: int) -> Option<char> {
    if i + 1 < line.len() { Some(line[i + 1]) } else { None }
}

/// A `---` or `...` document marker at `i`, followed by white space or the line's end.
pub open spec fn document_marker(line: Seq<char>, i: int) -> bool {
    &&& i + 3 <= line.len()
    &&& ((line[i] == '-' && line[i + 1] == '-' && line[i + 2] == '-') || (line[i] == '.' && line[i + 1] == '.' && line[i + 2] == '.'))
    &&& (i + 3 == line.len() || is_ascii_ws(line[i + 3]))
}

/// The number of backslashes right before position `i`.
pub open spec fn backslashes_before(line: Seq<char>, i: int) -> nat
    decreases i,
{
    if 0 < i <= line.len() && line[i - 1] == '\\' { 1 + backslashes_before(line, i - 1) } else { 0 }
}

/// The character after an `&` or `*` starts a name.
pub open spec fn starts_name(next: Option<char>) -> bool {
    match next {
        Some(b) => !is_ascii_ws(b) && b != ',' && b != ']' && b != '}' && b != ':' && b != '#',
        None => false,
    }
}

/// Scans `line` from position `i` with the quoting state `sq` (single), `dq` (double) and
/// whether a node may start (`node`), as `contains_yaml_anchor_or_alias` does.
pub open spec fn scan_line(line: Seq<char>, i: int, sq: bool, dq: bool, node: bool) -> LineEnd
    decreases line.len() - i,
{
    if !(0 <= i < line.len()) {
        LineEnd::Plain
    } else if node && document_marker(line, i) {
        scan_line(line, i + 3, sq, dq, node)
    } else {
        let c = line[i];
        let next = next_char(line, i);
        let plain = !sq && !dq;
        if c == '\'' && sq {
            if next == Some('\'') { scan_line(line, i + 2, sq, dq, node) } else { scan_line(line, i + 1, false, dq, node) }
        } else if c == '\'' && !dq && node {
            scan_line(line, i + 1, true, dq, false)
        } else if c == '"' && dq {
            scan_line(line, i + 1, sq, backslashes_before(line, i) % 2 != 0, node)
        } else if c == '"' && !sq && node {
            scan_line(line, i + 1, sq, true, false)
        } else if c == '#' && plain {
            LineEnd::Plain
        } else if (c == '&' || c == '*') && plain && node {
            if starts_name(next) { LineEnd::Anchor } else { scan_line(line, i + 1, sq, dq, node) }
        } else if c == ':' && plain && (match next { Some(b) => is_ascii_ws(b), None => true }) {
            scan_line(line, i + 1, sq, dq, true)
        } else if (c == ',' || c == '[' || c == '{') && plain {
            scan_line(line, i + 1, sq, dq, true)
        } else if (c == '-' || c == '?') && plain && node && (match next { Some(b) => is_ascii_ws(b), None => false }) {
            scan_line(line, i + 1, sq, dq, node)
        } else if (c == '|' || c == '>') && plain && node {
            LineEnd::BlockScalar
        } else if plain && !is_ascii_ws(c) && c != ']' && c != '}' {
            scan_line(line, i + 1, sq, dq, false)
        } else {
            scan_line(line, i + 1, sq, dq, node)
        }
    }
}

/// The number of ASCII white-space characters that start `line` from `i`.
pub open spec fn ascii_indent(line: Seq<char>, i: int) -> int
    decreases line.len() - i,
{
    if 0 <= i < line.len() && is_ascii_ws(line[i]) { ascii_indent(line, i + 1) } else { i }
}

/// Whether the lines from `li` on hold an anchor or alias token, when a block scalar
/// opened with indentation `block` may still be running.
pub open spec fn scan_lines(ls: Seq<Seq<char>>, li: int, block: Option<int>) -> bool
    decreases ls.len() - li,
{
    if !(0 <= li < ls.len()) {
        false
    } else {
        let line = ls[li];
        let indentation = ascii_indent(line, 0);
        if block is Some && (crate::text::is_blank(line) || indentation > block->0) {
            scan_lines(ls, li + 1, block)
        } else {
            match scan_line(line, 0, false, false, true) {
                LineEnd::Anchor => true,
                LineEnd::BlockScalar => scan_lines(ls, li + 1, Some(indentation)),
                LineEnd::Plain => scan_lines(ls, li + 1, None),
            }
        }
    }
}

/// The view of an optional indentation.
pub open spec fn indent_view(b: Option<usize>) -> Option<int> {
    match b {
        Some(p) => Some(p as int),
        None => None,
    }
}

/// Conservatively detects an unquoted YAML anchor (`&name`) or alias (`*name`) token at a
/// node position; quoted scalars, comments and block-scalar bodies are skipped. A quote
/// opens a quoted scalar only where a node starts: an apostrophe or quote inside a plain
/// scalar is an ordinary character. It only reports a token where some line holds `&` or
/// `*`.
pub fn contains_yaml_anchor_or_alias(source: &str) -> (r: bool)
    ensures
        r == scan_lines(spec_lines(source@), 0, None),
        r ==> has_anchor_char(source@),
{
    let s = chars_of(source);
    let lines = lines_of(s.as_slice());
    let ghost ls = spec_lines(source@);
    let mut block_scalar_indent: Option<usize> = None;
    let mut li: usize = 0;
    while li < lines.len()
        invariant
            0 <= li <= lines@.len(),
            ls == spec_lines(source@),
            lines@.len() == ls.len(),
            forall|k: int| 0 <= k < lines@.len() ==> (#[trigger] lines@[k])@ == ls[k],
            scan_lines(ls, li as int, indent_view(block_scalar_indent)) == scan_lines(ls, 0, None),
        decreases lines@.len() - li,
    {
        let line = lines[li].as_slice();
        let n = line.len();
        let ghost entry = indent_view(block_scalar_indent);
        let mut indentation: usize = 0;
        while indentation < n && ascii_ws(line[indentation])
            invariant
                0 <= indentation <= n,
                n == line@.len(),
                ascii_indent(line@, indentation as int) == ascii_indent(line@, 0),
            decreases n - indentation,
        {
            indentation += 1;
        }
        let mut skip_line = false;
        if let Some(parent_indent) = block_scalar_indent {
            let owned = crate::text::string_from_chars(line);
            if crate::text::blank(owned.as_str()) || indentation > parent_indent {
                skip_line = true;
            } else {
                block_scalar_indent = None;
            }
        }
        let ghost whole = scan_line(line@, 0, false, false, true);
        if !skip_line {
            let mut single_quoted = false;
            let mut double_quoted = false;
            let mut expects_node = true;
            let mut index: usize = 0;
            let mut done = false;
            while index < n && !done
                invariant
                    0 <= index <= n,
                    n == line@.len(),
                    line@ == spec_lines(source@)[li as int],
                    indentation as int == ascii_indent(line@, 0),
                    whole == scan_line(line@, 0, false, false, true),
                    !done ==> block_scalar_indent is None
                        && scan_line(line@, index as int, single_quoted, double_quoted, expects_node) == whole,
                    done ==> (whole == LineEnd::Plain && block_scalar_indent is None)
                        || (whole == LineEnd::BlockScalar && block_scalar_indent == Some(indentation)),
                decreases (n + 3 - index) * 2 + if done { 0int } else { 1int },
            {
                let c = line[index];
                let next: Option<char> = if index + 1 < n { Some(line[index + 1]) } else { None };
                let document_marker = expects_node && n - index >= 3
                    && ((line[index] == '-' && line[index + 1] == '-' && line[index + 2] == '-')
                        || (line[index] == '.' && line[index + 1] == '.' && line[index + 2] == '.'))
                    && (index + 3 == n || ascii_ws(line[index + 3]));
                if document_marker {
                    index += 3;
                } else {
                    let plain = !single_quoted && !double_quoted;
                    let mut advance: usize = 1;
                    if c == '\'' && single_quoted {
                        if next == Some('\'') {
                            advance = 2;
                        } else {
                            single_quoted = false;
                        }
                    } else if c == '\'' && !double_quoted && expects_node {
                        single_quoted = true;
                        expects_node = false;
                    } else if c == '"' && double_quoted {
                        let mut backslashes: usize = 0;
                        let mut cursor = index;
                        while cursor > 0 && line[cursor - 1] == '\\'
                            invariant
                                0 <= cursor <= index < n,
                                n == line@.len(),
                                backslashes <= index,
                                backslashes + cursor == index,
                                backslashes_before(line@, index as int) == backslashes + backslashes_before(line@, cursor as int),
                            decreases cursor,
                        {
                            backslashes += 1;
                            cursor -= 1;
                        }
                        if backslashes % 2 == 0 {
                            double_quoted = false;
                        }
                    } else if c == '"' && !single_quoted && expects_node {
                        double_quoted = true;
                        expects_node = false;
                    } else if c == '#' && plain {
                        done = true;
                    } else if (c == '&' || c == '*') && plain && expects_node {
                        let next_is_name = match next {
                            Some(b) => !ascii_ws(b) && b != ',' && b != ']' && b != '}' && b != ':' && b != '#',
                            None => false,
                        };
                        if next_is_name {
                            proof {
                                assert(spec_lines(source@)[li as int][index as int] == c);
                                assert(whole == LineEnd::Anchor);
                            }
                            return true;
                        }
                    } else if c == ':' && plain && (match next { Some(b) => ascii_ws(b), None => true }) {
                        expects_node = true;
                    } else if (c == ',' || c == '[' || c == '{') && plain {
                        expects_node = true;
                    } else if (c == '-' || c == '?') && plain && expects_node
                        && (match next { Some(b) => ascii_ws(b), None => false }) {
                    } else if (c == '|' || c == '>') && plain && expects_node {
                        block_scalar_indent = Some(indentation);
                        done = true;
                    } else if plain && !ascii_ws(c) && c != ']' && c != '}' {
                        expects_node = false;
                    }
                    if !done {
                        index += advance;
                    }
                }
            }
        }
        proof {
            assert(lines@[li as int]@ == ls[li as int]);
        }
        li += 1;
    }
    false
}

} // verus!
