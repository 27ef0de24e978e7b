//! JSON-pointer analysis: which kinds a reference at a pointer must name.

use vstd::prelude::*;
use crate::ids::{all_digits, digits_value};
use crate::kinds::{Kind, kind_prefix};
use crate::text::{chars_of, cat3, joined, lemma_joined_step};

verus! {

/// `s` split at every `sep`, as `str::split` does (always at least one part).
pub open spec fn spec_split(s: Seq<char>, sep: char) -> Seq<Seq<char>>
    decreases s.len(),
{
    if s.len() == 0 {
        seq![Seq::empty()]
    } else {
        let parts = spec_split(s.drop_last(), sep);
        if s.last() == sep {
            parts.push(Seq::empty())
        } else {
            parts.update(parts.len() - 1, parts.last().push(s.last()))
        }
    }
}

pub proof fn lemma_split_nonempty_pub(s: Seq<char>, sep: char)
    ensures
        spec_split(s, sep).len() >= 1,
{
    lemma_split_nonempty(s, sep);
}

proof fn lemma_split_nonempty(s: Seq<char>, sep: char)
    ensures
        spec_split(s, sep).len() >= 1,
    decreases s.len(),
{
    if s.len() > 0 {
        lemma_split_nonempty(s.drop_last(), sep);
    }
}

/// Splits `s` at every `sep`.
pub fn split_chars(s: &[char], sep: char) -> (r: Vec<Vec<char>>)
    ensures
        r@.len() == spec_split(s@, sep).len(),
        forall|i: int| 0 <= i < r@.len() ==> (#[trigger] r@[i])@ == spec_split(s@, sep)[i],
{
    let mut parts: Vec<Vec<char>> = Vec::new();
    parts.push(Vec::new());
    proof {
        assert(s@.subrange(0, 0) =~= Seq::<char>::empty());
    }
    let mut i: usize = 0;
    while i < s.len()
        invariant
            0 <= i <= s@.len(),
            parts@.len() == spec_split(s@.subrange(0, i as int), sep).len(),
            parts@.len() >= 1,
            forall|k: int| 0 <= k < parts@.len() ==> (#[trigger] parts@[k])@ == spec_split(s@.subrange(0, i as int), sep)[k],
        decreases s@.len() - i,
    {
        let c = s[i];
        let ghost before = spec_split(s@.subrange(0, i as int), sep);
        proof {
            assert(s@.subrange(0, i + 1).drop_last() =~= s@.subrange(0, i as int));
        }
        if c == sep {
            parts.push(Vec::new());
        } else {
            let last = parts.len() - 1;
            let mut tail = parts.pop().unwrap();
            tail.push(c);
            parts.push(tail);
            proof {
                assert(parts@[last as int]@ =~= before[last as int].push(c));
            }
        }
        i += 1;
    }
    proof {
        assert(s@.subrange(0, s@.len() as int) =~= s@);
    }
    parts
}

/// Whether two character runs are equal.
pub fn chars_eq(a: &[char], b: &[char]) -> (r: bool)
    ensures
        r == (a@ == b@),
{
    if a.len() != b.len() {
        return false;
    }
    let mut i: usize = 0;
    while i < a.len()
        invariant
            a@.len() == b@.len(),
            0 <= i <= a@.len(),
            forall|k: int| 0 <= k < i ==> a@[k] == b@[k],
        decreases a@.len() - i,
    {
        if a[i] != b[i] {
            return false;
        }
        i += 1;
    }
    proof {
        assert(a@ =~= b@);
    }
    true
}

/// Whether the characters of `a` spell the literal `lit`.
pub fn eq_lit(a: &[char], lit: &str) -> (r: bool)
    ensures
        r == (a@ == lit@),
{
    let l = chars_of(lit);
    chars_eq(a, l.as_slice())
}

/// `t` occurs in `s` starting at `i`.
pub open spec fn occurs_at(s: Seq<char>, t: Seq<char>, i: int) -> bool {
    0 <= i && i + t.len() <= s.len() && s.subrange(i, i + t.len()) == t
}

/// `s` contains `t` as a contiguous run (`str::contains`).
pub open spec fn spec_contains(s: Seq<char>, t: Seq<char>) -> bool {
    exists|i: int| occurs_at(s, t, i)
}

/// Whether `t` occurs in `s` at `i`.
pub fn occurs_at_exec(s: &[char], t: &[char], i: usize) -> (r: bool)
    ensures
        r == occurs_at(s@, t@, i as int),
{
    if i > s.len() || t.len() > s.len() - i {
        return false;
    }
    let mut k: usize = 0;
    while k < t.len()
        invariant
            s@.len() == s.len(),
            t@.len() == t.len(),
            i + t@.len() <= s@.len(),
            0 <= k <= t@.len(),
            forall|j: int| 0 <= j < k ==> s@[i + j] == t@[j],
        decreases t@.len() - k,
    {
        if s[i + k] != t[k] {
            proof {
                assert(s@.subrange(i as int, i + t@.len())[k as int] != t@[k as int]);
            }
            return false;
        }
        k += 1;
    }
    proof {
        assert(s@.subrange(i as int, i + t@.len()) =~= t@);
    }
    true
}

/// Whether `s` contains `t` (`str::contains`).
pub fn contains_chars(s: &[char], t: &[char]) -> (r: bool)
    ensures
        r == spec_contains(s@, t@),
{
    let mut i: usize = 0;
    while i < s.len()
        invariant
            0 <= i <= s@.len(),
            forall|j: int| 0 <= j < i ==> !occurs_at(s@, t@, j),
        decreases s@.len() - i,
    {
        if occurs_at_exec(s, t, i) {
            return true;
        }
        i += 1;
    }
    if occurs_at_exec(s, t, i) {
        return true;
    }
    proof {
        assert forall|j: int| !occurs_at(s@, t@, j) by {
            if 0 <= j && j <= i {
            } else if j > i {
                assert(j + t@.len() > s@.len());
            }
        }
    }
    false
}

/// Whether `s` contains the literal `lit`.
pub fn contains_lit(s: &[char], lit: &str) -> (r: bool)
    ensures
        r == spec_contains(s@, lit@),
{
    let l = chars_of(lit);
    contains_chars(s, l.as_slice())
}

/// `s` without its leading `/` characters (`trim_start_matches('/')`).
pub open spec fn trim_leading_slashes(s: Seq<char>) -> Seq<char>
    decreases s.len(),
{
    if s.len() > 0 && s[0] == '/' {
        trim_leading_slashes(s.drop_first())
    } else {
        s
    }
}

/// What `str::parse::<usize>` accepts: an optional `+` and one or more ASCII digits whose
/// value fits in `usize`.
pub open spec fn spec_usize_ok(s: Seq<char>) -> bool {
    let d = if s.len() > 0 && s[0] == '+' { s.drop_first() } else { s };
    d.len() > 0 && all_digits(d) && digits_value(d) <= usize::MAX
}

proof fn lemma_digits_prefix_bound(s: Seq<char>, i: int)
    requires
        0 <= i <= s.len(),
        all_digits(s),
    ensures
        digits_value(s.subrange(0, i)) <= digits_value(s),
    decreases s.len() - i,
{
    if i < s.len() {
        lemma_digits_prefix_bound(s, i + 1);
        assert(s.subrange(0, i + 1).drop_last() =~= s.subrange(0, i));
    } else {
        assert(s.subrange(0, i) =~= s);
    }
}

/// Whether `s` parses as a `usize`.
pub fn usize_ok(s: &[char]) -> (r: bool)
    ensures
        r == spec_usize_ok(s@),
{
    let start: usize = if s.len() > 0 && s[0] == '+' { 1 } else { 0 };
    let d = &s[start..s.len()];
    proof {
        if start == 1 {
            assert(d@ =~= s@.drop_first());
        } else {
            assert(d@ =~= s@);
        }
    }
    if d.len() == 0 {
        return false;
    }
    let mut value: usize = 0;
    let mut i: usize = 0;
    while i < d.len()
        invariant
            0 <= i <= d@.len(),
            all_digits(d@.subrange(0, i as int)),
            value == digits_value(d@.subrange(0, i as int)),
        decreases d@.len() - i,
    {
        let c = d[i];
        proof {
            assert(d@.subrange(0, i + 1).drop_last() =~= d@.subrange(0, i as int));
        }
        if !('0' <= c && c <= '9') {
            proof {
                assert(!all_digits(d@)) by {
                    assert(!crate::ids::is_digit(d@[i as int]));
                }
            }
            return false;
        }
        let digit = (c as usize) - 48;
        if value > (usize::MAX - digit) / 10 {
            proof {
                assert(value * 10 + digit > usize::MAX) by (nonlinear_arith)
                    requires value > (usize::MAX - digit) / 10, digit <= 9;
                if all_digits(d@) {
                    lemma_digits_prefix_bound(d@, i + 1);
                }
            }
            return false;
        }
        proof {
            assert(value * 10 + digit <= usize::MAX) by (nonlinear_arith)
                requires value <= (usize::MAX - digit) / 10, digit <= 9;
        }
        value = value * 10 + digit;
        i += 1;
    }
    proof {
        assert(d@.subrange(0, d@.len() as int) =~= d@);
    }
    true
}

/// The parts of a pointer after dropping its leading slashes.
pub open spec fn pointer_parts(pointer: Seq<char>) -> Seq<Seq<char>> {
    spec_split(trim_leading_slashes(pointer), '/')
}

/// Splits a pointer into its parts after dropping leading slashes.
pub fn pointer_parts_exec(pointer: &[char]) -> (r: Vec<Vec<char>>)
    ensures
        r@.len() == pointer_parts(pointer@).len(),
        forall|i: int| 0 <= i < r@.len() ==> (#[trigger] r@[i])@ == pointer_parts(pointer@)[i],
{
    let mut start: usize = 0;
    proof {
        assert(pointer@.subrange(0, pointer@.len() as int) =~= pointer@);
    }
    while start < pointer.len() && pointer[start] == '/'
        invariant
            0 <= start <= pointer@.len(),
            trim_leading_slashes(pointer@) == trim_leading_slashes(pointer@.subrange(start as int, pointer@.len() as int)),
        decreases pointer@.len() - start,
    {
        proof {
            assert(pointer@.subrange(start as int, pointer@.len() as int).drop_first()
                =~= pointer@.subrange(start + 1, pointer@.len() as int));
        }
        start += 1;
    }
    proof {
        assert(pointer@.subrange(0, pointer@.len() as int) =~= pointer@);
    }
    split_chars(&pointer[start..pointer.len()], '/')
}

/// `/{section}/{n}/points/requires/{m}` with a point-owning section.
pub open spec fn spec_is_point_requirement_pointer(pointer: Seq<char>) -> bool {
    let p = pointer_parts(pointer);
    &&& p.len() == 5
    &&& (p[0] == "settings"@ || p[0] == "entities"@ || p[0] == "deductions"@ || p[0] == "commands"@)
    &&& spec_usize_ok(p[1])
    &&& p[2] == "points"@
    &&& p[3] == "requires"@
    &&& spec_usize_ok(p[4])
}

pub fn is_point_requirement_pointer(pointer: &[char]) -> (r: bool)
    ensures
        r == spec_is_point_requirement_pointer(pointer@),
{
    let p = pointer_parts_exec(pointer);
    if p.len() != 5 {
        return false;
    }
    (eq_lit(p[0].as_slice(), "settings") || eq_lit(p[0].as_slice(), "entities")
        || eq_lit(p[0].as_slice(), "deductions") || eq_lit(p[0].as_slice(), "commands"))
        && usize_ok(p[1].as_slice()) && eq_lit(p[2].as_slice(), "points")
        && eq_lit(p[3].as_slice(), "requires") && usize_ok(p[4].as_slice())
}

/// `/{win_states|end_states}/{n}/requires/{m}`.
pub open spec fn spec_is_win_state_requirement_pointer(pointer: Seq<char>) -> bool {
    let p = pointer_parts(pointer);
    &&& p.len() == 4
    &&& (p[0] == "win_states"@ || p[0] == "end_states"@)
    &&& spec_usize_ok(p[1])
    &&& p[2] == "requires"@
    &&& spec_usize_ok(p[3])
}

pub fn is_win_state_requirement_pointer(pointer: &[char]) -> (r: bool)
    ensures
        r == spec_is_win_state_requirement_pointer(pointer@),
{
    let p = pointer_parts_exec(pointer);
    if p.len() != 4 {
        return false;
    }
    (eq_lit(p[0].as_slice(), "win_states") || eq_lit(p[0].as_slice(), "end_states"))
        && usize_ok(p[1].as_slice()) && eq_lit(p[2].as_slice(), "requires")
        && usize_ok(p[3].as_slice())
}

/// `/{section}/{n}/{field}/requires` or `/{section}/{n}/{field}/requires/{m}`.
pub open spec fn spec_is_nested_requirement_pointer(pointer: Seq<char>, section: Seq<char>, field: Seq<char>) -> bool {
    let p = pointer_parts(pointer);
    &&& (p.len() == 4 || p.len() == 5)
    &&& p[0] == section
    &&& spec_usize_ok(p[1])
    &&& p[2] == field
    &&& p[3] == "requires"@
    &&& (p.len() == 5 ==> spec_usize_ok(p[4]))
}

fn is_nested_requirement_pointer(pointer: &[char], section: &str, field: &str) -> (r: bool)
    ensures
        r == spec_is_nested_requirement_pointer(pointer@, section@, field@),
{
    let p = pointer_parts_exec(pointer);
    if p.len() != 4 && p.len() != 5 {
        return false;
    }
    eq_lit(p[0].as_slice(), section) && usize_ok(p[1].as_slice()) && eq_lit(p[2].as_slice(), field)
        && eq_lit(p[3].as_slice(), "requires") && (p.len() == 4 || usize_ok(p[4].as_slice()))
}

/// `/entities/{n}/visibility/requires[/{m}]`.
pub open spec fn spec_is_entity_visibility_requirement_pointer(pointer: Seq<char>) -> bool {
    spec_is_nested_requirement_pointer(pointer, "entities"@, "visibility"@)
}

pub fn is_entity_visibility_requirement_pointer(pointer: &[char]) -> (r: bool)
    ensures
        r == spec_is_entity_visibility_requirement_pointer(pointer@),
{
    is_nested_requirement_pointer(pointer, "entities", "visibility")
}

/// `/characters/{n}/presence/requires[/{m}]`.
pub open spec fn spec_is_character_presence_requirement_pointer(pointer: Seq<char>) -> bool {
    spec_is_nested_requirement_pointer(pointer, "characters"@, "presence"@)
}

pub fn is_character_presence_requirement_pointer(pointer: &[char]) -> (r: bool)
    ensures
        r == spec_is_character_presence_requirement_pointer(pointer@),
{
    is_nested_requirement_pointer(pointer, "characters", "presence")
}

/// `/characters/{n}/testimony/{m}/{field}/{k}`.
pub open spec fn spec_is_character_testimony_list_pointer(pointer: Seq<char>, field: Seq<char>) -> bool {
    let p = pointer_parts(pointer);
    &&& p.len() == 6
    &&& p[0] == "characters"@
    &&& spec_usize_ok(p[1])
    &&& p[2] == "testimony"@
    &&& spec_usize_ok(p[3])
    &&& p[4] == field
    &&& spec_usize_ok(p[5])
}

pub fn is_character_testimony_list_pointer(pointer: &[char], field: &str) -> (r: bool)
    ensures
        r == spec_is_character_testimony_list_pointer(pointer@, field@),
{
    let p = pointer_parts_exec(pointer);
    if p.len() != 6 {
        return false;
    }
    eq_lit(p[0].as_slice(), "characters") && usize_ok(p[1].as_slice())
        && eq_lit(p[2].as_slice(), "testimony") && usize_ok(p[3].as_slice())
        && eq_lit(p[4].as_slice(), field) && usize_ok(p[5].as_slice())
}

} // verus!

verus! {

/// `i` is the first position where `t` occurs in `s`.
pub open spec fn first_occurrence(s: Seq<char>, t: Seq<char>, i: int) -> bool {
    occurs_at(s, t, i) && forall|j: int| 0 <= j < i ==> !occurs_at(s, t, j)
}

/// The first position where `t` occurs in `s`.
pub fn find_chars(s: &[char], t: &[char]) -> (r: Option<usize>)
    ensures
        match r {
            Some(i) => first_occurrence(s@, t@, i as int),
            None => !spec_contains(s@, t@),
        },
{
    let mut i: usize = 0;
    while i < s.len()
        invariant
            0 <= i <= s@.len(),
            forall|j: int| 0 <= j < i ==> !occurs_at(s@, t@, j),
        decreases s@.len() - i,
    {
        if occurs_at_exec(s, t, i) {
            return Some(i);
        }
        i += 1;
    }
    if occurs_at_exec(s, t, i) {
        return Some(i);
    }
    proof {
        assert forall|j: int| !occurs_at(s@, t@, j) by {
            if j > i {
                assert(j + t@.len() > s@.len());
            }
        }
    }
    None
}

/// Parts of `s` after the first `"/facts/"`, split at `/`, when `s` before it starts with
/// one of the fact-owning sections: the shape of a legacy fact-association pointer.
pub open spec fn spec_is_fact_association_pointer(pointer: Seq<char>) -> bool {
    let t = "/facts/"@;
    if spec_contains(pointer, t) {
        let i = choose|i: int| first_occurrence(pointer, t, i);
        let prefix = pointer.subrange(0, i);
        let suffix = pointer.subrange(i + t.len(), pointer.len() as int);
        let parts = spec_split(suffix, '/');
        &&& (occurs_at(prefix, "/settings/"@, 0) || occurs_at(prefix, "/routes/"@, 0)
            || occurs_at(prefix, "/characters/"@, 0) || occurs_at(prefix, "/entities/"@, 0)
            || occurs_at(prefix, "/events/"@, 0) || occurs_at(prefix, "/commands/"@, 0)
            || occurs_at(prefix, "/triggers/"@, 0))
        &&& ((parts.len() == 1 && spec_usize_ok(parts[0]))
            || (parts.len() == 2 && !spec_usize_ok(parts[0]) && spec_usize_ok(parts[1])))
    } else {
        false
    }
}

fn starts_with_lit(s: &[char], lit: &str) -> (r: bool)
    ensures
        r == occurs_at(s@, lit@, 0),
{
    let l = chars_of(lit);
    occurs_at_exec(s, l.as_slice(), 0)
}

pub fn is_fact_association_pointer(pointer: &[char]) -> (r: bool)
    ensures
        r == spec_is_fact_association_pointer(pointer@),
{
    let t = chars_of("/facts/");
    match find_chars(pointer, t.as_slice()) {
        None => false,
        Some(i) => {
            proof {
                let c = choose|c: int| first_occurrence(pointer@, t@, c);
                if c < i {
                } else if c > i {
                }
                assert(c == i);
            }
            let tl = t.len();
            let pl = pointer.len();
            assert(i + tl <= pl);
            let prefix = &pointer[0..i];
            let suffix = &pointer[i + tl..pl];
            let known_section = starts_with_lit(prefix, "/settings/") || starts_with_lit(prefix, "/routes/")
                || starts_with_lit(prefix, "/characters/") || starts_with_lit(prefix, "/entities/")
                || starts_with_lit(prefix, "/events/") || starts_with_lit(prefix, "/commands/")
                || starts_with_lit(prefix, "/triggers/");
            if !known_section {
                return false;
            }
            let parts = split_chars(suffix, '/');
            (parts.len() == 1 && usize_ok(parts[0].as_slice()))
                || (parts.len() == 2 && !usize_ok(parts[0].as_slice()) && usize_ok(parts[1].as_slice()))
        },
    }
}

/// A named set of kinds that a reference position accepts.
#[derive(Debug, Clone, Copy, PartialEq, Eq, Structural)]
pub enum KindSet {
    Settings,
    Characters,
    Entities,
    Clues,
    Facts,
    FactRequirements,
    Deductions,
    TriggerGates,
    FactOrDeduction,
    Commands,
    Containers,
    PersistentRequirements,
    RouteRequirements,
    ContentSources,
    FactTopics,
    FactSources,
}

/// The kinds in a set, in the order the diagnostics list them.
pub open spec fn kind_set_members(set: KindSet) -> Seq<Kind> {
    match set {
        KindSet::Settings => seq![Kind::Setting],
        KindSet::Characters => seq![Kind::Character],
        KindSet::Entities => seq![Kind::Entity],
        KindSet::Clues => seq![Kind::Clue],
        KindSet::Facts => seq![Kind::Fact],
        KindSet::FactRequirements => seq![Kind::Setting, Kind::Route, Kind::Character, Kind::Entity,
            Kind::Event, Kind::Fact, Kind::Deduction, Kind::Flag, Kind::Command, Kind::Trigger],
        KindSet::Deductions => seq![Kind::Deduction],
        KindSet::TriggerGates => seq![Kind::Character, Kind::Entity, Kind::Flag],
        KindSet::FactOrDeduction => seq![Kind::Fact, Kind::Deduction],
        KindSet::Commands => seq![Kind::Command],
        KindSet::Containers => seq![Kind::Setting, Kind::Character, Kind::Entity],
        KindSet::PersistentRequirements => seq![Kind::Setting, Kind::Entity, Kind::Fact,
            Kind::Deduction, Kind::Flag, Kind::Trigger],
        KindSet::RouteRequirements => seq![Kind::Entity, Kind::Flag, Kind::Trigger],
        KindSet::ContentSources => seq![Kind::Setting, Kind::Character, Kind::Entity, Kind::Event],
        KindSet::FactTopics => seq![Kind::Setting, Kind::Route, Kind::Character, Kind::Entity,
            Kind::Event, Kind::Command, Kind::Trigger],
        KindSet::FactSources => seq![Kind::Setting, Kind::Route, Kind::Character, Kind::Entity,
            Kind::Event, Kind::Clue, Kind::Command, Kind::Trigger],
    }
}

impl KindSet {
    /// The member kinds of this set.
    pub fn members(self) -> (r: Vec<Kind>)
        ensures
            r@ == kind_set_members(self),
    {
        let r = match self {
            KindSet::Settings => vec![Kind::Setting],
            KindSet::Characters => vec![Kind::Character],
            KindSet::Entities => vec![Kind::Entity],
            KindSet::Clues => vec![Kind::Clue],
            KindSet::Facts => vec![Kind::Fact],
            KindSet::FactRequirements => vec![Kind::Setting, Kind::Route, Kind::Character, Kind::Entity,
                Kind::Event, Kind::Fact, Kind::Deduction, Kind::Flag, Kind::Command, Kind::Trigger],
            KindSet::Deductions => vec![Kind::Deduction],
            KindSet::TriggerGates => vec![Kind::Character, Kind::Entity, Kind::Flag],
            KindSet::FactOrDeduction => vec![Kind::Fact, Kind::Deduction],
            KindSet::Commands => vec![Kind::Command],
            KindSet::Containers => vec![Kind::Setting, Kind::Character, Kind::Entity],
            KindSet::PersistentRequirements => vec![Kind::Setting, Kind::Entity, Kind::Fact,
                Kind::Deduction, Kind::Flag, Kind::Trigger],
            KindSet::RouteRequirements => vec![Kind::Entity, Kind::Flag, Kind::Trigger],
            KindSet::ContentSources => vec![Kind::Setting, Kind::Character, Kind::Entity, Kind::Event],
            KindSet::FactTopics => vec![Kind::Setting, Kind::Route, Kind::Character, Kind::Entity,
                Kind::Event, Kind::Command, Kind::Trigger],
            KindSet::FactSources => vec![Kind::Setting, Kind::Route, Kind::Character, Kind::Entity,
                Kind::Event, Kind::Clue, Kind::Command, Kind::Trigger],
        };
        proof {
            assert(r@ =~= kind_set_members(self));
        }
        r
    }

    /// Whether `kind` belongs to this set.
    pub fn contains(self, kind: Kind) -> (r: bool)
        ensures
            r == kind_set_members(self).contains(kind),
    {
        let members = self.members();
        let mut i: usize = 0;
        while i < members.len()
            invariant
                members@ == kind_set_members(self),
                0 <= i <= members.len(),
                forall|j: int| 0 <= j < i ==> members@[j] != kind,
            decreases members.len() - i,
        {
            if members[i] == kind {
                return true;
            }
            i += 1;
        }
        false
    }

    /// The member names joined with ` or ` (for `reference.wrong_type` messages).
    pub fn describe(self) -> (r: String)
        ensures
            r@ == joined(kind_set_members(self).map_values(|k: Kind| kind_prefix(k)), " or "@),
    {
        let members = self.members();
        let ghost parts = members@.map_values(|k: Kind| kind_prefix(k));
        let mut out = String::new();
        let mut i: usize = 0;
        proof { assert(out@ =~= joined(parts.subrange(0, 0), " or "@)); }
        while i < members.len()
            invariant
                0 <= i <= members@.len(),
                parts == members@.map_values(|k: Kind| kind_prefix(k)),
                out@ == joined(parts.subrange(0, i as int), " or "@),
            decreases members.len() - i,
        {
            proof { lemma_joined_step(parts, " or "@, i as int, out@); }
            if i > 0 {
                out.append(" or ");
            }
            let name = members[i].name();
            out.append(name.as_str());
            i += 1;
        }
        proof { assert(parts.subrange(0, members@.len() as int) =~= parts); }
        out
    }
}

/// The last `/`-separated part of a pointer.
pub open spec fn pointer_field(pointer: Seq<char>) -> Seq<char> {
    spec_split(pointer, '/').last()
}

/// The second-to-last `/`-separated part of a pointer, or empty.
pub open spec fn pointer_parent(pointer: Seq<char>) -> Seq<char> {
    let parts = spec_split(pointer, '/');
    if parts.len() >= 2 { parts[parts.len() - 2] } else { Seq::empty() }
}

/// The kinds that a reference at `pointer` must name, if the position is a typed reference
///.
pub open spec fn spec_expected_kind(pointer: Seq<char>) -> Option<KindSet> {
    let field = pointer_field(pointer);
    let parent = pointer_parent(pointer);
    let has = |t: Seq<char>| spec_contains(pointer, t);
    if field == "victim"@ || field == "culprit"@ || field == "testimony_source"@ {
        Some(KindSet::Characters)
    } else if field == "weapon"@ {
        Some(KindSet::Entities)
    } else if field == "parent"@ || field == "from"@ || field == "to"@ || field == "location"@ {
        Some(KindSet::Settings)
    } else if field == "container"@ {
        Some(KindSet::Containers)
    } else if field == "deduction"@ && has("/solution/"@) {
        Some(KindSet::Deductions)
    } else if parent == "participants"@ {
        Some(KindSet::Characters)
    } else if parent == "supported_by"@ {
        Some(KindSet::Clues)
    } else if parent == "inputs"@ && has("/deductions/"@) {
        Some(KindSet::FactOrDeduction)
    } else if parent == "contradicted_by"@ && has("/deductions/"@) {
        Some(KindSet::FactOrDeduction)
    } else if parent == "about"@ && has("/facts/"@) {
        Some(KindSet::FactTopics)
    } else if parent == "sources"@ && has("/facts/"@) {
        Some(KindSet::FactSources)
    } else if (field == "requires"@ || parent == "requires"@) && has("/facts/"@) {
        Some(KindSet::FactRequirements)
    } else if spec_is_entity_visibility_requirement_pointer(pointer) {
        Some(KindSet::PersistentRequirements)
    } else if spec_is_character_presence_requirement_pointer(pointer) {
        Some(KindSet::PersistentRequirements)
    } else if spec_is_point_requirement_pointer(pointer) {
        Some(KindSet::PersistentRequirements)
    } else if spec_is_win_state_requirement_pointer(pointer) {
        Some(KindSet::PersistentRequirements)
    } else if spec_is_character_testimony_list_pointer(pointer, "requires"@) {
        Some(KindSet::FactRequirements)
    } else if spec_is_character_testimony_list_pointer(pointer, "reveals"@) {
        Some(KindSet::Facts)
    } else if spec_is_fact_association_pointer(pointer) {
        Some(KindSet::Facts)
    } else if parent == "requires"@ && has("/routes/"@) {
        Some(KindSet::RouteRequirements)
    } else if parent == "requires"@ && has("/clues/"@) {
        Some(KindSet::Clues)
    } else if parent == "requires"@ && has("/deductions/"@) {
        Some(KindSet::Deductions)
    } else if parent == "entry_settings"@ || parent == "exit_settings"@ {
        Some(KindSet::Settings)
    } else if field == "source"@ && has("/characters/"@) {
        Some(KindSet::ContentSources)
    } else if field == "target"@ && has("/clues/"@) {
        Some(KindSet::ContentSources)
    } else if parent == "targets"@ && has("/clues/"@) {
        Some(KindSet::ContentSources)
    } else if field == "command"@ && has("/triggers/"@) {
        Some(KindSet::Commands)
    } else if (parent == "any_of"@ || parent == "all_of"@) && has("/triggers/"@) {
        Some(KindSet::TriggerGates)
    } else {
        None
    }
}

pub fn expected_kind(pointer: &str) -> (r: Option<KindSet>)
    ensures
        r == spec_expected_kind(pointer@),
{
    let p = chars_of(pointer);
    let ps = p.as_slice();
    let parts = split_chars(ps, '/');
    proof {
        lemma_split_nonempty(p@, '/');
    }
    let field = parts[parts.len() - 1].as_slice();
    let empty: Vec<char> = Vec::new();
    let parent = if parts.len() >= 2 { parts[parts.len() - 2].as_slice() } else { empty.as_slice() };
    proof {
        assert(field@ == pointer_field(pointer@));
        if parts.len() < 2 {
            assert(parent@ =~= Seq::<char>::empty());
        }
        assert(parent@ == pointer_parent(pointer@));
    }
    if eq_lit(field, "victim") || eq_lit(field, "culprit") || eq_lit(field, "testimony_source") {
        Some(KindSet::Characters)
    } else if eq_lit(field, "weapon") {
        Some(KindSet::Entities)
    } else if eq_lit(field, "parent") || eq_lit(field, "from") || eq_lit(field, "to") || eq_lit(field, "location") {
        Some(KindSet::Settings)
    } else if eq_lit(field, "container") {
        Some(KindSet::Containers)
    } else if eq_lit(field, "deduction") && contains_lit(ps, "/solution/") {
        Some(KindSet::Deductions)
    } else if eq_lit(parent, "participants") {
        Some(KindSet::Characters)
    } else if eq_lit(parent, "supported_by") {
        Some(KindSet::Clues)
    } else if eq_lit(parent, "inputs") && contains_lit(ps, "/deductions/") {
        Some(KindSet::FactOrDeduction)
    } else if eq_lit(parent, "contradicted_by") && contains_lit(ps, "/deductions/") {
        Some(KindSet::FactOrDeduction)
    } else if eq_lit(parent, "about") && contains_lit(ps, "/facts/") {
        Some(KindSet::FactTopics)
    } else if eq_lit(parent, "sources") && contains_lit(ps, "/facts/") {
        Some(KindSet::FactSources)
    } else if (eq_lit(field, "requires") || eq_lit(parent, "requires")) && contains_lit(ps, "/facts/") {
        Some(KindSet::FactRequirements)
    } else if is_entity_visibility_requirement_pointer(ps) {
        Some(KindSet::PersistentRequirements)
    } else if is_character_presence_requirement_pointer(ps) {
        Some(KindSet::PersistentRequirements)
    } else if is_point_requirement_pointer(ps) {
        Some(KindSet::PersistentRequirements)
    } else if is_win_state_requirement_pointer(ps) {
        Some(KindSet::PersistentRequirements)
    } else if is_character_testimony_list_pointer(ps, "requires") {
        Some(KindSet::FactRequirements)
    } else if is_character_testimony_list_pointer(ps, "reveals") {
        Some(KindSet::Facts)
    } else if is_fact_association_pointer(ps) {
        Some(KindSet::Facts)
    } else if eq_lit(parent, "requires") && contains_lit(ps, "/routes/") {
        Some(KindSet::RouteRequirements)
    } else if eq_lit(parent, "requires") && contains_lit(ps, "/clues/") {
        Some(KindSet::Clues)
    } else if eq_lit(parent, "requires") && contains_lit(ps, "/deductions/") {
        Some(KindSet::Deductions)
    } else if eq_lit(parent, "entry_settings") || eq_lit(parent, "exit_settings") {
        Some(KindSet::Settings)
    } else if eq_lit(field, "source") && contains_lit(ps, "/characters/") {
        Some(KindSet::ContentSources)
    } else if eq_lit(field, "target") && contains_lit(ps, "/clues/") {
        Some(KindSet::ContentSources)
    } else if eq_lit(parent, "targets") && contains_lit(ps, "/clues/") {
        Some(KindSet::ContentSources)
    } else if eq_lit(field, "command") && contains_lit(ps, "/triggers/") {
        Some(KindSet::Commands)
    } else if (eq_lit(parent, "any_of") || eq_lit(parent, "all_of")) && contains_lit(ps, "/triggers/") {
        Some(KindSet::TriggerGates)
    } else {
        None
    }
}

/// Whether a string at `pointer` is a typed reference position.
pub fn is_reference_pointer(pointer: &str) -> (r: bool)
    ensures
        r == spec_expected_kind(pointer@) is Some,
{
    expected_kind(pointer).is_some()
}

/// Trigger locations may be blank.
pub open spec fn spec_is_blankable_reference_pointer(pointer: Seq<char>) -> bool {
    occurs_at(pointer, "/triggers/"@, 0)
        && pointer.len() >= "/location"@.len()
        && occurs_at(pointer, "/location"@, pointer.len() - "/location"@.len())
}

pub fn is_blankable_reference_pointer(pointer: &str) -> (r: bool)
    ensures
        r == spec_is_blankable_reference_pointer(pointer@),
{
    let p = chars_of(pointer);
    let loc = chars_of("/location");
    starts_with_lit(p.as_slice(), "/triggers/") && p.len() >= loc.len()
        && occurs_at_exec(p.as_slice(), loc.as_slice(), p.len() - loc.len())
}

} // verus!
