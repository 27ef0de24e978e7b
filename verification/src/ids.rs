//! Identifier, clock and pointer syntax.

use vstd::prelude::*;
use crate::text::{chars_of, is_white_space, spec_trim, string_from_chars, trim};

verus! {

pub open spec fn is_lower(c: char) -> bool {
    'a' <= c && c <= 'z'
}

pub open spec fn is_digit(c: char) -> bool {
    '0' <= c && c <= '9'
}

/// Index of the first `.`, or `s.len()` when there is none.
pub open spec fn dot_index(s: Seq<char>) -> int
    decreases s.len(),
{
    if s.len() == 0 {
        0
    } else if s[0] == '.' {
        0
    } else {
        1 + dot_index(s.drop_first())
    }
}

/// The kind prefix of an ID: the text before its first `.`.
pub open spec fn spec_id_prefix(s: Seq<char>) -> Option<Seq<char>> {
    if dot_index(s) < s.len() {
        Some(s.subrange(0, dot_index(s)))
    } else {
        None
    }
}

/// The shape of an authored ID: `prefix.name` with `[a-z_]+` before the first dot and
/// `[a-z0-9_]+` after it.
pub open spec fn spec_looks_like_id(s: Seq<char>) -> bool {
    let d = dot_index(s);
    &&& d < s.len()
    &&& d > 0
    &&& d + 1 < s.len()
    &&& forall|i: int| 0 <= i < d ==> (is_lower(#[trigger] s[i]) || s[i] == '_')
    &&& forall|i: int| d < i < s.len() ==> (is_lower(#[trigger] s[i]) || is_digit(s[i]) || s[i] == '_')
}

/// A canonical ID: it looks like an ID, neither part starts or ends with `_`, and it has
/// no `__`.
pub open spec fn spec_valid_id(s: Seq<char>) -> bool {
    let d = dot_index(s);
    &&& spec_looks_like_id(s)
    &&& s[0] != '_'
    &&& s[d - 1] != '_'
    &&& s[d + 1] != '_'
    &&& s[s.len() - 1] != '_'
    &&& forall|i: int| 0 <= i < s.len() - 1 ==> !(#[trigger] s[i] == '_' && s[i + 1] == '_')
}

proof fn lemma_dot_index(s: Seq<char>, i: int)
    requires
        0 <= i <= s.len(),
        forall|j: int| 0 <= j < i ==> s[j] != '.',
        i == s.len() || s[i] == '.',
    ensures
        dot_index(s) == i,
    decreases s.len(),
{
    if s.len() > 0 && i > 0 {
        lemma_dot_index(s.drop_first(), i - 1);
    }
}

/// Index of the first `.` in `chars`.
fn find_dot(chars: &Vec<char>) -> (r: usize)
    ensures
        r == dot_index(chars@),
        r <= chars.len(),
{
    let mut i: usize = 0;
    while i < chars.len() && chars[i] != '.'
        invariant
            0 <= i <= chars.len(),
            forall|j: int| 0 <= j < i ==> chars@[j] != '.',
        decreases chars.len() - i,
    {
        i += 1;
    }
    proof {
        lemma_dot_index(chars@, i as int);
    }
    i
}

/// The text before the first `.` of `id`, if it has one.
pub fn id_prefix(id: &str) -> (r: Option<String>)
    ensures
        match r {
            Some(p) => spec_id_prefix(id@) == Some(p@),
            None => spec_id_prefix(id@) is None,
        },
{
    let chars = chars_of(id);
    let d = find_dot(&chars);
    if d < chars.len() {
        Some(string_from_chars(&chars.as_slice()[0..d]))
    } else {
        None
    }
}

fn looks_like_id_chars(chars: &Vec<char>) -> (r: bool)
    ensures
        r == spec_looks_like_id(chars@),
{
    let n = chars.len();
    let d = find_dot(chars);
    if d == n || d == 0 || d + 1 >= n {
        return false;
    }
    let mut i: usize = 0;
    while i < d
        invariant
            d < n == chars.len(),
            d == dot_index(chars@),
            0 <= i <= d,
            forall|j: int| 0 <= j < i ==> (is_lower(#[trigger] chars@[j]) || chars@[j] == '_'),
        decreases d - i,
    {
        let c = chars[i];
        if !(('a' <= c && c <= 'z') || c == '_') {
            proof { assert(!(is_lower(chars@[i as int]) || chars@[i as int] == '_')); }
            return false;
        }
        i += 1;
    }
    let mut k: usize = d + 1;
    while k < n
        invariant
            d < n == chars.len(),
            d == dot_index(chars@),
            d > 0,
            forall|j: int| 0 <= j < d ==> (is_lower(#[trigger] chars@[j]) || chars@[j] == '_'),
            d + 1 <= k <= n,
            forall|j: int| d < j < k ==> (is_lower(#[trigger] chars@[j]) || is_digit(chars@[j]) || chars@[j] == '_'),
        decreases n - k,
    {
        let c = chars[k];
        if !(('a' <= c && c <= 'z') || ('0' <= c && c <= '9') || c == '_') {
            proof { assert(!(is_lower(chars@[k as int]) || is_digit(chars@[k as int]) || chars@[k as int] == '_')); }
            return false;
        }
        k += 1;
    }
    true
}

/// Whether `value` has the shape of an authored ID.
pub fn looks_like_id(value: &str) -> (r: bool)
    ensures
        r == spec_looks_like_id(value@),
{
    let chars = chars_of(value);
    looks_like_id_chars(&chars)
}

/// Whether `value` is a canonical authored ID.
pub fn valid_id(value: &str) -> (r: bool)
    ensures
        r == spec_valid_id(value@),
{
    let chars = chars_of(value);
    if !looks_like_id_chars(&chars) {
        return false;
    }
    let n = chars.len();
    let d = find_dot(&chars);
    if chars[0] == '_' || chars[d - 1] == '_' || chars[d + 1] == '_' || chars[n - 1] == '_' {
        return false;
    }
    let mut i: usize = 0;
    while i + 1 < n
        invariant
            n == chars.len(),
            chars@ == value@,
            d == dot_index(chars@),
            spec_looks_like_id(chars@),
            chars@[0] != '_' && chars@[d - 1] != '_' && chars@[d + 1] != '_' && chars@[n - 1] != '_',
            n >= 1,
            0 <= i <= n - 1,
            forall|j: int| 0 <= j < i ==> !(#[trigger] chars@[j] == '_' && chars@[j + 1] == '_'),
        decreases n - i,
    {
        if chars[i] == '_' && chars[i + 1] == '_' {
            proof { assert(chars@[i as int] == '_' && chars@[i + 1] == '_'); }
            return false;
        }
        i += 1;
    }
    true
}

/// A quoted 24-hour clock value `HH:MM` from `00:00` through `23:59`.
pub open spec fn spec_valid_time(s: Seq<char>) -> bool {
    &&& s.len() == 5
    &&& s[2] == ':'
    &&& is_digit(s[0]) && is_digit(s[1]) && is_digit(s[3]) && is_digit(s[4])
    &&& (s[0] as int - 48) * 10 + (s[1] as int - 48) < 24
    &&& (s[3] as int - 48) * 10 + (s[4] as int - 48) < 60
}

/// Minutes after midnight of a valid clock value.
pub open spec fn spec_minutes(s: Seq<char>) -> int {
    ((s[0] as int - 48) * 10 + (s[1] as int - 48)) * 60 + (s[3] as int - 48) * 10 + (s[4] as int - 48)
}

pub fn valid_time(value: &str) -> (r: bool)
    ensures
        r == spec_valid_time(value@),
{
    let c = chars_of(value);
    if c.len() != 5 || c[2] != ':' {
        return false;
    }
    let (a, b, x, y) = (c[0], c[1], c[3], c[4]);
    if !('0' <= a && a <= '9' && '0' <= b && b <= '9' && '0' <= x && x <= '9' && '0' <= y && y <= '9') {
        return false;
    }
    let hour = ((a as u32) - 48) * 10 + ((b as u32) - 48);
    let minute = ((x as u32) - 48) * 10 + ((y as u32) - 48);
    hour < 24 && minute < 60
}

/// Minutes after midnight of a valid `HH:MM` value.
pub fn time_to_minutes(value: &str) -> (r: u16)
    requires
        spec_valid_time(value@),
    ensures
        r == spec_minutes(value@),
        r < 1440,
{
    let c = chars_of(value);
    let hour = ((c[0] as u32) - 48) * 10 + ((c[1] as u32) - 48);
    let minute = ((c[3] as u32) - 48) * 10 + ((c[4] as u32) - 48);
    (hour * 60 + minute) as u16
}

/// Value of a decimal digit string.
pub open spec fn digits_value(s: Seq<char>) -> nat
    decreases s.len(),
{
    if s.len() == 0 {
        0
    } else {
        digits_value(s.drop_last()) * 10 + (s.last() as nat - 48) as nat
    }
}

pub open spec fn all_digits(s: Seq<char>) -> bool {
    forall|i: int| 0 <= i < s.len() ==> is_digit(#[trigger] s[i])
}

/// What `str::parse::<u32>` accepts: an optional `+` and at least one ASCII digit, with a
/// value that fits in `u32`.
pub open spec fn spec_parse_u32(s: Seq<char>) -> Option<nat> {
    let d = if s.len() > 0 && s[0] == '+' { s.drop_first() } else { s };
    if d.len() > 0 && all_digits(d) && digits_value(d) <= u32::MAX {
        Some(digits_value(d))
    } else {
        None
    }
}

proof fn lemma_digits_value_monotone(s: Seq<char>, i: int)
    requires
        0 <= i <= s.len(),
        all_digits(s),
    ensures
        digits_value(s.subrange(0, i)) <= digits_value(s),
    decreases s.len() - i,
{
    if i < s.len() {
        lemma_digits_value_monotone(s, i + 1);
        assert(s.subrange(0, i + 1).drop_last() =~= s.subrange(0, i));
    } else {
        assert(s.subrange(0, i) =~= s);
    }
}

/// Parses a digit run into a value when it fits under `limit`; `None` otherwise.
fn parse_digits(d: &[char], limit: u64) -> (r: Option<u64>)
    requires
        limit <= u32::MAX,
    ensures
        match r {
            Some(v) => d@.len() > 0 && all_digits(d@) && digits_value(d@) <= limit && v == digits_value(d@),
            None => !(d@.len() > 0 && all_digits(d@) && digits_value(d@) <= limit),
        },
{
    if d.len() == 0 {
        return None;
    }
    let mut value: u64 = 0;
    let mut i: usize = 0;
    while i < d.len()
        invariant
            limit <= u32::MAX,
            0 <= i <= d@.len(),
            all_digits(d@.subrange(0, i as int)),
            value == digits_value(d@.subrange(0, i as int)),
            value <= limit,
        decreases d@.len() - i,
    {
        let c = d[i];
        proof {
            assert(d@.subrange(0, i + 1).drop_last() =~= d@.subrange(0, i as int));
        }
        if !('0' <= c && c <= '9') {
            proof {
                assert(!is_digit(d@[i as int]));
            }
            return None;
        }
        let next = value * 10 + ((c as u64) - 48);
        if next > limit {
            proof {
                assert(all_digits(d@.subrange(0, i + 1)));
                assert(digits_value(d@.subrange(0, i + 1)) == next);
                if all_digits(d@) {
                    lemma_digits_value_monotone(d@, i + 1);
                }
            }
            return None;
        }
        value = next;
        i += 1;
    }
    proof {
        assert(d@.subrange(0, d@.len() as int) =~= d@);
    }
    Some(value)
}

/// `s.trim().parse::<u32>()`.
fn parse_u32_trimmed(s: &[char]) -> (r: Option<u64>)
    ensures
        match r {
            Some(v) => spec_parse_u32(spec_trim(s@)) == Some(v as nat),
            None => spec_parse_u32(spec_trim(s@)) is None,
        },
{
    let owned = string_from_chars(s);
    let t = trim(owned.as_str());
    let tc = chars_of(t.as_str());
    if tc.len() > 0 && tc[0] == '+' {
        let rest = &tc.as_slice()[1..tc.len()];
        proof {
            assert(rest@ =~= tc@.drop_first());
        }
        parse_digits(rest, 4294967295)
    } else {
        parse_digits(tc.as_slice(), 4294967295)
    }
}

/// The delay grammar of `after`: a positive `u32` count followed by `turns`, `m`, or
/// `h` (hours must fit in `u32` minutes), surrounding white space allowed.
pub open spec fn spec_valid_delay(value: Seq<char>) -> bool {
    let v = spec_trim(value);
    let turns = seq!['t', 'u', 'r', 'n', 's'];
    if v.len() >= 5 && v.subrange(v.len() - 5, v.len() as int) == turns {
        match spec_parse_u32(spec_trim(v.subrange(0, v.len() - 5))) {
            Some(n) => n > 0,
            None => false,
        }
    } else if v.len() >= 1 && v.last() == 'm' {
        match spec_parse_u32(spec_trim(v.drop_last())) {
            Some(n) => n > 0,
            None => false,
        }
    } else if v.len() >= 1 && v.last() == 'h' {
        match spec_parse_u32(spec_trim(v.drop_last())) {
            Some(n) => n > 0 && n * 60 <= u32::MAX,
            None => false,
        }
    } else {
        false
    }
}

pub fn valid_delay(value: &str) -> (r: bool)
    ensures
        r == spec_valid_delay(value@),
{
    let t = trim(value);
    let v = chars_of(t.as_str());
    let n = v.len();
    let turns = n >= 5 && v[n - 5] == 't' && v[n - 4] == 'u' && v[n - 3] == 'r' && v[n - 2] == 'n'
        && v[n - 1] == 's';
    proof {
        let tw = seq!['t', 'u', 'r', 'n', 's'];
        if n >= 5 {
            if turns {
                assert(v@.subrange(n - 5, n as int) =~= tw);
            } else {
                assert(v@.subrange(n - 5, n as int)[0] == v@[n - 5]);
                assert(v@.subrange(n - 5, n as int)[1] == v@[n - 4]);
                assert(v@.subrange(n - 5, n as int)[2] == v@[n - 3]);
                assert(v@.subrange(n - 5, n as int)[3] == v@[n - 2]);
                assert(v@.subrange(n - 5, n as int)[4] == v@[n - 1]);
                assert(v@.subrange(n - 5, n as int) != tw);
            }
        }
    }
    if turns {
        match parse_u32_trimmed(&v.as_slice()[0..n - 5]) {
            Some(k) => k > 0,
            None => false,
        }
    } else if n >= 1 && v[n - 1] == 'm' {
        proof {
            assert(v@.subrange(0, n - 1) =~= v@.drop_last());
        }
        match parse_u32_trimmed(&v.as_slice()[0..n - 1]) {
            Some(k) => k > 0,
            None => false,
        }
    } else if n >= 1 && v[n - 1] == 'h' {
        proof {
            assert(v@.subrange(0, n - 1) =~= v@.drop_last());
        }
        match parse_u32_trimmed(&v.as_slice()[0..n - 1]) {
            Some(k) => k > 0 && k * 60 <= 4294967295,
            None => false,
        }
    } else {
        false
    }
}

/// JSON-pointer escaping of one reference token: `~` becomes `~0` and `/` becomes `~1`.
pub open spec fn spec_escape_pointer(s: Seq<char>) -> Seq<char>
    decreases s.len(),
{
    if s.len() == 0 {
        Seq::empty()
    } else {
        let c = s.last();
        let tail = if c == '~' {
            seq!['~', '0']
        } else if c == '/' {
            seq!['~', '1']
        } else {
            seq![c]
        };
        spec_escape_pointer(s.drop_last()) + tail
    }
}

pub fn escape_pointer(value: &str) -> (r: String)
    ensures
        r@ == spec_escape_pointer(value@),
{
    let chars = chars_of(value);
    let mut out: Vec<char> = Vec::new();
    let mut i: usize = 0;
    while i < chars.len()
        invariant
            chars@ == value@,
            0 <= i <= chars.len(),
            out@ == spec_escape_pointer(chars@.subrange(0, i as int)),
        decreases chars.len() - i,
    {
        let c = chars[i];
        proof {
            assert(chars@.subrange(0, i + 1).drop_last() =~= chars@.subrange(0, i as int));
        }
        if c == '~' {
            out.push('~');
            out.push('0');
        } else if c == '/' {
            out.push('~');
            out.push('1');
        } else {
            out.push(c);
        }
        proof {
            let prev = spec_escape_pointer(chars@.subrange(0, i as int));
            if c == '~' {
                assert(out@ =~= prev + seq!['~', '0']);
            } else if c == '/' {
                assert(out@ =~= prev + seq!['~', '1']);
            } else {
                assert(out@ =~= prev + seq![c]);
            }
        }
        i += 1;
    }
    proof {
        assert(chars@.subrange(0, chars.len() as int) =~= chars@);
    }
    string_from_chars(out.as_slice())
}

/// A positional effect reference: `Ok(None)` when `value` does not start with `param`,
/// `Ok(Some(n - 1))` for `paramN` with decimal `N >= 1` that fits in `usize`, and `Err(())`
/// for any other `param...` text.
pub open spec fn spec_parameter_reference(value: Seq<char>) -> Result<Option<nat>, ()> {
    let p = seq!['p', 'a', 'r', 'a', 'm'];
    if value.len() >= 5 && value.subrange(0, 5) == p {
        let suffix = value.subrange(5, value.len() as int);
        if suffix.len() == 0 || !all_digits(suffix) || digits_value(suffix) > usize::MAX
            || digits_value(suffix) == 0 {
            Err(())
        } else {
            Ok(Some((digits_value(suffix) - 1) as nat))
        }
    } else {
        Ok(None)
    }
}

/// Value of a digit run; `None` when empty, not all digits, or above `usize::MAX`.
fn parse_usize_digits(d: &[char]) -> (r: Option<usize>)
    ensures
        match r {
            Some(v) => d@.len() > 0 && all_digits(d@) && digits_value(d@) <= usize::MAX && v == digits_value(d@),
            None => !(d@.len() > 0 && all_digits(d@) && digits_value(d@) <= usize::MAX),
        },
{
    if d.len() == 0 {
        return None;
    }
    let mut value: usize = 0;
    let mut i: usize = 0;
    while i < d.len()
        invariant
            0 <= i <= d@.len(),
            all_digits(d@.subrange(0, i as int)),
            value == digits_value(d@.subrange(0, i as int)),
        decreases d@.len() - i,
    {
        let c = d[i];
        proof {
            assert(d@.subrange(0, i + 1).drop_last() =~= d@.subrange(0, i as int));
        }
        if !('0' <= c && c <= '9') {
            proof {
                assert(!is_digit(d@[i as int]));
            }
            return None;
        }
        let digit = (c as usize) - 48;
        if value > (usize::MAX - digit) / 10 {
            proof {
                assert(value * 10 + digit > usize::MAX) by (nonlinear_arith)
                    requires value > (usize::MAX - digit) / 10, digit <= 9;
                assert(digits_value(d@.subrange(0, i + 1)) == value * 10 + digit);
                if all_digits(d@) {
                    lemma_digits_value_monotone(d@, i + 1);
                }
            }
            return None;
        }
        proof {
            assert(value * 10 + digit <= usize::MAX) by (nonlinear_arith)
                requires value <= (usize::MAX - digit) / 10, digit <= 9;
        }
        value = value * 10 + digit;
        i += 1;
    }
    proof {
        assert(d@.subrange(0, d@.len() as int) =~= d@);
    }
    Some(value)
}

pub fn command_parameter_reference(value: &str) -> (r: Result<Option<usize>, ()>)
    ensures
        match r {
            Ok(Some(n)) => spec_parameter_reference(value@) == Ok::<Option<nat>, ()>(Some(n as nat)),
            Ok(None) => spec_parameter_reference(value@) == Ok::<Option<nat>, ()>(None),
            Err(()) => spec_parameter_reference(value@) is Err,
        },
{
    let c = chars_of(value);
    let n = c.len();
    let is_param = n >= 5 && c[0] == 'p' && c[1] == 'a' && c[2] == 'r' && c[3] == 'a' && c[4] == 'm';
    proof {
        let p = seq!['p', 'a', 'r', 'a', 'm'];
        if n >= 5 {
            if is_param {
                assert(c@.subrange(0, 5) =~= p);
            } else {
                assert(c@.subrange(0, 5)[0] == c@[0]);
                assert(c@.subrange(0, 5)[1] == c@[1]);
                assert(c@.subrange(0, 5)[2] == c@[2]);
                assert(c@.subrange(0, 5)[3] == c@[3]);
                assert(c@.subrange(0, 5)[4] == c@[4]);
            }
        }
    }
    if !is_param {
        return Ok(None);
    }
    match parse_usize_digits(&c.as_slice()[5..n]) {
        Some(k) => {
            if k == 0 {
                Err(())
            } else {
                Ok(Some(k - 1))
            }
        },
        None => Err(()),
    }
}

/// `a` comes before `b` character by character: at the first place where they differ,
/// `a` has the smaller character.
pub open spec fn chars_before(a: Seq<char>, b: Seq<char>) -> bool {
    exists|i: int| 0 <= i < a.len() && i < b.len() && #[trigger] a.subrange(0, i) == b.subrange(0, i) && a[i] < b[i]
}

/// Minutes after midnight follow the clock: every valid `HH:MM` value maps into
/// `0..1440`, a value earlier on the clock (earlier in `HH:MM` order) has strictly fewer
/// minutes, and two values have the same minutes only when they are the same. (An
/// order-keeping map of the 1440 clock values into `0..1440` is the count of minutes.)
pub proof fn law_minutes_follow_clock_order(a: Seq<char>, b: Seq<char>)
    requires
        spec_valid_time(a),
        spec_valid_time(b),
    ensures
        0 <= spec_minutes(a) < 1440,
        spec_minutes(a) < spec_minutes(b) <==> chars_before(a, b),
        spec_minutes(a) == spec_minutes(b) <==> a == b,
{
    let (a0, a1, a3, a4) = (a[0] as int - 48, a[1] as int - 48, a[3] as int - 48, a[4] as int - 48);
    let (b0, b1, b3, b4) = (b[0] as int - 48, b[1] as int - 48, b[3] as int - 48, b[4] as int - 48);
    assert(spec_minutes(a) == 600 * a0 + 60 * a1 + 10 * a3 + a4);
    assert(spec_minutes(b) == 600 * b0 + 60 * b1 + 10 * b3 + b4);
    if chars_before(a, b) {
        let i = choose|i: int| 0 <= i < a.len() && i < b.len() && #[trigger] a.subrange(0, i) == b.subrange(0, i) && a[i] < b[i];
        assert forall|j: int| 0 <= j < i implies a[j] == b[j] by {
            assert(a.subrange(0, i)[j] == a[j]);
            assert(b.subrange(0, i)[j] == b[j]);
        }
        assert(spec_minutes(a) < spec_minutes(b));
    }
    if spec_minutes(a) < spec_minutes(b) {
        if a[0] != b[0] {
            assert(a.subrange(0, 0) =~= b.subrange(0, 0));
            assert(a[0] < b[0]);
        } else if a[1] != b[1] {
            assert(a.subrange(0, 1) =~= b.subrange(0, 1));
            assert(a[1] < b[1]);
        } else if a[3] != b[3] {
            assert(a.subrange(0, 3) =~= b.subrange(0, 3));
            assert(a[3] < b[3]);
        } else {
            assert(a.subrange(0, 4) =~= b.subrange(0, 4));
            assert(a[4] < b[4]);
        }
    }
    if spec_minutes(a) == spec_minutes(b) {
        assert(a[0] == b[0] && a[1] == b[1] && a[3] == b[3] && a[4] == b[4]);
        assert(a =~= b);
    }
}

/// Leading and trailing characters that are not white space leave nothing to trim.
proof fn lemma_trim_plain(s: Seq<char>)
    requires
        s.len() > 0,
        !is_white_space(s[0]),
        !is_white_space(s[s.len() - 1]),
    ensures
        spec_trim(s) == s,
{
    assert(crate::text::skip_white_space(s, 0) == 0);
    assert(s.subrange(0, s.len() as int) =~= s);
    assert(crate::text::trim_end_index(s, s.len() as int) == s.len());
}

/// A digit is no white space.
proof fn lemma_digits_plain(d: Seq<char>)
    requires
        d.len() > 0,
        all_digits(d),
    ensures
        !is_white_space(d[0]),
        !is_white_space(d[d.len() - 1]),
        d[0] != '+',
        spec_trim(d) == d,
        spec_parse_u32(d) == if digits_value(d) <= u32::MAX { Some(digits_value(d)) } else { None::<nat> },
{
    assert(is_digit(d[0]));
    assert(is_digit(d[d.len() - 1]));
    lemma_trim_plain(d);
}

/// A delay is a positive count followed by its unit. With `n` the value of the digits `d`:
/// `d` followed by `turns` or by `m` is accepted exactly when `0 < n` fits in `u32`, and `d`
/// followed by `h` exactly when `0 < n` and `n` hours, in minutes, fit in `u32`; so a count
/// of one is the least accepted for every unit.
pub proof fn law_delay_counts_start_at_one(d: Seq<char>)
    requires
        d.len() > 0,
        all_digits(d),
    ensures
        spec_valid_delay(d + seq!['t', 'u', 'r', 'n', 's']) <==> 0 < digits_value(d) <= u32::MAX,
        spec_valid_delay(d + seq!['m']) <==> 0 < digits_value(d) <= u32::MAX,
        spec_valid_delay(d + seq!['h']) <==> 0 < digits_value(d) && digits_value(d) * 60 <= u32::MAX,
{
    lemma_digits_plain(d);
    let turns = seq!['t', 'u', 'r', 'n', 's'];
    let vt = d + turns;
    lemma_trim_plain(vt);
    assert(vt.subrange(vt.len() - 5, vt.len() as int) =~= turns);
    assert(vt.subrange(0, vt.len() - 5) =~= d);
    let vm = d + seq!['m'];
    lemma_trim_plain(vm);
    assert(vm.last() == 'm');
    if vm.len() >= 5 {
        assert(vm.subrange(vm.len() - 5, vm.len() as int)[4] == 'm');
        assert(vm.subrange(vm.len() - 5, vm.len() as int) != turns);
    }
    assert(vm.drop_last() =~= d);
    let vh = d + seq!['h'];
    lemma_trim_plain(vh);
    assert(vh.last() == 'h');
    if vh.len() >= 5 {
        assert(vh.subrange(vh.len() - 5, vh.len() as int)[4] == 'h');
        assert(vh.subrange(vh.len() - 5, vh.len() as int) != turns);
    }
    assert(vh.drop_last() =~= d);
}

} // verus!

