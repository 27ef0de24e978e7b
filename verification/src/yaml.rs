//! A YAML document model and its parser.

use vstd::prelude::*;
use crate::text::{has_text, nonblank, owned, str_eq};
use serde_yaml::Value;


verus! {

/// A YAML number as the parser classifies it.
#[derive(Debug, Clone)]
pub enum YamlNumber {
    /// A non-negative integer.
    PosInt(u64),
    /// A negative integer.
    NegInt(i64),
    /// A floating-point number, kept as the parser renders it.
    Float(String),
}

/// One YAML node. Mapping entries keep their authored order.
#[derive(Debug)]
pub enum YamlValue {
    Null,
    Bool(bool),
    Number(YamlNumber),
    String(String),
    Sequence(Vec<YamlValue>),
    Mapping(Vec<(YamlValue, YamlValue)>),
    Tagged(String, Box<YamlValue>),
}

/// The node behind any number of `!tag` wrappers.
pub open spec fn untag(v: YamlValue) -> YamlValue
    decreases v,
{
    match v {
        YamlValue::Tagged(_, inner) => untag(*inner),
        _ => v,
    }
}

pub open spec fn spec_as_str(v: YamlValue) -> Option<Seq<char>> {
    match untag(v) {
        YamlValue::String(s) => Some(s@),
        _ => None,
    }
}

pub open spec fn spec_as_bool(v: YamlValue) -> Option<bool> {
    match untag(v) {
        YamlValue::Bool(b) => Some(b),
        _ => None,
    }
}

pub open spec fn number_as_i64(n: YamlNumber) -> Option<i64> {
    match n {
        YamlNumber::PosInt(u) => if u <= i64::MAX { Some(u as i64) } else { None },
        YamlNumber::NegInt(i) => Some(i),
        YamlNumber::Float(_) => None,
    }
}

pub open spec fn number_as_u64(n: YamlNumber) -> Option<u64> {
    match n {
        YamlNumber::PosInt(u) => Some(u),
        _ => None,
    }
}

pub open spec fn spec_as_i64(v: YamlValue) -> Option<i64> {
    match untag(v) {
        YamlValue::Number(n) => number_as_i64(n),
        _ => None,
    }
}

pub open spec fn spec_as_u64(v: YamlValue) -> Option<u64> {
    match untag(v) {
        YamlValue::Number(n) => number_as_u64(n),
        _ => None,
    }
}

pub open spec fn spec_as_sequence(v: YamlValue) -> Option<Seq<YamlValue>> {
    match untag(v) {
        YamlValue::Sequence(items) => Some(items@),
        _ => None,
    }
}

pub open spec fn spec_as_mapping(v: YamlValue) -> Option<Seq<(YamlValue, YamlValue)>> {
    match untag(v) {
        YamlValue::Mapping(entries) => Some(entries@),
        _ => None,
    }
}

/// The number of nodes of a YAML tree: every scalar, sequence, mapping, key, value and
/// tag wrapper counts once.
pub open spec fn yaml_nodes(v: YamlValue) -> nat
    decreases v, 0nat,
{
    match v {
        YamlValue::Sequence(items) => 1 + items_nodes(items@),
        YamlValue::Mapping(entries) => 1 + entries_nodes(entries@),
        YamlValue::Tagged(_, inner) => 1 + yaml_nodes(*inner),
        _ => 1,
    }
}

/// The nodes of a list of YAML trees.
pub open spec fn items_nodes(items: Seq<YamlValue>) -> nat
    decreases items, items.len(),
{
    if items.len() == 0 {
        0
    } else {
        items_nodes(items.drop_last()) + yaml_nodes(items.last())
    }
}

/// The nodes of the keys and values of a mapping.
pub open spec fn entries_nodes(entries: Seq<(YamlValue, YamlValue)>) -> nat
    decreases entries, entries.len(),
{
    if entries.len() == 0 {
        0
    } else {
        entries_nodes(entries.drop_last()) + yaml_nodes(entries.last().0) + yaml_nodes(entries.last().1)
    }
}

/// How far below a node its deepest descendant lies (0 for a node without children).
pub open spec fn yaml_depth(v: YamlValue) -> nat
    decreases v, 0nat,
{
    match v {
        YamlValue::Sequence(items) => items_depth(items@),
        YamlValue::Mapping(entries) => entries_depth(entries@),
        YamlValue::Tagged(_, inner) => 1 + yaml_depth(*inner),
        _ => 0,
    }
}

/// The depth of a node whose children are `items`.
pub open spec fn items_depth(items: Seq<YamlValue>) -> nat
    decreases items, items.len(),
{
    if items.len() == 0 {
        0
    } else {
        let rest = items_depth(items.drop_last());
        let last = 1 + yaml_depth(items.last());
        if rest >= last { rest } else { last }
    }
}

/// The depth of a mapping whose entries are `entries`.
pub open spec fn entries_depth(entries: Seq<(YamlValue, YamlValue)>) -> nat
    decreases entries, entries.len(),
{
    if entries.len() == 0 {
        0
    } else {
        let rest = entries_depth(entries.drop_last());
        let k = 1 + yaml_depth(entries.last().0);
        let v = 1 + yaml_depth(entries.last().1);
        let last = if k >= v { k } else { v };
        if rest >= last { rest } else { last }
    }
}

/// A prefix of a list of trees has no more nodes and no more depth than the list.
pub proof fn lemma_items_prefix(items: Seq<YamlValue>, j: int)
    requires
        0 <= j <= items.len(),
    ensures
        items_nodes(items.take(j)) <= items_nodes(items),
        items_depth(items.take(j)) <= items_depth(items),
    decreases items.len(),
{
    if j == items.len() {
        assert(items.take(j) =~= items);
    } else {
        lemma_items_prefix(items.drop_last(), j);
        assert(items.drop_last().take(j) =~= items.take(j));
    }
}

/// A prefix of a mapping has no more nodes and no more depth than the mapping.
pub proof fn lemma_entries_prefix(entries: Seq<(YamlValue, YamlValue)>, j: int)
    requires
        0 <= j <= entries.len(),
    ensures
        entries_nodes(entries.take(j)) <= entries_nodes(entries),
        entries_depth(entries.take(j)) <= entries_depth(entries),
    decreases entries.len(),
{
    if j == entries.len() {
        assert(entries.take(j) =~= entries);
    } else {
        lemma_entries_prefix(entries.drop_last(), j);
        assert(entries.drop_last().take(j) =~= entries.take(j));
    }
}

/// A mapping key equal to the plain string `key`.
pub open spec fn key_is(k: YamlValue, key: Seq<char>) -> bool {
    k matches YamlValue::String(s) && s@ == key
}

/// `i` is the first entry of `m` whose key is `key`.
pub open spec fn first_key_index(m: Seq<(YamlValue, YamlValue)>, key: Seq<char>, i: int) -> bool {
    &&& 0 <= i < m.len()
    &&& key_is(m[i].0, key)
    &&& forall|j: int| 0 <= j < i ==> !key_is(#[trigger] m[j].0, key)
}

/// The value stored under the string key `key`.
pub open spec fn map_get(m: Seq<(YamlValue, YamlValue)>, key: Seq<char>) -> Option<YamlValue> {
    if exists|i: int| first_key_index(m, key, i) {
        let i = choose|i: int| first_key_index(m, key, i);
        Some(m[i].1)
    } else {
        None
    }
}

pub proof fn lemma_first_key_index_unique(m: Seq<(YamlValue, YamlValue)>, key: Seq<char>, i: int, j: int)
    requires
        first_key_index(m, key, i),
        first_key_index(m, key, j),
    ensures
        i == j,
{
}

/// Two numbers with the same value and rendering.
pub open spec fn same_number(a: YamlNumber, b: YamlNumber) -> bool {
    match (a, b) {
        (YamlNumber::PosInt(x), YamlNumber::PosInt(y)) => x == y,
        (YamlNumber::NegInt(x), YamlNumber::NegInt(y)) => x == y,
        (YamlNumber::Float(x), YamlNumber::Float(y)) => x@ == y@,
        _ => false,
    }
}

/// Two YAML trees with the same shape, scalars, texts and tags, node for node.
pub open spec fn same_yaml(a: YamlValue, b: YamlValue) -> bool
    decreases a,
{
    match a {
        YamlValue::Null => b is Null,
        YamlValue::Bool(x) => b matches YamlValue::Bool(y) && x == y,
        YamlValue::Number(x) => b matches YamlValue::Number(y) && same_number(x, y),
        YamlValue::String(x) => b matches YamlValue::String(y) && x@ == y@,
        YamlValue::Sequence(xs) => b matches YamlValue::Sequence(ys) && xs@.len() == ys@.len()
            && forall|i: int| 0 <= i < xs@.len() ==> {
                proof { assert(decreases_to!(xs => xs@[i])); }
                same_yaml(#[trigger] xs@[i], ys@[i])
            },
        YamlValue::Mapping(xs) => b matches YamlValue::Mapping(ys) && xs@.len() == ys@.len()
            && forall|i: int| 0 <= i < xs@.len() ==> {
                proof {
                    assert(decreases_to!(xs => xs@[i]));
                    assert(decreases_to!(xs@[i] => xs@[i].0));
                    assert(decreases_to!(xs@[i] => xs@[i].1));
                }
                same_yaml((#[trigger] xs@[i]).0, ys@[i].0) && same_yaml(xs@[i].1, ys@[i].1)
            },
        YamlValue::Tagged(t, x) => b matches YamlValue::Tagged(u, y) && t@ == u@ && same_yaml(*x, *y),
    }
}

/// Two entry lists with the same keys and values, tree for tree, in order.
pub open spec fn same_entries(a: Seq<(YamlValue, YamlValue)>, b: Seq<(YamlValue, YamlValue)>) -> bool {
    &&& a.len() == b.len()
    &&& forall|i: int| 0 <= i < a.len() ==> same_yaml((#[trigger] a[i]).0, b[i].0) && same_yaml(a[i].1, b[i].1)
}

/// Tree equality is transitive.
pub proof fn lemma_same_yaml_trans(a: YamlValue, b: YamlValue, c: YamlValue)
    requires
        same_yaml(a, b),
        same_yaml(b, c),
    ensures
        same_yaml(a, c),
    decreases a,
{
    match a {
        YamlValue::Sequence(xs) => {
            let ys = b->Sequence_0;
            let zs = c->Sequence_0;
            assert forall|i: int| 0 <= i < xs@.len() implies same_yaml(#[trigger] xs@[i], zs@[i]) by {
                assert(decreases_to!(xs => xs@[i]));
                assert(same_yaml(xs@[i], ys@[i]));
                assert(same_yaml(ys@[i], zs@[i]));
                lemma_same_yaml_trans(xs@[i], ys@[i], zs@[i]);
            }
        },
        YamlValue::Mapping(xs) => {
            let ys = b->Mapping_0;
            let zs = c->Mapping_0;
            assert forall|i: int| 0 <= i < xs@.len() implies same_yaml((#[trigger] xs@[i]).0, zs@[i].0) && same_yaml(xs@[i].1, zs@[i].1) by {
                assert(decreases_to!(xs => xs@[i]));
                assert(decreases_to!(xs@[i] => xs@[i].0));
                assert(decreases_to!(xs@[i] => xs@[i].1));
                assert(same_yaml(xs@[i].0, ys@[i].0) && same_yaml(xs@[i].1, ys@[i].1));
                assert(same_yaml(ys@[i].0, zs@[i].0) && same_yaml(ys@[i].1, zs@[i].1));
                lemma_same_yaml_trans(xs@[i].0, ys@[i].0, zs@[i].0);
                lemma_same_yaml_trans(xs@[i].1, ys@[i].1, zs@[i].1);
            }
        },
        YamlValue::Tagged(_, x) => {
            let y = b->Tagged_1;
            let z = c->Tagged_1;
            lemma_same_yaml_trans(*x, *y, *z);
        },
        _ => {},
    }
}

/// Lookups agree on tree-equal entry lists: both find a value or neither does, and the
/// values found are tree-equal.
pub proof fn lemma_map_get_same(a: Seq<(YamlValue, YamlValue)>, b: Seq<(YamlValue, YamlValue)>, key: Seq<char>)
    requires
        same_entries(a, b),
    ensures
        map_get(a, key) is Some <==> map_get(b, key) is Some,
        map_get(a, key) is Some ==> same_yaml(map_get(a, key)->0, map_get(b, key)->0),
{
    assert forall|j: int| 0 <= j < a.len() implies (key_is(#[trigger] a[j].0, key) <==> key_is(b[j].0, key)) by {
        assert(same_yaml(a[j].0, b[j].0));
    }
    assert forall|i: int| first_key_index(a, key, i) <==> first_key_index(b, key, i) by {
        if 0 <= i < a.len() {
            assert(key_is(a[i].0, key) <==> key_is(b[i].0, key));
            if first_key_index(a, key, i) {
                assert forall|j: int| 0 <= j < i implies !key_is(#[trigger] b[j].0, key) by {
                    assert(!key_is(a[j].0, key));
                    assert(same_yaml(a[j].0, b[j].0));
                }
            }
            if first_key_index(b, key, i) {
                assert forall|j: int| 0 <= j < i implies !key_is(#[trigger] a[j].0, key) by {
                    assert(!key_is(b[j].0, key));
                    assert(same_yaml(a[j].0, b[j].0));
                }
            }
        }
    }
    if exists|i: int| first_key_index(a, key, i) {
        let i = choose|i: int| first_key_index(a, key, i);
        let j = choose|j: int| first_key_index(b, key, j);
        lemma_first_key_index_unique(b, key, i, j);
        assert(same_yaml(a[i].1, b[i].1));
    }
}

/// Tree-equal nodes read as the same string.
pub proof fn lemma_as_str_same(a: YamlValue, b: YamlValue)
    requires
        same_yaml(a, b),
    ensures
        spec_as_str(a) == spec_as_str(b),
        spec_as_sequence(a) is Some <==> spec_as_sequence(b) is Some,
        spec_as_sequence(a) is Some ==> spec_as_sequence(a)->0.len() == spec_as_sequence(b)->0.len()
            && forall|i: int| 0 <= i < spec_as_sequence(a)->0.len()
                ==> same_yaml(#[trigger] spec_as_sequence(a)->0[i], spec_as_sequence(b)->0[i]),
    decreases a,
{
    match a {
        YamlValue::Tagged(_, x) => {
            let y = b->Tagged_1;
            lemma_as_str_same(*x, *y);
        },
        _ => {},
    }
}

/// Entry-list equality is transitive.
pub proof fn lemma_same_entries_trans(a: Seq<(YamlValue, YamlValue)>, b: Seq<(YamlValue, YamlValue)>, c: Seq<(YamlValue, YamlValue)>)
    requires
        same_entries(a, b),
        same_entries(b, c),
    ensures
        same_entries(a, c),
{
    assert forall|i: int| 0 <= i < a.len() implies same_yaml((#[trigger] a[i]).0, c[i].0) && same_yaml(a[i].1, c[i].1) by {
        lemma_same_yaml_trans(a[i].0, b[i].0, c[i].0);
        lemma_same_yaml_trans(a[i].1, b[i].1, c[i].1);
    }
}

impl YamlValue {
    /// A copy of this node.
    pub fn duplicate(&self) -> (r: YamlValue)
        ensures
            same_yaml(*self, r),
        decreases self,
    {
        match self {
            YamlValue::Null => YamlValue::Null,
            YamlValue::Bool(b) => YamlValue::Bool(*b),
            YamlValue::Number(n) => YamlValue::Number(match n {
                YamlNumber::PosInt(u) => YamlNumber::PosInt(*u),
                YamlNumber::NegInt(i) => YamlNumber::NegInt(*i),
                YamlNumber::Float(f) => YamlNumber::Float(f.clone()),
            }),
            YamlValue::String(s) => YamlValue::String(s.clone()),
            YamlValue::Sequence(items) => YamlValue::Sequence(duplicate_items(items)),
            YamlValue::Mapping(entries) => YamlValue::Mapping(duplicate_entries(entries)),
            YamlValue::Tagged(tag, inner) => YamlValue::Tagged(tag.clone(), Box::new(inner.duplicate())),
        }
    }

    /// The node behind `!tag` wrappers.
    pub fn untagged(&self) -> (r: &YamlValue)
        ensures
            *r == untag(*self),
        decreases self,
    {
        match self {
            YamlValue::Tagged(_, inner) => inner.untagged(),
            _ => self,
        }
    }

    pub fn as_str(&self) -> (r: Option<&str>)
        ensures
            match r {
                Some(s) => spec_as_str(*self) == Some(s@),
                None => spec_as_str(*self) is None,
            },
    {
        match self.untagged() {
            YamlValue::String(s) => Some(s.as_str()),
            _ => None,
        }
    }

    pub fn as_bool(&self) -> (r: Option<bool>)
        ensures
            r == spec_as_bool(*self),
    {
        match self.untagged() {
            YamlValue::Bool(b) => Some(*b),
            _ => None,
        }
    }

    pub fn as_i64(&self) -> (r: Option<i64>)
        ensures
            r == spec_as_i64(*self),
    {
        match self.untagged() {
            YamlValue::Number(YamlNumber::PosInt(u)) => {
                if *u <= i64::MAX as u64 {
                    Some(*u as i64)
                } else {
                    None
                }
            },
            YamlValue::Number(YamlNumber::NegInt(i)) => Some(*i),
            _ => None,
        }
    }

    pub fn as_u64(&self) -> (r: Option<u64>)
        ensures
            r == spec_as_u64(*self),
    {
        match self.untagged() {
            YamlValue::Number(YamlNumber::PosInt(u)) => Some(*u),
            _ => None,
        }
    }

    pub fn as_sequence(&self) -> (r: Option<&Vec<YamlValue>>)
        ensures
            match r {
                Some(items) => spec_as_sequence(*self) == Some(items@),
                None => spec_as_sequence(*self) is None,
            },
    {
        match self.untagged() {
            YamlValue::Sequence(items) => Some(items),
            _ => None,
        }
    }

    pub fn as_mapping(&self) -> (r: Option<&Vec<(YamlValue, YamlValue)>>)
        ensures
            match r {
                Some(entries) => spec_as_mapping(*self) == Some(entries@),
                None => spec_as_mapping(*self) is None,
            },
    {
        match self.untagged() {
            YamlValue::Mapping(entries) => Some(entries),
            _ => None,
        }
    }

    pub fn is_string(&self) -> (r: bool)
        ensures
            r == spec_as_str(*self) is Some,
    {
        self.as_str().is_some()
    }
}

/// A copy of a sequence of nodes.
pub fn duplicate_items(items: &Vec<YamlValue>) -> (r: Vec<YamlValue>)
    ensures
        r@.len() == items@.len(),
        forall|i: int| 0 <= i < items@.len() ==> same_yaml(#[trigger] items@[i], r@[i]),
    decreases items,
{
    let mut r: Vec<YamlValue> = Vec::new();
    let mut i: usize = 0;
    while i < items.len()
        invariant
            0 <= i <= items.len(),
            r@.len() == i,
            forall|k: int| 0 <= k < i ==> same_yaml(#[trigger] items@[k], r@[k]),
        decreases items.len() - i,
    {
        proof {
            assert(decreases_to!(items => items@[i as int]));
        }
        r.push(items[i].duplicate());
        i += 1;
    }
    r
}

/// A copy of mapping entries.
pub fn duplicate_entries(entries: &Vec<(YamlValue, YamlValue)>) -> (r: Vec<(YamlValue, YamlValue)>)
    ensures
        r@.len() == entries@.len(),
        forall|i: int| 0 <= i < entries@.len() ==> same_yaml((#[trigger] entries@[i]).0, r@[i].0)
            && same_yaml(entries@[i].1, r@[i].1),
        same_entries(entries@, r@),
    decreases entries,
{
    let mut r: Vec<(YamlValue, YamlValue)> = Vec::new();
    let mut i: usize = 0;
    while i < entries.len()
        invariant
            0 <= i <= entries.len(),
            r@.len() == i,
            forall|k: int| 0 <= k < i ==> same_yaml((#[trigger] entries@[k]).0, r@[k].0) && same_yaml(entries@[k].1, r@[k].1),
        decreases entries.len() - i,
    {
        proof {
            assert(decreases_to!(entries => entries@[i as int]));
            assert(decreases_to!(entries@[i as int] => entries@[i as int].0));
            assert(decreases_to!(entries@[i as int] => entries@[i as int].1));
        }
        let k = entries[i].0.duplicate();
        let v = entries[i].1.duplicate();
        r.push((k, v));
        i += 1;
    }
    r
}

/// The value stored under the string key `key`.
pub fn get<'a>(m: &'a Vec<(YamlValue, YamlValue)>, key: &str) -> (r: Option<&'a YamlValue>)
    ensures
        match r {
            Some(v) => map_get(m@, key@) == Some(*v),
            None => map_get(m@, key@) is None,
        },
{
    let mut i: usize = 0;
    while i < m.len()
        invariant
            0 <= i <= m.len(),
            forall|j: int| 0 <= j < i ==> !key_is(#[trigger] m@[j].0, key@),
        decreases m.len() - i,
    {
        let matched = match &m[i].0 {
            YamlValue::String(k) => str_eq(k.as_str(), key),
            _ => false,
        };
        if matched {
            proof {
                assert(first_key_index(m@, key@, i as int));
                let c = choose|c: int| first_key_index(m@, key@, c);
                lemma_first_key_index_unique(m@, key@, i as int, c);
            }
            return Some(&m[i].1);
        }
        i += 1;
    }
    None
}

/// Whether the mapping has an entry under the string key `key`.
pub fn contains_key(m: &Vec<(YamlValue, YamlValue)>, key: &str) -> (r: bool)
    ensures
        r == map_get(m@, key@) is Some,
{
    get(m, key).is_some()
}

/// The string under `key`.
pub open spec fn spec_string_field(m: Seq<(YamlValue, YamlValue)>, key: Seq<char>) -> Option<Seq<char>> {
    match map_get(m, key) {
        Some(v) => spec_as_str(v),
        None => None,
    }
}

pub fn string_field<'a>(m: &'a Vec<(YamlValue, YamlValue)>, key: &str) -> (r: Option<&'a str>)
    ensures
        match r {
            Some(s) => spec_string_field(m@, key@) == Some(s@),
            None => spec_string_field(m@, key@) is None,
        },
{
    match get(m, key) {
        Some(v) => v.as_str(),
        None => None,
    }
}

/// The boolean stored under `key`.
pub open spec fn spec_bool_field(m: Seq<(YamlValue, YamlValue)>, key: Seq<char>) -> Option<bool> {
    match map_get(m, key) {
        Some(v) => spec_as_bool(v),
        None => None,
    }
}

/// The integer stored under `key`.
pub open spec fn spec_integer_field(m: Seq<(YamlValue, YamlValue)>, key: Seq<char>) -> Option<i64> {
    match map_get(m, key) {
        Some(v) => spec_as_i64(v),
        None => None,
    }
}

/// The boolean under `key`.
pub fn bool_field(m: &Vec<(YamlValue, YamlValue)>, key: &str) -> (r: Option<bool>)
    ensures
        r == spec_bool_field(m@, key@),
{
    match get(m, key) {
        Some(v) => v.as_bool(),
        None => None,
    }
}

/// The integer under `key`.
pub fn integer_field(m: &Vec<(YamlValue, YamlValue)>, key: &str) -> (r: Option<i64>)
    ensures
        r == spec_integer_field(m@, key@),
{
    match get(m, key) {
        Some(v) => v.as_i64(),
        None => None,
    }
}

/// A sequence whose every element is a string.
pub open spec fn spec_is_string_sequence(v: YamlValue) -> bool {
    match spec_as_sequence(v) {
        Some(items) => forall|i: int| 0 <= i < items.len() ==> (#[trigger] spec_as_str(items[i])) is Some,
        None => false,
    }
}

pub fn is_string_sequence(v: &YamlValue) -> (r: bool)
    ensures
        r == spec_is_string_sequence(*v),
{
    match v.as_sequence() {
        None => false,
        Some(items) => {
            let mut i: usize = 0;
            while i < items.len()
                invariant
                    spec_as_sequence(*v) == Some(items@),
                    0 <= i <= items.len(),
                    forall|k: int| 0 <= k < i ==> (#[trigger] spec_as_str(items@[k])) is Some,
                decreases items.len() - i,
            {
                if !items[i].is_string() {
                    proof {
                        assert(spec_as_sequence(*v) == Some(items@));
                        assert(!(spec_as_str(items@[i as int]) is Some));
                    }
                    return false;
                }
                i += 1;
            }
            true
        },
    }
}

/// A sequence of non-blank strings, non-empty unless `allow_empty`.
pub open spec fn spec_is_nonempty_string_sequence(v: YamlValue, allow_empty: bool) -> bool {
    match spec_as_sequence(v) {
        Some(items) => {
            &&& (allow_empty || items.len() > 0)
            &&& forall|i: int| 0 <= i < items.len() ==> {
                let s = #[trigger] spec_as_str(items[i]);
                s is Some && has_text(s->0)
            }
        },
        None => false,
    }
}

pub fn is_nonempty_string_sequence(v: &YamlValue, allow_empty: bool) -> (r: bool)
    ensures
        r == spec_is_nonempty_string_sequence(*v, allow_empty),
{
    match v.as_sequence() {
        None => false,
        Some(items) => {
            if !allow_empty && items.len() == 0 {
                return false;
            }
            let mut i: usize = 0;
            while i < items.len()
                invariant
                    spec_as_sequence(*v) == Some(items@),
                    allow_empty || items.len() > 0,
                    0 <= i <= items.len(),
                    forall|k: int| 0 <= k < i ==> {
                        let s = #[trigger] spec_as_str(items@[k]);
                        s is Some && has_text(s->0)
                    },
                decreases items.len() - i,
            {
                match items[i].as_str() {
                    Some(s) => {
                        if !nonblank(s) {
                            proof {
                                let t = spec_as_str(items@[i as int]);
                                assert(!(t is Some && has_text(t->0)));
                            }
                            return false;
                        }
                    },
                    None => {
                        proof {
                            let t = spec_as_str(items@[i as int]);
                            assert(!(t is Some && has_text(t->0)));
                        }
                        return false;
                    },
                }
                i += 1;
            }
            true
        },
    }
}

/// The strings of the sequence under `key`, skipping non-strings.
pub open spec fn spec_string_list(items: Seq<YamlValue>) -> Seq<Seq<char>>
    decreases items.len(),
{
    if items.len() == 0 {
        Seq::empty()
    } else {
        let rest = spec_string_list(items.drop_last());
        match spec_as_str(items.last()) {
            Some(s) => rest.push(s),
            None => rest,
        }
    }
}

pub open spec fn spec_string_list_field(m: Seq<(YamlValue, YamlValue)>, key: Seq<char>) -> Seq<Seq<char>> {
    match map_get(m, key) {
        Some(v) => match spec_as_sequence(v) {
            Some(items) => spec_string_list(items),
            None => Seq::empty(),
        },
        None => Seq::empty(),
    }
}

/// The strings of a sequence, skipping other nodes.
pub fn string_list(items: &Vec<YamlValue>) -> (r: Vec<String>)
    ensures
        r@.map_values(|s: String| s@) == spec_string_list(items@),
{
    let mut r: Vec<String> = Vec::new();
    let mut i: usize = 0;
    while i < items.len()
        invariant
            0 <= i <= items.len(),
            r@.map_values(|s: String| s@) == spec_string_list(items@.subrange(0, i as int)),
        decreases items.len() - i,
    {
        proof {
            assert(items@.subrange(0, i + 1).drop_last() =~= items@.subrange(0, i as int));
        }
        match items[i].as_str() {
            Some(s) => {
                r.push(owned(s));
                proof {
                    assert(r@.map_values(|s: String| s@) =~= spec_string_list(items@.subrange(0, i as int)).push(s@));
                }
            },
            None => {},
        }
        i += 1;
    }
    proof {
        assert(items@.subrange(0, items.len() as int) =~= items@);
    }
    r
}

pub fn string_list_field(m: &Vec<(YamlValue, YamlValue)>, key: &str) -> (r: Vec<String>)
    ensures
        r@.map_values(|s: String| s@) == spec_string_list_field(m@, key@),
{
    match get(m, key) {
        Some(v) => match v.as_sequence() {
            Some(items) => string_list(items),
            None => {
                let r: Vec<String> = Vec::new();
                proof { assert(r@.map_values(|s: String| s@) =~= Seq::<Seq<char>>::empty()); }
                r
            },
        },
        None => {
            let r: Vec<String> = Vec::new();
            proof { assert(r@.map_values(|s: String| s@) =~= Seq::<Seq<char>>::empty()); }
            r
        },
    }
}

} // verus!

verus! {

/// What reading the first YAML document of a stream produced.
#[derive(Debug)]
pub enum YamlStream {
    /// The stream holds no document.
    Empty,
    /// The first document is not valid YAML; the location is one-based line and column.
    Invalid { message: String, location: Option<(usize, usize)> },
    /// The first document parsed; `more` tells whether a further document follows it.
    Parsed { value: YamlValue, more: bool },
}

#[verifier::external_type_specification]
#[verifier::external_body]
pub struct ExYamlNode(Value);

#[verifier::external_type_specification]
#[verifier::external_body]
pub struct ExYamlNumber(serde_yaml::Number);

/// What `serde_yaml` reads from `source`: the first document of the stream and
/// whether a second one follows.
pub uninterp spec fn yaml_stream_of(source: Seq<char>) -> YamlStream;

/// Reads the first YAML document of `source` with `serde_yaml::Deserializer`,
/// deserializes it as a `serde_yaml::Value`, and, when that succeeds, asks the
/// stream for a second document. Nothing is claimed of the parser beyond it being
/// a function of `source`; the node tree is converted one-for-one.
#[verifier::external_body]
pub(crate) fn parse_yaml_stream(source: &str) -> (r: YamlStream)
    ensures
        r == yaml_stream_of(source@),
{
    let mut documents = serde_yaml::Deserializer::from_str(source);
    let Some(document) = documents.next() else { return YamlStream::Empty };
    match <Value as serde::Deserialize>::deserialize(document) {
        Ok(value) => YamlStream::Parsed { value: convert_node(value), more: documents.next().is_some() },
        Err(error) => YamlStream::Invalid {
            message: error.to_string(),
            location: error.location().map(|location| (location.line(), location.column())),
        },
    }
}

/// Converts a `serde_yaml::Value` tree into the library's node model, variant by
/// variant, keeping mapping order.
#[verifier::external_body]
fn convert_node(value: Value) -> YamlValue {
    match value {
        Value::Null => YamlValue::Null,
        Value::Bool(b) => YamlValue::Bool(b),
        Value::Number(n) => YamlValue::Number(convert_number(n)),
        Value::String(s) => YamlValue::String(s),
        Value::Sequence(items) => YamlValue::Sequence(items.into_iter().map(convert_node).collect()),
        Value::Mapping(m) => YamlValue::Mapping(m.into_iter().map(|(k, v)| (convert_node(k), convert_node(v))).collect()),
        Value::Tagged(t) => YamlValue::Tagged(t.tag.to_string(), Box::new(convert_node(t.value))),
    }
}

/// Converts a `serde_yaml::Number`: its `as_u64` reading, else its `as_i64` reading, else
/// its rendering as a float.
#[verifier::external_body]
fn convert_number(n: serde_yaml::Number) -> YamlNumber {
    match (n.as_u64(), n.as_i64()) {
        (Some(u), _) => YamlNumber::PosInt(u),
        (None, Some(i)) => YamlNumber::NegInt(i),
        (None, None) => YamlNumber::Float(n.to_string()),
    }
}

} // verus!
