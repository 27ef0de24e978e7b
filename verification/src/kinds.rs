//! Story object kinds, command parameter types and candidate sources.

use vstd::prelude::*;
use crate::text::str_eq;

verus! {

/// The kind of an authored story object; its ID prefix names it.
#[derive(Debug, Clone, Copy, PartialEq, Eq, Structural)]
pub enum Kind {
    Case,
    Setting,
    Route,
    Character,
    Entity,
    Event,
    Clue,
    Fact,
    Deduction,
    Flag,
    Command,
    Trigger,
    Testimony,
    EndState,
    WinState,
}

pub open spec fn kind_prefix(k: Kind) -> Seq<char> {
    match k {
        Kind::Case => seq!['c', 'a', 's', 'e'],
        Kind::Setting => seq!['s', 'e', 't', 't', 'i', 'n', 'g'],
        Kind::Route => seq!['r', 'o', 'u', 't', 'e'],
        Kind::Character => seq!['c', 'h', 'a', 'r', 'a', 'c', 't', 'e', 'r'],
        Kind::Entity => seq!['e', 'n', 't', 'i', 't', 'y'],
        Kind::Event => seq!['e', 'v', 'e', 'n', 't'],
        Kind::Clue => seq!['c', 'l', 'u', 'e'],
        Kind::Fact => seq!['f', 'a', 'c', 't'],
        Kind::Deduction => seq!['d', 'e', 'd', 'u', 'c', 't', 'i', 'o', 'n'],
        Kind::Flag => seq!['f', 'l', 'a', 'g'],
        Kind::Command => seq!['c', 'o', 'm', 'm', 'a', 'n', 'd'],
        Kind::Trigger => seq!['t', 'r', 'i', 'g', 'g', 'e', 'r'],
        Kind::Testimony => seq!['t', 'e', 's', 't', 'i', 'm', 'o', 'n', 'y'],
        Kind::EndState => seq!['e', 'n', 'd'],
        Kind::WinState => seq!['w', 'i', 'n'],
    }
}

/// Builds a string from characters known to the verifier.
fn text(chars: &[char]) -> (r: String)
    ensures
        r@ == chars@,
{
    crate::text::string_from_chars(chars)
}

impl Kind {
    /// The ID prefix of this kind; it is also its display name.
    pub fn prefix(self) -> (r: String)
        ensures
            r@ == kind_prefix(self),
    {
        match self {
            Kind::Case => { let r = text(&['c', 'a', 's', 'e']); proof { assert(r@ =~= kind_prefix(self)); } r },
            Kind::Setting => { let r = text(&['s', 'e', 't', 't', 'i', 'n', 'g']); proof { assert(r@ =~= kind_prefix(self)); } r },
            Kind::Route => { let r = text(&['r', 'o', 'u', 't', 'e']); proof { assert(r@ =~= kind_prefix(self)); } r },
            Kind::Character => { let r = text(&['c', 'h', 'a', 'r', 'a', 'c', 't', 'e', 'r']); proof { assert(r@ =~= kind_prefix(self)); } r },
            Kind::Entity => { let r = text(&['e', 'n', 't', 'i', 't', 'y']); proof { assert(r@ =~= kind_prefix(self)); } r },
            Kind::Event => { let r = text(&['e', 'v', 'e', 'n', 't']); proof { assert(r@ =~= kind_prefix(self)); } r },
            Kind::Clue => { let r = text(&['c', 'l', 'u', 'e']); proof { assert(r@ =~= kind_prefix(self)); } r },
            Kind::Fact => { let r = text(&['f', 'a', 'c', 't']); proof { assert(r@ =~= kind_prefix(self)); } r },
            Kind::Deduction => { let r = text(&['d', 'e', 'd', 'u', 'c', 't', 'i', 'o', 'n']); proof { assert(r@ =~= kind_prefix(self)); } r },
            Kind::Flag => { let r = text(&['f', 'l', 'a', 'g']); proof { assert(r@ =~= kind_prefix(self)); } r },
            Kind::Command => { let r = text(&['c', 'o', 'm', 'm', 'a', 'n', 'd']); proof { assert(r@ =~= kind_prefix(self)); } r },
            Kind::Trigger => { let r = text(&['t', 'r', 'i', 'g', 'g', 'e', 'r']); proof { assert(r@ =~= kind_prefix(self)); } r },
            Kind::Testimony => { let r = text(&['t', 'e', 's', 't', 'i', 'm', 'o', 'n', 'y']); proof { assert(r@ =~= kind_prefix(self)); } r },
            Kind::EndState => { let r = text(&['e', 'n', 'd']); proof { assert(r@ =~= kind_prefix(self)); } r },
            Kind::WinState => { let r = text(&['w', 'i', 'n']); proof { assert(r@ =~= kind_prefix(self)); } r },
        }
    }

    /// The display name of this kind, the same text as its prefix.
    pub fn name(self) -> (r: String)
        ensures
            r@ == kind_prefix(self),
    {
        self.prefix()
    }
}

/// A card type that a command parameter may accept.
#[derive(Debug, Clone, Copy, PartialEq, Eq, Structural)]
pub enum CommandParameterType {
    Character,
    Entity,
    Setting,
    Deduction,
    Event,
}

pub open spec fn parameter_type_kind(t: CommandParameterType) -> Kind {
    match t {
        CommandParameterType::Character => Kind::Character,
        CommandParameterType::Entity => Kind::Entity,
        CommandParameterType::Setting => Kind::Setting,
        CommandParameterType::Deduction => Kind::Deduction,
        CommandParameterType::Event => Kind::Event,
    }
}

/// The parameter type named by `s`, if any.
pub open spec fn spec_parse_parameter_type(s: Seq<char>) -> Option<CommandParameterType> {
    if s == kind_prefix(Kind::Character) {
        Some(CommandParameterType::Character)
    } else if s == kind_prefix(Kind::Entity) {
        Some(CommandParameterType::Entity)
    } else if s == kind_prefix(Kind::Setting) {
        Some(CommandParameterType::Setting)
    } else if s == kind_prefix(Kind::Deduction) {
        Some(CommandParameterType::Deduction)
    } else if s == kind_prefix(Kind::Event) {
        Some(CommandParameterType::Event)
    } else {
        None
    }
}

impl CommandParameterType {
    /// `CommandParameterType::parse`.
    pub fn parse(value: &str) -> (r: Option<CommandParameterType>)
        ensures
            r == spec_parse_parameter_type(value@),
    {
        let types = [
            CommandParameterType::Character,
            CommandParameterType::Entity,
            CommandParameterType::Setting,
            CommandParameterType::Deduction,
            CommandParameterType::Event,
        ];
        let mut i: usize = 0;
        while i < 5
            invariant
                0 <= i <= 5,
                types@ == seq![
                    CommandParameterType::Character,
                    CommandParameterType::Entity,
                    CommandParameterType::Setting,
                    CommandParameterType::Deduction,
                    CommandParameterType::Event,
                ],
                forall|j: int| 0 <= j < i ==> value@ != kind_prefix(parameter_type_kind(#[trigger] types@[j])),
            decreases 5 - i,
        {
            let t = types[i];
            let name = t.name();
            if str_eq(name.as_str(), value) {
                return Some(t);
            }
            i += 1;
        }
        proof {
            assert(value@ != kind_prefix(parameter_type_kind(types@[0])));
            assert(value@ != kind_prefix(parameter_type_kind(types@[1])));
            assert(value@ != kind_prefix(parameter_type_kind(types@[2])));
            assert(value@ != kind_prefix(parameter_type_kind(types@[3])));
            assert(value@ != kind_prefix(parameter_type_kind(types@[4])));
        }
        None
    }

    /// The kind of card this type accepts.
    pub fn kind(self) -> (r: Kind)
        ensures
            r == parameter_type_kind(self),
    {
        match self {
            CommandParameterType::Character => Kind::Character,
            CommandParameterType::Entity => Kind::Entity,
            CommandParameterType::Setting => Kind::Setting,
            CommandParameterType::Deduction => Kind::Deduction,
            CommandParameterType::Event => Kind::Event,
        }
    }

    /// The authored name of this type.
    pub fn name(self) -> (r: String)
        ensures
            r@ == kind_prefix(parameter_type_kind(self)),
    {
        self.kind().name()
    }
}

/// A source from which a command parameter's candidate cards are drawn.
#[derive(Debug, Clone, Copy, PartialEq, Eq, Structural)]
pub enum CandidateSource {
    All,
    CurrentLocation,
    Inventory,
    Reachable,
    Known,
    Established,
}

pub open spec fn candidate_source_name(c: CandidateSource) -> Seq<char> {
    match c {
        CandidateSource::All => seq!['a', 'l', 'l'],
        CandidateSource::CurrentLocation => seq!['c', 'u', 'r', 'r', 'e', 'n', 't', '_', 'l', 'o', 'c', 'a', 't', 'i', 'o', 'n'],
        CandidateSource::Inventory => seq!['i', 'n', 'v', 'e', 'n', 't', 'o', 'r', 'y'],
        CandidateSource::Reachable => seq!['r', 'e', 'a', 'c', 'h', 'a', 'b', 'l', 'e'],
        CandidateSource::Known => seq!['k', 'n', 'o', 'w', 'n'],
        CandidateSource::Established => seq!['e', 's', 't', 'a', 'b', 'l', 'i', 's', 'h', 'e', 'd'],
    }
}

/// The candidate source named by `s`, if any.
pub open spec fn spec_parse_source(s: Seq<char>) -> Option<CandidateSource> {
    if s == candidate_source_name(CandidateSource::All) {
        Some(CandidateSource::All)
    } else if s == candidate_source_name(CandidateSource::CurrentLocation) {
        Some(CandidateSource::CurrentLocation)
    } else if s == candidate_source_name(CandidateSource::Inventory) {
        Some(CandidateSource::Inventory)
    } else if s == candidate_source_name(CandidateSource::Reachable) {
        Some(CandidateSource::Reachable)
    } else if s == candidate_source_name(CandidateSource::Known) {
        Some(CandidateSource::Known)
    } else if s == candidate_source_name(CandidateSource::Established) {
        Some(CandidateSource::Established)
    } else {
        None
    }
}

/// Each source is the one its own name parses to.
proof fn lemma_source_names_distinct(c: CandidateSource, s: Seq<char>)
    requires
        candidate_source_name(c) == s,
    ensures
        spec_parse_source(s) == Some(c),
{
    let inventory = candidate_source_name(CandidateSource::Inventory);
    let reachable = candidate_source_name(CandidateSource::Reachable);
    assert(inventory[0] != reachable[0]);
}

/// The parameter types a candidate source can produce.
pub open spec fn spec_produced_types(c: CandidateSource) -> Seq<CommandParameterType> {
    match c {
        CandidateSource::All | CandidateSource::Known => seq![
            CommandParameterType::Character,
            CommandParameterType::Entity,
            CommandParameterType::Setting,
            CommandParameterType::Deduction,
            CommandParameterType::Event,
        ],
        CandidateSource::CurrentLocation => seq![
            CommandParameterType::Setting,
            CommandParameterType::Entity,
            CommandParameterType::Character,
        ],
        CandidateSource::Inventory => seq![CommandParameterType::Entity],
        CandidateSource::Reachable => seq![CommandParameterType::Setting],
        CandidateSource::Established => seq![CommandParameterType::Deduction],
    }
}

impl CandidateSource {
    /// The authored name of this source.
    pub fn name(self) -> (r: String)
        ensures
            r@ == candidate_source_name(self),
    {
        match self {
            CandidateSource::All => { let r = text(&['a', 'l', 'l']); proof { assert(r@ =~= candidate_source_name(self)); } r },
            CandidateSource::CurrentLocation => { let r = text(&['c', 'u', 'r', 'r', 'e', 'n', 't', '_', 'l', 'o', 'c', 'a', 't', 'i', 'o', 'n']); proof { assert(r@ =~= candidate_source_name(self)); } r },
            CandidateSource::Inventory => { let r = text(&['i', 'n', 'v', 'e', 'n', 't', 'o', 'r', 'y']); proof { assert(r@ =~= candidate_source_name(self)); } r },
            CandidateSource::Reachable => { let r = text(&['r', 'e', 'a', 'c', 'h', 'a', 'b', 'l', 'e']); proof { assert(r@ =~= candidate_source_name(self)); } r },
            CandidateSource::Known => { let r = text(&['k', 'n', 'o', 'w', 'n']); proof { assert(r@ =~= candidate_source_name(self)); } r },
            CandidateSource::Established => { let r = text(&['e', 's', 't', 'a', 'b', 'l', 'i', 's', 'h', 'e', 'd']); proof { assert(r@ =~= candidate_source_name(self)); } r },
        }
    }

    /// `CandidateSource::parse`.
    pub fn parse(value: &str) -> (r: Option<CandidateSource>)
        ensures
            r == spec_parse_source(value@),
    {
        let sources = [
            CandidateSource::All,
            CandidateSource::CurrentLocation,
            CandidateSource::Inventory,
            CandidateSource::Reachable,
            CandidateSource::Known,
            CandidateSource::Established,
        ];
        let mut i: usize = 0;
        while i < 6
            invariant
                0 <= i <= 6,
                sources@ == seq![
                    CandidateSource::All,
                    CandidateSource::CurrentLocation,
                    CandidateSource::Inventory,
                    CandidateSource::Reachable,
                    CandidateSource::Known,
                    CandidateSource::Established,
                ],
                forall|j: int| 0 <= j < i ==> value@ != candidate_source_name(#[trigger] sources@[j]),
            decreases 6 - i,
        {
            let c = sources[i];
            let name = c.name();
            if str_eq(name.as_str(), value) {
                proof { lemma_source_names_distinct(c, value@); }
                return Some(c);
            }
            i += 1;
        }
        proof {
            assert(value@ != candidate_source_name(sources@[0]));
            assert(value@ != candidate_source_name(sources@[1]));
            assert(value@ != candidate_source_name(sources@[2]));
            assert(value@ != candidate_source_name(sources@[3]));
            assert(value@ != candidate_source_name(sources@[4]));
            assert(value@ != candidate_source_name(sources@[5]));
        }
        None
    }

    /// `CandidateSource::produced_types`.
    pub fn produced_types(self) -> (r: Vec<CommandParameterType>)
        ensures
            r@ == spec_produced_types(self),
    {
        let mut v = Vec::new();
        match self {
            CandidateSource::All | CandidateSource::Known => {
                v.push(CommandParameterType::Character);
                v.push(CommandParameterType::Entity);
                v.push(CommandParameterType::Setting);
                v.push(CommandParameterType::Deduction);
                v.push(CommandParameterType::Event);
            },
            CandidateSource::CurrentLocation => {
                v.push(CommandParameterType::Setting);
                v.push(CommandParameterType::Entity);
                v.push(CommandParameterType::Character);
            },
            CandidateSource::Inventory => v.push(CommandParameterType::Entity),
            CandidateSource::Reachable => v.push(CommandParameterType::Setting),
            CandidateSource::Established => v.push(CommandParameterType::Deduction),
        }
        proof {
            assert(v@ =~= spec_produced_types(self));
        }
        v
    }
}

} // verus!
