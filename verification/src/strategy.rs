//! The abilities that can be derived, the strategy by which each of them
//! tells types apart, and the structural features that each strategy
//! observes.

use vstd::prelude::*;

verus! {

/// A capability that a type can be asked to support.
#[derive(Clone, Copy, Debug, PartialEq, Eq, Structural, Hash)]
pub enum Ability {
    /// Structural equality of two values.
    Eq,
    /// Hashing of a value.
    Hash,
    /// Serialization of a value.
    Encode,
    /// Deserialization of a value.
    Decode,
}

/// The policy by which types are told apart when their derived
/// implementations are addressed.
#[derive(Clone, Copy, Debug, PartialEq, Eq, Structural, Hash)]
pub enum Strategy {
    /// Two types are the same when they are represented the same way.
    LayoutEquivalence,
    /// Two types are the same when they are written out the same way.
    Encoding,
    /// Two types are the same when they are read back the same way.
    Decoding,
}

impl Ability {
    /// The strategy under which implementations of this ability are shared.
    pub open spec fn strategy_of(self) -> Strategy {
        match self {
            Ability::Eq | Ability::Hash => Strategy::LayoutEquivalence,
            Ability::Encode => Strategy::Encoding,
            Ability::Decode => Strategy::Decoding,
        }
    }

    /// The strategy under which implementations of this ability are shared.
    #[verifier::when_used_as_spec(strategy_of)]
    pub fn strategy(self) -> (s: Strategy)
        ensures
            s == self.strategy_of(),
    {
        match self {
            Ability::Eq | Ability::Hash => Strategy::LayoutEquivalence,
            Ability::Encode => Strategy::Encoding,
            Ability::Decode => Strategy::Decoding,
        }
    }
}

impl Strategy {
    /// Whether the names of record fields and of tag-union variants take
    /// part in the shape of a type.
    pub open spec fn sees_names(self) -> bool {
        self != Strategy::LayoutEquivalence
    }

    /// Whether a required record field is told from an optional one.
    pub open spec fn sees_optionality(self) -> bool {
        self == Strategy::Decoding
    }

    /// Whether the width of a tag union's discriminant takes part in the
    /// shape of a type.
    pub open spec fn sees_discriminant(self) -> bool {
        self == Strategy::LayoutEquivalence
    }

    /// The abilities whose implementations are shared under this strategy,
    /// in the order in which an implementation lists their methods.
    pub open spec fn abilities_of(self) -> Seq<Ability> {
        match self {
            Strategy::LayoutEquivalence => seq![Ability::Eq, Ability::Hash],
            Strategy::Encoding => seq![Ability::Encode],
            Strategy::Decoding => seq![Ability::Decode],
        }
    }

    /// The number by which this strategy is known inside a cache key.
    pub open spec fn code_of(self) -> u64 {
        match self {
            Strategy::LayoutEquivalence => 1,
            Strategy::Encoding => 2,
            Strategy::Decoding => 3,
        }
    }

    /// Whether field and variant names take part in the shape of a type.
    #[verifier::when_used_as_spec(sees_names)]
    pub fn observes_names(self) -> (b: bool)
        ensures
            b == self.sees_names(),
    {
        match self {
            Strategy::LayoutEquivalence => false,
            Strategy::Encoding | Strategy::Decoding => true,
        }
    }

    /// Whether a required record field is told from an optional one.
    #[verifier::when_used_as_spec(sees_optionality)]
    pub fn observes_optionality(self) -> (b: bool)
        ensures
            b == self.sees_optionality(),
    {
        match self {
            Strategy::Decoding => true,
            Strategy::LayoutEquivalence | Strategy::Encoding => false,
        }
    }

    /// Whether the width of a tag union's discriminant is observed.
    #[verifier::when_used_as_spec(sees_discriminant)]
    pub fn observes_discriminant(self) -> (b: bool)
        ensures
            b == self.sees_discriminant(),
    {
        match self {
            Strategy::LayoutEquivalence => true,
            Strategy::Encoding | Strategy::Decoding => false,
        }
    }

    /// The abilities whose implementations are shared under this strategy.
    pub fn abilities(self) -> (list: Vec<Ability>)
        ensures
            list@ == self.abilities_of(),
    {
        let mut list: Vec<Ability> = Vec::new();
        match self {
            Strategy::LayoutEquivalence => {
                list.push(Ability::Eq);
                list.push(Ability::Hash);
            },
            Strategy::Encoding => {
                list.push(Ability::Encode);
            },
            Strategy::Decoding => {
                list.push(Ability::Decode);
            },
        }
        assert(list@ =~= self.abilities_of());
        list
    }

    /// The number by which this strategy is known inside a cache key.
    #[verifier::when_used_as_spec(code_of)]
    pub fn code(self) -> (c: u64)
        ensures
            c == self.code_of(),
    {
        match self {
            Strategy::LayoutEquivalence => 1,
            Strategy::Encoding => 2,
            Strategy::Decoding => 3,
        }
    }
}

/// Every ability is among the abilities of its own strategy, and a
/// strategy lists no ability of another strategy.
pub proof fn lemma_catalog_is_consistent(ability: Ability, strategy: Strategy)
    ensures
        strategy.abilities_of().contains(ability) <==> ability.strategy_of() == strategy,
{
    let list = strategy.abilities_of();
    if ability.strategy_of() == strategy {
        match ability {
            Ability::Eq => { assert(list[0] == ability); },
            Ability::Hash => { assert(list[1] == ability); },
            Ability::Encode => { assert(list[0] == ability); },
            Ability::Decode => { assert(list[0] == ability); },
        }
    }
}

/// The features that the strategies observe are nested: a strategy that
/// tells optional fields from required ones also observes names, and the
/// width of the discriminant is observed exactly where names are not.
pub proof fn lemma_features_are_nested(strategy: Strategy)
    ensures
        strategy.sees_optionality() ==> strategy.sees_names(),
        strategy.sees_discriminant() <==> !strategy.sees_names(),
{
}

} // verus!
