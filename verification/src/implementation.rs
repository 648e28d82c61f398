//! What is synthesized for a type: for each ability of a strategy, a method
//! whose body is a sequence of primitive operations and of calls to other
//! implementations.

use crate::low_level::LowLevel;
use crate::strategy::Ability;
use vstd::prelude::*;

verus! {

/// The stable identifier of an implementation: its index in the cache that
/// holds it.
pub type Handle = usize;

/// One step of a method body.
#[derive(Debug, PartialEq, Eq)]
pub enum Step {
    /// A primitive operation.
    Prim(LowLevel),
    /// A call of the same method of the implementation behind `target`, on
    /// the nested value in place `slot` of the value at hand.
    Call { slot: usize, target: Handle },
    /// The name of a field or variant, written out literally.
    Name(String),
    /// The steps from here to the next call apply to values of the variant
    /// in place `rank` of a tag union, and do nothing on other values.
    Variant { rank: usize },
}

/// The body that an implementation has for one ability.
#[derive(Debug, PartialEq, Eq)]
pub struct Method {
    pub ability: Ability,
    pub steps: Vec<Step>,
}

/// A derived implementation: one method for each ability of its strategy.
#[derive(Debug, PartialEq, Eq)]
pub struct Implementation {
    pub methods: Vec<Method>,
}

/// The mathematical value of a [`Step`].
pub enum StepV {
    Prim(LowLevel),
    Call { slot: nat, target: nat },
    Name(Seq<char>),
    Variant { rank: nat },
}

/// The mathematical value of a [`Method`].
pub struct MethodV {
    pub ability: Ability,
    pub steps: Seq<StepV>,
}

/// The mathematical value of an [`Implementation`].
pub struct ImplementationV {
    pub methods: Seq<MethodV>,
}

impl View for Step {
    type V = StepV;

    open spec fn view(&self) -> StepV {
        match *self {
            Step::Prim(op) => StepV::Prim(op),
            Step::Call { slot, target } => StepV::Call { slot: slot as nat, target: target as nat },
            Step::Name(name) => StepV::Name(name@),
            Step::Variant { rank } => StepV::Variant { rank: rank as nat },
        }
    }
}

/// The values of a sequence of steps.
pub open spec fn steps_view(steps: Seq<Step>) -> Seq<StepV> {
    Seq::new(steps.len(), |i: int| steps[i]@)
}

/// The values of two runs of steps, one after the other.
pub proof fn lemma_steps_view_add(a: Seq<Step>, b: Seq<Step>)
    ensures
        steps_view(a + b) == steps_view(a) + steps_view(b),
{
    assert(steps_view(a + b) =~= steps_view(a) + steps_view(b));
}

/// The values of a run of steps and one more step.
pub proof fn lemma_steps_view_push(a: Seq<Step>, step: Step)
    ensures
        steps_view(a.push(step)) == steps_view(a).push(step@),
{
    assert(steps_view(a.push(step)) =~= steps_view(a).push(step@));
}

impl View for Method {
    type V = MethodV;

    open spec fn view(&self) -> MethodV {
        MethodV { ability: self.ability, steps: steps_view(self.steps@) }
    }
}

impl View for Implementation {
    type V = ImplementationV;

    open spec fn view(&self) -> ImplementationV {
        ImplementationV { methods: Seq::new(self.methods@.len(), |i: int| self.methods@[i]@) }
    }
}

/// The body of the first of the methods that is for the ability.
pub open spec fn body_among(methods: Seq<MethodV>, ability: Ability) -> Option<Seq<StepV>>
    decreases methods.len(),
{
    if methods.len() == 0 {
        None
    } else if methods[0].ability == ability {
        Some(methods[0].steps)
    } else {
        body_among(methods.drop_first(), ability)
    }
}

impl ImplementationV {
    /// The body for an ability, if the implementation has one.
    pub open spec fn body_of(self, ability: Ability) -> Option<Seq<StepV>> {
        body_among(self.methods, ability)
    }
}

impl Implementation {
    /// The body for an ability, if the implementation has one.
    pub fn body(&self, ability: Ability) -> (steps: Option<&Vec<Step>>)
        ensures
            match steps {
                Some(steps) => self@.body_of(ability) == Some(steps_view(steps@)),
                None => self@.body_of(ability) is None,
            },
    {
        let mut i: usize = 0;
        assert(self@.methods.skip(0) =~= self@.methods);
        while i < self.methods.len()
            invariant
                i <= self.methods@.len(),
                self@.body_of(ability) == body_among(self@.methods.skip(i as int), ability),
            decreases self.methods@.len() - i,
        {
            let ghost rest = self@.methods.skip(i as int);
            assert(rest[0] == self.methods@[i as int]@);
            assert(rest.drop_first() =~= self@.methods.skip(i as int + 1));
            if self.methods[i].ability == ability {
                return Some(&self.methods[i].steps);
            }
            i += 1;
        }
        None
    }
}

} // verus!
