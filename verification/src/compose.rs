//! How the body of a method is put together from the structure of a type,
//! the places of its nested types and the handles of their implementations.
//!
//! A body is a run of operands joined by one primitive, the joiner of the
//! ability: the first operand stands alone, and each later operand is
//! followed by the joiner, which combines it with what came before.
//! Equality joins by `And`, hashing by wrapping addition, encoding and
//! decoding by concatenation. An operand is a run of primitives on the value
//! at hand, or a call of the implementation of a nested type.
//!
//! The fields of a record and the variants of a tag union are addressed by
//! their canonical place. Types that differ only in the order in which
//! fields or variants are written share a fingerprint, and so must share a
//! body.

use crate::implementation::{
    lemma_steps_view_add, lemma_steps_view_push, steps_view, Handle, Implementation,
    ImplementationV, Method, MethodV, Step, StepV,
};
use crate::low_level::{Arithmetic, FaultMode, LowLevel, Overflow};
use crate::place::nats;
use crate::strategy::{Ability, Strategy};
use crate::type_graph::{payload_offset, payloads_of, Field, TypeNode, Variant};
use vstd::prelude::*;

verus! {

/// The primitive that joins the operands of a body.
pub open spec fn joiner(ability: Ability) -> LowLevel {
    match ability {
        Ability::Eq => LowLevel::And,
        Ability::Hash => LowLevel::arithmetic_of(Arithmetic::Add, Overflow::Wrapped),
        Ability::Encode => LowLevel::ListConcat,
        Ability::Decode => LowLevel::ListConcat,
    }
}

/// The primitives that a body starts with, on the value as a whole: on a
/// primitive type the whole work, on a collection its length, on a tag
/// union its discriminant. Nothing for a record or an applied type.
pub open spec fn opening(ability: Ability, node: TypeNode) -> Seq<LowLevel> {
    match ability {
        Ability::Eq => match node {
            TypeNode::Number | TypeNode::Text | TypeNode::Boolean => seq![LowLevel::Eq],
            TypeNode::ListOf(_) => seq![LowLevel::ListLen, LowLevel::Eq],
            TypeNode::SetOf(_) | TypeNode::DictOf(_, _) => seq![LowLevel::DictSize, LowLevel::Eq],
            TypeNode::TagUnion(_) => seq![LowLevel::Eq],
            _ => Seq::empty(),
        },
        Ability::Hash => match node {
            TypeNode::Number | TypeNode::Text | TypeNode::Boolean => seq![LowLevel::Hash],
            TypeNode::ListOf(_) => seq![LowLevel::ListLen, LowLevel::Hash],
            TypeNode::SetOf(_) | TypeNode::DictOf(_, _) => seq![
                LowLevel::DictSize,
                LowLevel::Hash,
            ],
            TypeNode::TagUnion(_) => seq![LowLevel::Hash],
            _ => Seq::empty(),
        },
        Ability::Encode => match node {
            TypeNode::Text => seq![LowLevel::StrToBytes],
            TypeNode::Number => seq![LowLevel::StrFromInt, LowLevel::StrToBytes],
            TypeNode::Boolean => seq![
                LowLevel::NumIntCast,
                LowLevel::StrFromInt,
                LowLevel::StrToBytes,
            ],
            TypeNode::ListOf(_) => seq![
                LowLevel::ListLen,
                LowLevel::StrFromInt,
                LowLevel::StrToBytes,
            ],
            TypeNode::SetOf(_) | TypeNode::DictOf(_, _) => seq![
                LowLevel::DictSize,
                LowLevel::StrFromInt,
                LowLevel::StrToBytes,
            ],
            _ => Seq::empty(),
        },
        Ability::Decode => match node {
            TypeNode::Text => seq![LowLevel::StrFromUtf8],
            TypeNode::Number => seq![LowLevel::StrFromUtf8, LowLevel::NumIntCast],
            TypeNode::Boolean => seq![
                LowLevel::StrFromUtf8,
                LowLevel::StrIsEmpty,
                LowLevel::Not,
            ],
            TypeNode::ListOf(_) | TypeNode::SetOf(_) | TypeNode::DictOf(_, _) => seq![
                LowLevel::StrFromUtf8,
                LowLevel::NumIntCast,
            ],
            _ => Seq::empty(),
        },
    }
}

/// The primitives as steps.
pub open spec fn prims(ops: Seq<LowLevel>) -> Seq<StepV> {
    ops.map_values(|op: LowLevel| StepV::Prim(op))
}

/// The name of a field or variant as a step, under an ability that
/// observes names.
pub open spec fn name_steps(ability: Ability, name: Seq<char>) -> Seq<StepV> {
    if ability.strategy_of().sees_names() {
        seq![StepV::Name(name)]
    } else {
        Seq::empty()
    }
}

/// The test for the presence of a field, under an ability that tells
/// optional fields from required ones.
pub open spec fn guard_steps(ability: Ability, optional: bool) -> Seq<StepV> {
    if ability.strategy_of().sees_optionality() && optional {
        seq![StepV::Prim(LowLevel::DictContains)]
    } else {
        Seq::empty()
    }
}

/// The operand for a record field: its name and the test for its presence,
/// as far as the ability observes them, and the call on the field.
pub open spec fn field_operand(ability: Ability, field: Field, slot: nat, target: nat) -> Seq<
    StepV,
> {
    name_steps(ability, field.name@) + guard_steps(ability, field.optional) + seq![
        StepV::Call { slot, target },
    ]
}

/// The steps that every operand of a variant starts with: the mark of the
/// variant and, as far as the ability observes it, its name.
pub open spec fn variant_mark(ability: Ability, variant: Variant, rank: nat) -> Seq<StepV> {
    seq![StepV::Variant { rank }] + name_steps(ability, variant.name@)
}

/// The operands for one variant: one for each payload position, or the mark
/// alone where the variant has no payload. `offset` is the place of the
/// variant's first payload type among the targets.
pub open spec fn variant_operands(
    ability: Ability,
    variant: Variant,
    rank: nat,
    targets: Seq<nat>,
    offset: int,
) -> Seq<Seq<StepV>> {
    if variant.payload@.len() == 0 {
        seq![variant_mark(ability, variant, rank)]
    } else {
        Seq::new(
            variant.payload@.len(),
            |j: int|
                variant_mark(ability, variant, rank) + seq![
                    StepV::Call { slot: j as nat, target: targets[offset + j] },
                ],
        )
    }
}

/// The operands for the first `upto` variants of a tag union.
pub open spec fn union_operands(
    ability: Ability,
    variants: Seq<Variant>,
    ranks: Seq<nat>,
    targets: Seq<nat>,
    upto: int,
) -> Seq<Seq<StepV>>
    decreases upto,
{
    if upto <= 0 {
        Seq::empty()
    } else {
        union_operands(ability, variants, ranks, targets, upto - 1) + variant_operands(
            ability,
            variants[upto - 1],
            ranks[upto - 1],
            targets,
            payload_offset(variants, upto - 1) as int,
        )
    }
}

/// The operand that a body starts with, if it starts with one.
pub open spec fn opening_operands(ability: Ability, node: TypeNode) -> Seq<Seq<StepV>> {
    if opening(ability, node).len() > 0 {
        seq![prims(opening(ability, node))]
    } else {
        Seq::empty()
    }
}

/// The operands for the nested types: the fields of a record and the
/// variants of a tag union in the order in which they are written, each
/// addressed by its canonical place; the elements, keys, values and
/// arguments of the other types by their position.
pub open spec fn nested_operands(
    ability: Ability,
    node: TypeNode,
    slots: Seq<nat>,
    targets: Seq<nat>,
) -> Seq<Seq<StepV>> {
    match node {
        TypeNode::Record(fields) => Seq::new(
            fields@.len(),
            |i: int| field_operand(ability, fields@[i], slots[i], targets[i]),
        ),
        TypeNode::TagUnion(variants) => union_operands(
            ability,
            variants@,
            slots,
            targets,
            variants@.len() as int,
        ),
        TypeNode::ListOf(_) | TypeNode::SetOf(_) | TypeNode::DictOf(_, _) | TypeNode::Apply(
            _,
            _,
        ) => Seq::new(
            targets.len(),
            |i: int| seq![StepV::Call { slot: i as nat, target: targets[i] }],
        ),
        _ => Seq::empty(),
    }
}

/// The operands joined: the first one alone, each later one followed by the
/// joiner.
pub open spec fn joined(operands: Seq<Seq<StepV>>, join: LowLevel) -> Seq<StepV>
    decreases operands.len(),
{
    if operands.len() == 0 {
        Seq::empty()
    } else if operands.len() == 1 {
        operands[0]
    } else {
        joined(operands.drop_last(), join) + operands.last() + seq![StepV::Prim(join)]
    }
}

/// The body of the method for an ability on a type whose nested types have
/// the given canonical places and whose nested implementations have the
/// given handles.
pub open spec fn body_for(ability: Ability, node: TypeNode, slots: Seq<nat>, targets: Seq<nat>) -> Seq<
    StepV,
> {
    joined(
        opening_operands(ability, node) + nested_operands(ability, node, slots, targets),
        joiner(ability),
    )
}

/// The implementation for a type under a strategy: one method for each
/// ability of the strategy.
pub open spec fn implementation_for(
    strategy: Strategy,
    node: TypeNode,
    slots: Seq<nat>,
    targets: Seq<nat>,
) -> ImplementationV {
    ImplementationV {
        methods: Seq::new(
            strategy.abilities_of().len(),
            |i: int|
                MethodV {
                    ability: strategy.abilities_of()[i],
                    steps: body_for(strategy.abilities_of()[i], node, slots, targets),
                },
        ),
    }
}

/// Whether there is a place for every field or variant and a handle for
/// every nested type.
pub open spec fn fits(node: TypeNode, slots: nat, targets: nat) -> bool {
    &&& targets == node.kids_of().len()
    &&& node matches TypeNode::Record(fields) ==> slots == fields@.len()
    &&& node matches TypeNode::TagUnion(variants) ==> slots == variants@.len()
}

/// Joining one more operand.
proof fn lemma_joined_push(operands: Seq<Seq<StepV>>, operand: Seq<StepV>, join: LowLevel)
    ensures
        joined(operands.push(operand), join) == joined(operands, join) + operand + (if operands.len()
            > 0 {
            seq![StepV::Prim(join)]
        } else {
            Seq::empty()
        }),
{
    assert(operands.push(operand).drop_last() =~= operands);
    if operands.len() == 0 {
        assert(joined(operands, join) + operand + Seq::<StepV>::empty() =~= operand);
    }
}

/// The offset of a variant is the number of payload types of the variants
/// before it, and no more than the number of all payload types.
pub proof fn lemma_payload_offset(variants: Seq<Variant>, upto: int)
    requires
        0 <= upto <= variants.len(),
    ensures
        payload_offset(variants, upto) == payloads_of(variants.take(upto)).len(),
        payload_offset(variants, upto) <= payloads_of(variants).len(),
    decreases variants.len() - upto,
{
    lemma_offset_is_length(variants, upto);
    if upto == variants.len() {
        assert(variants.take(upto) =~= variants);
    } else {
        lemma_payload_offset(variants, upto + 1);
        lemma_offset_is_length(variants, upto + 1);
        assert(variants.take(upto + 1).drop_last() =~= variants.take(upto));
    }
}

/// The offset of a variant is the number of payload types before it.
proof fn lemma_offset_is_length(variants: Seq<Variant>, upto: int)
    requires
        0 <= upto <= variants.len(),
    ensures
        payload_offset(variants, upto) == payloads_of(variants.take(upto)).len(),
    decreases upto,
{
    if upto > 0 {
        lemma_offset_is_length(variants, upto - 1);
        assert(variants.take(upto).drop_last() =~= variants.take(upto - 1));
    }
}

/// Whether a step is a call of `target`.
pub open spec fn is_call_of(step: StepV, target: nat) -> bool {
    step matches StepV::Call { slot: _, target: called } && called == target
}

/// Whether one of the steps is a call of `target`.
pub open spec fn calls(steps: Seq<StepV>, target: nat) -> bool {
    exists|at: int| 0 <= at < steps.len() && is_call_of(#[trigger] steps[at], target)
}

/// Whether one of the operands holds a call of `target`.
pub open spec fn some_calls(operands: Seq<Seq<StepV>>, target: nat) -> bool {
    exists|k: int, at: int|
        0 <= k < operands.len() && 0 <= at < operands[k].len() && is_call_of(
            #[trigger] operands[k][at],
            target,
        )
}

/// Whether a step can be relied on whatever value it meets: it is no
/// primitive that leaves its operands unchecked, and none that rounds.
pub open spec fn is_checked(step: StepV) -> bool {
    step matches StepV::Prim(op) ==> op.fault_mode_of() != FaultMode::Unchecked
        && op.is_exact_of()
}

/// Whether all the steps can be relied on.
pub open spec fn all_checked(steps: Seq<StepV>) -> bool {
    forall|at: int| 0 <= at < steps.len() ==> is_checked(#[trigger] steps[at])
}

/// A step of an operand is a step of the joined operands.
proof fn lemma_joined_keeps(operands: Seq<Seq<StepV>>, join: LowLevel, k: int, at: int)
    requires
        0 <= k < operands.len(),
        0 <= at < operands[k].len(),
    ensures
        exists|place: int|
            0 <= place < joined(operands, join).len() && #[trigger] joined(operands, join)[place]
                == operands[k][at],
    decreases operands.len(),
{
    let all = joined(operands, join);
    if operands.len() == 1 {
        assert(all[at] == operands[k][at]);
    } else {
        let front = joined(operands.drop_last(), join);
        if k == operands.len() - 1 {
            assert(all[front.len() + at] == operands[k][at]);
        } else {
            lemma_joined_keeps(operands.drop_last(), join, k, at);
            let place = choose|place: int|
                0 <= place < front.len() && #[trigger] front[place] == operands.drop_last()[k][at];
            assert(all[place] == operands[k][at]);
        }
    }
}

/// Joining checked operands by a checked joiner gives checked steps.
proof fn lemma_joined_checked(operands: Seq<Seq<StepV>>, join: LowLevel)
    requires
        forall|k: int| 0 <= k < operands.len() ==> all_checked(#[trigger] operands[k]),
        is_checked(StepV::Prim(join)),
    ensures
        all_checked(joined(operands, join)),
    decreases operands.len(),
{
    if operands.len() == 1 {
        assert(all_checked(operands[0]));
    } else if operands.len() > 1 {
        let front = operands.drop_last();
        assert forall|k: int| 0 <= k < front.len() implies all_checked(#[trigger] front[k]) by {
            assert(front[k] == operands[k]);
        }
        lemma_joined_checked(front, join);
        assert(all_checked(operands[operands.len() - 1]));
    }
}

/// The operands of the first `upto` variants are checked, and hold a call
/// of the handle of every payload type of those variants.
proof fn lemma_union_operands(
    ability: Ability,
    variants: Seq<Variant>,
    ranks: Seq<nat>,
    targets: Seq<nat>,
    upto: int,
)
    requires
        0 <= upto <= variants.len(),
    ensures
        forall|k: int|
            0 <= k < union_operands(ability, variants, ranks, targets, upto).len() ==> all_checked(
                #[trigger] union_operands(ability, variants, ranks, targets, upto)[k],
            ),
        forall|i: int|
            0 <= i < payload_offset(variants, upto) ==> some_calls(
                union_operands(ability, variants, ranks, targets, upto),
                #[trigger] targets[i],
            ),
    decreases upto,
{
    if upto > 0 {
        let v = upto - 1;
        let before = union_operands(ability, variants, ranks, targets, v);
        let offset = payload_offset(variants, v) as int;
        let own = variant_operands(ability, variants[v], ranks[v], targets, offset);
        let operands = union_operands(ability, variants, ranks, targets, upto);
        let mark = variant_mark(ability, variants[v], ranks[v]);
        lemma_union_operands(ability, variants, ranks, targets, v);
        assert(operands == before + own);
        assert forall|k: int| 0 <= k < operands.len() implies all_checked(
            #[trigger] operands[k],
        ) by {
            if k < before.len() {
                assert(operands[k] == before[k]);
            } else {
                assert(operands[k] == own[k - before.len()]);
            }
        }
        assert forall|i: int| 0 <= i < payload_offset(variants, upto) implies some_calls(
            operands,
            #[trigger] targets[i],
        ) by {
            if i < offset {
                assert(some_calls(before, targets[i]));
                let (k, at) = choose|k: int, at: int|
                    0 <= k < before.len() && 0 <= at < before[k].len() && is_call_of(
                        #[trigger] before[k][at],
                        targets[i],
                    );
                assert(operands[k] == before[k]);
                assert(is_call_of(operands[k][at], targets[i]));
            } else {
                let j = i - offset;
                let k = before.len() + j;
                assert(operands[k] == own[j]);
                assert(is_call_of(operands[k][mark.len() as int], targets[i]));
            }
        }
    }
}

/// A body can be relied on whatever value it meets: none of its primitives
/// is one that may only be applied where its operands are known to be in
/// its domain, and none is one that rounds. The joiner takes two operands:
/// what came before and the operand that it follows.
pub proof fn lemma_body_is_checked(
    ability: Ability,
    node: TypeNode,
    slots: Seq<nat>,
    targets: Seq<nat>,
)
    ensures
        all_checked(body_for(ability, node, slots, targets)),
        joiner(ability).arity_of() == 2,
{
    let head = opening_operands(ability, node);
    let nested = nested_operands(ability, node, slots, targets);
    let operands = head + nested;
    assert forall|k: int| 0 <= k < head.len() implies all_checked(#[trigger] head[k]) by {
        let ops = opening(ability, node);
        assert forall|at: int| 0 <= at < head[k].len() implies is_checked(#[trigger] head[k][at]) by {
            assert(head[k][at] == StepV::Prim(ops[at]));
        }
    }
    match node {
        TypeNode::TagUnion(variants) => {
            lemma_union_operands(ability, variants@, slots, targets, variants@.len() as int);
        },
        _ => {},
    }
    assert forall|k: int| 0 <= k < operands.len() implies all_checked(#[trigger] operands[k]) by {
        if k < head.len() {
            assert(operands[k] == head[k]);
        } else {
            assert(operands[k] == nested[k - head.len()]);
        }
    }
    lemma_joined_checked(operands, joiner(ability));
}

/// A body calls the implementation of every nested type: for each of the
/// handles it is given, one of its steps is a call of that handle.
pub proof fn lemma_body_calls_nested(
    ability: Ability,
    node: TypeNode,
    slots: Seq<nat>,
    targets: Seq<nat>,
    i: int,
)
    requires
        fits(node, slots.len(), targets.len()),
        !(node is Alias),
        0 <= i < targets.len(),
    ensures
        calls(body_for(ability, node, slots, targets), targets[i]),
{
    let head = opening_operands(ability, node);
    let nested = nested_operands(ability, node, slots, targets);
    let operands = head + nested;
    let body = body_for(ability, node, slots, targets);
    let (k, at): (int, int) = match node {
        TypeNode::Record(fields) => {
            let before = name_steps(ability, fields@[i].name@) + guard_steps(
                ability,
                fields@[i].optional,
            );
            (i, before.len() as int)
        },
        TypeNode::TagUnion(variants) => {
            lemma_union_operands(ability, variants@, slots, targets, variants@.len() as int);
            lemma_payload_offset(variants@, variants@.len() as int);
            assert(variants@.take(variants@.len() as int) =~= variants@);
            assert(some_calls(nested, targets[i]));
            choose|k: int, at: int|
                0 <= k < nested.len() && 0 <= at < nested[k].len() && is_call_of(
                    #[trigger] nested[k][at],
                    targets[i],
                )
        },
        _ => (i, 0int),
    };
    assert(0 <= k < nested.len());
    assert(is_call_of(nested[k][at], targets[i]));
    assert(operands[head.len() + k] == nested[k]);
    lemma_joined_keeps(operands, joiner(ability), head.len() + k, at);
    let place = choose|place: int|
        0 <= place < body.len() && #[trigger] body[place] == operands[head.len() + k][at];
    assert(is_call_of(body[place], targets[i]));
}

/// An implementation has a body for each ability of its strategy, and it is
/// the body composed for that ability.
pub proof fn lemma_implementation_has_body(
    strategy: Strategy,
    node: TypeNode,
    slots: Seq<nat>,
    targets: Seq<nat>,
    ability: Ability,
)
    ensures
        implementation_for(strategy, node, slots, targets).body_of(ability) == (if ability.strategy_of()
            == strategy {
            Some(body_for(ability, node, slots, targets))
        } else {
            None
        }),
{
    let methods = implementation_for(strategy, node, slots, targets).methods;
    reveal_with_fuel(crate::implementation::body_among, 3);
    if methods.len() == 2 {
        assert(methods.drop_first().len() == 1);
        assert(methods.drop_first()[0] == methods[1]);
        assert(methods.drop_first().drop_first().len() == 0);
    } else {
        assert(methods.len() == 1);
        assert(methods.drop_first().len() == 0);
    }
}

/// The primitive that joins the operands of a body. The sums of hashing
/// wrap around.
fn joiner_of(ability: Ability) -> (join: LowLevel)
    ensures
        join == joiner(ability),
        join.fault_mode_of() != FaultMode::Unchecked,
{
    match ability {
        Ability::Eq => LowLevel::And,
        Ability::Hash => LowLevel::arithmetic(Arithmetic::Add, Overflow::Wrapped),
        Ability::Encode => LowLevel::ListConcat,
        Ability::Decode => LowLevel::ListConcat,
    }
}

/// Two primitives as steps.
fn prim2(a: LowLevel, b: LowLevel) -> (steps: Vec<Step>)
    ensures
        steps_view(steps@) == prims(seq![a, b]),
{
    let mut steps: Vec<Step> = Vec::new();
    steps.push(Step::Prim(a));
    steps.push(Step::Prim(b));
    assert(steps_view(steps@) =~= prims(seq![a, b]));
    steps
}

/// Three primitives as steps.
fn prim3(a: LowLevel, b: LowLevel, c: LowLevel) -> (steps: Vec<Step>)
    ensures
        steps_view(steps@) == prims(seq![a, b, c]),
{
    let mut steps: Vec<Step> = Vec::new();
    steps.push(Step::Prim(a));
    steps.push(Step::Prim(b));
    steps.push(Step::Prim(c));
    assert(steps_view(steps@) =~= prims(seq![a, b, c]));
    steps
}

/// One primitive as a step.
fn prim1(a: LowLevel) -> (steps: Vec<Step>)
    ensures
        steps_view(steps@) == prims(seq![a]),
{
    let mut steps: Vec<Step> = Vec::new();
    steps.push(Step::Prim(a));
    assert(steps_view(steps@) =~= prims(seq![a]));
    steps
}

/// No steps.
fn prim0() -> (steps: Vec<Step>)
    ensures
        steps_view(steps@) == prims(Seq::empty()),
        steps@.len() == 0,
{
    let steps: Vec<Step> = Vec::new();
    assert(steps_view(steps@) =~= prims(Seq::empty()));
    steps
}

/// The primitives that a body starts with.
fn opening_of(ability: Ability, node: &TypeNode) -> (steps: Vec<Step>)
    ensures
        steps_view(steps@) == prims(opening(ability, *node)),
        steps@.len() == opening(ability, *node).len(),
{
    let steps = match ability {
        Ability::Eq => match node {
            TypeNode::Number | TypeNode::Text | TypeNode::Boolean => prim1(LowLevel::Eq),
            TypeNode::ListOf(_) => prim2(LowLevel::ListLen, LowLevel::Eq),
            TypeNode::SetOf(_) | TypeNode::DictOf(_, _) => prim2(LowLevel::DictSize, LowLevel::Eq),
            TypeNode::TagUnion(_) => prim1(LowLevel::Eq),
            _ => prim0(),
        },
        Ability::Hash => match node {
            TypeNode::Number | TypeNode::Text | TypeNode::Boolean => prim1(LowLevel::Hash),
            TypeNode::ListOf(_) => prim2(LowLevel::ListLen, LowLevel::Hash),
            TypeNode::SetOf(_) | TypeNode::DictOf(_, _) => prim2(
                LowLevel::DictSize,
                LowLevel::Hash,
            ),
            TypeNode::TagUnion(_) => prim1(LowLevel::Hash),
            _ => prim0(),
        },
        Ability::Encode => match node {
            TypeNode::Text => prim1(LowLevel::StrToBytes),
            TypeNode::Number => prim2(LowLevel::StrFromInt, LowLevel::StrToBytes),
            TypeNode::Boolean => prim3(
                LowLevel::NumIntCast,
                LowLevel::StrFromInt,
                LowLevel::StrToBytes,
            ),
            TypeNode::ListOf(_) => prim3(
                LowLevel::ListLen,
                LowLevel::StrFromInt,
                LowLevel::StrToBytes,
            ),
            TypeNode::SetOf(_) | TypeNode::DictOf(_, _) => prim3(
                LowLevel::DictSize,
                LowLevel::StrFromInt,
                LowLevel::StrToBytes,
            ),
            _ => prim0(),
        },
        Ability::Decode => match node {
            TypeNode::Text => prim1(LowLevel::StrFromUtf8),
            TypeNode::Number => prim2(LowLevel::StrFromUtf8, LowLevel::NumIntCast),
            TypeNode::Boolean => prim3(
                LowLevel::StrFromUtf8,
                LowLevel::StrIsEmpty,
                LowLevel::Not,
            ),
            TypeNode::ListOf(_) | TypeNode::SetOf(_) | TypeNode::DictOf(_, _) => prim2(
                LowLevel::StrFromUtf8,
                LowLevel::NumIntCast,
            ),
            _ => prim0(),
        },
    };
    assert(steps_view(steps@).len() == steps@.len());
    steps
}

/// Appends the name of a field or variant where the ability observes names.
fn push_name(steps: &mut Vec<Step>, ability: Ability, name: &String)
    ensures
        steps_view(final(steps)@) == steps_view(old(steps)@) + name_steps(ability, name@),
{
    if ability.strategy().observes_names() {
        proof {
            lemma_steps_view_push(steps@, Step::Name(*name));
        }
        steps.push(Step::Name(name.clone()));
        assert(steps_view(steps@) =~= steps_view(old(steps)@) + name_steps(ability, name@));
    } else {
        assert(steps_view(steps@) =~= steps_view(old(steps)@) + name_steps(ability, name@));
    }
}

/// The operand for a record field.
fn field_operand_of(ability: Ability, field: &Field, slot: usize, target: Handle) -> (steps: Vec<
    Step,
>)
    ensures
        steps_view(steps@) == field_operand(ability, *field, slot as nat, target as nat),
{
    let mut steps: Vec<Step> = Vec::new();
    assert(steps_view(steps@) =~= Seq::<StepV>::empty());
    push_name(&mut steps, ability, &field.name);
    if ability.strategy().observes_optionality() && field.optional {
        proof {
            lemma_steps_view_push(steps@, Step::Prim(LowLevel::DictContains));
        }
        steps.push(Step::Prim(LowLevel::DictContains));
    }
    proof {
        lemma_steps_view_push(steps@, Step::Call { slot, target });
    }
    steps.push(Step::Call { slot, target });
    assert(steps_view(steps@) =~= field_operand(ability, *field, slot as nat, target as nat));
    steps
}

/// The steps that every operand of a variant starts with.
fn variant_mark_of(ability: Ability, variant: &Variant, rank: usize) -> (steps: Vec<Step>)
    ensures
        steps_view(steps@) == variant_mark(ability, *variant, rank as nat),
{
    let mut steps: Vec<Step> = Vec::new();
    steps.push(Step::Variant { rank });
    assert(steps_view(steps@) =~= seq![StepV::Variant { rank: rank as nat }]);
    push_name(&mut steps, ability, &variant.name);
    steps
}

/// The operand that is one call.
fn call_operand_of(slot: usize, target: Handle) -> (steps: Vec<Step>)
    ensures
        steps_view(steps@) == seq![StepV::Call { slot: slot as nat, target: target as nat }],
{
    let mut steps: Vec<Step> = Vec::new();
    steps.push(Step::Call { slot, target });
    assert(steps_view(steps@) =~= seq![
        StepV::Call { slot: slot as nat, target: target as nat },
    ]);
    steps
}

/// Appends one operand to a body, and the joiner unless the operand is the
/// first.
fn emit(
    out: &mut Vec<Step>,
    operand: Vec<Step>,
    join: LowLevel,
    first: bool,
    Ghost(operands): Ghost<Seq<Seq<StepV>>>,
)
    requires
        steps_view(old(out)@) == joined(operands, join),
        first == (operands.len() == 0),
    ensures
        steps_view(final(out)@) == joined(operands.push(steps_view(operand@)), join),
{
    let mut operand = operand;
    let ghost added = operand@;
    out.append(&mut operand);
    proof {
        lemma_steps_view_add(old(out)@, added);
        lemma_joined_push(operands, steps_view(added), join);
    }
    if !first {
        proof {
            lemma_steps_view_push(out@, Step::Prim(join));
        }
        out.push(Step::Prim(join));
        assert(steps_view(out@) =~= joined(operands, join) + steps_view(added) + seq![
            StepV::Prim(join),
        ]);
    } else {
        assert(steps_view(out@) =~= joined(operands, join) + steps_view(added) + Seq::<
            StepV,
        >::empty());
    }
}

/// Appends the operands for the fields of a record.
fn emit_fields(
    out: &mut Vec<Step>,
    ability: Ability,
    fields: &Vec<Field>,
    slots: &Vec<usize>,
    targets: &Vec<Handle>,
    first: bool,
    Ghost(base): Ghost<Seq<Seq<StepV>>>,
)
    requires
        steps_view(old(out)@) == joined(base, joiner(ability)),
        first == (base.len() == 0),
        slots@.len() == fields@.len(),
        targets@.len() == fields@.len(),
    ensures
        steps_view(final(out)@) == joined(
            base + Seq::new(
                fields@.len(),
                |k: int| field_operand(ability, fields@[k], nats(slots@)[k], nats(targets@)[k]),
            ),
            joiner(ability),
        ),
{
    let join = joiner_of(ability);
    let ghost places = nats(slots@);
    let ghost handles = nats(targets@);
    let ghost mut operands = base;
    let mut first = first;
    let mut i: usize = 0;
    assert(operands =~= base + Seq::new(
        0nat,
        |k: int| field_operand(ability, fields@[k], places[k], handles[k]),
    ));
    while i < fields.len()
        invariant
            i <= fields@.len(),
            slots@.len() == fields@.len(),
            targets@.len() == fields@.len(),
            join == joiner(ability),
            places == nats(slots@),
            handles == nats(targets@),
            steps_view(out@) == joined(operands, join),
            first == (operands.len() == 0),
            operands == base + Seq::new(
                i as nat,
                |k: int| field_operand(ability, fields@[k], places[k], handles[k]),
            ),
        decreases fields@.len() - i,
    {
        let operand = field_operand_of(ability, &fields[i], slots[i], targets[i]);
        let ghost before = operands;
        proof {
            operands = operands.push(steps_view(operand@));
        }
        emit(out, operand, join, first, Ghost(before));
        first = false;
        i += 1;
        assert(operands =~= base + Seq::new(
            i as nat,
            |k: int| field_operand(ability, fields@[k], places[k], handles[k]),
        ));
    }
}

/// Appends the operands for one variant of a tag union.
fn emit_variant(
    out: &mut Vec<Step>,
    ability: Ability,
    variant: &Variant,
    rank: usize,
    targets: &Vec<Handle>,
    offset: usize,
    first: bool,
    Ghost(base): Ghost<Seq<Seq<StepV>>>,
)
    requires
        steps_view(old(out)@) == joined(base, joiner(ability)),
        first == (base.len() == 0),
        offset + variant.payload@.len() <= targets@.len(),
    ensures
        steps_view(final(out)@) == joined(
            base + variant_operands(
                ability,
                *variant,
                rank as nat,
                nats(targets@),
                offset as int,
            ),
            joiner(ability),
        ),
{
    let join = joiner_of(ability);
    let ghost handles = nats(targets@);
    let count: usize = variant.payload.len();
    let total: usize = targets.len();
    if count == 0 {
        let operand = variant_mark_of(ability, variant, rank);
        assert(base.push(steps_view(operand@)) =~= base + variant_operands(
            ability,
            *variant,
            rank as nat,
            handles,
            offset as int,
        ));
        emit(out, operand, join, first, Ghost(base));
    } else {
        let ghost mut operands = base;
        let mut first = first;
        let mut j: usize = 0;
        assert(operands =~= base + Seq::new(
            0nat,
            |k: int|
                variant_mark(ability, *variant, rank as nat) + seq![
                    StepV::Call { slot: k as nat, target: handles[offset as int + k] },
                ],
        ));
        while j < count
            invariant
                j <= count,
                count == variant.payload@.len(),
                total == targets@.len(),
                offset + count <= total,
                join == joiner(ability),
                handles == nats(targets@),
                steps_view(out@) == joined(operands, join),
                first == (operands.len() == 0),
                operands == base + Seq::new(
                    j as nat,
                    |k: int|
                        variant_mark(ability, *variant, rank as nat) + seq![
                            StepV::Call { slot: k as nat, target: handles[offset as int + k] },
                        ],
                ),
            decreases count - j,
        {
            let mut operand = variant_mark_of(ability, variant, rank);
            let target: usize = targets[offset + j];
            proof {
                lemma_steps_view_push(operand@, Step::Call { slot: j, target });
            }
            operand.push(Step::Call { slot: j, target });
            assert(steps_view(operand@) == variant_mark(ability, *variant, rank as nat) + seq![
                StepV::Call { slot: j as nat, target: handles[offset as int + j as int] },
            ]);
            let ghost before = operands;
            proof {
                operands = operands.push(steps_view(operand@));
            }
            emit(out, operand, join, first, Ghost(before));
            first = false;
            j += 1;
            assert(operands =~= base + Seq::new(
                j as nat,
                |k: int|
                    variant_mark(ability, *variant, rank as nat) + seq![
                        StepV::Call { slot: k as nat, target: handles[offset as int + k] },
                    ],
            ));
        }
    }
}

/// Appends the operands for the variants of a tag union.
fn emit_variants(
    out: &mut Vec<Step>,
    ability: Ability,
    variants: &Vec<Variant>,
    slots: &Vec<usize>,
    targets: &Vec<Handle>,
    first: bool,
    Ghost(base): Ghost<Seq<Seq<StepV>>>,
)
    requires
        steps_view(old(out)@) == joined(base, joiner(ability)),
        first == (base.len() == 0),
        slots@.len() == variants@.len(),
        targets@.len() == payloads_of(variants@).len(),
    ensures
        steps_view(final(out)@) == joined(
            base + union_operands(
                ability,
                variants@,
                nats(slots@),
                nats(targets@),
                variants@.len() as int,
            ),
            joiner(ability),
        ),
{
    let ghost places = nats(slots@);
    let ghost handles = nats(targets@);
    let ghost mut operands = base;
    let mut first = first;
    let mut v: usize = 0;
    let mut offset: usize = 0;
    let total: usize = targets.len();
    assert(operands =~= base + union_operands(ability, variants@, places, handles, 0));
    while v < variants.len()
        invariant
            v <= variants@.len(),
            slots@.len() == variants@.len(),
            targets@.len() == payloads_of(variants@).len(),
            total == targets@.len(),
            places == nats(slots@),
            handles == nats(targets@),
            offset == payload_offset(variants@, v as int),
            steps_view(out@) == joined(operands, joiner(ability)),
            first == (operands.len() == 0),
            operands == base + union_operands(ability, variants@, places, handles, v as int),
        decreases variants@.len() - v,
    {
        let variant = &variants[v];
        proof {
            lemma_payload_offset(variants@, v as int + 1);
            assert(payload_offset(variants@, v as int + 1) == offset + variant.payload@.len());
        }
        emit_variant(out, ability, variant, slots[v], targets, offset, first, Ghost(operands));
        proof {
            operands = operands + variant_operands(
                ability,
                *variant,
                places[v as int],
                handles,
                offset as int,
            );
        }
        first = false;
        offset = offset + variant.payload.len();
        v += 1;
        assert(operands =~= base + union_operands(ability, variants@, places, handles, v as int));
    }
}

/// Appends a call for each nested type, addressed by its position.
fn emit_calls(
    out: &mut Vec<Step>,
    ability: Ability,
    targets: &Vec<Handle>,
    first: bool,
    Ghost(base): Ghost<Seq<Seq<StepV>>>,
)
    requires
        steps_view(old(out)@) == joined(base, joiner(ability)),
        first == (base.len() == 0),
    ensures
        steps_view(final(out)@) == joined(
            base + Seq::new(
                targets@.len(),
                |k: int| seq![StepV::Call { slot: k as nat, target: nats(targets@)[k] }],
            ),
            joiner(ability),
        ),
{
    let join = joiner_of(ability);
    let ghost handles = nats(targets@);
    let ghost mut operands = base;
    let mut first = first;
    let mut i: usize = 0;
    assert(operands =~= base + Seq::new(
        0nat,
        |k: int| seq![StepV::Call { slot: k as nat, target: handles[k] }],
    ));
    while i < targets.len()
        invariant
            i <= targets@.len(),
            join == joiner(ability),
            handles == nats(targets@),
            steps_view(out@) == joined(operands, join),
            first == (operands.len() == 0),
            operands == base + Seq::new(
                i as nat,
                |k: int| seq![StepV::Call { slot: k as nat, target: handles[k] }],
            ),
        decreases targets@.len() - i,
    {
        let operand = call_operand_of(i, targets[i]);
        let ghost before = operands;
        proof {
            operands = operands.push(steps_view(operand@));
        }
        emit(out, operand, join, first, Ghost(before));
        first = false;
        i += 1;
        assert(operands =~= base + Seq::new(
            i as nat,
            |k: int| seq![StepV::Call { slot: k as nat, target: handles[k] }],
        ));
    }
}

/// The body of the method for an ability.
fn compose_body(ability: Ability, node: &TypeNode, slots: &Vec<usize>, targets: &Vec<Handle>) -> (out:
    Vec<Step>)
    requires
        fits(*node, slots@.len(), targets@.len()),
    ensures
        steps_view(out@) == body_for(ability, *node, nats(slots@), nats(targets@)),
{
    let join = joiner_of(ability);
    let mut out: Vec<Step> = Vec::new();
    let ghost mut base: Seq<Seq<StepV>> = Seq::empty();
    let mut first = true;
    assert(steps_view(out@) =~= joined(base, join));
    let head = opening_of(ability, node);
    if head.len() > 0 {
        proof {
            base = base.push(steps_view(head@));
        }
        emit(&mut out, head, join, first, Ghost(Seq::empty()));
        first = false;
    }
    assert(base =~= opening_operands(ability, *node));
    match node {
        TypeNode::Record(fields) => {
            assert(node.kids_of().len() == fields@.len());
            emit_fields(&mut out, ability, fields, slots, targets, first, Ghost(base));
        },
        TypeNode::TagUnion(variants) => {
            emit_variants(&mut out, ability, variants, slots, targets, first, Ghost(base));
        },
        TypeNode::ListOf(_) | TypeNode::SetOf(_) | TypeNode::DictOf(_, _) | TypeNode::Apply(
            _,
            _,
        ) => {
            emit_calls(&mut out, ability, targets, first, Ghost(base));
        },
        _ => {
            assert(base + nested_operands(ability, *node, nats(slots@), nats(targets@)) =~= base);
        },
    }
    out
}

/// The implementation for a type under a strategy.
pub fn compose(strategy: Strategy, node: &TypeNode, slots: &Vec<usize>, targets: &Vec<Handle>) -> (r:
    Option<Implementation>)
    ensures
        r is Some <==> fits(*node, slots@.len() as nat, targets@.len() as nat),
        r matches Some(implementation) ==> implementation@ == implementation_for(
            strategy,
            *node,
            nats(slots@),
            nats(targets@),
        ),
{
    let kids = node.kids();
    if targets.len() != kids.len() {
        return None;
    }
    match node {
        TypeNode::Record(fields) => {
            if slots.len() != fields.len() {
                return None;
            }
        },
        TypeNode::TagUnion(variants) => {
            if slots.len() != variants.len() {
                return None;
            }
        },
        _ => {},
    }
    let abilities = strategy.abilities();
    let mut methods: Vec<Method> = Vec::new();
    let mut i: usize = 0;
    while i < abilities.len()
        invariant
            i <= abilities@.len(),
            abilities@ == strategy.abilities_of(),
            fits(*node, slots@.len() as nat, targets@.len() as nat),
            methods@.len() == i,
            forall|k: int|
                0 <= k < i ==> (#[trigger] methods@[k])@ == (MethodV {
                    ability: abilities@[k],
                    steps: body_for(abilities@[k], *node, nats(slots@), nats(targets@)),
                }),
        decreases abilities@.len() - i,
    {
        let ability = abilities[i];
        let steps = compose_body(ability, node, slots, targets);
        methods.push(Method { ability, steps });
        i += 1;
    }
    let implementation = Implementation { methods };
    assert(implementation@.methods =~= implementation_for(
        strategy,
        *node,
        nats(slots@),
        nats(targets@),
    ).methods);
    Some(implementation)
}

} // verus!
