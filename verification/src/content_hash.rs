//! The fingerprint of a shape: a 64-bit digest that is a function of the
//! shape alone.
//!
//! A digest is built by mixing 64-bit words into a state, one after the
//! other. The nodes below a record or a tag union have no order that
//! matters, so their digests are put in ascending order before they are
//! mixed in: two types that differ only in the order in which their fields
//! or variants are written have the same fingerprint. Everywhere else the
//! digests are mixed in the order of the shape.
//!
//! Equal shapes have equal digests. The converse is not proved and cannot
//! be: there are more shapes than digests. An implementation is taken to be
//! the one for a type when the digests agree, on the strength of the width
//! of the digest alone.

use crate::shape::{
    derivable, field_label, graphs_agree, lemma_shape_ignores_the_unobserved, normalize, position,
    shape_at, shape_of, shapes_at, variant_label, DeriveError, Head, HeadV, Label, LabelV, Shape,
    ShapeV,
};
use crate::strategy::Strategy;
use crate::type_graph::{
    lemma_resolved_is_structural, resolve_in, resolved, Field, TypeGraph, TypeId, TypeNode, Variant,
};
use vstd::prelude::*;
use vstd::relations::*;
use vstd::seq_lib::*;

verus! {

/// The state that every digest starts from.
pub const SEED: u64 = 0xcbf2_9ce4_8422_2325;

/// The multiplier of a mixing step.
pub const PRIME: u64 = 0x0000_0100_0000_01b3;

/// One mixing step: the word is folded into the state, and the state is
/// multiplied by `PRIME` modulo 2^64.
#[verifier::opaque]
pub open spec fn mix(state: u64, word: u64) -> u64 {
    vstd::wrapping::u64_specs::wrapping_mul(state ^ word, PRIME)
}

/// The state after mixing in the words, first to last.
pub open spec fn mix_words(state: u64, words: Seq<u64>) -> u64
    decreases words.len(),
{
    if words.len() == 0 {
        state
    } else {
        mix(mix_words(state, words.drop_last()), words.last())
    }
}

/// The state after mixing in the bytes, first to last.
pub open spec fn mix_bytes(state: u64, bytes: Seq<u8>) -> u64
    decreases bytes.len(),
{
    if bytes.len() == 0 {
        state
    } else {
        mix(mix_bytes(state, bytes.drop_last()), bytes.last() as u64)
    }
}

/// A number as the word that stands for it in a digest.
pub open spec fn word_of(n: nat) -> u64 {
    (n % 0x1_0000_0000_0000_0000) as u64
}

/// The digest of a name: its UTF-8 bytes, then their number.
pub open spec fn text_digest(text: Seq<char>) -> u64 {
    let bytes = vstd::utf8::encode_utf8(text);
    mix(mix_bytes(SEED, bytes), word_of(bytes.len()))
}

/// The digest of the head of a shape. A back-reference is a mark of its own
/// with its depth.
pub open spec fn head_digest(head: HeadV) -> u64 {
    match head {
        HeadV::Number => mix(SEED, 1),
        HeadV::Text => mix(SEED, 2),
        HeadV::Boolean => mix(SEED, 3),
        HeadV::ListOf => mix(SEED, 4),
        HeadV::SetOf => mix(SEED, 5),
        HeadV::DictOf => mix(SEED, 6),
        HeadV::Record => mix(SEED, 7),
        HeadV::TagUnion { bits } => mix(mix(SEED, 8), bits as u64),
        HeadV::Variant => mix(SEED, 9),
        HeadV::Apply { ctor } => mix(mix(SEED, 10), text_digest(ctor)),
        HeadV::BackRef { depth } => mix(mix(SEED, 11), word_of(depth)),
        HeadV::Function => mix(SEED, 12),
        HeadV::Unresolved => mix(SEED, 13),
    }
}

/// The digest of a label: whether a name is observed and which, then
/// whether optionality is observed and which.
pub open spec fn label_digest(label: LabelV) -> u64 {
    let named = match label.name {
        None => mix(SEED, 0),
        Some(name) => mix(mix(SEED, 1), text_digest(name)),
    };
    match label.required {
        None => mix(named, 0),
        Some(false) => mix(named, 1),
        Some(true) => mix(named, 2),
    }
}

/// Whether the order of the nodes below a head carries no meaning.
pub open spec fn is_unordered(head: HeadV) -> bool {
    head is Record || head is TagUnion
}

/// The order in which digests are compared.
pub open spec fn at_most() -> spec_fn(u64, u64) -> bool {
    |a: u64, b: u64| a <= b
}

/// The words in ascending order.
pub open spec fn ascending(words: Seq<u64>) -> Seq<u64> {
    words.sort_by(at_most())
}

/// The digests of the nodes below a shape, in the order of the shape.
pub open spec fn kid_digests(shape: ShapeV) -> Seq<u64>
    decreases shape, 0nat,
{
    Seq::new(
        shape.kids.len(),
        |i: int|
            if 0 <= i < shape.kids.len() {
                hash_shape(shape.kids[i])
            } else {
                0
            },
    )
}

/// The digest of a shape: its head, its label, the number of nodes below
/// it, and their digests, in ascending order where the head is unordered.
pub open spec fn hash_shape(shape: ShapeV) -> u64
    decreases shape, 1nat,
{
    let digests = kid_digests(shape);
    let start = mix(
        mix(mix(SEED, head_digest(shape.head)), label_digest(shape.label)),
        word_of(shape.kids.len()),
    );
    mix_words(
        start,
        if is_unordered(shape.head) {
            ascending(digests)
        } else {
            digests
        },
    )
}

/// The fingerprint of a type under a strategy.
pub open spec fn fingerprint_of(graph: Seq<TypeNode>, strategy: Strategy, node: TypeId) -> u64 {
    hash_shape(shape_of(graph, strategy, node))
}

/// Comparing words by `<=` is a total order.
pub proof fn lemma_at_most_is_total()
    ensures
        total_ordering(at_most()),
{
    let le = at_most();
    assert forall|a: u64| #[trigger] le(a, a) by {}
    assert forall|a: u64, b: u64| #[trigger] le(a, b) && #[trigger] le(b, a) implies a == b by {}
    assert forall|a: u64, b: u64, c: u64| #[trigger] le(a, b) && #[trigger] le(b, c) implies le(
        a,
        c,
    ) by {}
    assert forall|a: u64, b: u64| #[trigger] le(a, b) || #[trigger] le(b, a) by {}
}

/// One mixing step.
pub fn mix_word(state: u64, word: u64) -> (next: u64)
    ensures
        next == mix(state, word),
{
    reveal(mix);
    (state ^ word).wrapping_mul(PRIME)
}

/// The words in ascending order.
pub fn sorted_words(words: &Vec<u64>) -> (sorted: Vec<u64>)
    ensures
        sorted@ == ascending(words@),
{
    let mut sorted: Vec<u64> = Vec::new();
    let mut i: usize = 0;
    assert(sorted@ =~= words@.take(0));
    while i < words.len()
        invariant
            i <= words@.len(),
            sorted_by(sorted@, at_most()),
            sorted@.to_multiset() == words@.take(i as int).to_multiset(),
        decreases words@.len() - i,
    {
        let word: u64 = words[i];
        let mut j: usize = 0;
        while j < sorted.len() && sorted[j] <= word
            invariant
                j <= sorted@.len(),
                forall|k: int| 0 <= k < j ==> sorted@[k] <= word,
            decreases sorted@.len() - j,
        {
            j += 1;
        }
        let ghost before = sorted@;
        sorted.insert(j, word);
        proof {
            let le = at_most();
            assert forall|a: int, b: int| 0 <= a < b < sorted@.len() implies #[trigger] le(
                sorted@[a],
                sorted@[b],
            ) by {
                let a0 = if a < j { a } else { a - 1 };
                let b0 = if b < j { b } else { b - 1 };
                if a != j && b != j {
                    assert(le(before[a0], before[b0]));
                } else if a == j {
                    assert(le(before[j as int], before[b0]));
                }
            }
            to_multiset_insert(before, j as int, word);
            assert(words@.take(i as int + 1) =~= words@.take(i as int).push(word));
            to_multiset_build(words@.take(i as int), word);
        }
        i += 1;
    }
    proof {
        assert(words@.take(i as int) =~= words@);
        lemma_at_most_is_total();
        words@.lemma_sort_by_ensures(at_most());
        lemma_sorted_unique(sorted@, ascending(words@), at_most());
    }
    sorted
}

/// The digest of a name.
pub fn digest_text(text: &String) -> (digest: u64)
    ensures
        digest == text_digest(text@),
{
    let bytes = text.as_str().as_bytes();
    let mut state: u64 = SEED;
    let mut i: usize = 0;
    while i < bytes.len()
        invariant
            i <= bytes@.len(),
            state == mix_bytes(SEED, bytes@.take(i as int)),
        decreases bytes@.len() - i,
    {
        assert(bytes@.take(i as int + 1).drop_last() =~= bytes@.take(i as int));
        state = mix_word(state, bytes[i] as u64);
        i += 1;
    }
    assert(bytes@.take(i as int) =~= bytes@);
    mix_word(state, bytes.len() as u64)
}

/// The digest of the head of a shape.
fn digest_head(head: &Head) -> (digest: u64)
    ensures
        digest == head_digest(head@),
{
    match head {
        Head::Number => mix_word(SEED, 1),
        Head::Text => mix_word(SEED, 2),
        Head::Boolean => mix_word(SEED, 3),
        Head::ListOf => mix_word(SEED, 4),
        Head::SetOf => mix_word(SEED, 5),
        Head::DictOf => mix_word(SEED, 6),
        Head::Record => mix_word(SEED, 7),
        Head::TagUnion { bits } => mix_word(mix_word(SEED, 8), *bits as u64),
        Head::Variant => mix_word(SEED, 9),
        Head::Apply { ctor } => mix_word(mix_word(SEED, 10), digest_text(ctor)),
        Head::BackRef { depth } => mix_word(mix_word(SEED, 11), *depth as u64),
    }
}

/// The digest of a label.
fn digest_label(label: &Label) -> (digest: u64)
    ensures
        digest == label_digest(label@),
{
    let named: u64 = match &label.name {
        None => mix_word(SEED, 0),
        Some(name) => mix_word(mix_word(SEED, 1), digest_text(name)),
    };
    match label.required {
        None => mix_word(named, 0),
        Some(false) => mix_word(named, 1),
        Some(true) => mix_word(named, 2),
    }
}

/// Whether the order of the nodes below a head carries no meaning.
fn unordered(head: &Head) -> (b: bool)
    ensures
        b == is_unordered(head@),
{
    match head {
        Head::Record => true,
        Head::TagUnion { .. } => true,
        _ => false,
    }
}

/// The digests of the nodes below a shape, in the order of the shape.
pub fn slot_digests(shape: &Shape) -> (digests: Vec<u64>)
    ensures
        digests@ == kid_digests(shape@),
    decreases shape, 0nat,
{
    let mut digests: Vec<u64> = Vec::new();
    let mut i: usize = 0;
    while i < shape.kids.len()
        invariant
            i <= shape.kids@.len(),
            digests@.len() == i,
            forall|k: int| 0 <= k < i ==> digests@[k] == hash_shape(#[trigger] shape.kids@[k]@),
        decreases shape.kids@.len() - i,
    {
        let digest: u64 = content_hash(&shape.kids[i]);
        digests.push(digest);
        i += 1;
    }
    assert forall|k: int| 0 <= k < digests@.len() implies digests@[k] == kid_digests(shape@)[k] by {
        assert(shape@.kids[k] == shape.kids@[k]@);
    }
    assert(digests@ =~= kid_digests(shape@));
    digests
}

/// The digest of a shape.
pub fn content_hash(shape: &Shape) -> (digest: u64)
    ensures
        digest == hash_shape(shape@),
    decreases shape, 1nat,
{
    let digests = slot_digests(shape);
    let ordered = if unordered(&shape.head) {
        sorted_words(&digests)
    } else {
        digests
    };
    let mut state: u64 = mix_word(
        mix_word(mix_word(SEED, digest_head(&shape.head)), digest_label(&shape.label)),
        shape.kids.len() as u64,
    );
    let mut i: usize = 0;
    while i < ordered.len()
        invariant
            i <= ordered@.len(),
            state == mix_words(
                mix(
                    mix(mix(SEED, head_digest(shape@.head)), label_digest(shape@.label)),
                    word_of(shape@.kids.len()),
                ),
                ordered@.take(i as int),
            ),
        decreases ordered@.len() - i,
    {
        assert(ordered@.take(i as int + 1).drop_last() =~= ordered@.take(i as int));
        state = mix_word(state, ordered[i]);
        i += 1;
    }
    assert(ordered@.take(i as int) =~= ordered@);
    state
}

/// The fingerprint of a type under a strategy: the digest of its shape.
///
/// Fails exactly where the type has no shape that an ability can be derived
/// for.
pub fn fingerprint(graph: &TypeGraph, strategy: Strategy, node: TypeId) -> (r: Result<
    u64,
    DeriveError,
>)
    ensures
        r is Ok <==> derivable(graph@, node),
        r matches Ok(digest) ==> digest == fingerprint_of(graph@, strategy, node),
        r matches Err(e) ==> e == DeriveError::Incompatible,
{
    match normalize(graph, strategy, node) {
        Ok(shape) => Ok(content_hash(&shape)),
        Err(e) => Err(e),
    }
}

/// Mapping the items of two sequences that hold the same items, in whatever
/// order, gives two sequences that hold the same items.
pub proof fn lemma_map_keeps_items<A, B>(a: Seq<A>, b: Seq<A>, f: spec_fn(A) -> B)
    requires
        a.to_multiset() == b.to_multiset(),
    ensures
        a.map_values(f).to_multiset() == b.map_values(f).to_multiset(),
    decreases a.len(),
{
    broadcast use vstd::multiset::group_multiset_axioms;

    to_multiset_len(a);
    to_multiset_len(b);
    if a.len() == 0 {
        assert(a.map_values(f) =~= b.map_values(f));
    } else {
        let item = a.last();
        to_multiset_contains(a, item);
        to_multiset_contains(b, item);
        assert(a.contains(item)) by {
            assert(a[a.len() - 1] == item);
        }
        let j = choose|j: int| 0 <= j < b.len() && b[j] == item;
        let a0 = a.drop_last();
        let b0 = b.remove(j);
        to_multiset_remove(a, a.len() - 1);
        to_multiset_remove(b, j);
        assert(a.remove(a.len() - 1) =~= a0);
        lemma_map_keeps_items(a0, b0, f);
        assert(a.map_values(f) =~= a0.map_values(f).push(f(item)));
        assert(b.map_values(f) =~= b0.map_values(f).insert(j, f(item)));
        to_multiset_build(a0.map_values(f), f(item));
        to_multiset_insert(b0.map_values(f), j, f(item));
    }
}

/// Equal shapes have equal digests, wherever the shapes come from: the
/// fingerprint of a type is a function of its shape under the strategy and
/// of nothing else.
pub proof fn lemma_fingerprint_follows_shape(
    graph: Seq<TypeNode>,
    node: TypeId,
    other_graph: Seq<TypeNode>,
    other_node: TypeId,
    strategy: Strategy,
)
    requires
        shape_of(graph, strategy, node) == shape_of(other_graph, strategy, other_node),
    ensures
        fingerprint_of(graph, strategy, node) == fingerprint_of(
            other_graph,
            strategy,
            other_node,
        ),
{
}

/// Two graphs that differ only in what a strategy ignores give every type
/// the same fingerprint under that strategy.
pub proof fn lemma_fingerprint_ignores_the_unobserved(
    strategy: Strategy,
    graph: Seq<TypeNode>,
    other_graph: Seq<TypeNode>,
    node: TypeId,
)
    requires
        graphs_agree(strategy, graph, other_graph),
    ensures
        fingerprint_of(graph, strategy, node) == fingerprint_of(other_graph, strategy, node),
{
    lemma_shape_ignores_the_unobserved(strategy, graph, other_graph, node, Seq::empty());
}

/// The order of the nodes below a record or a tag union does not reach the
/// digest: two such shapes with the same head and label, below which the
/// same shapes stand in whatever order, have the same digest.
pub proof fn lemma_slot_order_is_irrelevant(a: ShapeV, b: ShapeV)
    requires
        is_unordered(a.head),
        a.head == b.head,
        a.label == b.label,
        a.kids.to_multiset() == b.kids.to_multiset(),
    ensures
        hash_shape(a) == hash_shape(b),
{
    let digest = |kid: ShapeV| hash_shape(kid);
    to_multiset_len(a.kids);
    to_multiset_len(b.kids);
    lemma_map_keeps_items(a.kids, b.kids, digest);
    assert(kid_digests(a) =~= a.kids.map_values(digest));
    assert(kid_digests(b) =~= b.kids.map_values(digest));
    lemma_at_most_is_total();
    kid_digests(a).lemma_sort_by_ensures(at_most());
    kid_digests(b).lemma_sort_by_ensures(at_most());
    lemma_sorted_unique(ascending(kid_digests(a)), ascending(kid_digests(b)), at_most());
}

/// Whether two types are the same but for the order in which the fields
/// of a record, or the variants of a tag union, are written.
pub open spec fn nodes_reorder(a: TypeNode, b: TypeNode) -> bool {
    match (a, b) {
        (TypeNode::Record(fields), TypeNode::Record(others)) => fields@.to_multiset()
            == others@.to_multiset(),
        (TypeNode::TagUnion(variants), TypeNode::TagUnion(others)) => variants@.to_multiset()
            == others@.to_multiset(),
        _ => a == b,
    }
}

/// Whether two graphs hold, place by place, types that are the same but for
/// the order of their fields or variants.
pub open spec fn graphs_reorder(a: Seq<TypeNode>, b: Seq<TypeNode>) -> bool {
    &&& a.len() == b.len()
    &&& forall|i: int| 0 <= i < a.len() ==> nodes_reorder(#[trigger] a[i], b[i])
}

/// Whether two shapes have the same head and label and, below them, the
/// same digests: in the same order, or in whatever order where the head is
/// unordered.
pub open spec fn alike(a: ShapeV, b: ShapeV) -> bool {
    &&& a.head == b.head
    &&& a.label == b.label
    &&& a.kids.len() == b.kids.len()
    &&& if is_unordered(a.head) {
        kid_digests(a).to_multiset() == kid_digests(b).to_multiset()
    } else {
        kid_digests(a) == kid_digests(b)
    }
}

/// Shapes that are alike have the same digest.
pub proof fn lemma_alike_hash(a: ShapeV, b: ShapeV)
    requires
        alike(a, b),
    ensures
        hash_shape(a) == hash_shape(b),
{
    if is_unordered(a.head) {
        lemma_at_most_is_total();
        kid_digests(a).lemma_sort_by_ensures(at_most());
        kid_digests(b).lemma_sort_by_ensures(at_most());
        lemma_sorted_unique(ascending(kid_digests(a)), ascending(kid_digests(b)), at_most());
    }
}

/// Graphs that differ only in the order of fields and variants resolve
/// every type to the same place.
proof fn lemma_resolve_reorder(a: Seq<TypeNode>, b: Seq<TypeNode>, node: TypeId, fuel: nat)
    requires
        graphs_reorder(a, b),
    ensures
        resolve_in(a, node, fuel) == resolve_in(b, node, fuel),
    decreases fuel,
{
    if node < a.len() {
        assert(nodes_reorder(a[node as int], b[node as int]));
        match a[node as int] {
            TypeNode::Alias(_, target) => {
                if fuel > 0 {
                    lemma_resolve_reorder(a, b, target, (fuel - 1) as nat);
                }
            },
            _ => {},
        }
    }
}

/// The shapes that a type has in two graphs which differ only in the order
/// of fields and variants are alike.
pub proof fn lemma_shapes_alike(
    strategy: Strategy,
    a: Seq<TypeNode>,
    b: Seq<TypeNode>,
    node: TypeId,
    path: Seq<TypeId>,
)
    requires
        graphs_reorder(a, b),
    ensures
        alike(shape_at(a, strategy, node, path), shape_at(b, strategy, node, path)),
    decreases a.len() - path.len(),
{
    lemma_resolve_reorder(a, b, node, a.len());
    lemma_resolved_is_structural(a, node, a.len());
    let left = shape_at(a, strategy, node, path);
    let right = shape_at(b, strategy, node, path);
    match resolved(a, node) {
        None => {
            assert(kid_digests(left) =~= kid_digests(right));
        },
        Some(r) => {
            if position(path, r) is None && path.len() < a.len() {
                let inner = path.push(r);
                assert(nodes_reorder(a[r as int], b[r as int]));
                match (a[r as int], b[r as int]) {
                    (TypeNode::Record(fields), TypeNode::Record(others)) => {
                        let digest = |field: Field|
                            hash_shape(
                                shape_at(a, strategy, field.ty, inner).relabel(
                                    field_label(strategy, field),
                                ),
                            );
                        assert forall|field: Field| #[trigger]
                            digest(field) == hash_shape(
                                shape_at(b, strategy, field.ty, inner).relabel(
                                    field_label(strategy, field),
                                ),
                            ) by {
                            let label = field_label(strategy, field);
                            let below_a = shape_at(a, strategy, field.ty, inner);
                            let below_b = shape_at(b, strategy, field.ty, inner);
                            lemma_shapes_alike(strategy, a, b, field.ty, inner);
                            assert(kid_digests(below_a.relabel(label)) =~= kid_digests(below_a));
                            assert(kid_digests(below_b.relabel(label)) =~= kid_digests(below_b));
                            lemma_alike_hash(below_a.relabel(label), below_b.relabel(label));
                        }
                        to_multiset_len(fields@);
                        to_multiset_len(others@);
                        lemma_map_keeps_items(fields@, others@, digest);
                        assert(kid_digests(left) =~= fields@.map_values(digest));
                        assert(kid_digests(right) =~= others@.map_values(digest));
                    },
                    (TypeNode::TagUnion(variants), TypeNode::TagUnion(others)) => {
                        let digest = |variant: Variant|
                            hash_shape(
                                ShapeV {
                                    head: HeadV::Variant,
                                    label: variant_label(strategy, variant),
                                    kids: shapes_at(a, strategy, variant.payload@, inner),
                                },
                            );
                        assert forall|variant: Variant| #[trigger]
                            digest(variant) == hash_shape(
                                ShapeV {
                                    head: HeadV::Variant,
                                    label: variant_label(strategy, variant),
                                    kids: shapes_at(b, strategy, variant.payload@, inner),
                                },
                            ) by {
                            let in_a = ShapeV {
                                head: HeadV::Variant,
                                label: variant_label(strategy, variant),
                                kids: shapes_at(a, strategy, variant.payload@, inner),
                            };
                            let in_b = ShapeV {
                                head: HeadV::Variant,
                                label: variant_label(strategy, variant),
                                kids: shapes_at(b, strategy, variant.payload@, inner),
                            };
                            assert forall|j: int| 0 <= j < variant.payload@.len() implies hash_shape(
                                in_a.kids[j],
                            ) == hash_shape(in_b.kids[j]) by {
                                lemma_shapes_alike(strategy, a, b, variant.payload@[j], inner);
                                lemma_alike_hash(in_a.kids[j], in_b.kids[j]);
                            }
                            assert(kid_digests(in_a) =~= kid_digests(in_b));
                            lemma_alike_hash(in_a, in_b);
                        }
                        to_multiset_len(variants@);
                        to_multiset_len(others@);
                        lemma_map_keeps_items(variants@, others@, digest);
                        assert(kid_digests(left) =~= variants@.map_values(digest));
                        assert(kid_digests(right) =~= others@.map_values(digest));
                    },
                    (TypeNode::ListOf(elem), TypeNode::ListOf(_)) => {
                        lemma_shapes_alike(strategy, a, b, elem, inner);
                        lemma_alike_hash(left.kids[0], right.kids[0]);
                        assert(kid_digests(left) =~= kid_digests(right));
                    },
                    (TypeNode::SetOf(elem), TypeNode::SetOf(_)) => {
                        lemma_shapes_alike(strategy, a, b, elem, inner);
                        lemma_alike_hash(left.kids[0], right.kids[0]);
                        assert(kid_digests(left) =~= kid_digests(right));
                    },
                    (TypeNode::DictOf(key, value), TypeNode::DictOf(_, _)) => {
                        lemma_shapes_alike(strategy, a, b, key, inner);
                        lemma_shapes_alike(strategy, a, b, value, inner);
                        lemma_alike_hash(left.kids[0], right.kids[0]);
                        lemma_alike_hash(left.kids[1], right.kids[1]);
                        assert(kid_digests(left) =~= kid_digests(right));
                    },
                    (TypeNode::Apply(_, args), TypeNode::Apply(_, _)) => {
                        assert(left.kids == shapes_at(a, strategy, args@, inner));
                        assert(right.kids == shapes_at(b, strategy, args@, inner));
                        assert forall|j: int| 0 <= j < args@.len() implies hash_shape(
                            left.kids[j],
                        ) == hash_shape(right.kids[j]) by {
                            lemma_shapes_alike(strategy, a, b, args@[j], inner);
                            lemma_alike_hash(left.kids[j], right.kids[j]);
                        }
                        assert(kid_digests(left) =~= kid_digests(right));
                    },
                    _ => {
                        assert(kid_digests(left) =~= kid_digests(right));
                    },
                }
            } else {
                assert(kid_digests(left) =~= kid_digests(right));
            }
        },
    }
}

/// The order in which the fields of a record or the variants of a tag
/// union are written does not reach the fingerprint, under any strategy:
/// two graphs that differ only in that order, in whatever types, give every
/// type the same fingerprint.
pub proof fn lemma_fingerprint_ignores_order(
    strategy: Strategy,
    graph: Seq<TypeNode>,
    other_graph: Seq<TypeNode>,
    node: TypeId,
)
    requires
        graphs_reorder(graph, other_graph),
    ensures
        fingerprint_of(graph, strategy, node) == fingerprint_of(other_graph, strategy, node),
{
    lemma_shapes_alike(strategy, graph, other_graph, node, Seq::empty());
    lemma_alike_hash(
        shape_of(graph, strategy, node),
        shape_of(other_graph, strategy, node),
    );
}

} // verus!
