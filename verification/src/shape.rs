//! The shape of a type under a strategy: a finite tree that mirrors the
//! structure of the type and keeps of it what the strategy observes.
//!
//! Normalization descends from a type into the types nested in it and keeps
//! the types that it is inside of on a path. A type that is met again while
//! it is on the path is not entered a second time: a back-reference takes its
//! place, which says how many levels up the type was entered. The shape of a
//! type that mentions itself is therefore finite.

use crate::strategy::Strategy;
use crate::type_graph::{payloads_of, resolved, Field, TypeGraph, TypeId, TypeNode, Variant};
use crate::type_graph::lemma_resolved_is_structural;
use vstd::prelude::*;

verus! {

/// The kind of a node of a shape.
#[derive(Debug, PartialEq, Eq)]
pub enum Head {
    Number,
    Text,
    Boolean,
    ListOf,
    SetOf,
    DictOf,
    Record,
    /// A tag union, with the width of its discriminant where the strategy
    /// observes it and 0 where it does not.
    TagUnion { bits: u8 },
    /// One variant of a tag union; its nodes are the payload.
    Variant,
    /// An applied type constructor; its nodes are the arguments. The name
    /// of the constructor decides how the type is represented, so every
    /// strategy observes it.
    Apply { ctor: String },
    /// A type that is being entered further up: `depth` is 0 for the
    /// innermost type that is entered, 1 for the one around it, and so on.
    BackRef { depth: usize },
}

/// What a strategy observes of the place that a shape fills in the shape
/// around it.
#[derive(Debug, PartialEq, Eq)]
pub struct Label {
    /// The name of the field or variant, where names are observed.
    pub name: Option<String>,
    /// Whether the field is required, where that is observed.
    pub required: Option<bool>,
}

/// A normalized shape.
#[derive(Debug, PartialEq, Eq)]
pub struct Shape {
    pub head: Head,
    pub label: Label,
    pub kids: Vec<Shape>,
}

/// Why a type has no implementation of an ability.
#[derive(Debug, Clone, Copy, PartialEq, Eq, Structural)]
pub enum DeriveError {
    /// The type holds a function, or a type that is not resolved: no ability
    /// can be derived for it.
    Incompatible,
}

/// The mathematical value of a [`Head`]. `Function` and `Unresolved` are the
/// heads of types that no ability can be derived for.
pub enum HeadV {
    Number,
    Text,
    Boolean,
    ListOf,
    SetOf,
    DictOf,
    Record,
    TagUnion { bits: u8 },
    Variant,
    Apply { ctor: Seq<char> },
    BackRef { depth: nat },
    Function,
    Unresolved,
}

/// The mathematical value of a [`Label`].
pub struct LabelV {
    pub name: Option<Seq<char>>,
    pub required: Option<bool>,
}

/// The mathematical value of a [`Shape`].
pub struct ShapeV {
    pub head: HeadV,
    pub label: LabelV,
    pub kids: Seq<ShapeV>,
}

impl View for Head {
    type V = HeadV;

    open spec fn view(&self) -> HeadV {
        match *self {
            Head::Number => HeadV::Number,
            Head::Text => HeadV::Text,
            Head::Boolean => HeadV::Boolean,
            Head::ListOf => HeadV::ListOf,
            Head::SetOf => HeadV::SetOf,
            Head::DictOf => HeadV::DictOf,
            Head::Record => HeadV::Record,
            Head::TagUnion { bits } => HeadV::TagUnion { bits },
            Head::Variant => HeadV::Variant,
            Head::Apply { ctor } => HeadV::Apply { ctor: ctor@ },
            Head::BackRef { depth } => HeadV::BackRef { depth: depth as nat },
        }
    }
}

impl View for Label {
    type V = LabelV;

    open spec fn view(&self) -> LabelV {
        LabelV {
            name: match self.name {
                Some(name) => Some(name@),
                None => None,
            },
            required: self.required,
        }
    }
}

impl Shape {
    /// The mathematical value of the shape.
    pub open spec fn model(self) -> ShapeV
        decreases self,
    {
        ShapeV {
            head: self.head@,
            label: self.label@,
            kids: Seq::new(
                self.kids@.len(),
                |i: int|
                    if 0 <= i < self.kids@.len() {
                        self.kids@[i].model()
                    } else {
                        arbitrary()
                    },
            ),
        }
    }
}

impl View for Shape {
    type V = ShapeV;

    open spec fn view(&self) -> ShapeV {
        self.model()
    }
}

/// The values of a sequence of shapes.
pub open spec fn models(shapes: Seq<Shape>) -> Seq<ShapeV> {
    Seq::new(shapes.len(), |i: int| shapes[i]@)
}

impl LabelV {
    /// The label of a place of which nothing is observed.
    pub open spec fn bare() -> LabelV {
        LabelV { name: None, required: None }
    }
}

impl ShapeV {
    /// A shape without nodes below it.
    pub open spec fn leaf(head: HeadV) -> ShapeV {
        ShapeV { head, label: LabelV::bare(), kids: Seq::empty() }
    }

    /// A shape with unlabelled head and the given nodes below it.
    pub open spec fn with_kids(head: HeadV, kids: Seq<ShapeV>) -> ShapeV {
        ShapeV { head, label: LabelV::bare(), kids }
    }

    /// The same shape under another label.
    pub open spec fn relabel(self, label: LabelV) -> ShapeV {
        ShapeV { head: self.head, label, kids: self.kids }
    }
}

/// The number of bits that tell `variants` variants apart.
pub open spec fn discriminant_bits(variants: nat) -> u8 {
    if variants <= 1 {
        0
    } else if variants <= 0x100 {
        8
    } else if variants <= 0x1_0000 {
        16
    } else {
        32
    }
}

/// What a strategy observes of a record field: its name unless names are
/// erased, and whether it is required where that is told apart.
pub open spec fn field_label(strategy: Strategy, field: Field) -> LabelV {
    LabelV {
        name: if strategy.sees_names() {
            Some(field.name@)
        } else {
            None
        },
        required: if strategy.sees_optionality() {
            Some(!field.optional)
        } else {
            None
        },
    }
}

/// What a strategy observes of a variant: its name unless names are erased.
pub open spec fn variant_label(strategy: Strategy, variant: Variant) -> LabelV {
    LabelV {
        name: if strategy.sees_names() {
            Some(variant.name@)
        } else {
            None
        },
        required: None,
    }
}

/// The head of a tag union of `variants` variants under a strategy.
pub open spec fn union_head(strategy: Strategy, variants: nat) -> HeadV {
    HeadV::TagUnion {
        bits: if strategy.sees_discriminant() {
            discriminant_bits(variants)
        } else {
            0
        },
    }
}

/// The first place of `node` on the path.
pub open spec fn position(path: Seq<TypeId>, node: TypeId) -> Option<int>
    decreases path.len(),
{
    if path.len() == 0 {
        None
    } else {
        match position(path.drop_last(), node) {
            Some(i) => Some(i),
            None => if path.last() == node {
                Some(path.len() - 1)
            } else {
                None
            },
        }
    }
}

/// A path names types of the graph, and none of them twice.
pub open spec fn path_ok(graph: Seq<TypeNode>, path: Seq<TypeId>) -> bool {
    &&& path.no_duplicates()
    &&& forall|i: int| 0 <= i < path.len() ==> path[i] < graph.len()
}

/// The shape of `node` under `strategy`, met while the types on `path` are
/// being entered, outermost first.
///
/// A path as long as the graph has no room for another type. Normalization
/// keeps no type twice on its path and never gets there; the case only makes
/// the definition well founded.
pub open spec fn shape_at(
    graph: Seq<TypeNode>,
    strategy: Strategy,
    node: TypeId,
    path: Seq<TypeId>,
) -> ShapeV
    decreases graph.len() - path.len(), 0nat,
{
    match resolved(graph, node) {
        None => ShapeV::leaf(HeadV::Unresolved),
        Some(r) => match position(path, r) {
            Some(i) => ShapeV::leaf(HeadV::BackRef { depth: (path.len() - 1 - i) as nat }),
            None => if path.len() >= graph.len() {
                ShapeV::leaf(HeadV::Unresolved)
            } else {
                let inner = path.push(r);
                match graph[r as int] {
                    TypeNode::Number => ShapeV::leaf(HeadV::Number),
                    TypeNode::Text => ShapeV::leaf(HeadV::Text),
                    TypeNode::Boolean => ShapeV::leaf(HeadV::Boolean),
                    TypeNode::ListOf(elem) => ShapeV::with_kids(
                        HeadV::ListOf,
                        seq![shape_at(graph, strategy, elem, inner)],
                    ),
                    TypeNode::SetOf(elem) => ShapeV::with_kids(
                        HeadV::SetOf,
                        seq![shape_at(graph, strategy, elem, inner)],
                    ),
                    TypeNode::DictOf(key, value) => ShapeV::with_kids(
                        HeadV::DictOf,
                        seq![
                            shape_at(graph, strategy, key, inner),
                            shape_at(graph, strategy, value, inner),
                        ],
                    ),
                    TypeNode::Function(_, _) => ShapeV::leaf(HeadV::Function),
                    TypeNode::Record(fields) => ShapeV::with_kids(
                        HeadV::Record,
                        Seq::new(
                            fields@.len(),
                            |i: int|
                                shape_at(graph, strategy, fields@[i].ty, inner).relabel(
                                    field_label(strategy, fields@[i]),
                                ),
                        ),
                    ),
                    TypeNode::TagUnion(variants) => ShapeV::with_kids(
                        union_head(strategy, variants@.len()),
                        Seq::new(
                            variants@.len(),
                            |i: int|
                                ShapeV {
                                    head: HeadV::Variant,
                                    label: variant_label(strategy, variants@[i]),
                                    kids: shapes_at(graph, strategy, variants@[i].payload@, inner),
                                },
                        ),
                    ),
                    TypeNode::Alias(_, _) => ShapeV::leaf(HeadV::Unresolved),
                    TypeNode::Apply(ctor, args) => ShapeV::with_kids(
                        HeadV::Apply { ctor: ctor@ },
                        shapes_at(graph, strategy, args@, inner),
                    ),
                }
            },
        },
    }
}

/// The shapes of several types met on the same path.
pub open spec fn shapes_at(
    graph: Seq<TypeNode>,
    strategy: Strategy,
    nodes: Seq<TypeId>,
    path: Seq<TypeId>,
) -> Seq<ShapeV>
    decreases graph.len() - path.len(), 1nat,
{
    Seq::new(nodes.len(), |i: int| shape_at(graph, strategy, nodes[i], path))
}

/// The shape of a type under a strategy.
pub open spec fn shape_of(graph: Seq<TypeNode>, strategy: Strategy, node: TypeId) -> ShapeV {
    shape_at(graph, strategy, node, Seq::empty())
}

/// Whether abilities can be derived for `node`, met while the types on
/// `path` are being entered: the type resolves, it is no function, and the
/// same holds of every type nested in it that is not already on the path.
pub open spec fn derivable_at(graph: Seq<TypeNode>, node: TypeId, path: Seq<TypeId>) -> bool
    decreases graph.len() - path.len(),
{
    match resolved(graph, node) {
        None => false,
        Some(r) => path.contains(r) || {
            &&& path.len() < graph.len()
            &&& !(graph[r as int] is Function)
            &&& forall|i: int|
                0 <= i < graph[r as int].kids_of().len() ==> derivable_at(
                    graph,
                    #[trigger] graph[r as int].kids_of()[i],
                    path.push(r),
                )
        },
    }
}

/// Whether abilities can be derived for a type: neither the type nor any
/// type nested in it, however deep, is a function or fails to resolve.
pub open spec fn derivable(graph: Seq<TypeNode>, node: TypeId) -> bool {
    derivable_at(graph, node, Seq::empty())
}

/// `position` finds a type exactly where the path holds it.
pub proof fn lemma_position(path: Seq<TypeId>, node: TypeId)
    ensures
        position(path, node) is Some <==> path.contains(node),
        position(path, node) matches Some(i) ==> 0 <= i < path.len() && path[i] == node,
    decreases path.len(),
{
    if path.len() > 0 {
        let front = path.drop_last();
        lemma_position(front, node);
        if front.contains(node) {
            let i = choose|i: int| 0 <= i < front.len() && front[i] == node;
            assert(path[i] == node);
        }
        if path.contains(node) && !front.contains(node) {
            let i = choose|i: int| 0 <= i < path.len() && path[i] == node;
            if i < front.len() {
                assert(front[i] == node);
            }
        }
        if path.last() == node {
            assert(path[path.len() - 1] == node);
        }
    }
}

/// A place that is found in the front of a path is the place in the whole
/// path.
proof fn lemma_position_prefix(path: Seq<TypeId>, node: TypeId, k: int)
    requires
        0 <= k <= path.len(),
        position(path.take(k), node) is Some,
    ensures
        position(path, node) == position(path.take(k), node),
    decreases path.len() - k,
{
    if k == path.len() {
        assert(path.take(k) =~= path);
    } else {
        assert(path.take(k + 1).drop_last() =~= path.take(k));
        lemma_position_prefix(path, node, k + 1);
    }
}

/// A sequence of distinct numbers below `bound` is no longer than `bound`.
pub proof fn lemma_distinct_below(path: Seq<TypeId>, bound: nat)
    requires
        path.no_duplicates(),
        forall|i: int| 0 <= i < path.len() ==> path[i] < bound,
    ensures
        path.len() <= bound,
    decreases bound,
{
    if path.len() > 0 {
        if bound == 0 {
            assert(path[0] < bound);
        } else {
            let top = (bound - 1) as nat;
            if exists|i: int| 0 <= i < path.len() && path[i] == top {
                let i = choose|i: int| 0 <= i < path.len() && path[i] == top;
                let rest = path.remove(i);
                assert forall|k: int| 0 <= k < rest.len() implies rest[k] < top by {
                    if k < i {
                        assert(rest[k] == path[k]);
                    } else {
                        assert(rest[k] == path[k + 1]);
                    }
                }
                assert forall|a: int, b: int| 0 <= a < rest.len() && 0 <= b < rest.len() && a != b
                    implies rest[a] != rest[b] by {
                    let a2 = if a < i { a } else { a + 1 };
                    let b2 = if b < i { b } else { b + 1 };
                    assert(rest[a] == path[a2]);
                    assert(rest[b] == path[b2]);
                }
                lemma_distinct_below(rest, top);
            } else {
                lemma_distinct_below(path, top);
            }
        }
    }
}

/// A path that lacks a type of the graph can take it in and stays a path.
pub proof fn lemma_path_grows(graph: Seq<TypeNode>, path: Seq<TypeId>, node: TypeId)
    requires
        path_ok(graph, path),
        node < graph.len(),
        !path.contains(node),
    ensures
        path_ok(graph, path.push(node)),
        path.len() < graph.len(),
{
    let longer = path.push(node);
    assert forall|a: int, b: int| 0 <= a < longer.len() && 0 <= b < longer.len() && a != b
        implies longer[a] != longer[b] by {
        if a < path.len() && b < path.len() {
        } else if a < path.len() {
            assert(path.contains(path[a]));
        } else {
            assert(path.contains(path[b]));
        }
    }
    lemma_distinct_below(longer, graph.len());
}

/// A property holds of every payload type of a tag union exactly if it
/// holds of every payload position of every variant.
pub proof fn lemma_payloads_all(variants: Seq<Variant>, holds: spec_fn(TypeId) -> bool)
    ensures
        (forall|k: int| 0 <= k < payloads_of(variants).len() ==> holds(#[trigger] payloads_of(variants)[k]))
            <==> (forall|i: int, j: int|
            0 <= i < variants.len() && 0 <= j < variants[i].payload@.len() ==> holds(
                #[trigger] variants[i].payload@[j],
            )),
    decreases variants.len(),
{
    if variants.len() > 0 {
        let front = variants.drop_last();
        let last = variants.last();
        let all = payloads_of(variants);
        let before = payloads_of(front);
        lemma_payloads_all(front, holds);
        if forall|k: int| 0 <= k < all.len() ==> holds(#[trigger] all[k]) {
            assert forall|i: int, j: int|
                0 <= i < variants.len() && 0 <= j < variants[i].payload@.len() implies holds(
                #[trigger] variants[i].payload@[j],
            ) by {
                if i < front.len() {
                    assert forall|k: int| 0 <= k < before.len() implies holds(
                        #[trigger] before[k],
                    ) by {
                        assert(all[k] == before[k]);
                    }
                    assert(front[i] == variants[i]);
                } else {
                    assert(all[before.len() + j] == last.payload@[j]);
                }
            }
        }
        if forall|i: int, j: int|
            0 <= i < variants.len() && 0 <= j < variants[i].payload@.len() ==> holds(
                #[trigger] variants[i].payload@[j],
            ) {
            assert forall|k: int| 0 <= k < all.len() implies holds(#[trigger] all[k]) by {
                if k < before.len() {
                    assert forall|i: int, j: int|
                        0 <= i < front.len() && 0 <= j < front[i].payload@.len() implies holds(
                        #[trigger] front[i].payload@[j],
                    ) by {
                        assert(front[i] == variants[i]);
                    }
                    assert(all[k] == before[k]);
                } else {
                    assert(all[k] == last.payload@[k - before.len()]);
                    assert(variants[variants.len() - 1] == last);
                }
            }
        }
    }
}

/// Whether abilities can be derived for a type depends on the type only
/// through what it resolves to.
pub proof fn lemma_derivable_by_resolved(
    graph: Seq<TypeNode>,
    node: TypeId,
    other: TypeId,
    path: Seq<TypeId>,
)
    requires
        resolved(graph, node) == resolved(graph, other),
    ensures
        derivable_at(graph, node, path) == derivable_at(graph, other, path),
        forall|strategy: Strategy|
            shape_at(graph, strategy, node, path) == #[trigger] shape_at(
                graph,
                strategy,
                other,
                path,
            ),
{
}

/// A type that is derivable on a path is derivable on every path that holds
/// at least the same types: a longer path only keeps more types from being
/// entered.
pub proof fn lemma_derivable_widens(
    graph: Seq<TypeNode>,
    node: TypeId,
    path: Seq<TypeId>,
    wider: Seq<TypeId>,
)
    requires
        path_ok(graph, wider),
        forall|x: TypeId| path.contains(x) ==> wider.contains(x),
        derivable_at(graph, node, path),
    ensures
        derivable_at(graph, node, wider),
    decreases graph.len() - wider.len(),
{
    let r = resolved(graph, node).unwrap();
    lemma_resolved_is_structural(graph, node, graph.len());
    if !wider.contains(r) {
        lemma_path_grows(graph, wider, r);
        let kids = graph[r as int].kids_of();
        assert forall|i: int| 0 <= i < kids.len() implies derivable_at(
            graph,
            #[trigger] kids[i],
            wider.push(r),
        ) by {
            assert forall|x: TypeId| path.push(r).contains(x) implies wider.push(r).contains(
                x,
            ) by {
                lemma_push_contains(path, r, x);
                lemma_push_contains(wider, r, x);
            }
            lemma_derivable_widens(graph, kids[i], path.push(r), wider.push(r));
        }
    }
}

/// What a path holds once another type is taken in.
pub proof fn lemma_push_contains(path: Seq<TypeId>, last: TypeId, x: TypeId)
    ensures
        path.push(last).contains(x) <==> (path.contains(x) || x == last),
{
    let longer = path.push(last);
    if path.contains(x) {
        let i = choose|i: int| 0 <= i < path.len() && path[i] == x;
        assert(longer[i] == x);
    }
    if x == last {
        assert(longer[path.len() as int] == x);
    }
    if longer.contains(x) {
        let i = choose|i: int| 0 <= i < longer.len() && longer[i] == x;
        if i < path.len() {
            assert(path[i] == x);
        }
    }
}

/// A type that is derivable inside a derivable type is derivable outside
/// it too: `inside` can be dropped from the path where abilities can be
/// derived for `inside` itself.
pub proof fn lemma_derivable_narrows(
    graph: Seq<TypeNode>,
    node: TypeId,
    path: Seq<TypeId>,
    inside: TypeId,
    origin: Seq<TypeId>,
)
    requires
        path_ok(graph, path),
        resolved(graph, inside) == Some(inside),
        !path.contains(inside),
        forall|x: TypeId| origin.contains(x) ==> path.contains(x),
        derivable_at(graph, inside, origin),
        derivable_at(graph, node, path.push(inside)),
    ensures
        derivable_at(graph, node, path),
    decreases graph.len() - path.len(),
{
    let m = resolved(graph, node).unwrap();
    lemma_resolved_is_structural(graph, node, graph.len());
    lemma_resolved_is_structural(graph, inside, graph.len());
    lemma_push_contains(path, inside, m);
    if m == inside {
        lemma_derivable_widens(graph, inside, origin, path);
        lemma_derivable_by_resolved(graph, node, inside, path);
    } else if !path.contains(m) {
        lemma_path_grows(graph, path, inside);
        lemma_path_grows(graph, path, m);
        let around = path.push(m);
        lemma_push_contains(path, m, inside);
        lemma_path_grows(graph, around, inside);
        let kids = graph[m as int].kids_of();
        assert forall|i: int| 0 <= i < kids.len() implies derivable_at(
            graph,
            #[trigger] kids[i],
            around,
        ) by {
            assert(derivable_at(graph, kids[i], path.push(inside).push(m)));
            assert forall|x: TypeId| path.push(inside).push(m).contains(x) implies around.push(
                inside,
            ).contains(x) by {
                lemma_push_contains(path.push(inside), m, x);
                lemma_push_contains(path, inside, x);
                lemma_push_contains(around, inside, x);
                lemma_push_contains(path, m, x);
            }
            lemma_derivable_widens(
                graph,
                kids[i],
                path.push(inside).push(m),
                around.push(inside),
            );
            assert forall|x: TypeId| origin.contains(x) implies around.contains(x) by {
                lemma_push_contains(path, m, x);
            }
            lemma_derivable_narrows(graph, kids[i], around, inside, origin);
        }
    }
}

/// Where abilities can be derived for a type, they can be derived for every
/// type nested in it.
pub proof fn lemma_kids_are_derivable(graph: Seq<TypeNode>, node: TypeId, i: int)
    requires
        derivable(graph, node),
        0 <= i < graph[resolved(graph, node).unwrap() as int].kids_of().len(),
    ensures
        derivable(graph, graph[resolved(graph, node).unwrap() as int].kids_of()[i]),
{
    let r = resolved(graph, node).unwrap();
    let none = Seq::<TypeId>::empty();
    let kid = graph[r as int].kids_of()[i];
    lemma_resolved_is_structural(graph, node, graph.len());
    lemma_derivable_by_resolved(graph, node, r, none);
    assert(derivable_at(graph, kid, none.push(r)));
    lemma_derivable_narrows(graph, kid, none, r, none);
}

/// Whether two fields are the same as far as a strategy observes: they
/// have the same type, the same name where names are observed, and are both
/// required or both optional where that is told apart.
pub open spec fn fields_agree(strategy: Strategy, a: Field, b: Field) -> bool {
    &&& a.ty == b.ty
    &&& strategy.sees_names() ==> a.name@ == b.name@
    &&& strategy.sees_optionality() ==> a.optional == b.optional
}

/// Whether two variants are the same as far as a strategy observes: they
/// have the same payload, and the same name where names are observed.
pub open spec fn variants_agree(strategy: Strategy, a: Variant, b: Variant) -> bool {
    &&& a.payload@ == b.payload@
    &&& strategy.sees_names() ==> a.name@ == b.name@
}

/// Whether two types are the same as far as a strategy observes, the types
/// nested in them left aside. The name of an alias is never observed.
pub open spec fn nodes_agree(strategy: Strategy, a: TypeNode, b: TypeNode) -> bool {
    match (a, b) {
        (TypeNode::Number, TypeNode::Number) => true,
        (TypeNode::Text, TypeNode::Text) => true,
        (TypeNode::Boolean, TypeNode::Boolean) => true,
        (TypeNode::ListOf(x), TypeNode::ListOf(y)) => x == y,
        (TypeNode::SetOf(x), TypeNode::SetOf(y)) => x == y,
        (TypeNode::DictOf(k, v), TypeNode::DictOf(l, w)) => k == l && v == w,
        (TypeNode::Function(_, _), TypeNode::Function(_, _)) => true,
        (TypeNode::Record(fields), TypeNode::Record(others)) => {
            &&& fields@.len() == others@.len()
            &&& forall|i: int|
                0 <= i < fields@.len() ==> fields_agree(strategy, #[trigger] fields@[i], others@[i])
        },
        (TypeNode::TagUnion(variants), TypeNode::TagUnion(others)) => {
            &&& variants@.len() == others@.len()
            &&& forall|i: int|
                0 <= i < variants@.len() ==> variants_agree(
                    strategy,
                    #[trigger] variants@[i],
                    others@[i],
                )
        },
        (TypeNode::Alias(_, x), TypeNode::Alias(_, y)) => x == y,
        (TypeNode::Apply(ctor, args), TypeNode::Apply(other, others)) => ctor@ == other@ && args@
            == others@,
        _ => false,
    }
}

/// Whether two graphs hold, place by place, types that are the same as far
/// as a strategy observes.
pub open spec fn graphs_agree(strategy: Strategy, a: Seq<TypeNode>, b: Seq<TypeNode>) -> bool {
    &&& a.len() == b.len()
    &&& forall|i: int| 0 <= i < a.len() ==> nodes_agree(strategy, #[trigger] a[i], b[i])
}

/// Decoding observes everything that encoding observes, and encoding
/// everything that layout equivalence observes: graphs that are the same to
/// decoding are the same to encoding, and graphs that are the same to
/// encoding are the same to layout equivalence.
pub proof fn lemma_strategies_refine(a: Seq<TypeNode>, b: Seq<TypeNode>)
    ensures
        graphs_agree(Strategy::Decoding, a, b) ==> graphs_agree(Strategy::Encoding, a, b),
        graphs_agree(Strategy::Encoding, a, b) ==> graphs_agree(Strategy::LayoutEquivalence, a, b),
{
    if graphs_agree(Strategy::Decoding, a, b) {
        assert forall|i: int| 0 <= i < a.len() implies nodes_agree(
            Strategy::Encoding,
            #[trigger] a[i],
            b[i],
        ) by {
            lemma_nodes_refine(Strategy::Decoding, Strategy::Encoding, a[i], b[i]);
        }
    }
    if graphs_agree(Strategy::Encoding, a, b) {
        assert forall|i: int| 0 <= i < a.len() implies nodes_agree(
            Strategy::LayoutEquivalence,
            #[trigger] a[i],
            b[i],
        ) by {
            lemma_nodes_refine(Strategy::Encoding, Strategy::LayoutEquivalence, a[i], b[i]);
        }
    }
}

/// Types that are the same to a strategy are the same to every strategy
/// that observes no more.
proof fn lemma_nodes_refine(finer: Strategy, coarser: Strategy, a: TypeNode, b: TypeNode)
    requires
        nodes_agree(finer, a, b),
        coarser.sees_names() ==> finer.sees_names(),
        coarser.sees_optionality() ==> finer.sees_optionality(),
    ensures
        nodes_agree(coarser, a, b),
{
    match (a, b) {
        (TypeNode::Record(fields), TypeNode::Record(others)) => {
            assert forall|i: int| 0 <= i < fields@.len() implies fields_agree(
                coarser,
                #[trigger] fields@[i],
                others@[i],
            ) by {
                assert(fields_agree(finer, fields@[i], others@[i]));
            }
        },
        (TypeNode::TagUnion(variants), TypeNode::TagUnion(others)) => {
            assert forall|i: int| 0 <= i < variants@.len() implies variants_agree(
                coarser,
                #[trigger] variants@[i],
                others@[i],
            ) by {
                assert(variants_agree(finer, variants@[i], others@[i]));
            }
        },
        _ => {},
    }
}

/// Graphs that agree resolve every type to the same place.
proof fn lemma_resolve_agrees(
    strategy: Strategy,
    a: Seq<TypeNode>,
    b: Seq<TypeNode>,
    node: TypeId,
    fuel: nat,
)
    requires
        graphs_agree(strategy, a, b),
    ensures
        crate::type_graph::resolve_in(a, node, fuel) == crate::type_graph::resolve_in(
            b,
            node,
            fuel,
        ),
    decreases fuel,
{
    if node < a.len() {
        assert(nodes_agree(strategy, a[node as int], b[node as int]));
        match a[node as int] {
            TypeNode::Alias(_, target) => {
                if fuel > 0 {
                    lemma_resolve_agrees(strategy, a, b, target, (fuel - 1) as nat);
                }
            },
            _ => {},
        }
    }
}

/// A strategy is no more discriminating than its table of features says:
/// two graphs that differ only in what the strategy ignores give every type
/// the same shape. Under layout equivalence the names of fields and
/// variants and the optionality of fields can be changed at will, under
/// encoding the optionality of fields, and under every strategy the names
/// of aliases.
pub proof fn lemma_shape_ignores_the_unobserved(
    strategy: Strategy,
    a: Seq<TypeNode>,
    b: Seq<TypeNode>,
    node: TypeId,
    path: Seq<TypeId>,
)
    requires
        graphs_agree(strategy, a, b),
    ensures
        shape_at(a, strategy, node, path) == shape_at(b, strategy, node, path),
    decreases a.len() - path.len(),
{
    lemma_resolve_agrees(strategy, a, b, node, a.len());
    lemma_resolved_is_structural(a, node, a.len());
    match resolved(a, node) {
        None => {},
        Some(r) => {
            if position(path, r) is None && path.len() < a.len() {
                let inner = path.push(r);
                assert(nodes_agree(strategy, a[r as int], b[r as int]));
                let left = shape_at(a, strategy, node, path);
                let right = shape_at(b, strategy, node, path);
                match (a[r as int], b[r as int]) {
                    (TypeNode::ListOf(x), TypeNode::ListOf(_)) => {
                        lemma_shape_ignores_the_unobserved(strategy, a, b, x, inner);
                    },
                    (TypeNode::SetOf(x), TypeNode::SetOf(_)) => {
                        lemma_shape_ignores_the_unobserved(strategy, a, b, x, inner);
                    },
                    (TypeNode::DictOf(k, v), TypeNode::DictOf(_, _)) => {
                        lemma_shape_ignores_the_unobserved(strategy, a, b, k, inner);
                        lemma_shape_ignores_the_unobserved(strategy, a, b, v, inner);
                    },
                    (TypeNode::Record(fields), TypeNode::Record(others)) => {
                        assert forall|i: int| 0 <= i < fields@.len() implies left.kids[i]
                            == right.kids[i] by {
                            assert(fields_agree(strategy, fields@[i], others@[i]));
                            lemma_shape_ignores_the_unobserved(
                                strategy,
                                a,
                                b,
                                fields@[i].ty,
                                inner,
                            );
                        }
                        assert(left.kids =~= right.kids);
                    },
                    (TypeNode::TagUnion(variants), TypeNode::TagUnion(others)) => {
                        assert forall|i: int| 0 <= i < variants@.len() implies left.kids[i]
                            == right.kids[i] by {
                            assert(variants_agree(strategy, variants@[i], others@[i]));
                            let payload = variants@[i].payload@;
                            assert forall|j: int| 0 <= j < payload.len() implies shape_at(
                                a,
                                strategy,
                                payload[j],
                                inner,
                            ) == shape_at(b, strategy, payload[j], inner) by {
                                lemma_shape_ignores_the_unobserved(
                                    strategy,
                                    a,
                                    b,
                                    payload[j],
                                    inner,
                                );
                            }
                            assert(shapes_at(a, strategy, payload, inner) =~= shapes_at(
                                b,
                                strategy,
                                payload,
                                inner,
                            ));
                        }
                        assert(left.kids =~= right.kids);
                    },
                    (TypeNode::Apply(_, args), TypeNode::Apply(_, _)) => {
                        assert forall|j: int| 0 <= j < args@.len() implies shape_at(
                            a,
                            strategy,
                            args@[j],
                            inner,
                        ) == shape_at(b, strategy, args@[j], inner) by {
                            lemma_shape_ignores_the_unobserved(strategy, a, b, args@[j], inner);
                        }
                        assert(shapes_at(a, strategy, args@, inner) =~= shapes_at(
                            b,
                            strategy,
                            args@,
                            inner,
                        ));
                    },
                    _ => {},
                }
            }
        },
    }
}

/// A strategy is as discriminating as its table of features says: where
/// two records have the same shape under a strategy, they have the same
/// number of fields, and field by field the same names where the strategy
/// observes names and the same optionality where it tells that apart.
pub proof fn lemma_shape_tells_the_observed(
    strategy: Strategy,
    a: Seq<TypeNode>,
    node: TypeId,
    b: Seq<TypeNode>,
    other: TypeId,
)
    requires
        node < a.len(),
        other < b.len(),
        a[node as int] is Record,
        b[other as int] is Record,
        shape_of(a, strategy, node) == shape_of(b, strategy, other),
    ensures
        a[node as int]->Record_0@.len() == b[other as int]->Record_0@.len(),
        forall|i: int|
            0 <= i < a[node as int]->Record_0@.len() ==> {
                let field = #[trigger] a[node as int]->Record_0@[i];
                let twin = b[other as int]->Record_0@[i];
                &&& strategy.sees_names() ==> field.name@ == twin.name@
                &&& strategy.sees_optionality() ==> field.optional == twin.optional
            },
{
    let left = shape_of(a, strategy, node);
    let right = shape_of(b, strategy, other);
    let fields = a[node as int]->Record_0@;
    let others = b[other as int]->Record_0@;
    assert(left.kids.len() == fields.len());
    assert(right.kids.len() == others.len());
    assert forall|i: int| 0 <= i < fields.len() implies {
        let field = #[trigger] fields[i];
        let twin = others[i];
        &&& strategy.sees_names() ==> field.name@ == twin.name@
        &&& strategy.sees_optionality() ==> field.optional == twin.optional
    } by {
        assert(left.kids[i].label == field_label(strategy, fields[i]));
        assert(right.kids[i].label == field_label(strategy, others[i]));
    }
}

/// The number of bits that tell `variants` variants apart.
pub fn discriminant_width(variants: usize) -> (bits: u8)
    ensures
        bits == discriminant_bits(variants as nat),
{
    if variants <= 1 {
        0
    } else if variants <= 0x100 {
        8
    } else if variants <= 0x1_0000 {
        16
    } else {
        32
    }
}

/// The label of a place of which nothing is observed.
fn bare_label() -> (label: Label)
    ensures
        label@ == LabelV::bare(),
{
    Label { name: None, required: None }
}

/// What a strategy observes of a record field.
fn label_of_field(strategy: Strategy, field: &Field) -> (label: Label)
    ensures
        label@ == field_label(strategy, *field),
{
    let name = if strategy.observes_names() {
        Some(field.name.clone())
    } else {
        None
    };
    let required = if strategy.observes_optionality() {
        Some(!field.optional)
    } else {
        None
    };
    Label { name, required }
}

/// What a strategy observes of a variant.
fn label_of_variant(strategy: Strategy, variant: &Variant) -> (label: Label)
    ensures
        label@ == variant_label(strategy, *variant),
{
    let name = if strategy.observes_names() {
        Some(variant.name.clone())
    } else {
        None
    };
    Label { name, required: None }
}

/// A shape without nodes below it.
fn leaf(head: Head) -> (shape: Shape)
    ensures
        shape@ == ShapeV::leaf(head@),
{
    let shape = Shape { head, label: bare_label(), kids: Vec::new() };
    assert(shape@.kids =~= Seq::<ShapeV>::empty());
    shape
}

/// A shape with unlabelled head and the given nodes below it.
fn with_kids(head: Head, kids: Vec<Shape>) -> (shape: Shape)
    ensures
        shape@ == ShapeV::with_kids(head@, models(kids@)),
{
    let shape = Shape { head, label: bare_label(), kids };
    assert(shape@.kids =~= models(kids@));
    shape
}

/// The first place of `node` on the path.
fn locate(path: &Vec<TypeId>, node: TypeId) -> (place: Option<usize>)
    ensures
        match place {
            Some(i) => position(path@, node) == Some(i as int),
            None => position(path@, node) is None,
        },
{
    let mut i: usize = 0;
    while i < path.len()
        invariant
            i <= path@.len(),
            position(path@.take(i as int), node) is None,
        decreases path@.len() - i,
    {
        assert(path@.take(i as int + 1).drop_last() =~= path@.take(i as int));
        if path[i] == node {
            proof {
                lemma_position_prefix(path@, node, i as int + 1);
            }
            return Some(i);
        }
        i += 1;
    }
    assert(path@.take(i as int) =~= path@);
    None
}

/// The shape of `node`, met inside the types on `path`.
#[verifier::loop_isolation(false)]
fn normalize_at(
    graph: &TypeGraph,
    strategy: Strategy,
    node: TypeId,
    path: &mut Vec<TypeId>,
) -> (r: Result<Shape, DeriveError>)
    requires
        path_ok(graph@, old(path)@),
    ensures
        final(path)@ == old(path)@,
        r is Ok <==> derivable_at(graph@, node, old(path)@),
        r matches Ok(shape) ==> shape@ == shape_at(graph@, strategy, node, old(path)@),
    decreases graph@.len() - old(path)@.len(), 0nat,
{
    let r: usize = match graph.resolve(node) {
        None => {
            return Err(DeriveError::Incompatible);
        },
        Some(r) => r,
    };
    proof {
        lemma_resolved_is_structural(graph@, node, graph@.len());
        lemma_position(path@, r);
    }
    match locate(path, r) {
        Some(i) => {
            let depth: usize = path.len() - 1 - i;
            return Ok(leaf(Head::BackRef { depth }));
        },
        None => {},
    }
    proof {
        lemma_path_grows(graph@, path@, r);
    }
    let ghost outer = path@;
    let ghost inner = path@.push(r);
    let ghost kid_ids = graph@[r as int].kids_of();
    path.push(r);
    match &graph.nodes[r] {
        TypeNode::Number => {
            path.pop();
            assert(path@ =~= outer);
            Ok(leaf(Head::Number))
        },
        TypeNode::Text => {
            path.pop();
            assert(path@ =~= outer);
            Ok(leaf(Head::Text))
        },
        TypeNode::Boolean => {
            path.pop();
            assert(path@ =~= outer);
            Ok(leaf(Head::Boolean))
        },
        TypeNode::ListOf(elem) => {
            let kid = normalize_at(graph, strategy, *elem, path);
            path.pop();
            assert(path@ =~= outer);
            assert(kid_ids[0] == *elem);
            match kid {
                Ok(kid) => {
                    let mut kids: Vec<Shape> = Vec::new();
                    kids.push(kid);
                    assert(models(kids@) =~= seq![shape_at(graph@, strategy, *elem, inner)]);
                    let shape = with_kids(Head::ListOf, kids);
                    Ok(shape)
                },
                Err(e) => Err(e),
            }
        },
        TypeNode::SetOf(elem) => {
            let kid = normalize_at(graph, strategy, *elem, path);
            path.pop();
            assert(path@ =~= outer);
            assert(kid_ids[0] == *elem);
            match kid {
                Ok(kid) => {
                    let mut kids: Vec<Shape> = Vec::new();
                    kids.push(kid);
                    assert(models(kids@) =~= seq![shape_at(graph@, strategy, *elem, inner)]);
                    let shape = with_kids(Head::SetOf, kids);
                    Ok(shape)
                },
                Err(e) => Err(e),
            }
        },
        TypeNode::DictOf(key, value) => {
            let first = normalize_at(graph, strategy, *key, path);
            let second = normalize_at(graph, strategy, *value, path);
            path.pop();
            assert(path@ =~= outer);
            assert(kid_ids[0] == *key);
            assert(kid_ids[1] == *value);
            match (first, second) {
                (Ok(first), Ok(second)) => {
                    let mut kids: Vec<Shape> = Vec::new();
                    kids.push(first);
                    kids.push(second);
                    assert(models(kids@) =~= seq![
                        shape_at(graph@, strategy, *key, inner),
                        shape_at(graph@, strategy, *value, inner),
                    ]);
                    let shape = with_kids(Head::DictOf, kids);
                    Ok(shape)
                },
                _ => Err(DeriveError::Incompatible),
            }
        },
        TypeNode::Function(_, _) => {
            path.pop();
            assert(path@ =~= outer);
            Err(DeriveError::Incompatible)
        },
        TypeNode::Record(fields) => {
            let mut kids: Vec<Shape> = Vec::new();
            let mut i: usize = 0;
            while i < fields.len()
                invariant
                    i <= fields@.len(),
                    path@ == inner,
                    inner == outer.push(r),
                    outer == old(path)@,
                    outer.len() < graph@.len(),
                    path_ok(graph@, inner),
                    kids@.len() == i,
                    kid_ids == Seq::new(fields@.len(), |k: int| fields@[k].ty),
                    forall|k: int| 0 <= k < i ==> derivable_at(graph@, #[trigger] kid_ids[k], inner),
                    forall|k: int|
                        0 <= k < i ==> (#[trigger] kids@[k])@ == shape_at(
                            graph@,
                            strategy,
                            fields@[k].ty,
                            inner,
                        ).relabel(field_label(strategy, fields@[k])),
                decreases fields@.len() - i,
            {
                match normalize_at(graph, strategy, fields[i].ty, path) {
                    Ok(kid) => {
                        let mut kid = kid;
                        let ghost before = kid@;
                        kid.label = label_of_field(strategy, &fields[i]);
                        assert(kid@.kids =~= before.kids);
                        assert(kid@ == before.relabel(field_label(strategy, fields@[i as int])));
                        kids.push(kid);
                    },
                    Err(e) => {
                        path.pop();
                        assert(path@ =~= outer);
                        assert(kid_ids[i as int] == fields@[i as int].ty);
                        return Err(e);
                    },
                }
                assert(kid_ids[i as int] == fields@[i as int].ty);
                i += 1;
            }
            path.pop();
            assert(path@ =~= outer);
            assert(models(kids@) =~= Seq::new(
                fields@.len(),
                |k: int|
                    shape_at(graph@, strategy, fields@[k].ty, inner).relabel(
                        field_label(strategy, fields@[k]),
                    ),
            ));
            assert(shape_at(graph@, strategy, node, outer).kids =~= models(kids@));
            let shape = with_kids(Head::Record, kids);
            Ok(shape)
        },
        TypeNode::TagUnion(variants) => {
            let ghost fine = |id: TypeId| derivable_at(graph@, id, inner);
            proof {
                lemma_payloads_all(variants@, fine);
            }
            let mut kids: Vec<Shape> = Vec::new();
            let mut i: usize = 0;
            while i < variants.len()
                invariant
                    i <= variants@.len(),
                    path@ == inner,
                    inner == outer.push(r),
                    outer == old(path)@,
                    outer.len() < graph@.len(),
                    path_ok(graph@, inner),
                    kids@.len() == i,
                    fine == |id: TypeId| derivable_at(graph@, id, inner),
                    forall|k: int, j: int|
                        0 <= k < i && 0 <= j < variants@[k].payload@.len() ==> fine(
                            #[trigger] variants@[k].payload@[j],
                        ),
                    forall|k: int|
                        0 <= k < i ==> (#[trigger] kids@[k])@ == (ShapeV {
                            head: HeadV::Variant,
                            label: variant_label(strategy, variants@[k]),
                            kids: shapes_at(graph@, strategy, variants@[k].payload@, inner),
                        }),
                decreases variants@.len() - i,
            {
                match normalize_all(graph, strategy, &variants[i].payload, path) {
                    Ok(payload) => {
                        let kid = Shape {
                            head: Head::Variant,
                            label: label_of_variant(strategy, &variants[i]),
                            kids: payload,
                        };
                        assert(kid@.kids =~= models(payload@));
                        kids.push(kid);
                        assert forall|j: int| 0 <= j < variants@[i as int].payload@.len() implies fine(
                            #[trigger] variants@[i as int].payload@[j],
                        ) by {}
                    },
                    Err(e) => {
                        path.pop();
                        assert(path@ =~= outer);
                        let ghost j = choose|j: int|
                            0 <= j < variants@[i as int].payload@.len() && !derivable_at(
                                graph@,
                                #[trigger] variants@[i as int].payload@[j],
                                inner,
                            );
                        assert(!fine(variants@[i as int].payload@[j]));
                        let ghost k = choose|k: int|
                            0 <= k < kid_ids.len() && !fine(#[trigger] kid_ids[k]);
                        assert(!derivable_at(graph@, kid_ids[k], inner));
                        return Err(e);
                    },
                }
                i += 1;
            }
            path.pop();
            assert(path@ =~= outer);
            assert forall|k: int| 0 <= k < kid_ids.len() implies derivable_at(
                graph@,
                #[trigger] kid_ids[k],
                inner,
            ) by {
                assert(fine(kid_ids[k]));
            }
            assert(models(kids@) =~= Seq::new(
                variants@.len(),
                |k: int|
                    ShapeV {
                        head: HeadV::Variant,
                        label: variant_label(strategy, variants@[k]),
                        kids: shapes_at(graph@, strategy, variants@[k].payload@, inner),
                    },
            ));
            let bits: u8 = if strategy.observes_discriminant() {
                discriminant_width(variants.len())
            } else {
                0
            };
            assert(shape_at(graph@, strategy, node, outer).kids =~= models(kids@));
            let shape = with_kids(Head::TagUnion { bits }, kids);
            Ok(shape)
        },
        TypeNode::Alias(_, _) => {
            path.pop();
            assert(path@ =~= outer);
            Err(DeriveError::Incompatible)
        },
        TypeNode::Apply(ctor, args) => {
            let kids = normalize_all(graph, strategy, args, path);
            path.pop();
            assert(path@ =~= outer);
            match kids {
                Ok(kids) => Ok(with_kids(Head::Apply { ctor: ctor.clone() }, kids)),
                Err(e) => Err(e),
            }
        },
    }
}

/// The shapes of several types met inside the types on `path`.
fn normalize_all(
    graph: &TypeGraph,
    strategy: Strategy,
    nodes: &Vec<TypeId>,
    path: &mut Vec<TypeId>,
) -> (r: Result<Vec<Shape>, DeriveError>)
    requires
        path_ok(graph@, old(path)@),
    ensures
        final(path)@ == old(path)@,
        r is Ok <==> forall|i: int|
            0 <= i < nodes@.len() ==> derivable_at(graph@, #[trigger] nodes@[i], old(path)@),
        r matches Ok(shapes) ==> models(shapes@) == shapes_at(
            graph@,
            strategy,
            nodes@,
            old(path)@,
        ),
    decreases graph@.len() - old(path)@.len(), 1nat,
{
    let mut shapes: Vec<Shape> = Vec::new();
    let mut i: usize = 0;
    while i < nodes.len()
        invariant
            i <= nodes@.len(),
            path@ == old(path)@,
            path_ok(graph@, path@),
            shapes@.len() == i,
            forall|k: int| 0 <= k < i ==> derivable_at(graph@, #[trigger] nodes@[k], path@),
            forall|k: int|
                0 <= k < i ==> (#[trigger] shapes@[k])@ == shape_at(
                    graph@,
                    strategy,
                    nodes@[k],
                    path@,
                ),
        decreases nodes@.len() - i,
    {
        match normalize_at(graph, strategy, nodes[i], path) {
            Ok(shape) => {
                shapes.push(shape);
            },
            Err(e) => {
                return Err(e);
            },
        }
        i += 1;
    }
    assert(models(shapes@) =~= shapes_at(graph@, strategy, nodes@, path@));
    Ok(shapes)
}

/// Normalizes a type under a strategy.
///
/// The result is the shape of the type, or `Incompatible` where no ability
/// can be derived for the type, which is the case exactly if the type or a
/// type nested in it is a function or does not resolve.
pub fn normalize(graph: &TypeGraph, strategy: Strategy, node: TypeId) -> (r: Result<
    Shape,
    DeriveError,
>)
    ensures
        r is Ok <==> derivable(graph@, node),
        r matches Ok(shape) ==> shape@ == shape_of(graph@, strategy, node),
        r matches Err(e) ==> e == DeriveError::Incompatible,
{
    let mut path: Vec<TypeId> = Vec::new();
    assert(path@ =~= Seq::<TypeId>::empty());
    normalize_at(graph, strategy, node, &mut path)
}

} // verus!
