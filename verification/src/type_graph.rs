//! The resolved types that abilities are derived for, held in an arena and
//! addressed by index.
//!
//! A node refers to the types nested in it by their indices, so a type that
//! mentions itself is a cycle of indices. The graph is only ever read here:
//! it is filled before any ability is derived.

use vstd::prelude::*;

verus! {

/// The index of a type in its graph.
pub type TypeId = usize;

/// A named field of a record.
pub struct Field {
    pub name: String,
    /// Whether a value of the record may leave the field out.
    pub optional: bool,
    pub ty: TypeId,
}

/// A named variant of a tag union, with the types of its payload.
pub struct Variant {
    pub name: String,
    pub payload: Vec<TypeId>,
}

/// The structure that a type resolves to.
pub enum TypeNode {
    Number,
    Text,
    Boolean,
    ListOf(TypeId),
    SetOf(TypeId),
    DictOf(TypeId, TypeId),
    /// A function from the argument types to the result type.
    Function(Vec<TypeId>, TypeId),
    Record(Vec<Field>),
    TagUnion(Vec<Variant>),
    /// A name for another type, through which a type can mention itself.
    Alias(String, TypeId),
    /// A named type constructor applied to its arguments.
    Apply(String, Vec<TypeId>),
}

/// An arena of types.
pub struct TypeGraph {
    pub nodes: Vec<TypeNode>,
}

/// The payload types of all the variants, one variant after the other.
pub open spec fn payloads_of(variants: Seq<Variant>) -> Seq<TypeId>
    decreases variants.len(),
{
    if variants.len() == 0 {
        Seq::empty()
    } else {
        payloads_of(variants.drop_last()) + variants.last().payload@
    }
}

/// The number of payload positions in all the variants before the one at
/// `index`.
pub open spec fn payload_offset(variants: Seq<Variant>, index: int) -> nat
    decreases index,
{
    if index <= 0 {
        0
    } else {
        payload_offset(variants, index - 1) + variants[index - 1].payload@.len()
    }
}

impl TypeNode {
    /// The types nested in this one, in the order in which they are written.
    /// A function is not looked into.
    pub open spec fn kids_of(self) -> Seq<TypeId> {
        match self {
            TypeNode::Number | TypeNode::Text | TypeNode::Boolean => Seq::empty(),
            TypeNode::ListOf(elem) => seq![elem],
            TypeNode::SetOf(elem) => seq![elem],
            TypeNode::DictOf(key, value) => seq![key, value],
            TypeNode::Function(_, _) => Seq::empty(),
            TypeNode::Record(fields) => Seq::new(fields@.len(), |i: int| fields@[i].ty),
            TypeNode::TagUnion(variants) => payloads_of(variants@),
            TypeNode::Alias(_, target) => seq![target],
            TypeNode::Apply(_, args) => args@,
        }
    }

    /// The types nested in this one, in the order in which they are written.
    pub fn kids(&self) -> (list: Vec<TypeId>)
        ensures
            list@ == self.kids_of(),
    {
        let mut list: Vec<TypeId> = Vec::new();
        match self {
            TypeNode::Number | TypeNode::Text | TypeNode::Boolean => {},
            TypeNode::ListOf(elem) => {
                list.push(*elem);
            },
            TypeNode::SetOf(elem) => {
                list.push(*elem);
            },
            TypeNode::DictOf(key, value) => {
                list.push(*key);
                list.push(*value);
            },
            TypeNode::Function(_, _) => {},
            TypeNode::Record(fields) => {
                let mut i: usize = 0;
                while i < fields.len()
                    invariant
                        i <= fields@.len(),
                        list@ == Seq::new(i as nat, |k: int| fields@[k].ty),
                    decreases fields@.len() - i,
                {
                    list.push(fields[i].ty);
                    i += 1;
                    assert(list@ =~= Seq::new(i as nat, |k: int| fields@[k].ty));
                }
            },
            TypeNode::TagUnion(variants) => {
                let mut i: usize = 0;
                while i < variants.len()
                    invariant
                        i <= variants@.len(),
                        list@ == payloads_of(variants@.take(i as int)),
                    decreases variants@.len() - i,
                {
                    let payload = &variants[i].payload;
                    let mut j: usize = 0;
                    while j < payload.len()
                        invariant
                            j <= payload@.len(),
                            i < variants@.len(),
                            payload@ == variants@[i as int].payload@,
                            list@ == payloads_of(variants@.take(i as int)) + payload@.take(j as int),
                        decreases payload@.len() - j,
                    {
                        list.push(payload[j]);
                        assert(payload@.take(j as int + 1) =~= payload@.take(j as int).push(
                            payload@[j as int],
                        ));
                        j += 1;
                    }
                    assert(payload@.take(j as int) =~= payload@);
                    assert(variants@.take(i as int + 1).drop_last() =~= variants@.take(i as int));
                    i += 1;
                }
                assert(variants@.take(i as int) =~= variants@);
            },
            TypeNode::Alias(_, target) => {
                list.push(*target);
            },
            TypeNode::Apply(_, args) => {
                let mut i: usize = 0;
                while i < args.len()
                    invariant
                        i <= args@.len(),
                        list@ == args@.take(i as int),
                    decreases args@.len() - i,
                {
                    list.push(args[i]);
                    assert(args@.take(i as int + 1) =~= args@.take(i as int).push(args@[i as int]));
                    i += 1;
                }
                assert(args@.take(i as int) =~= args@);
            },
        }
        assert(list@ =~= self.kids_of());
        list
    }
}

/// Where following aliases from `node` ends, if it ends at a type of the
/// graph within `fuel` steps.
pub open spec fn resolve_in(graph: Seq<TypeNode>, node: TypeId, fuel: nat) -> Option<TypeId>
    decreases fuel,
{
    if node >= graph.len() {
        None
    } else {
        match graph[node as int] {
            TypeNode::Alias(_, target) => if fuel == 0 {
                None
            } else {
                resolve_in(graph, target, (fuel - 1) as nat)
            },
            _ => Some(node),
        }
    }
}

/// The type that `node` stands for once all aliases are followed: `None`
/// where `node` lies outside the graph, where an alias leads outside it, or
/// where the aliases only lead back to one another.
pub open spec fn resolved(graph: Seq<TypeNode>, node: TypeId) -> Option<TypeId> {
    resolve_in(graph, node, graph.len())
}

/// What a node resolves to lies in the graph and is no alias, and resolves
/// to itself.
pub proof fn lemma_resolved_is_structural(graph: Seq<TypeNode>, node: TypeId, fuel: nat)
    ensures
        resolve_in(graph, node, fuel) matches Some(r) ==> {
            &&& r < graph.len()
            &&& !(graph[r as int] is Alias)
            &&& forall|more: nat| resolve_in(graph, r, more) == Some(r)
        },
    decreases fuel,
{
    if node < graph.len() {
        match graph[node as int] {
            TypeNode::Alias(_, target) => {
                if fuel > 0 {
                    lemma_resolved_is_structural(graph, target, (fuel - 1) as nat);
                }
            },
            _ => {},
        }
    }
}

impl View for TypeGraph {
    type V = Seq<TypeNode>;

    open spec fn view(&self) -> Seq<TypeNode> {
        self.nodes@
    }
}

impl TypeGraph {
    /// A graph without types.
    pub fn new() -> (graph: TypeGraph)
        ensures
            graph@ == Seq::<TypeNode>::empty(),
    {
        TypeGraph { nodes: Vec::new() }
    }

    /// The number of types in the graph.
    pub fn len(&self) -> (n: usize)
        ensures
            n == self@.len(),
    {
        self.nodes.len()
    }

    /// Adds a type and returns its index. The type may refer to indices
    /// that are only filled later.
    pub fn add(&mut self, node: TypeNode) -> (id: TypeId)
        ensures
            final(self)@ == old(self)@.push(node),
            id == old(self)@.len(),
    {
        let id: usize = self.nodes.len();
        self.nodes.push(node);
        id
    }

    /// The type at `id`, if the graph has one there.
    pub fn get(&self, id: TypeId) -> (node: Option<&TypeNode>)
        ensures
            id < self@.len() ==> node == Some(&self@[id as int]),
            id >= self@.len() ==> node is None,
    {
        if id < self.nodes.len() {
            Some(&self.nodes[id])
        } else {
            None
        }
    }

    /// Follows aliases from `node` to the type that it stands for.
    pub fn resolve(&self, node: TypeId) -> (end: Option<TypeId>)
        ensures
            end == resolved(self@, node),
    {
        let mut current: usize = node;
        let mut fuel: usize = self.nodes.len();
        loop
            invariant
                fuel <= self@.len(),
                resolved(self@, node) == resolve_in(self@, current, fuel as nat),
            decreases fuel,
        {
            if current >= self.nodes.len() {
                return None;
            }
            match &self.nodes[current] {
                TypeNode::Alias(_, target) => {
                    if fuel == 0 {
                        return None;
                    }
                    current = *target;
                    fuel -= 1;
                },
                _ => {
                    return Some(current);
                },
            }
        }
    }
}

} // verus!
