//! The synthesis of implementations: the one operation by which the rest of
//! a compiler obtains the implementation of an ability for a type.
//!
//! The implementation of a type calls the implementations of the types
//! nested in it, which are obtained in the same way and through the same
//! cache. The handle of a type is reserved before its nested types are
//! visited. A type that is met again while its own implementation is being
//! put together is therefore already known to the cache, and is answered
//! with the reserved handle instead of being entered a second time: the
//! body of a type that mentions itself calls its own handle.

use crate::cache::{find, lemma_find, Acquired, DerivationCache, EntryV};
use crate::compose::{
    calls, compose, implementation_for, lemma_body_calls_nested, lemma_implementation_has_body,
};
use crate::content_hash::{
    content_hash, fingerprint_of, is_unordered, kid_digests, slot_digests,
};
use crate::implementation::{Handle, ImplementationV};
use crate::place::{nats, places, places_of};
use crate::shape::{
    derivable, lemma_derivable_by_resolved, lemma_kids_are_derivable, normalize, shape_of,
    DeriveError, Shape,
};
use crate::strategy::{Ability, Strategy};
use crate::type_graph::{lemma_resolved_is_structural, resolved, TypeGraph, TypeId, TypeNode};
use vstd::prelude::*;

verus! {

/// The canonical places of the fields of a record or of the variants of a
/// tag union; empty for every other type.
pub open spec fn slots_for(graph: Seq<TypeNode>, strategy: Strategy, node: TypeId) -> Seq<nat> {
    let shape = shape_of(graph, strategy, node);
    if is_unordered(shape.head) {
        places_of(kid_digests(shape))
    } else {
        Seq::empty()
    }
}

/// Whether the entries know the key of every type nested in `node`.
pub open spec fn nested_known(
    entries: Seq<EntryV>,
    graph: Seq<TypeNode>,
    strategy: Strategy,
    node: TypeNode,
) -> bool {
    forall|i: int|
        0 <= i < node.kids_of().len() ==> find(
            entries,
            strategy,
            fingerprint_of(graph, strategy, #[trigger] node.kids_of()[i]),
        ) is Some
}

/// The handles under which the entries hold the types nested in `node`.
pub open spec fn targets_for(
    entries: Seq<EntryV>,
    graph: Seq<TypeNode>,
    strategy: Strategy,
    node: TypeNode,
) -> Seq<nat> {
    Seq::new(
        node.kids_of().len(),
        |i: int|
            find(entries, strategy, fingerprint_of(graph, strategy, node.kids_of()[i])).unwrap(),
    )
}

/// The implementation of the type at `origin`, whose calls go to the
/// handles under which the entries hold its nested types.
pub open spec fn implementation_of(
    entries: Seq<EntryV>,
    graph: Seq<TypeNode>,
    strategy: Strategy,
    origin: TypeId,
) -> ImplementationV {
    implementation_for(
        strategy,
        graph[origin as int],
        slots_for(graph, strategy, origin),
        targets_for(entries, graph, strategy, graph[origin as int]),
    )
}

/// The entry at `handle` holds the implementation of the type at `origin`:
/// it is the entry under the key of that type, the implementations of all
/// nested types are known, and what is published is the implementation that
/// calls them.
pub open spec fn composed_from(
    entries: Seq<EntryV>,
    graph: Seq<TypeNode>,
    strategy: Strategy,
    handle: int,
    origin: TypeId,
) -> bool {
    &&& resolved(graph, origin) == Some(origin)
    &&& derivable(graph, origin)
    &&& find(entries, strategy, fingerprint_of(graph, strategy, origin)) == Some(handle as nat)
    &&& nested_known(entries, graph, strategy, graph[origin as int])
    &&& entries[handle].body == Some(implementation_of(entries, graph, strategy, origin))
}

/// The entry at `handle` holds the implementation of some type of the
/// graph.
pub open spec fn composed(
    entries: Seq<EntryV>,
    graph: Seq<TypeNode>,
    strategy: Strategy,
    handle: int,
) -> bool {
    exists|origin: TypeId| composed_from(entries, graph, strategy, handle, origin)
}

/// The later entries start with the earlier ones, unchanged.
pub open spec fn continues(earlier: Seq<EntryV>, later: Seq<EntryV>) -> bool {
    &&& earlier.len() <= later.len()
    &&& forall|i: int| 0 <= i < earlier.len() ==> later[i] == earlier[i]
}

/// The later entries keep every key in its place and every published
/// implementation as it is.
pub open spec fn extends(earlier: Seq<EntryV>, later: Seq<EntryV>) -> bool {
    &&& earlier.len() <= later.len()
    &&& forall|i: int|
        0 <= i < earlier.len() ==> {
            &&& (#[trigger] later[i]).strategy == earlier[i].strategy
            &&& later[i].fingerprint == earlier[i].fingerprint
            &&& earlier[i].body is Some ==> later[i] == earlier[i]
        }
}

/// The number of types among the first `upto` of the graph whose key the
/// entries do not know.
pub open spec fn missing_upto(
    graph: Seq<TypeNode>,
    strategy: Strategy,
    entries: Seq<EntryV>,
    upto: nat,
) -> nat
    decreases upto,
{
    if upto == 0 {
        0
    } else {
        missing_upto(graph, strategy, entries, (upto - 1) as nat) + if find(
            entries,
            strategy,
            fingerprint_of(graph, strategy, (upto - 1) as usize),
        ) is None {
            1nat
        } else {
            0nat
        }
    }
}

/// The number of types of the graph whose key the entries do not know.
pub open spec fn missing(graph: Seq<TypeNode>, strategy: Strategy, entries: Seq<EntryV>) -> nat {
    missing_upto(graph, strategy, entries, graph.len())
}

/// A key that is known stays known, under the same handle.
pub proof fn lemma_extends_find(
    earlier: Seq<EntryV>,
    later: Seq<EntryV>,
    strategy: Strategy,
    fingerprint: u64,
)
    requires
        extends(earlier, later),
        find(earlier, strategy, fingerprint) is Some,
    ensures
        find(later, strategy, fingerprint) == find(earlier, strategy, fingerprint),
{
    lemma_find(earlier, strategy, fingerprint);
    lemma_find(later, strategy, fingerprint);
    let h = find(earlier, strategy, fingerprint).unwrap();
    assert(later[h as int].has_key(strategy, fingerprint));
    match find(later, strategy, fingerprint) {
        Some(first) => {
            if first < h {
                assert(later[first as int].has_key(strategy, fingerprint));
                assert(!earlier[first as int].has_key(strategy, fingerprint));
            }
            if h < first {
                assert(!later[h as int].has_key(strategy, fingerprint));
            }
        },
        None => {},
    }
}

/// An entry that holds the implementation of a type goes on holding it.
pub proof fn lemma_extends_composed(
    earlier: Seq<EntryV>,
    later: Seq<EntryV>,
    graph: Seq<TypeNode>,
    strategy: Strategy,
    handle: int,
    origin: TypeId,
)
    requires
        extends(earlier, later),
        0 <= handle < earlier.len(),
        composed_from(earlier, graph, strategy, handle, origin),
    ensures
        composed_from(later, graph, strategy, handle, origin),
{
    let node = graph[origin as int];
    lemma_extends_find(earlier, later, strategy, fingerprint_of(graph, strategy, origin));
    assert forall|i: int| 0 <= i < node.kids_of().len() implies find(
        later,
        strategy,
        fingerprint_of(graph, strategy, #[trigger] node.kids_of()[i]),
    ) == find(earlier, strategy, fingerprint_of(graph, strategy, node.kids_of()[i])) by {
        lemma_extends_find(
            earlier,
            later,
            strategy,
            fingerprint_of(graph, strategy, node.kids_of()[i]),
        );
    }
    assert(targets_for(later, graph, strategy, node) =~= targets_for(
        earlier,
        graph,
        strategy,
        node,
    ));
}

/// Where every known key stays known, no more types are missing than
/// before.
proof fn lemma_missing_shrinks(
    graph: Seq<TypeNode>,
    strategy: Strategy,
    earlier: Seq<EntryV>,
    later: Seq<EntryV>,
    upto: nat,
)
    requires
        extends(earlier, later),
    ensures
        missing_upto(graph, strategy, later, upto) <= missing_upto(graph, strategy, earlier, upto),
    decreases upto,
{
    if upto > 0 {
        lemma_missing_shrinks(graph, strategy, earlier, later, (upto - 1) as nat);
        let fingerprint = fingerprint_of(graph, strategy, (upto - 1) as usize);
        if find(earlier, strategy, fingerprint) is Some {
            lemma_extends_find(earlier, later, strategy, fingerprint);
        }
    }
}

/// Where the key of a type becomes known, fewer types are missing than
/// before.
proof fn lemma_missing_drops(
    graph: Seq<TypeNode>,
    strategy: Strategy,
    earlier: Seq<EntryV>,
    later: Seq<EntryV>,
    upto: nat,
    node: TypeId,
)
    requires
        extends(earlier, later),
        node < upto,
        find(earlier, strategy, fingerprint_of(graph, strategy, node)) is None,
        find(later, strategy, fingerprint_of(graph, strategy, node)) is Some,
    ensures
        missing_upto(graph, strategy, later, upto) < missing_upto(graph, strategy, earlier, upto),
    decreases upto,
{
    if upto - 1 == node {
        lemma_missing_shrinks(graph, strategy, earlier, later, (upto - 1) as nat);
    } else {
        lemma_missing_drops(graph, strategy, earlier, later, (upto - 1) as nat, node);
        let fingerprint = fingerprint_of(graph, strategy, (upto - 1) as usize);
        if find(earlier, strategy, fingerprint) is Some {
            lemma_extends_find(earlier, later, strategy, fingerprint);
        }
    }
}

/// Where every key is stored as before, as many types are missing as
/// before.
proof fn lemma_missing_stays(
    graph: Seq<TypeNode>,
    strategy: Strategy,
    earlier: Seq<EntryV>,
    later: Seq<EntryV>,
    upto: nat,
)
    requires
        forall|digest: u64| #[trigger]
            find(later, strategy, digest) == find(earlier, strategy, digest),
    ensures
        missing_upto(graph, strategy, later, upto) == missing_upto(graph, strategy, earlier, upto),
    decreases upto,
{
    if upto > 0 {
        lemma_missing_stays(graph, strategy, earlier, later, (upto - 1) as nat);
    }
}

/// A type that mentions itself calls its own handle: where an entry holds
/// the implementation of a type, and one of the types nested in that type is
/// the type itself, the body for each ability of the strategy has a call of
/// the handle of the entry.
pub proof fn lemma_recursion_calls_own_handle(
    entries: Seq<EntryV>,
    graph: Seq<TypeNode>,
    ability: Ability,
    handle: int,
    origin: TypeId,
    i: int,
)
    requires
        composed_from(entries, graph, ability.strategy_of(), handle, origin),
        0 <= i < graph[origin as int].kids_of().len(),
        resolved(graph, graph[origin as int].kids_of()[i]) == Some(origin),
    ensures
        entries[handle].body is Some,
        entries[handle].body.unwrap().body_of(ability) matches Some(steps) && calls(
            steps,
            handle as nat,
        ),
{
    let strategy = ability.strategy_of();
    let node = graph[origin as int];
    let kid = node.kids_of()[i];
    let slots = slots_for(graph, strategy, origin);
    let targets = targets_for(entries, graph, strategy, node);
    lemma_resolved_is_structural(graph, origin, graph.len());
    lemma_derivable_by_resolved(graph, kid, origin, Seq::empty());
    assert(fingerprint_of(graph, strategy, kid) == fingerprint_of(graph, strategy, origin));
    assert(targets[i] == handle as nat);
    let shape = shape_of(graph, strategy, origin);
    match node {
        TypeNode::Record(fields) => {
            assert(shape.kids.len() == fields@.len());
        },
        TypeNode::TagUnion(variants) => {
            assert(shape.kids.len() == variants@.len());
        },
        _ => {},
    }
    lemma_implementation_has_body(strategy, node, slots, targets, ability);
    lemma_body_calls_nested(ability, node, slots, targets, i);
}

/// The handle of the implementation of a type of the given shape, which is
/// synthesized, with the implementations of its nested types, unless the
/// cache knows its key.
#[verifier::loop_isolation(false)]
fn synthesize(
    cache: &mut DerivationCache,
    graph: &TypeGraph,
    strategy: Strategy,
    node: TypeId,
    shape: Shape,
) -> (handle: Handle)
    requires
        old(cache).wf(),
        derivable(graph@, node),
        shape@ == shape_of(graph@, strategy, node),
    ensures
        final(cache).wf(),
        continues(old(cache)@, final(cache)@),
        find(final(cache)@, strategy, fingerprint_of(graph@, strategy, node)) == Some(handle as nat),
        forall|h: int|
            old(cache)@.len() <= h < final(cache)@.len() ==> composed(
                final(cache)@,
                graph@,
                strategy,
                h,
            ),
        find(old(cache)@, strategy, fingerprint_of(graph@, strategy, node)) is None ==> {
            &&& handle == old(cache)@.len()
            &&& composed_from(
                final(cache)@,
                graph@,
                strategy,
                handle as int,
                resolved(graph@, node).unwrap(),
            )
        },
        find(old(cache)@, strategy, fingerprint_of(graph@, strategy, node)) is Some
            ==> final(cache)@ == old(cache)@,
        final(cache)@.len() - old(cache)@.len() <= missing(graph@, strategy, old(cache)@) - missing(
            graph@,
            strategy,
            final(cache)@,
        ),
    decreases missing(graph@, strategy, old(cache)@),
{
    let fingerprint: u64 = content_hash(&shape);
    let ghost before = cache@;
    proof {
        lemma_find(before, strategy, fingerprint);
    }
    let handle: usize = match cache.acquire(strategy, fingerprint) {
        Acquired::Ready(h) => {
            return h;
        },
        Acquired::Pending(h) => {
            return h;
        },
        Acquired::Synthesize(h) => h,
    };
    let ghost reserved = cache@;
    let r: usize = graph.resolve(node).unwrap();
    proof {
        lemma_resolved_is_structural(graph@, node, graph@.len());
        lemma_derivable_by_resolved(graph@, node, r, Seq::empty());
        assert(reserved.drop_last() =~= before);
        lemma_find(reserved, strategy, fingerprint);
        assert(extends(before, reserved));
        lemma_missing_drops(graph@, strategy, before, reserved, graph@.len(), node);
    }
    let kind = &graph.nodes[r];
    let kids = kind.kids();
    let mut targets: Vec<Handle> = Vec::new();
    let mut i: usize = 0;
    while i < kids.len()
        invariant
            i <= kids@.len(),
            cache.wf(),
            continues(reserved, cache@),
            missing(graph@, strategy, cache@) < missing(graph@, strategy, before),
            cache@.len() - before.len() <= missing(graph@, strategy, before) - missing(
                graph@,
                strategy,
                cache@,
            ),
            forall|h: int|
                reserved.len() <= h < cache@.len() ==> composed(cache@, graph@, strategy, h),
            targets@.len() == i,
            forall|k: int|
                0 <= k < i ==> find(
                    cache@,
                    strategy,
                    fingerprint_of(graph@, strategy, #[trigger] kids@[k]),
                ) == Some(targets@[k] as nat),
        decreases kids@.len() - i,
    {
        let ghost earlier = cache@;
        proof {
            lemma_kids_are_derivable(graph@, node, i as int);
        }
        let nested = normalize(graph, strategy, kids[i]).unwrap();
        let target = synthesize(cache, graph, strategy, kids[i], nested);
        targets.push(target);
        proof {
            assert(extends(earlier, cache@));
            lemma_missing_shrinks(graph@, strategy, earlier, cache@, graph@.len());
            assert forall|h: int| reserved.len() <= h < cache@.len() implies composed(
                cache@,
                graph@,
                strategy,
                h,
            ) by {
                if h < earlier.len() {
                    assert(composed(earlier, graph@, strategy, h));
                    let origin = choose|origin: TypeId|
                        composed_from(earlier, graph@, strategy, h, origin);
                    lemma_extends_composed(earlier, cache@, graph@, strategy, h, origin);
                }
            }
            assert forall|k: int| 0 <= k < i + 1 implies find(
                cache@,
                strategy,
                fingerprint_of(graph@, strategy, #[trigger] kids@[k]),
            ) == Some(targets@[k] as nat) by {
                if k < i {
                    lemma_extends_find(
                        earlier,
                        cache@,
                        strategy,
                        fingerprint_of(graph@, strategy, kids@[k]),
                    );
                }
            }
        }
        i += 1;
    }
    let slots: Vec<usize> = match kind {
        TypeNode::Record(_) => places(&slot_digests(&shape)),
        TypeNode::TagUnion(_) => places(&slot_digests(&shape)),
        _ => Vec::new(),
    };
    proof {
        assert(shape@ == shape_of(graph@, strategy, r));
        assert(nats(slots@) =~= slots_for(graph@, strategy, r));
    }
    let implementation = compose(strategy, kind, &slots, &targets).unwrap();
    let ghost filled = cache@;
    proof {
        lemma_extends_find(reserved, filled, strategy, fingerprint);
        lemma_find(filled, strategy, fingerprint);
    }
    cache.publish(strategy, fingerprint, implementation);
    proof {
        let entries = cache@;
        assert(extends(filled, entries));
        lemma_missing_stays(graph@, strategy, filled, entries, graph@.len());
        lemma_extends_find(filled, entries, strategy, fingerprint);
        assert forall|k: int| 0 <= k < kids@.len() implies find(
            entries,
            strategy,
            fingerprint_of(graph@, strategy, #[trigger] kids@[k]),
        ) == Some(targets@[k] as nat) by {
            lemma_extends_find(
                filled,
                entries,
                strategy,
                fingerprint_of(graph@, strategy, kids@[k]),
            );
        }
        assert(nats(targets@) =~= targets_for(entries, graph@, strategy, *kind));
        assert(composed_from(entries, graph@, strategy, handle as int, r));
        assert forall|h: int| before.len() <= h < entries.len() implies composed(
            entries,
            graph@,
            strategy,
            h,
        ) by {
            if h != handle {
                assert(composed(filled, graph@, strategy, h));
                let origin = choose|origin: TypeId|
                    composed_from(filled, graph@, strategy, h, origin);
                lemma_extends_composed(filled, entries, graph@, strategy, h, origin);
            }
        }
    }
    handle
}

/// The handle of the implementation of an ability for a type.
///
/// Fails with `Incompatible`, and leaves the cache as it is, exactly where
/// no ability can be derived for the type. Otherwise the result is the
/// handle under which the cache holds the key of the type. Where the key
/// was not known, its implementation and those of its nested types are
/// synthesized: every entry that the call adds is published and holds the
/// implementation of a type of the graph, and the entry of the requested key
/// that of the requested type. No more entries are added than there are
/// types of the graph whose key becomes known. The entries that were there
/// stay as they are, so a key that was only reserved is answered with its
/// reserved handle and nothing is published under it.
pub fn derive_ability(cache: &mut DerivationCache, graph: &TypeGraph, node: TypeId, ability: Ability) -> (r:
    Result<Handle, DeriveError>)
    requires
        old(cache).wf(),
    ensures
        final(cache).wf(),
        r is Ok <==> derivable(graph@, node),
        r matches Err(e) ==> e == DeriveError::Incompatible && final(cache)@ == old(cache)@,
        r matches Ok(handle) ==> {
            let strategy = ability.strategy_of();
            let key = fingerprint_of(graph@, strategy, node);
            &&& continues(old(cache)@, final(cache)@)
            &&& find(final(cache)@, strategy, key) == Some(handle as nat)
            &&& forall|h: int|
                old(cache)@.len() <= h < final(cache)@.len() ==> composed(
                    final(cache)@,
                    graph@,
                    strategy,
                    h,
                )
            &&& find(old(cache)@, strategy, key) is None ==> {
                &&& handle == old(cache)@.len()
                &&& composed_from(
                    final(cache)@,
                    graph@,
                    strategy,
                    handle as int,
                    resolved(graph@, node).unwrap(),
                )
            }
            &&& find(old(cache)@, strategy, key) is Some ==> final(cache)@ == old(cache)@
            &&& final(cache)@.len() - old(cache)@.len() <= missing(graph@, strategy, old(cache)@)
                - missing(graph@, strategy, final(cache)@)
        },
{
    let strategy = ability.strategy();
    match normalize(graph, strategy, node) {
        Err(e) => Err(e),
        Ok(shape) => Ok(synthesize(cache, graph, strategy, node, shape)),
    }
}

} // verus!
