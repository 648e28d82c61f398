use deriver::cache::{Acquired, DerivationCache};
use deriver::compose::compose;
use deriver::content_hash::fingerprint;
use deriver::implementation::Step;
use deriver::low_level::{FaultMode, LowLevel};
use deriver::shape::DeriveError;
use deriver::strategy::{Ability, Strategy};
use deriver::synthesize::derive_ability;
use deriver::type_graph::{Field, TypeGraph, TypeId, TypeNode, Variant};

const ABILITIES: [Ability; 4] = [Ability::Eq, Ability::Hash, Ability::Encode, Ability::Decode];

fn body(cache: &DerivationCache, handle: usize, ability: Ability) -> Vec<Step> {
    let steps = cache.get(handle).unwrap().body(ability).unwrap();
    let mut copy = Vec::new();
    for step in steps {
        copy.push(match step {
            Step::Prim(op) => Step::Prim(*op),
            Step::Call { slot, target } => Step::Call { slot: *slot, target: *target },
            Step::Name(name) => Step::Name(name.to_string()),
            Step::Variant { rank } => Step::Variant { rank: *rank },
        });
    }
    copy
}

fn field(name: &str, optional: bool, ty: TypeId) -> Field {
    Field { name: name.to_string(), optional, ty }
}

#[test]
fn list_equality_compares_lengths_then_elements() {
    let mut graph = TypeGraph::new();
    let text = graph.add(TypeNode::Text);
    let number = graph.add(TypeNode::Number);
    let list_of_text = graph.add(TypeNode::ListOf(text));
    let list_of_number = graph.add(TypeNode::ListOf(number));
    let mut cache = DerivationCache::new();

    let text_list = derive_ability(&mut cache, &graph, list_of_text, Ability::Eq).unwrap();
    assert_eq!(cache.len(), 2);
    let text_eq = derive_ability(&mut cache, &graph, text, Ability::Eq).unwrap();
    assert_eq!(cache.len(), 2);
    assert_ne!(text_list, text_eq);
    assert_eq!(body(&cache, text_eq, Ability::Eq), vec![Step::Prim(LowLevel::Eq)]);
    assert_eq!(
        body(&cache, text_list, Ability::Eq),
        vec![
            Step::Prim(LowLevel::ListLen),
            Step::Prim(LowLevel::Eq),
            Step::Call { slot: 0, target: text_eq },
            Step::Prim(LowLevel::And),
        ]
    );

    let number_list = derive_ability(&mut cache, &graph, list_of_number, Ability::Eq).unwrap();
    let number_eq = derive_ability(&mut cache, &graph, number, Ability::Eq).unwrap();
    assert_eq!(cache.len(), 4);
    assert_ne!(number_list, text_list);
    assert_ne!(number_eq, text_eq);
    assert_ne!(
        fingerprint(&graph, Strategy::LayoutEquivalence, list_of_number),
        fingerprint(&graph, Strategy::LayoutEquivalence, list_of_text)
    );
    assert_eq!(
        body(&cache, number_list, Ability::Eq),
        vec![
            Step::Prim(LowLevel::ListLen),
            Step::Prim(LowLevel::Eq),
            Step::Call { slot: 0, target: number_eq },
            Step::Prim(LowLevel::And),
        ]
    );
}

#[test]
fn equality_and_hashing_share_one_handle() {
    let mut graph = TypeGraph::new();
    let text = graph.add(TypeNode::Text);
    let list = graph.add(TypeNode::ListOf(text));
    let mut cache = DerivationCache::new();
    let for_eq = derive_ability(&mut cache, &graph, list, Ability::Eq).unwrap();
    let for_hash = derive_ability(&mut cache, &graph, list, Ability::Hash).unwrap();
    assert_eq!(for_eq, for_hash);
    let text_handle = derive_ability(&mut cache, &graph, text, Ability::Hash).unwrap();
    assert_eq!(
        body(&cache, for_hash, Ability::Hash),
        vec![
            Step::Prim(LowLevel::ListLen),
            Step::Prim(LowLevel::Hash),
            Step::Call { slot: 0, target: text_handle },
            Step::Prim(LowLevel::NumAddWrap),
        ]
    );
    assert!(cache.get(for_eq).unwrap().body(Ability::Encode).is_none());
    let for_encode = derive_ability(&mut cache, &graph, list, Ability::Encode).unwrap();
    assert_ne!(for_encode, for_eq);
    assert!(cache.get(for_encode).unwrap().body(Ability::Eq).is_none());
}

#[test]
fn type_that_mentions_itself_calls_its_own_handle() {
    let mut graph = TypeGraph::new();
    let text = graph.add(TypeNode::Text);
    let list = graph.add(TypeNode::TagUnion(vec![
        Variant { name: "Cons".to_string(), payload: vec![text, 2] },
        Variant { name: "Nil".to_string(), payload: vec![] },
    ]));
    let alias = graph.add(TypeNode::Alias("LinkedList".to_string(), list));
    for ability in ABILITIES {
        let mut cache = DerivationCache::new();
        let handle = derive_ability(&mut cache, &graph, list, ability).unwrap();
        assert_eq!(derive_ability(&mut cache, &graph, alias, ability), Ok(handle));
        let text_handle = derive_ability(&mut cache, &graph, text, ability).unwrap();
        assert_eq!(cache.len(), 2);
        let steps = body(&cache, handle, ability);
        assert!(steps.contains(&Step::Call { slot: 1, target: handle }));
        assert!(steps.contains(&Step::Call { slot: 0, target: text_handle }));
        assert!(steps.len() < 16);
    }
}

#[test]
fn body_of_linked_list_equality_is_exact() {
    let mut graph = TypeGraph::new();
    let text = graph.add(TypeNode::Text);
    let list = graph.add(TypeNode::TagUnion(vec![
        Variant { name: "Cons".to_string(), payload: vec![text, 1] },
        Variant { name: "Nil".to_string(), payload: vec![] },
    ]));
    let mut cache = DerivationCache::new();
    let handle = derive_ability(&mut cache, &graph, list, Ability::Eq).unwrap();
    assert_eq!(handle, 0);
    let steps = body(&cache, handle, Ability::Eq);
    let cons = match steps[1] {
        Step::Variant { rank } => rank,
        _ => 2,
    };
    assert!(cons < 2);
    assert_eq!(
        steps,
        vec![
            Step::Prim(LowLevel::Eq),
            Step::Variant { rank: cons },
            Step::Call { slot: 0, target: 1 },
            Step::Prim(LowLevel::And),
            Step::Variant { rank: cons },
            Step::Call { slot: 1, target: 0 },
            Step::Prim(LowLevel::And),
            Step::Variant { rank: 1 - cons },
            Step::Prim(LowLevel::And),
        ]
    );
}

#[test]
fn encoding_writes_names_and_decoding_tests_optional_fields() {
    let mut graph = TypeGraph::new();
    let text = graph.add(TypeNode::Text);
    let record = graph.add(TypeNode::Record(vec![field("a", false, text), field("b", true, text)]));
    let mut cache = DerivationCache::new();

    let encoder = derive_ability(&mut cache, &graph, record, Ability::Encode).unwrap();
    let text_encoder = derive_ability(&mut cache, &graph, text, Ability::Encode).unwrap();
    let steps = body(&cache, encoder, Ability::Encode);
    let (a, b) = match (&steps[1], &steps[3]) {
        (Step::Call { slot: a, .. }, Step::Call { slot: b, .. }) => (*a, *b),
        _ => (9, 9),
    };
    assert!((a == 0 && b == 1) || (a == 1 && b == 0));
    assert_eq!(
        steps,
        vec![
            Step::Name("a".to_string()),
            Step::Call { slot: a, target: text_encoder },
            Step::Name("b".to_string()),
            Step::Call { slot: b, target: text_encoder },
            Step::Prim(LowLevel::ListConcat),
        ]
    );
    assert_eq!(body(&cache, text_encoder, Ability::Encode), vec![Step::Prim(LowLevel::StrToBytes)]);

    let decoder = derive_ability(&mut cache, &graph, record, Ability::Decode).unwrap();
    let text_decoder = derive_ability(&mut cache, &graph, text, Ability::Decode).unwrap();
    let steps = body(&cache, decoder, Ability::Decode);
    assert_eq!(steps.len(), 6);
    assert_eq!(steps[0], Step::Name("a".to_string()));
    assert!(matches!(steps[1], Step::Call { target, .. } if target == text_decoder));
    assert_eq!(steps[2], Step::Name("b".to_string()));
    assert_eq!(steps[3], Step::Prim(LowLevel::DictContains));
    assert!(matches!(steps[4], Step::Call { target, .. } if target == text_decoder));
    assert_eq!(steps[5], Step::Prim(LowLevel::ListConcat));
    assert_eq!(body(&cache, text_decoder, Ability::Decode), vec![Step::Prim(LowLevel::StrFromUtf8)]);

    let eq = derive_ability(&mut cache, &graph, record, Ability::Eq).unwrap();
    let text_eq = derive_ability(&mut cache, &graph, text, Ability::Eq).unwrap();
    let steps = body(&cache, eq, Ability::Eq);
    assert_eq!(steps.len(), 3);
    assert!(matches!(steps[0], Step::Call { target, .. } if target == text_eq));
    assert!(matches!(steps[1], Step::Call { target, .. } if target == text_eq));
    assert_eq!(steps[2], Step::Prim(LowLevel::And));
}

#[test]
fn records_in_another_order_share_the_implementation() {
    let mut graph = TypeGraph::new();
    let text = graph.add(TypeNode::Text);
    let number = graph.add(TypeNode::Number);
    let ab = graph.add(TypeNode::Record(vec![field("a", false, text), field("b", false, number)]));
    let ba = graph.add(TypeNode::Record(vec![field("b", false, number), field("a", false, text)]));
    for ability in ABILITIES {
        let mut cache = DerivationCache::new();
        let first = derive_ability(&mut cache, &graph, ab, ability).unwrap();
        let entries = cache.len();
        assert_eq!(derive_ability(&mut cache, &graph, ba, ability), Ok(first));
        assert_eq!(cache.len(), entries);

        let mut other = DerivationCache::new();
        let second = derive_ability(&mut other, &graph, ba, ability).unwrap();
        let slot_of = |steps: &Vec<Step>, target: usize| {
            steps.iter().find_map(|step| match step {
                Step::Call { slot, target: t } if *t == target => Some(*slot),
                _ => None,
            })
        };
        let text_first = derive_ability(&mut cache, &graph, text, ability).unwrap();
        let text_second = derive_ability(&mut other, &graph, text, ability).unwrap();
        assert_eq!(
            slot_of(&body(&cache, first, ability), text_first),
            slot_of(&body(&other, second, ability), text_second)
        );
    }
}

#[test]
fn requests_for_one_type_are_synthesized_once() {
    let mut graph = TypeGraph::new();
    let text = graph.add(TypeNode::Text);
    let record = graph.add(TypeNode::Record(vec![field("a", false, text)]));
    let mut cache = DerivationCache::new();
    let first = derive_ability(&mut cache, &graph, record, Ability::Encode).unwrap();
    let entries = cache.len();
    assert_eq!(entries, 2);
    for _ in 0..8 {
        assert_eq!(derive_ability(&mut cache, &graph, record, Ability::Encode), Ok(first));
        assert_eq!(cache.len(), entries);
    }
    let key = fingerprint(&graph, Strategy::Encoding, record).unwrap();
    assert_eq!(cache.acquire(Strategy::Encoding, key), Acquired::Ready(first));
}

#[test]
fn incompatible_type_leaves_the_cache_alone() {
    let mut graph = TypeGraph::new();
    let text = graph.add(TypeNode::Text);
    let function = graph.add(TypeNode::Function(vec![text], text));
    let record = graph.add(TypeNode::Record(vec![field("f", false, function)]));
    let mut cache = DerivationCache::new();
    for ability in ABILITIES {
        assert_eq!(derive_ability(&mut cache, &graph, function, ability), Err(DeriveError::Incompatible));
        assert_eq!(derive_ability(&mut cache, &graph, record, ability), Err(DeriveError::Incompatible));
        assert_eq!(derive_ability(&mut cache, &graph, 17, ability), Err(DeriveError::Incompatible));
        assert_eq!(cache.len(), 0);
    }
}

#[test]
fn reserved_key_is_answered_with_its_handle() {
    let mut graph = TypeGraph::new();
    let text = graph.add(TypeNode::Text);
    let mut cache = DerivationCache::new();
    let key = fingerprint(&graph, Strategy::Encoding, text).unwrap();
    assert_eq!(cache.acquire(Strategy::Encoding, key), Acquired::Synthesize(0));
    assert_eq!(derive_ability(&mut cache, &graph, text, Ability::Encode), Ok(0));
    assert!(cache.get(0).is_none());
    assert_eq!(cache.len(), 1);
}

#[test]
fn synthesized_bodies_hold_no_unchecked_or_rounding_operation() {
    let mut graph = TypeGraph::new();
    let text = graph.add(TypeNode::Text);
    let number = graph.add(TypeNode::Number);
    let boolean = graph.add(TypeNode::Boolean);
    let dict = graph.add(TypeNode::DictOf(text, number));
    let set = graph.add(TypeNode::SetOf(boolean));
    let applied = graph.add(TypeNode::Apply("Pair".to_string(), vec![dict, set]));
    let union = graph.add(TypeNode::TagUnion(vec![
        Variant { name: "Leaf".to_string(), payload: vec![applied] },
        Variant { name: "Node".to_string(), payload: vec![6, 6] },
    ]));
    for ability in ABILITIES {
        let mut cache = DerivationCache::new();
        assert!(derive_ability(&mut cache, &graph, union, ability).is_ok());
        assert_eq!(cache.len(), 7);
        for handle in 0..cache.len() {
            for step in body(&cache, handle, ability) {
                if let Step::Prim(op) = step {
                    assert_ne!(op.fault_mode(), FaultMode::Unchecked);
                    assert!(op.is_exact());
                    assert!(op.arity() == 1 || op.arity() == 2);
                }
            }
        }
    }
}

#[test]
fn compose_wants_a_handle_for_every_nested_type() {
    let node = TypeNode::DictOf(0, 1);
    assert!(compose(Strategy::Encoding, &node, &Vec::new(), &vec![4]).is_none());
    assert!(compose(Strategy::Encoding, &node, &Vec::new(), &vec![4, 5, 6]).is_none());
    let implementation = compose(Strategy::Encoding, &node, &Vec::new(), &vec![4, 5]).unwrap();
    assert_eq!(
        implementation.body(Ability::Encode),
        Some(&vec![
            Step::Prim(LowLevel::DictSize),
            Step::Prim(LowLevel::StrFromInt),
            Step::Prim(LowLevel::StrToBytes),
            Step::Call { slot: 0, target: 4 },
            Step::Prim(LowLevel::ListConcat),
            Step::Call { slot: 1, target: 5 },
            Step::Prim(LowLevel::ListConcat),
        ])
    );
    let record = TypeNode::Record(vec![field("a", false, 0)]);
    assert!(compose(Strategy::Encoding, &record, &Vec::new(), &vec![4]).is_none());
    assert!(compose(Strategy::Encoding, &record, &vec![0], &vec![4]).is_some());
}
