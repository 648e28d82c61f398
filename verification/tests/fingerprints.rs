use deriver::content_hash::fingerprint;
use deriver::deriver_hash::{DeriverHash, DeriverKey, EncodingHash};
use deriver::shape::DeriveError;
use deriver::strategy::Strategy;
use deriver::type_graph::{Field, TypeGraph, TypeId, TypeNode, Variant};

const STRATEGIES: [Strategy; 3] =
    [Strategy::LayoutEquivalence, Strategy::Encoding, Strategy::Decoding];

fn field(name: &str, optional: bool, ty: TypeId) -> Field {
    Field { name: name.to_string(), optional, ty }
}

/// A graph with `Text` at 0 and `Number` at 1.
fn primitives() -> TypeGraph {
    let mut graph = TypeGraph::new();
    assert_eq!(graph.add(TypeNode::Text), 0);
    assert_eq!(graph.add(TypeNode::Number), 1);
    graph
}

#[test]
fn field_name_is_not_seen_by_layout_equivalence() {
    let mut graph = primitives();
    let a = graph.add(TypeNode::Record(vec![field("a", false, 0)]));
    let b = graph.add(TypeNode::Record(vec![field("b", false, 0)]));
    assert_eq!(
        fingerprint(&graph, Strategy::LayoutEquivalence, a),
        fingerprint(&graph, Strategy::LayoutEquivalence, b)
    );
}

#[test]
fn field_name_is_seen_by_encoding() {
    let mut graph = primitives();
    let a = graph.add(TypeNode::Record(vec![field("a", false, 0)]));
    let b = graph.add(TypeNode::Record(vec![field("b", false, 0)]));
    assert_ne!(
        fingerprint(&graph, Strategy::Encoding, a),
        fingerprint(&graph, Strategy::Encoding, b)
    );
    assert_ne!(
        fingerprint(&graph, Strategy::Decoding, a),
        fingerprint(&graph, Strategy::Decoding, b)
    );
}

#[test]
fn optionality_is_seen_by_decoding_only() {
    let mut graph = primitives();
    let required = graph.add(TypeNode::Record(vec![field("a", false, 0)]));
    let optional = graph.add(TypeNode::Record(vec![field("a", true, 0)]));
    assert_eq!(
        fingerprint(&graph, Strategy::Encoding, required),
        fingerprint(&graph, Strategy::Encoding, optional)
    );
    assert_eq!(
        fingerprint(&graph, Strategy::LayoutEquivalence, required),
        fingerprint(&graph, Strategy::LayoutEquivalence, optional)
    );
    assert_ne!(
        fingerprint(&graph, Strategy::Decoding, required),
        fingerprint(&graph, Strategy::Decoding, optional)
    );
}

#[test]
fn field_order_is_not_seen_by_any_strategy() {
    let mut graph = primitives();
    let ab = graph.add(TypeNode::Record(vec![field("a", false, 0), field("b", false, 1)]));
    let ba = graph.add(TypeNode::Record(vec![field("b", false, 1), field("a", false, 0)]));
    for strategy in STRATEGIES {
        let first = fingerprint(&graph, strategy, ab);
        assert!(first.is_ok());
        assert_eq!(first, fingerprint(&graph, strategy, ba));
    }
}

#[test]
fn fingerprint_is_the_same_every_time() {
    let mut graph = primitives();
    let record = graph.add(TypeNode::Record(vec![field("a", false, 0), field("b", true, 1)]));
    let list = graph.add(TypeNode::ListOf(record));
    let mut again = primitives();
    again.add(TypeNode::Record(vec![field("a", false, 0), field("b", true, 1)]));
    again.add(TypeNode::ListOf(record));
    for strategy in STRATEGIES {
        let first = fingerprint(&graph, strategy, list);
        assert!(first.is_ok());
        assert_eq!(first, fingerprint(&graph, strategy, list));
        assert_eq!(first, fingerprint(&again, strategy, list));
    }
}

#[test]
fn function_has_no_fingerprint() {
    let mut graph = primitives();
    let function = graph.add(TypeNode::Function(vec![0], 1));
    let record = graph.add(TypeNode::Record(vec![field("f", false, function)]));
    for strategy in STRATEGIES {
        assert_eq!(fingerprint(&graph, strategy, function), Err(DeriveError::Incompatible));
        assert_eq!(fingerprint(&graph, strategy, record), Err(DeriveError::Incompatible));
        assert!(fingerprint(&graph, strategy, 0).is_ok());
    }
}

#[test]
fn encoding_key_holds_strategy_and_fingerprint() {
    let mut graph = primitives();
    let record = graph.add(TypeNode::Record(vec![field("a", false, 0)]));
    let key = EncodingHash::from_var(&graph, record).ok().unwrap();
    assert_eq!(key.strategy(), Strategy::Encoding);
    assert_eq!(Ok(key.digest()), fingerprint(&graph, Strategy::Encoding, record));
    let general = DeriverKey::of(&graph, Strategy::Encoding, record).unwrap();
    assert_eq!(general.digest(), key.digest());
    let function = graph.add(TypeNode::Function(vec![], 0));
    assert!(EncodingHash::from_var(&graph, function).is_err());
}

#[test]
fn fingerprints_have_their_exact_values() {
    let mut graph = primitives();
    let record = graph.add(TypeNode::Record(vec![field("a", false, 0)]));
    assert_eq!(fingerprint(&graph, Strategy::LayoutEquivalence, 0), Ok(0x3e52_2502_cc81_0bd5));
    assert_eq!(fingerprint(&graph, Strategy::Encoding, 0), Ok(0x3e52_2502_cc81_0bd5));
    assert_eq!(
        fingerprint(&graph, Strategy::LayoutEquivalence, record),
        Ok(0xd8a6_b41b_f617_5a36)
    );
    assert_eq!(fingerprint(&graph, Strategy::Encoding, record), Ok(0x70d3_2edc_5220_5d04));
    assert_eq!(fingerprint(&graph, Strategy::Decoding, record), Ok(0x1388_46ee_1e4f_caf2));
}

#[test]
fn mixing_is_multiplication_after_xor() {
    use_mix();
}

fn use_mix() {
    assert_eq!(deriver::content_hash::mix_word(deriver::content_hash::SEED, 1), 0xaf63_bc4c_8601_b62c);
    assert_eq!(deriver::content_hash::mix_word(0, 0), 0);
    assert_eq!(deriver::content_hash::mix_word(1, 0), deriver::content_hash::PRIME);
    assert_eq!(
        deriver::content_hash::digest_text(&"a".to_string()),
        0x089b_e307_b544_f397
    );
}

#[test]
fn digests_are_sorted_ascending() {
    let words = vec![5u64, 1, 4, 1, u64::MAX, 0];
    assert_eq!(deriver::content_hash::sorted_words(&words), vec![0, 1, 1, 4, 5, u64::MAX]);
    assert_eq!(deriver::content_hash::sorted_words(&Vec::new()), Vec::<u64>::new());
}

#[test]
fn variant_order_is_not_seen_but_payload_order_is() {
    let mut graph = primitives();
    let variant = |name: &str, payload: Vec<TypeId>| Variant { name: name.to_string(), payload };
    let ab = graph.add(TypeNode::TagUnion(vec![variant("A", vec![0, 1]), variant("B", vec![])]));
    let ba = graph.add(TypeNode::TagUnion(vec![variant("B", vec![]), variant("A", vec![0, 1])]));
    let swapped =
        graph.add(TypeNode::TagUnion(vec![variant("A", vec![1, 0]), variant("B", vec![])]));
    let renamed =
        graph.add(TypeNode::TagUnion(vec![variant("X", vec![0, 1]), variant("Y", vec![])]));
    for strategy in STRATEGIES {
        let first = fingerprint(&graph, strategy, ab);
        assert!(first.is_ok());
        assert_eq!(first, fingerprint(&graph, strategy, ba));
        assert_ne!(first, fingerprint(&graph, strategy, swapped));
    }
    assert_eq!(
        fingerprint(&graph, Strategy::LayoutEquivalence, ab),
        fingerprint(&graph, Strategy::LayoutEquivalence, renamed)
    );
    assert_ne!(
        fingerprint(&graph, Strategy::Encoding, ab),
        fingerprint(&graph, Strategy::Encoding, renamed)
    );
}

#[test]
fn alias_is_transparent() {
    let mut graph = primitives();
    let record = graph.add(TypeNode::Record(vec![field("a", false, 0)]));
    let alias = graph.add(TypeNode::Alias("Named".to_string(), record));
    let again = graph.add(TypeNode::Alias("Again".to_string(), alias));
    for strategy in STRATEGIES {
        let direct = fingerprint(&graph, strategy, record);
        assert!(direct.is_ok());
        assert_eq!(direct, fingerprint(&graph, strategy, alias));
        assert_eq!(direct, fingerprint(&graph, strategy, again));
    }
}

#[test]
fn unresolved_type_has_no_fingerprint() {
    let mut graph = primitives();
    let dangling = graph.add(TypeNode::ListOf(99));
    let own_alias = graph.add(TypeNode::Alias("Loop".to_string(), 3));
    assert_eq!(own_alias, 3);
    for strategy in STRATEGIES {
        assert_eq!(fingerprint(&graph, strategy, 99), Err(DeriveError::Incompatible));
        assert_eq!(fingerprint(&graph, strategy, dangling), Err(DeriveError::Incompatible));
        assert_eq!(fingerprint(&graph, strategy, own_alias), Err(DeriveError::Incompatible));
    }
}

#[test]
fn applied_constructor_is_seen_by_every_strategy() {
    let mut graph = primitives();
    let boxed = graph.add(TypeNode::Apply("Box".to_string(), vec![0]));
    let cell = graph.add(TypeNode::Apply("Cell".to_string(), vec![0]));
    let boxed_number = graph.add(TypeNode::Apply("Box".to_string(), vec![1]));
    for strategy in STRATEGIES {
        let first = fingerprint(&graph, strategy, boxed);
        assert!(first.is_ok());
        assert_ne!(first, fingerprint(&graph, strategy, cell));
        assert_ne!(first, fingerprint(&graph, strategy, boxed_number));
    }
}
