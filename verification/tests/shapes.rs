use deriver::shape::{discriminant_width, normalize, DeriveError, Head, Label, Shape};
use deriver::strategy::Strategy;
use deriver::type_graph::{Field, TypeGraph, TypeNode, Variant};

fn bare() -> Label {
    Label { name: None, required: None }
}

fn leaf(head: Head) -> Shape {
    Shape { head, label: bare(), kids: Vec::new() }
}

fn labelled(head: Head, name: Option<&str>, required: Option<bool>) -> Shape {
    Shape {
        head,
        label: Label { name: name.map(|n| n.to_string()), required },
        kids: Vec::new(),
    }
}

/// `Text` at 0, `Number` at 1, the record `{ a: Text, b?: Number }` at 2.
fn record_graph() -> TypeGraph {
    let mut graph = TypeGraph::new();
    graph.add(TypeNode::Text);
    graph.add(TypeNode::Number);
    graph.add(TypeNode::Record(vec![
        Field { name: "a".to_string(), optional: false, ty: 0 },
        Field { name: "b".to_string(), optional: true, ty: 1 },
    ]));
    graph
}

#[test]
fn layout_shape_of_record_has_no_names() {
    let graph = record_graph();
    let shape = normalize(&graph, Strategy::LayoutEquivalence, 2).unwrap();
    assert_eq!(
        shape,
        Shape {
            head: Head::Record,
            label: bare(),
            kids: vec![leaf(Head::Text), leaf(Head::Number)],
        }
    );
}

#[test]
fn encoding_shape_of_record_has_names_only() {
    let graph = record_graph();
    let shape = normalize(&graph, Strategy::Encoding, 2).unwrap();
    assert_eq!(
        shape,
        Shape {
            head: Head::Record,
            label: bare(),
            kids: vec![
                labelled(Head::Text, Some("a"), None),
                labelled(Head::Number, Some("b"), None),
            ],
        }
    );
}

#[test]
fn decoding_shape_of_record_has_names_and_optionality() {
    let graph = record_graph();
    let shape = normalize(&graph, Strategy::Decoding, 2).unwrap();
    assert_eq!(
        shape,
        Shape {
            head: Head::Record,
            label: bare(),
            kids: vec![
                labelled(Head::Text, Some("a"), Some(true)),
                labelled(Head::Number, Some("b"), Some(false)),
            ],
        }
    );
}

/// `Text` at 0 and the list `[Cons Text (alias of the list), Nil]` at 1,
/// with the alias at 2.
fn linked_list() -> TypeGraph {
    let mut graph = TypeGraph::new();
    graph.add(TypeNode::Text);
    graph.add(TypeNode::TagUnion(vec![
        Variant { name: "Cons".to_string(), payload: vec![0, 2] },
        Variant { name: "Nil".to_string(), payload: vec![] },
    ]));
    graph.add(TypeNode::Alias("LinkedList".to_string(), 1));
    graph
}

#[test]
fn shape_of_type_that_mentions_itself_is_finite() {
    let graph = linked_list();
    let shape = normalize(&graph, Strategy::Encoding, 1).unwrap();
    let expected = Shape {
        head: Head::TagUnion { bits: 0 },
        label: bare(),
        kids: vec![
            Shape {
                head: Head::Variant,
                label: Label { name: Some("Cons".to_string()), required: None },
                kids: vec![leaf(Head::Text), leaf(Head::BackRef { depth: 0 })],
            },
            labelled(Head::Variant, Some("Nil"), None),
        ],
    };
    assert_eq!(shape, expected);
    assert_eq!(normalize(&graph, Strategy::Encoding, 2).unwrap(), expected);
    let layout = normalize(&graph, Strategy::LayoutEquivalence, 1).unwrap();
    assert_eq!(layout.head, Head::TagUnion { bits: 8 });
    assert_eq!(layout.kids[0].label, bare());
}

#[test]
fn back_reference_counts_the_levels_up() {
    let mut graph = TypeGraph::new();
    // 0: { next: 1 }, 1: List 2, 2: { outer: 0, inner: 2, list: 1 }
    graph.add(TypeNode::Record(vec![Field { name: "next".to_string(), optional: false, ty: 1 }]));
    graph.add(TypeNode::ListOf(2));
    graph.add(TypeNode::Record(vec![
        Field { name: "outer".to_string(), optional: false, ty: 0 },
        Field { name: "inner".to_string(), optional: false, ty: 2 },
        Field { name: "list".to_string(), optional: false, ty: 1 },
    ]));
    let shape = normalize(&graph, Strategy::LayoutEquivalence, 0).unwrap();
    let innermost = &shape.kids[0].kids[0];
    assert_eq!(innermost.head, Head::Record);
    assert_eq!(
        innermost.kids,
        vec![
            leaf(Head::BackRef { depth: 2 }),
            leaf(Head::BackRef { depth: 0 }),
            leaf(Head::BackRef { depth: 1 }),
        ]
    );
}

#[test]
fn function_anywhere_is_incompatible() {
    let mut graph = TypeGraph::new();
    graph.add(TypeNode::Text);
    graph.add(TypeNode::Function(vec![0], 0));
    graph.add(TypeNode::DictOf(0, 1));
    graph.add(TypeNode::TagUnion(vec![Variant { name: "F".to_string(), payload: vec![0, 2] }]));
    graph.add(TypeNode::Apply("Box".to_string(), vec![3]));
    for node in 1..5 {
        assert_eq!(normalize(&graph, Strategy::Encoding, node), Err(DeriveError::Incompatible));
    }
    assert!(normalize(&graph, Strategy::Encoding, 0).is_ok());
}

#[test]
fn collections_keep_the_order_of_their_types() {
    let mut graph = TypeGraph::new();
    graph.add(TypeNode::Text);
    graph.add(TypeNode::Boolean);
    graph.add(TypeNode::DictOf(0, 1));
    graph.add(TypeNode::SetOf(2));
    let shape = normalize(&graph, Strategy::Decoding, 3).unwrap();
    assert_eq!(
        shape,
        Shape {
            head: Head::SetOf,
            label: bare(),
            kids: vec![Shape {
                head: Head::DictOf,
                label: bare(),
                kids: vec![leaf(Head::Text), leaf(Head::Boolean)],
            }],
        }
    );
}

#[test]
fn discriminant_width_grows_with_the_variants() {
    assert_eq!(discriminant_width(0), 0);
    assert_eq!(discriminant_width(1), 0);
    assert_eq!(discriminant_width(2), 8);
    assert_eq!(discriminant_width(256), 8);
    assert_eq!(discriminant_width(257), 16);
    assert_eq!(discriminant_width(65536), 16);
    assert_eq!(discriminant_width(65537), 32);
}

#[test]
fn resolve_follows_aliases() {
    let mut graph = TypeGraph::new();
    graph.add(TypeNode::Text);
    graph.add(TypeNode::Alias("A".to_string(), 0));
    graph.add(TypeNode::Alias("B".to_string(), 1));
    graph.add(TypeNode::Alias("C".to_string(), 4));
    graph.add(TypeNode::Alias("D".to_string(), 3));
    graph.add(TypeNode::Alias("E".to_string(), 77));
    assert_eq!(graph.len(), 6);
    assert_eq!(graph.resolve(0), Some(0));
    assert_eq!(graph.resolve(2), Some(0));
    assert_eq!(graph.resolve(3), None);
    assert_eq!(graph.resolve(4), None);
    assert_eq!(graph.resolve(5), None);
    assert_eq!(graph.resolve(6), None);
    assert!(graph.get(6).is_none());
    assert!(matches!(graph.get(1), Some(TypeNode::Alias(_, 0))));
}

#[test]
fn kids_are_listed_in_written_order() {
    let union = TypeNode::TagUnion(vec![
        Variant { name: "A".to_string(), payload: vec![3, 1] },
        Variant { name: "B".to_string(), payload: vec![] },
        Variant { name: "C".to_string(), payload: vec![4] },
    ]);
    assert_eq!(union.kids(), vec![3, 1, 4]);
    assert_eq!(TypeNode::DictOf(7, 8).kids(), vec![7, 8]);
    assert_eq!(TypeNode::Function(vec![1, 2], 3).kids(), Vec::<usize>::new());
    assert_eq!(TypeNode::Apply("T".to_string(), vec![5, 6]).kids(), vec![5, 6]);
    assert_eq!(TypeNode::Number.kids(), Vec::<usize>::new());
}
