use ontostore::codec::{decode_axiom, encode_axiom, DecodeError};
use ontostore::model::{Axiom, ClassExpression, ObjectPropertyExpression};
use ontostore::tree::GenericTree;

fn leaf(s: &str) -> GenericTree {
    GenericTree::Leaf(s.to_string())
}

fn node(children: Vec<GenericTree>) -> GenericTree {
    GenericTree::Node(children)
}

#[test]
fn round_trip_declare_class() {
    let ax = Axiom::DeclareClass("Dog".to_string());
    let tree = encode_axiom(&ax);
    assert_eq!(tree, node(vec![leaf("DeclareClass"), leaf("Dog")]));
    assert_eq!(decode_axiom(&tree), Ok(ax));
}

#[test]
fn round_trip_subclass_of_atomic() {
    let ax = Axiom::SubClassOf {
        sub: ClassExpression::AtomicClass("Dog".to_string()),
        sup: ClassExpression::AtomicClass("Animal".to_string()),
    };
    let tree = encode_axiom(&ax);
    // atomic class expressions collapse to bare identifier tokens
    assert_eq!(tree, node(vec![leaf("SubClassOf"), leaf("Dog"), leaf("Animal")]));
    assert_eq!(decode_axiom(&tree), Ok(ax));
}

#[test]
fn round_trip_subclass_of_some_values_from() {
    let ax = Axiom::SubClassOf {
        sub: ClassExpression::AtomicClass("Dog".to_string()),
        sup: ClassExpression::SomeValuesFrom {
            property: ObjectPropertyExpression::Property("hasPart".to_string()),
            filler: Box::new(ClassExpression::AtomicClass("Tail".to_string())),
        },
    };
    let tree = encode_axiom(&ax);
    assert_eq!(
        tree,
        node(vec![
            leaf("SubClassOf"),
            leaf("Dog"),
            node(vec![leaf("ObjectSomeValuesFrom"), leaf("hasPart"), leaf("Tail")]),
        ])
    );
    assert_eq!(decode_axiom(&tree), Ok(ax));
}

#[test]
fn round_trip_nested_some_values_from() {
    let ax = Axiom::SubClassOf {
        sub: ClassExpression::SomeValuesFrom {
            property: ObjectPropertyExpression::Property("partOf".to_string()),
            filler: Box::new(ClassExpression::AtomicClass("Paw".to_string())),
        },
        sup: ClassExpression::SomeValuesFrom {
            property: ObjectPropertyExpression::Property("hasPart".to_string()),
            filler: Box::new(ClassExpression::SomeValuesFrom {
                property: ObjectPropertyExpression::Property("touches".to_string()),
                filler: Box::new(ClassExpression::AtomicClass("Ground".to_string())),
            }),
        },
    };
    let tree = encode_axiom(&ax);
    assert_eq!(decode_axiom(&tree), Ok(ax));
}

#[test]
fn round_trip_annotation_assertion() {
    let ax = Axiom::AnnotationAssertion {
        subject: "Dog".to_string(),
        property: "label".to_string(),
        value: "Canine".to_string(),
    };
    let tree = encode_axiom(&ax);
    assert_eq!(
        tree,
        node(vec![leaf("AnnotationAssertion"), leaf("Dog"), leaf("label"), leaf("Canine")])
    );
    assert_eq!(decode_axiom(&tree), Ok(ax));
}

#[test]
fn unknown_tag_is_a_decode_error_not_a_fallback() {
    let tree = node(vec![leaf("NotARealTag"), leaf("x")]);
    assert_eq!(decode_axiom(&tree), Err(DecodeError::UnknownTag("NotARealTag".to_string())));
}

#[test]
fn leaf_root_is_a_decode_error() {
    assert_eq!(decode_axiom(&leaf("DeclareClass")), Err(DecodeError::ExpectedNode));
}

#[test]
fn empty_node_is_a_decode_error() {
    assert_eq!(decode_axiom(&node(vec![])), Err(DecodeError::MissingTag));
}

#[test]
fn node_tag_must_be_a_leaf() {
    let tree = node(vec![node(vec![leaf("DeclareClass")]), leaf("x")]);
    assert_eq!(decode_axiom(&tree), Err(DecodeError::ExpectedTag));
}

#[test]
fn wrong_arity_is_a_decode_error() {
    let tree = node(vec![leaf("DeclareClass"), leaf("A"), leaf("B")]);
    assert_eq!(decode_axiom(&tree), Err(DecodeError::WrongArity("DeclareClass".to_string())));
    let tree = node(vec![leaf("SubClassOf"), leaf("A")]);
    assert_eq!(decode_axiom(&tree), Err(DecodeError::WrongArity("SubClassOf".to_string())));
    let tree = node(vec![leaf("AnnotationAssertion"), leaf("A"), leaf("B")]);
    assert_eq!(
        decode_axiom(&tree),
        Err(DecodeError::WrongArity("AnnotationAssertion".to_string()))
    );
}

#[test]
fn identifier_positions_must_be_leaves() {
    let tree = node(vec![leaf("DeclareClass"), node(vec![leaf("x"), leaf("y")])]);
    assert_eq!(decode_axiom(&tree), Err(DecodeError::ExpectedIdentifier));
}

#[test]
fn bad_nested_class_expression_error_propagates() {
    let tree = node(vec![
        leaf("SubClassOf"),
        leaf("Dog"),
        node(vec![leaf("ObjectUnionOf"), leaf("A"), leaf("B")]),
    ]);
    assert_eq!(decode_axiom(&tree), Err(DecodeError::UnknownTag("ObjectUnionOf".to_string())));
}

#[test]
fn encode_only_intersection_and_complement() {
    let ax = Axiom::SubClassOf {
        sub: ClassExpression::AtomicClass("A".to_string()),
        sup: ClassExpression::Intersection(vec![
            ClassExpression::AtomicClass("B".to_string()),
            ClassExpression::Complement(Box::new(ClassExpression::AtomicClass("C".to_string()))),
        ]),
    };
    let tree = encode_axiom(&ax);
    assert_eq!(
        tree,
        node(vec![
            leaf("SubClassOf"),
            leaf("A"),
            node(vec![
                leaf("ObjectIntersectionOf"),
                leaf("B"),
                node(vec![leaf("ObjectComplementOf"), leaf("C")]),
            ]),
        ])
    );
}

#[test]
fn encode_only_all_values_from_and_inverse_property() {
    let ax = Axiom::SubClassOf {
        sub: ClassExpression::AtomicClass("A".to_string()),
        sup: ClassExpression::AllValuesFrom {
            property: ObjectPropertyExpression::InverseProperty("hasPart".to_string()),
            filler: Box::new(ClassExpression::AtomicClass("B".to_string())),
        },
    };
    let tree = encode_axiom(&ax);
    assert_eq!(
        tree,
        node(vec![
            leaf("SubClassOf"),
            leaf("A"),
            node(vec![
                leaf("ObjectAllValuesFrom"),
                node(vec![leaf("InverseObjectProperty"), leaf("hasPart")]),
                leaf("B"),
            ]),
        ])
    );
}

#[test]
fn encode_equivalent_classes() {
    let ax = Axiom::EquivalentClasses(vec![
        ClassExpression::AtomicClass("A".to_string()),
        ClassExpression::AtomicClass("B".to_string()),
    ]);
    let tree = encode_axiom(&ax);
    assert_eq!(tree, node(vec![leaf("EquivalentClasses"), leaf("A"), leaf("B")]));
}

#[test]
fn empty_equivalent_classes_collapses_to_its_tag() {
    let ax = Axiom::EquivalentClasses(vec![]);
    assert_eq!(encode_axiom(&ax), leaf("EquivalentClasses"));
}

#[test]
fn tree_helpers_duplicate_and_compare() {
    let t = node(vec![leaf("a"), node(vec![leaf("b")])]);
    let copy = t.duplicate();
    assert!(t.tree_eq(&copy));
    assert_eq!(t, copy);
    assert!(!t.tree_eq(&leaf("a")));
}
