use ontostore::model::{Axiom, ClassExpression, ObjectPropertyExpression};
use ontostore::store::OntologyStore;
use ontostore::tree::GenericTree;

fn declare(c: &str) -> Axiom {
    Axiom::DeclareClass(c.to_string())
}

fn subclass(sub: &str, sup: &str) -> Axiom {
    Axiom::SubClassOf {
        sub: ClassExpression::AtomicClass(sub.to_string()),
        sup: ClassExpression::AtomicClass(sup.to_string()),
    }
}

fn annotation(subject: &str, property: &str, value: &str) -> Axiom {
    Axiom::AnnotationAssertion {
        subject: subject.to_string(),
        property: property.to_string(),
        value: value.to_string(),
    }
}

#[test]
fn scenario_declare_and_subclass() {
    let mut store = OntologyStore::new();
    store.insert(declare("Dog"));
    store.insert(declare("Animal"));
    store.insert(subclass("Dog", "Animal"));

    let subs = store.lookup_direct_subclasses(&"Animal".to_string());
    assert_eq!(subs, vec!["Dog".to_string()]);

    let sups = store.lookup_direct_superclasses(&"Dog".to_string());
    assert_eq!(sups, vec!["Animal".to_string()]);

    let classes = store.lookup_all_declared_classes();
    assert_eq!(classes.len(), 2);
    assert!(classes.contains(&"Dog".to_string()));
    assert!(classes.contains(&"Animal".to_string()));
}

#[test]
fn scenario_label_reverse_lookup() {
    let mut store = OntologyStore::new();
    store.insert(annotation("Dog", "label", "Canine"));
    assert_eq!(
        store.lookup_identifier_for_label(&"Canine".to_string()),
        Some("Dog".to_string())
    );
}

#[test]
fn label_upsert_keeps_one_label_axiom() {
    let mut store = OntologyStore::new();
    store.set_label("x".to_string(), "A".to_string());
    store.set_label("x".to_string(), "B".to_string());

    assert_eq!(store.lookup_identifier_for_label(&"A".to_string()), None);
    assert_eq!(store.lookup_identifier_for_label(&"B".to_string()), Some("x".to_string()));
    assert_eq!(store.lookup_label(&"x".to_string()), Some("B".to_string()));

    let label_axioms: Vec<Axiom> = store
        .list_all_axioms()
        .into_iter()
        .filter(|a| matches!(a, Axiom::AnnotationAssertion { subject, property, .. }
            if subject == "x" && property == "label"))
        .collect();
    assert_eq!(label_axioms, vec![annotation("x", "label", "B")]);
}

#[test]
fn index_symmetry_for_inserted_edges() {
    let mut store = OntologyStore::new();
    store.insert(subclass("Dog", "Animal"));
    store.insert(subclass("Cat", "Animal"));
    store.insert(subclass("Puppy", "Dog"));

    for (sub, sup) in [("Dog", "Animal"), ("Cat", "Animal"), ("Puppy", "Dog")] {
        let subs = store.lookup_direct_subclasses(&sup.to_string());
        let sups = store.lookup_direct_superclasses(&sub.to_string());
        assert!(subs.contains(&sub.to_string()));
        assert!(sups.contains(&sup.to_string()));
    }
}

#[test]
fn duplicate_insert_keeps_set_semantics() {
    let mut store = OntologyStore::new();
    store.insert(declare("Dog"));
    store.insert(declare("Dog"));
    assert_eq!(store.list_all_axioms(), vec![declare("Dog")]);
}

#[test]
fn remove_retracts_axiom_and_indices() {
    let mut store = OntologyStore::new();
    store.insert(subclass("Dog", "Animal"));
    store.insert(annotation("Dog", "label", "Canine"));
    store.remove(&subclass("Dog", "Animal"));
    store.remove(&annotation("Dog", "label", "Canine"));

    assert!(store.list_all_axioms().is_empty());
    assert!(store.lookup_direct_subclasses(&"Animal".to_string()).is_empty());
    assert!(store.lookup_direct_superclasses(&"Dog".to_string()).is_empty());
    assert_eq!(store.lookup_identifier_for_label(&"Canine".to_string()), None);
}

#[test]
fn remove_of_absent_axiom_changes_nothing() {
    let mut store = OntologyStore::new();
    store.insert(declare("Dog"));
    store.remove(&declare("Cat"));
    assert_eq!(store.list_all_axioms(), vec![declare("Dog")]);
}

#[test]
fn lookups_miss_with_empty_results_not_errors() {
    let store = OntologyStore::new();
    assert_eq!(store.lookup_identifier_for_label(&"nothing".to_string()), None);
    assert_eq!(store.lookup_label(&"nothing".to_string()), None);
    assert!(store.lookup_direct_subclasses(&"nothing".to_string()).is_empty());
    assert!(store.lookup_direct_superclasses(&"nothing".to_string()).is_empty());
    assert!(store.lookup_all_declared_classes().is_empty());
    assert!(store.lookup_axioms_for_subject(&"nothing".to_string()).is_empty());
    assert_eq!(
        store.lookup_annotation_value(&"nothing".to_string(), &"label".to_string()),
        None
    );
}

#[test]
fn annotation_value_first_match_wins() {
    let mut store = OntologyStore::new();
    store.insert(annotation("Dog", "comment", "first"));
    store.insert(annotation("Dog", "comment", "second"));
    assert_eq!(
        store.lookup_annotation_value(&"Dog".to_string(), &"comment".to_string()),
        Some("first".to_string())
    );
}

#[test]
fn axioms_for_subject_filters_by_subject() {
    let mut store = OntologyStore::new();
    store.insert(declare("Dog"));
    store.insert(declare("Cat"));
    store.insert(subclass("Dog", "Animal"));
    store.insert(annotation("Dog", "comment", "good"));

    let axioms = store.lookup_axioms_for_subject(&"Dog".to_string());
    assert_eq!(axioms.len(), 3);
    assert!(axioms.contains(&declare("Dog")));
    assert!(axioms.contains(&subclass("Dog", "Animal")));
    assert!(axioms.contains(&annotation("Dog", "comment", "good")));
}

#[test]
fn from_axioms_replays_inserts() {
    let axioms = vec![
        declare("Dog"),
        declare("Animal"),
        subclass("Dog", "Animal"),
        annotation("Dog", "label", "Canine"),
    ];
    let store = OntologyStore::from_axioms(&axioms);
    assert_eq!(store.lookup_direct_subclasses(&"Animal".to_string()), vec!["Dog".to_string()]);
    assert_eq!(
        store.lookup_identifier_for_label(&"Canine".to_string()),
        Some("Dog".to_string())
    );
    assert_eq!(store.list_all_axioms().len(), 4);
}

#[test]
fn insert_tree_decodes_then_inserts() {
    let mut store = OntologyStore::new();
    let tree = GenericTree::Node(vec![
        GenericTree::Leaf("DeclareClass".to_string()),
        GenericTree::Leaf("Dog".to_string()),
    ]);
    assert_eq!(store.insert_tree(&tree), Ok(()));
    assert_eq!(store.list_all_axioms(), vec![declare("Dog")]);

    let bad = GenericTree::Node(vec![
        GenericTree::Leaf("NotARealTag".to_string()),
        GenericTree::Leaf("x".to_string()),
    ]);
    assert!(store.insert_tree(&bad).is_err());
    assert_eq!(store.list_all_axioms(), vec![declare("Dog")]);
}

#[test]
fn remove_tree_decodes_then_removes() {
    let mut store = OntologyStore::new();
    store.insert(declare("Dog"));
    let tree = GenericTree::Node(vec![
        GenericTree::Leaf("DeclareClass".to_string()),
        GenericTree::Leaf("Dog".to_string()),
    ]);
    assert_eq!(store.remove_tree(&tree), Ok(()));
    assert!(store.list_all_axioms().is_empty());
}

#[test]
fn non_atomic_subclass_is_stored_but_not_indexed() {
    let mut store = OntologyStore::new();
    store.insert(Axiom::SubClassOf {
        sub: ClassExpression::AtomicClass("Dog".to_string()),
        sup: ClassExpression::SomeValuesFrom {
            property: ObjectPropertyExpression::Property("hasPart".to_string()),
            filler: Box::new(ClassExpression::AtomicClass("Tail".to_string())),
        },
    });
    assert_eq!(store.list_all_axioms().len(), 1);
    assert!(store.lookup_direct_superclasses(&"Dog".to_string()).is_empty());
}
