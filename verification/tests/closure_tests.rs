use ontostore::model::{Axiom, ClassExpression};
use ontostore::store::OntologyStore;

fn subclass(sub: &str, sup: &str) -> Axiom {
    Axiom::SubClassOf {
        sub: ClassExpression::AtomicClass(sub.to_string()),
        sup: ClassExpression::AtomicClass(sup.to_string()),
    }
}

fn as_sorted(mut v: Vec<String>) -> Vec<String> {
    v.sort();
    v
}

#[test]
fn closure_is_reflexive() {
    let store = OntologyStore::new();
    assert_eq!(store.descendants_of(&"Lonely".to_string()), vec!["Lonely".to_string()]);
    assert_eq!(store.ancestors_of(&"Lonely".to_string()), vec!["Lonely".to_string()]);
}

#[test]
fn chain_descendants_and_ancestors() {
    // A is the direct superclass of B, B of C, C of D
    let mut store = OntologyStore::new();
    store.insert(subclass("B", "A"));
    store.insert(subclass("C", "B"));
    store.insert(subclass("D", "C"));

    assert_eq!(
        as_sorted(store.descendants_of(&"A".to_string())),
        vec!["A".to_string(), "B".to_string(), "C".to_string(), "D".to_string()]
    );
    assert_eq!(
        as_sorted(store.ancestors_of(&"D".to_string())),
        vec!["A".to_string(), "B".to_string(), "C".to_string(), "D".to_string()]
    );
    assert_eq!(
        as_sorted(store.descendants_of(&"C".to_string())),
        vec!["C".to_string(), "D".to_string()]
    );
    assert_eq!(
        as_sorted(store.ancestors_of(&"B".to_string())),
        vec!["A".to_string(), "B".to_string()]
    );
}

#[test]
fn closure_is_transitive_membership() {
    let mut store = OntologyStore::new();
    store.insert(subclass("Puppy", "Dog"));
    store.insert(subclass("Dog", "Mammal"));
    store.insert(subclass("Mammal", "Animal"));
    store.insert(subclass("Cat", "Mammal"));

    let descendants = store.descendants_of(&"Animal".to_string());
    // everything below Animal, Animal included
    for c in ["Animal", "Mammal", "Dog", "Cat", "Puppy"] {
        assert!(descendants.contains(&c.to_string()), "missing {c}");
    }
    assert_eq!(descendants.len(), 5);

    // b in descendants(a) and c in descendants(b) imply c in descendants(a)
    let via_mammal = store.descendants_of(&"Mammal".to_string());
    assert!(via_mammal.contains(&"Puppy".to_string()));
    assert!(descendants.contains(&"Puppy".to_string()));
}

#[test]
fn diamond_counts_each_class_once() {
    let mut store = OntologyStore::new();
    store.insert(subclass("B", "A"));
    store.insert(subclass("C", "A"));
    store.insert(subclass("D", "B"));
    store.insert(subclass("D", "C"));

    let descendants = store.descendants_of(&"A".to_string());
    assert_eq!(
        as_sorted(descendants),
        vec!["A".to_string(), "B".to_string(), "C".to_string(), "D".to_string()]
    );
}

#[test]
fn cycle_terminates_with_both_members() {
    // a cycle formed by two mutual subclass axioms must not loop the traversal
    let mut store = OntologyStore::new();
    store.insert(subclass("A", "B"));
    store.insert(subclass("B", "A"));

    assert_eq!(
        as_sorted(store.descendants_of(&"A".to_string())),
        vec!["A".to_string(), "B".to_string()]
    );
    assert_eq!(
        as_sorted(store.ancestors_of(&"A".to_string())),
        vec!["A".to_string(), "B".to_string()]
    );
}
