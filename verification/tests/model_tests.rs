use ontostore::model::{Axiom, ClassExpression, ObjectPropertyExpression};

fn some_values(prop: &str, filler: ClassExpression) -> ClassExpression {
    ClassExpression::SomeValuesFrom {
        property: ObjectPropertyExpression::Property(prop.to_string()),
        filler: Box::new(filler),
    }
}

#[test]
fn duplicate_preserves_structure() {
    let ax = Axiom::SubClassOf {
        sub: ClassExpression::AtomicClass("A".to_string()),
        sup: some_values(
            "p",
            ClassExpression::Intersection(vec![
                ClassExpression::AtomicClass("B".to_string()),
                ClassExpression::Complement(Box::new(ClassExpression::AtomicClass(
                    "C".to_string(),
                ))),
            ]),
        ),
    };
    let copy = ax.duplicate();
    assert_eq!(ax, copy);
    assert!(ax.axiom_eq(&copy));
}

#[test]
fn axiom_eq_distinguishes_values_and_variants() {
    let a = Axiom::DeclareClass("A".to_string());
    let b = Axiom::DeclareClass("B".to_string());
    assert!(!a.axiom_eq(&b));
    assert!(!a.axiom_eq(&Axiom::EquivalentClasses(vec![])));

    let x = some_values("p", ClassExpression::AtomicClass("A".to_string()));
    let y = some_values("q", ClassExpression::AtomicClass("A".to_string()));
    assert!(!x.class_eq(&y));
    assert!(x.class_eq(&x.duplicate()));
}

#[test]
fn prop_eq_tells_inverse_from_plain() {
    let p = ObjectPropertyExpression::Property("p".to_string());
    let ip = ObjectPropertyExpression::InverseProperty("p".to_string());
    assert!(!p.prop_eq(&ip));
    assert!(p.prop_eq(&p.duplicate()));
    assert!(ip.prop_eq(&ip.duplicate()));
}
