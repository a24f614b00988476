//! The indexed ontology store: the full axiom set plus three derived indices
//! (label to identifier, class to direct subclasses, class to direct
//! superclasses), rebuilt incrementally on every insert.
//!
//! Removal policy: `remove` retracts the derived index entries of the removed
//! axiom, keeping every index consistent with the axiom set.

use vstd::prelude::*;

use crate::codec::{decode_axiom, decode_axiom_model, DecodeError};
use crate::model::{Axiom, AxiomModel, ClassExpression, ClassModel};
use crate::tree::GenericTree;

verus! {

/// The reserved annotation property that binds a human-readable label to an
/// identifier.
pub open spec fn label_property() -> Seq<char> {
    "label"@
}

/// The label axiom for `subject` with label text `value`.
pub open spec fn label_axiom(subject: Seq<char>, value: Seq<char>) -> AxiomModel {
    AxiomModel::AnnotationAssertion { subject, property: label_property(), value }
}

/// The subclass axiom stating that atomic class `sub` is a direct subclass of
/// atomic class `sup`.
pub open spec fn subclass_axiom(sub: Seq<char>, sup: Seq<char>) -> AxiomModel {
    AxiomModel::SubClassOf { sub: ClassModel::AtomicClass(sub), sup: ClassModel::AtomicClass(sup) }
}

/// Whether `a` asserts a label for some subject.
pub open spec fn is_label_axiom(a: AxiomModel) -> bool {
    a matches AxiomModel::AnnotationAssertion { property, .. } && property == label_property()
}

/// Whether `a` asserts a label for `subject` in particular.
pub open spec fn is_label_axiom_for(a: AxiomModel, subject: Seq<char>) -> bool {
    is_label_axiom(a) && a->AnnotationAssertion_subject == subject
}

/// Mathematical model of the store: the axiom sequence and the three derived
/// maps.
#[verifier::ext_equal]
pub struct StoreModel {
    pub axioms: Seq<AxiomModel>,
    pub labels: Map<Seq<char>, Seq<char>>,
    pub subclasses: Map<Seq<char>, Set<Seq<char>>>,
    pub superclasses: Map<Seq<char>, Set<Seq<char>>>,
}

/// The position of the label axiom for `subject`, if one is present.
pub open spec fn find_label_index(axioms: Seq<AxiomModel>, subject: Seq<char>) -> Option<int>
    decreases axioms.len(),
{
    if axioms.len() == 0 {
        None
    } else if is_label_axiom_for(axioms[0], subject) {
        Some(0)
    } else {
        match find_label_index(axioms.subrange(1, axioms.len() as int), subject) {
            Some(i) => Some(i + 1),
            None => None,
        }
    }
}

/// `find_label_index` returns the first position holding a label axiom for
/// `subject`, or nothing when there is none.
pub proof fn lemma_find_label_index(axioms: Seq<AxiomModel>, subject: Seq<char>)
    ensures
        match find_label_index(axioms, subject) {
            Some(i) => 0 <= i < axioms.len() && is_label_axiom_for(axioms[i], subject) && forall|
                j: int,
            | 0 <= j < i ==> !is_label_axiom_for(axioms[j], subject),
            None => forall|j: int|
                0 <= j < axioms.len() ==> !is_label_axiom_for(axioms[j], subject),
        },
    decreases axioms.len(),
{
    if axioms.len() > 0 {
        let tail = axioms.subrange(1, axioms.len() as int);
        lemma_find_label_index(tail, subject);
        assert(forall|j: int| 0 <= j < tail.len() ==> tail[j] == axioms[j + 1]);
        if !is_label_axiom_for(axioms[0], subject) {
            match find_label_index(tail, subject) {
                Some(i) => {
                    assert forall|j: int| 0 <= j < i + 1 implies !is_label_axiom_for(
                        axioms[j],
                        subject,
                    ) by {
                        if j > 0 {
                            assert(tail[j - 1] == axioms[j]);
                        }
                    }
                },
                None => {
                    assert forall|j: int| 0 <= j < axioms.len() implies !is_label_axiom_for(
                        axioms[j],
                        subject,
                    ) by {
                        if j > 0 {
                            assert(tail[j - 1] == axioms[j]);
                        }
                    }
                },
            }
        }
    }
}

/// Add an edge to an adjacency map, creating the key's set on first use.
pub open spec fn add_edge(
    m: Map<Seq<char>, Set<Seq<char>>>,
    key: Seq<char>,
    value: Seq<char>,
) -> Map<Seq<char>, Set<Seq<char>>> {
    let present = if m.contains_key(key) {
        m[key]
    } else {
        Set::empty()
    };
    m.insert(key, present.insert(value))
}

/// Retract an edge from an adjacency map, if its key is present.
pub open spec fn remove_edge(
    m: Map<Seq<char>, Set<Seq<char>>>,
    key: Seq<char>,
    value: Seq<char>,
) -> Map<Seq<char>, Set<Seq<char>>> {
    if m.contains_key(key) {
        m.insert(key, m[key].remove(value))
    } else {
        m
    }
}

/// What inserting one axiom does to the store model.
///
/// A label assertion upserts: the previous label axiom for the same subject
/// (if any) leaves the axiom set, its reverse-index entry is retracted, and
/// the new label wins the reverse index. An atomic-to-atomic subclass axiom
/// records its edge in both adjacency maps. Every axiom joins the axiom set,
/// which keeps set semantics under structural equality.
pub open spec fn store_insert(s: StoreModel, a: AxiomModel) -> StoreModel {
    if is_label_axiom(a) {
        let subject = a->AnnotationAssertion_subject;
        let value = a->AnnotationAssertion_value;
        let (axioms1, labels1) = match find_label_index(s.axioms, subject) {
            Some(i) => {
                let old_value = s.axioms[i]->AnnotationAssertion_value;
                let labels0 = if s.labels.contains_key(old_value) && s.labels[old_value]
                    == subject {
                    s.labels.remove(old_value)
                } else {
                    s.labels
                };
                (s.axioms.remove(i), labels0)
            },
            None => (s.axioms, s.labels),
        };
        StoreModel {
            axioms: axioms1.push(a),
            labels: labels1.insert(value, subject),
            subclasses: s.subclasses,
            superclasses: s.superclasses,
        }
    } else if s.axioms.contains(a) {
        s
    } else if a matches AxiomModel::SubClassOf {
        sub: ClassModel::AtomicClass(_),
        sup: ClassModel::AtomicClass(_),
    } {
        let sub = a->SubClassOf_sub->AtomicClass_0;
        let sup = a->SubClassOf_sup->AtomicClass_0;
        StoreModel {
            axioms: s.axioms.push(a),
            labels: s.labels,
            subclasses: add_edge(s.subclasses, sup, sub),
            superclasses: add_edge(s.superclasses, sub, sup),
        }
    } else {
        StoreModel { axioms: s.axioms.push(a), labels: s.labels, ..s }
    }
}

/// What inserting a whole sequence of axioms, in order, does to the store
/// model.
pub open spec fn store_insert_all(s: StoreModel, axioms: Seq<AxiomModel>) -> StoreModel
    decreases axioms.len(),
{
    if axioms.len() == 0 {
        s
    } else {
        store_insert_all(store_insert(s, axioms[0]), axioms.subrange(1, axioms.len() as int))
    }
}

/// The position of the first axiom structurally equal to `a`, if any.
pub open spec fn find_axiom_index(axioms: Seq<AxiomModel>, a: AxiomModel) -> Option<int>
    decreases axioms.len(),
{
    if axioms.len() == 0 {
        None
    } else if axioms[0] == a {
        Some(0)
    } else {
        match find_axiom_index(axioms.subrange(1, axioms.len() as int), a) {
            Some(i) => Some(i + 1),
            None => None,
        }
    }
}

/// `find_axiom_index` returns the first position equal to `a`, or nothing
/// when `a` is absent.
pub proof fn lemma_find_axiom_index(axioms: Seq<AxiomModel>, a: AxiomModel)
    ensures
        match find_axiom_index(axioms, a) {
            Some(i) => 0 <= i < axioms.len() && axioms[i] == a && forall|j: int|
                0 <= j < i ==> axioms[j] != a,
            None => !axioms.contains(a),
        },
    decreases axioms.len(),
{
    if axioms.len() > 0 {
        let tail = axioms.subrange(1, axioms.len() as int);
        lemma_find_axiom_index(tail, a);
        assert(forall|j: int| 0 <= j < tail.len() ==> tail[j] == axioms[j + 1]);
        if axioms[0] != a {
            match find_axiom_index(tail, a) {
                Some(i) => {
                    assert forall|j: int| 0 <= j < i + 1 implies axioms[j] != a by {
                        if j > 0 {
                            assert(tail[j - 1] == axioms[j]);
                        }
                    }
                },
                None => {
                    assert forall|j: int| 0 <= j < axioms.len() implies axioms[j] != a by {
                        if j > 0 {
                            assert(tail[j - 1] == axioms[j]);
                        }
                    }
                    assert(!axioms.contains(a));
                },
            }
        }
    }
}

/// What removing one axiom does to the store model: the first structurally
/// equal axiom leaves the set, and the derived index entries it justified are
/// retracted.
pub open spec fn store_remove(s: StoreModel, a: AxiomModel) -> StoreModel {
    match find_axiom_index(s.axioms, a) {
        None => s,
        Some(i) => {
            let axioms1 = s.axioms.remove(i);
            if is_label_axiom(a) {
                let subject = a->AnnotationAssertion_subject;
                let value = a->AnnotationAssertion_value;
                let labels1 = if s.labels.contains_key(value) && s.labels[value] == subject {
                    s.labels.remove(value)
                } else {
                    s.labels
                };
                StoreModel { axioms: axioms1, labels: labels1, ..s }
            } else if a matches AxiomModel::SubClassOf {
                sub: ClassModel::AtomicClass(_),
                sup: ClassModel::AtomicClass(_),
            } {
                let sub = a->SubClassOf_sub->AtomicClass_0;
                let sup = a->SubClassOf_sup->AtomicClass_0;
                StoreModel {
                    axioms: axioms1,
                    labels: s.labels,
                    subclasses: remove_edge(s.subclasses, sup, sub),
                    superclasses: remove_edge(s.superclasses, sub, sup),
                }
            } else {
                StoreModel { axioms: axioms1, ..s }
            }
        },
    }
}

/// Well-formedness of the store model: the axiom set holds no structural
/// duplicates and at most one label axiom per subject; every reverse-index
/// entry is justified by a label axiom in the set; and an edge stands in an
/// adjacency map exactly when its subclass axiom stands in the set.
pub open spec fn store_wf(s: StoreModel) -> bool {
    &&& (forall|i: int, j: int|
        0 <= i < j < s.axioms.len() ==> s.axioms[i] != s.axioms[j])
    &&& (forall|i: int, j: int|
        0 <= i < j < s.axioms.len() && is_label_axiom(#[trigger] s.axioms[i]) && is_label_axiom(
            #[trigger] s.axioms[j],
        ) ==> s.axioms[i]->AnnotationAssertion_subject != s.axioms[j]->AnnotationAssertion_subject)
    &&& (forall|l: Seq<char>|
        #[trigger] s.labels.contains_key(l) ==> s.axioms.contains(label_axiom(s.labels[l], l)))
    &&& (forall|c: Seq<char>, d: Seq<char>|
        #[trigger] edge_in(s.subclasses, c, d) <==> s.axioms.contains(subclass_axiom(d, c)))
    &&& (forall|c: Seq<char>, d: Seq<char>|
        #[trigger] edge_in(s.superclasses, d, c) <==> s.axioms.contains(subclass_axiom(d, c)))
}

/// Whether the adjacency map `m` holds `value` under `key`.
pub open spec fn edge_in(m: Map<Seq<char>, Set<Seq<char>>>, key: Seq<char>, value: Seq<char>) -> bool {
    m.contains_key(key) && m[key].contains(value)
}

/// The empty store model.
pub open spec fn store_empty() -> StoreModel {
    StoreModel {
        axioms: Seq::empty(),
        labels: Map::empty(),
        subclasses: Map::empty(),
        superclasses: Map::empty(),
    }
}

/// Inserting any axiom preserves well-formedness.
pub proof fn lemma_insert_wf(s: StoreModel, a: AxiomModel)
    requires
        store_wf(s),
    ensures
        store_wf(store_insert(s, a)),
{
    let s1 = store_insert(s, a);
    let n = s.axioms.len() as int;
    if is_label_axiom(a) {
        let subject = a->AnnotationAssertion_subject;
        let value = a->AnnotationAssertion_value;
        lemma_find_label_index(s.axioms, subject);
        match find_label_index(s.axioms, subject) {
            Some(i) => {
                let removed = s.axioms.remove(i);
                assert(forall|k: int| 0 <= k < i ==> removed[k] == s.axioms[k]);
                assert(forall|k: int| i <= k < n - 1 ==> removed[k] == s.axioms[k + 1]);
                assert(forall|k: int| 0 <= k < n - 1 ==> s1.axioms[k] == removed[k]);
                assert(s1.axioms[n - 1] == a);
                // a duplicates no surviving axiom: a second label axiom for
                // the same subject would contradict well-formedness.
                assert forall|k: int| 0 <= k < n - 1 implies removed[k] != a by {
                    if removed[k] == a {
                        let k0 = if k < i { k } else { k + 1 };
                        assert(s.axioms[k0] == a);
                        assert(is_label_axiom_for(s.axioms[k0], subject));
                        assert(is_label_axiom_for(s.axioms[i], subject));
                    }
                }
                assert forall|x: AxiomModel| x != a && x != s.axioms[i] implies #[trigger] s1.axioms.contains(x) == s.axioms.contains(x) by {
                    lemma_remove_push_contains(s.axioms, i, a, x);
                }
                assert forall|l: Seq<char>| #[trigger] s1.labels.contains_key(l) implies s1.axioms.contains(label_axiom(s1.labels[l], l)) by {
                    if l == value {
                        assert(s1.axioms[n - 1] == a);
                        assert(a == label_axiom(subject, value));
                    } else {
                        assert(s.labels.contains_key(l) && s.labels[l] == s1.labels[l]);
                        let la = label_axiom(s.labels[l], l);
                        assert(s.axioms.contains(la));
                        assert(la != a);
                        assert(la != s.axioms[i]) by {
                            if la == s.axioms[i] {
                                // then l is the old value and maps to subject,
                                // so l would have been retracted
                                assert(is_label_axiom_for(la, s.labels[l]));
                            }
                        }
                        assert(s1.axioms.contains(la));
                    }
                }
                assert forall|c: Seq<char>, d: Seq<char>| s1.axioms.contains(subclass_axiom(d, c)) == s.axioms.contains(subclass_axiom(d, c)) by {
                    assert(subclass_axiom(d, c) != a && subclass_axiom(d, c) != s.axioms[i]);
                    lemma_remove_push_contains(s.axioms, i, a, subclass_axiom(d, c));
                }
            },
            None => {
                assert(forall|k: int| 0 <= k < n ==> s1.axioms[k] == s.axioms[k]);
                assert(s1.axioms[n] == a);
                assert forall|k: int| 0 <= k < n implies s.axioms[k] != a by {
                    if s.axioms[k] == a {
                        assert(is_label_axiom_for(s.axioms[k], subject));
                    }
                }
                assert forall|l: Seq<char>| #[trigger] s1.labels.contains_key(l) implies s1.axioms.contains(label_axiom(s1.labels[l], l)) by {
                    if l == value {
                        assert(s1.axioms[n] == a);
                        assert(a == label_axiom(subject, value));
                    } else {
                        let la = label_axiom(s.labels[l], l);
                        lemma_push_contains(s.axioms, a, la);
                    }
                }
                assert forall|c: Seq<char>, d: Seq<char>| s1.axioms.contains(subclass_axiom(d, c)) == s.axioms.contains(subclass_axiom(d, c)) by {
                    lemma_push_contains(s.axioms, a, subclass_axiom(d, c));
                }
            },
        }
    } else if s.axioms.contains(a) {
    } else {
        assert(forall|k: int| 0 <= k < n ==> s1.axioms[k] == s.axioms[k]);
        assert(s1.axioms[n] == a);
        assert forall|x: AxiomModel| #[trigger] s1.axioms.contains(x) == (s.axioms.contains(x) || x == a) by {
            lemma_push_contains(s.axioms, a, x);
        }
        assert forall|k: int| 0 <= k < n implies s.axioms[k] != a by {
            if s.axioms[k] == a {
                assert(s.axioms.contains(a));
            }
        }
        assert forall|l: Seq<char>| #[trigger] s1.labels.contains_key(l) implies s1.axioms.contains(label_axiom(s1.labels[l], l)) by {
            let la = label_axiom(s.labels[l], l);
            assert(s.axioms.contains(la));
            assert(la != a);
        }
        if a matches AxiomModel::SubClassOf { sub: ClassModel::AtomicClass(_), sup: ClassModel::AtomicClass(_) } {
            let sub = a->SubClassOf_sub->AtomicClass_0;
            let sup = a->SubClassOf_sup->AtomicClass_0;
            assert(a == subclass_axiom(sub, sup));
            assert forall|c: Seq<char>, d: Seq<char>| #[trigger] edge_in(s1.subclasses, c, d) <==> s1.axioms.contains(subclass_axiom(d, c)) by {
                if c == sup && d == sub {
                    assert(edge_in(s1.subclasses, c, d));
                    assert(s1.axioms.contains(a));
                } else {
                    assert(subclass_axiom(d, c) != a);
                    assert(edge_in(s1.subclasses, c, d) == edge_in(s.subclasses, c, d));
                }
            }
            assert forall|c: Seq<char>, d: Seq<char>| #[trigger] edge_in(s1.superclasses, d, c) <==> s1.axioms.contains(subclass_axiom(d, c)) by {
                if c == sup && d == sub {
                    assert(edge_in(s1.superclasses, d, c));
                    assert(s1.axioms.contains(a));
                } else {
                    assert(subclass_axiom(d, c) != a);
                    assert(edge_in(s1.superclasses, d, c) == edge_in(s.superclasses, d, c));
                }
            }
        } else {
            assert forall|c: Seq<char>, d: Seq<char>| subclass_axiom(d, c) != a by {}
        }
    }
}


/// Membership in a sequence after pushing an element.
pub proof fn lemma_push_contains(s: Seq<AxiomModel>, pushed: AxiomModel, x: AxiomModel)
    ensures
        s.push(pushed).contains(x) == (s.contains(x) || x == pushed),
{
    if s.contains(x) {
        let k = choose|k: int| 0 <= k < s.len() && s[k] == x;
        assert(s.push(pushed)[k] == x);
    }
    if x == pushed {
        assert(s.push(pushed)[s.len() as int] == x);
    }
    if s.push(pushed).contains(x) && x != pushed {
        let k = choose|k: int| 0 <= k < s.push(pushed).len() && s.push(pushed)[k] == x;
        assert(k < s.len());
        assert(s[k] == x);
    }
}

/// Membership in a sequence after removing position `i` and pushing `pushed`,
/// for an element that is neither the removed one nor the pushed one.
pub proof fn lemma_remove_push_contains(s: Seq<AxiomModel>, i: int, pushed: AxiomModel, x: AxiomModel)
    requires
        0 <= i < s.len(),
        x != s[i],
        x != pushed,
    ensures
        s.remove(i).push(pushed).contains(x) == s.contains(x),
{
    let r = s.remove(i).push(pushed);
    if s.contains(x) {
        let k = choose|k: int| 0 <= k < s.len() && s[k] == x;
        if k < i {
            assert(r[k] == x);
        } else {
            assert(r[k - 1] == x);
        }
    }
    if r.contains(x) {
        let k = choose|k: int| 0 <= k < r.len() && r[k] == x;
        assert(k < s.len() - 1);
        if k < i {
            assert(s[k] == x);
        } else {
            assert(s[k + 1] == x);
        }
    }
}

/// Removing any axiom preserves well-formedness.
pub proof fn lemma_remove_wf(s: StoreModel, a: AxiomModel)
    requires
        store_wf(s),
    ensures
        store_wf(store_remove(s, a)),
{
    lemma_find_axiom_index(s.axioms, a);
    match find_axiom_index(s.axioms, a) {
        None => {},
        Some(i) => {
            let s1 = store_remove(s, a);
            let n = s.axioms.len() as int;
            let axioms1 = s.axioms.remove(i);
            assert(forall|k: int| 0 <= k < i ==> axioms1[k] == s.axioms[k]);
            assert(forall|k: int| i <= k < n - 1 ==> axioms1[k] == s.axioms[k + 1]);
            assert forall|x: AxiomModel| #[trigger] axioms1.contains(x) == (s.axioms.contains(x)
                && x != a) by {
                if axioms1.contains(x) {
                    let k = choose|k: int| 0 <= k < axioms1.len() && axioms1[k] == x;
                    let k0 = if k < i { k } else { k + 1 };
                    assert(s.axioms[k0] == x);
                    assert(x != a);
                }
                if s.axioms.contains(x) && x != a {
                    let k = choose|k: int| 0 <= k < s.axioms.len() && s.axioms[k] == x;
                    assert(k != i);
                    if k < i {
                        assert(axioms1[k] == x);
                    } else {
                        assert(axioms1[k - 1] == x);
                    }
                }
            }
            assert forall|l: Seq<char>| #[trigger] s1.labels.contains_key(l) implies
                s1.axioms.contains(label_axiom(s1.labels[l], l)) by {
                let la = label_axiom(s.labels[l], l);
                assert(s.axioms.contains(la));
                assert(la != a) by {
                    if la == a {
                        assert(is_label_axiom(a));
                        assert(a->AnnotationAssertion_value == l);
                        assert(s.labels[l] == a->AnnotationAssertion_subject);
                    }
                }
            }
            if a matches AxiomModel::SubClassOf {
                sub: ClassModel::AtomicClass(_),
                sup: ClassModel::AtomicClass(_),
            } {
                let sub = a->SubClassOf_sub->AtomicClass_0;
                let sup = a->SubClassOf_sup->AtomicClass_0;
                assert(a == subclass_axiom(sub, sup));
                assert forall|c: Seq<char>, d: Seq<char>| #[trigger] edge_in(s1.subclasses, c, d)
                    <==> s1.axioms.contains(subclass_axiom(d, c)) by {
                    if c == sup && d == sub {
                        assert(!axioms1.contains(a));
                        assert(!edge_in(s1.subclasses, c, d));
                    } else {
                        assert(subclass_axiom(d, c) != a);
                        assert(edge_in(s1.subclasses, c, d) == edge_in(s.subclasses, c, d));
                    }
                }
                assert forall|c: Seq<char>, d: Seq<char>| #[trigger] edge_in(s1.superclasses, d, c)
                    <==> s1.axioms.contains(subclass_axiom(d, c)) by {
                    if c == sup && d == sub {
                        assert(!axioms1.contains(a));
                        assert(!edge_in(s1.superclasses, d, c));
                    } else {
                        assert(subclass_axiom(d, c) != a);
                        assert(edge_in(s1.superclasses, d, c) == edge_in(s.superclasses, d, c));
                    }
                }
            } else {
                assert forall|c: Seq<char>, d: Seq<char>| subclass_axiom(d, c) != a by {}
            }
        },
    }
}

/// The set of identifier strings a vector holds, as mathematical values.
pub open spec fn set_of_strings(v: Seq<String>) -> Set<Seq<char>> {
    Set::new(|x: Seq<char>| exists|i: int| 0 <= i < v.len() && v[i]@ == x)
}

/// The map an association list of label/identifier pairs stands for.
pub open spec fn pairs_map(s: Seq<(String, String)>) -> Map<Seq<char>, Seq<char>> {
    Map::new(
        |k: Seq<char>| exists|i: int| 0 <= i < s.len() && s[i].0@ == k,
        |k: Seq<char>|
            {
                let i = choose|i: int| 0 <= i < s.len() && s[i].0@ == k;
                s[i].1@
            },
    )
}

/// The adjacency map an association list of identifier/neighbours entries
/// stands for.
pub open spec fn edges_map(s: Seq<(String, Vec<String>)>) -> Map<Seq<char>, Set<Seq<char>>> {
    Map::new(
        |k: Seq<char>| exists|i: int| 0 <= i < s.len() && s[i].0@ == k,
        |k: Seq<char>|
            {
                let i = choose|i: int| 0 <= i < s.len() && s[i].0@ == k;
                set_of_strings(s[i].1@)
            },
    )
}

/// Keys of a pair list are distinct.
pub open spec fn pairs_keys_unique(s: Seq<(String, String)>) -> bool {
    forall|i: int, j: int| 0 <= i < j < s.len() ==> s[i].0@ != s[j].0@
}

/// Keys of an adjacency list are distinct.
pub open spec fn edges_keys_unique(s: Seq<(String, Vec<String>)>) -> bool {
    forall|i: int, j: int| 0 <= i < j < s.len() ==> s[i].0@ != s[j].0@
}

/// With distinct keys, each entry of a pair list is what the map gives for
/// its key.
pub proof fn lemma_pairs_map_entry(s: Seq<(String, String)>, i: int)
    requires
        pairs_keys_unique(s),
        0 <= i < s.len(),
    ensures
        pairs_map(s).contains_key(s[i].0@),
        pairs_map(s)[s[i].0@] == s[i].1@,
{
    let k = s[i].0@;
    let j = choose|j: int| 0 <= j < s.len() && s[j].0@ == k;
    assert(j == i);
}

/// With distinct keys, each entry of an adjacency list is what the map gives
/// for its key.
pub proof fn lemma_edges_map_entry(s: Seq<(String, Vec<String>)>, i: int)
    requires
        edges_keys_unique(s),
        0 <= i < s.len(),
    ensures
        edges_map(s).contains_key(s[i].0@),
        edges_map(s)[s[i].0@] == set_of_strings(s[i].1@),
{
    let k = s[i].0@;
    let j = choose|j: int| 0 <= j < s.len() && s[j].0@ == k;
    assert(j == i);
}

/// Appending a pair with a fresh key inserts it into the map.
pub proof fn lemma_pairs_map_push(s: Seq<(String, String)>, p: (String, String))
    requires
        pairs_keys_unique(s),
        forall|i: int| 0 <= i < s.len() ==> s[i].0@ != p.0@,
    ensures
        pairs_keys_unique(s.push(p)),
        pairs_map(s.push(p)) == pairs_map(s).insert(p.0@, p.1@),
{
    let s1 = s.push(p);
    let n = s.len() as int;
    assert(forall|i: int| 0 <= i < n ==> s1[i] == s[i]);
    assert(s1[n] == p);
    assert forall|k: Seq<char>| pairs_map(s1).contains_key(k) == pairs_map(s).insert(
        p.0@,
        p.1@,
    ).contains_key(k) by {
        if k == p.0@ {
            assert(s1[n].0@ == k);
        } else {
            if pairs_map(s1).contains_key(k) {
                let i = choose|i: int| 0 <= i < s1.len() && s1[i].0@ == k;
                assert(i < n && s[i].0@ == k);
            }
            if pairs_map(s).contains_key(k) {
                let i = choose|i: int| 0 <= i < s.len() && s[i].0@ == k;
                assert(s1[i].0@ == k);
            }
        }
    }
    assert forall|k: Seq<char>| #[trigger]
        pairs_map(s1).contains_key(k) implies pairs_map(s1)[k] == pairs_map(s).insert(
        p.0@,
        p.1@,
    )[k] by {
        let i = choose|i: int| 0 <= i < s1.len() && s1[i].0@ == k;
        if k == p.0@ {
            assert(i == n);
        } else {
            assert(i < n);
            assert(s[i].0@ == k);
            let j = choose|j: int| 0 <= j < s.len() && s[j].0@ == k;
            assert(j == i);
        }
    }
    assert(pairs_map(s1) =~= pairs_map(s).insert(p.0@, p.1@));
}

/// Removing a pair removes its key from the map.
pub proof fn lemma_pairs_map_remove(s: Seq<(String, String)>, i: int)
    requires
        pairs_keys_unique(s),
        0 <= i < s.len(),
    ensures
        pairs_keys_unique(s.remove(i)),
        pairs_map(s.remove(i)) == pairs_map(s).remove(s[i].0@),
{
    let s1 = s.remove(i);
    let n = s.len() as int;
    assert(forall|k: int| 0 <= k < i ==> s1[k] == s[k]);
    assert(forall|k: int| i <= k < n - 1 ==> s1[k] == s[k + 1]);
    assert forall|k: Seq<char>| pairs_map(s1).contains_key(k) == pairs_map(s).remove(
        s[i].0@,
    ).contains_key(k) by {
        if pairs_map(s1).contains_key(k) {
            let j = choose|j: int| 0 <= j < s1.len() && s1[j].0@ == k;
            let j0 = if j < i { j } else { j + 1 };
            assert(s[j0].0@ == k);
            assert(j0 != i || k != s[i].0@);
            assert(k != s[i].0@);
        }
        if k != s[i].0@ && pairs_map(s).contains_key(k) {
            let j = choose|j: int| 0 <= j < s.len() && s[j].0@ == k;
            assert(j != i);
            if j < i {
                assert(s1[j].0@ == k);
            } else {
                assert(s1[j - 1].0@ == k);
            }
        }
    }
    assert forall|k: Seq<char>| #[trigger]
        pairs_map(s1).contains_key(k) implies pairs_map(s1)[k] == pairs_map(s)[k] by {
        let j = choose|j: int| 0 <= j < s1.len() && s1[j].0@ == k;
        let j0 = if j < i { j } else { j + 1 };
        assert(s[j0].0@ == k);
        let j1 = choose|j1: int| 0 <= j1 < s.len() && s[j1].0@ == k;
        assert(j1 == j0);
        assert(s1[j].1@ == s[j0].1@);
    }
    assert(pairs_map(s1) =~= pairs_map(s).remove(s[i].0@));
}

/// Appending an adjacency entry with a fresh key inserts it into the map.
pub proof fn lemma_edges_map_push(s: Seq<(String, Vec<String>)>, p: (String, Vec<String>))
    requires
        edges_keys_unique(s),
        forall|i: int| 0 <= i < s.len() ==> s[i].0@ != p.0@,
    ensures
        edges_keys_unique(s.push(p)),
        edges_map(s.push(p)) == edges_map(s).insert(p.0@, set_of_strings(p.1@)),
{
    let s1 = s.push(p);
    let n = s.len() as int;
    assert(forall|i: int| 0 <= i < n ==> s1[i] == s[i]);
    assert(s1[n] == p);
    assert forall|k: Seq<char>| edges_map(s1).contains_key(k) == edges_map(s).insert(
        p.0@,
        set_of_strings(p.1@),
    ).contains_key(k) by {
        if k == p.0@ {
            assert(s1[n].0@ == k);
        } else {
            if edges_map(s1).contains_key(k) {
                let i = choose|i: int| 0 <= i < s1.len() && s1[i].0@ == k;
                assert(i < n && s[i].0@ == k);
            }
            if edges_map(s).contains_key(k) {
                let i = choose|i: int| 0 <= i < s.len() && s[i].0@ == k;
                assert(s1[i].0@ == k);
            }
        }
    }
    assert forall|k: Seq<char>| #[trigger]
        edges_map(s1).contains_key(k) implies edges_map(s1)[k] == edges_map(s).insert(
        p.0@,
        set_of_strings(p.1@),
    )[k] by {
        let i = choose|i: int| 0 <= i < s1.len() && s1[i].0@ == k;
        if k == p.0@ {
            assert(i == n);
        } else {
            assert(i < n);
            assert(s[i].0@ == k);
            let j = choose|j: int| 0 <= j < s.len() && s[j].0@ == k;
            assert(j == i);
        }
    }
    assert(edges_map(s1) =~= edges_map(s).insert(p.0@, set_of_strings(p.1@)));
}

/// Removing an adjacency entry removes its key from the map.
pub proof fn lemma_edges_map_remove(s: Seq<(String, Vec<String>)>, i: int)
    requires
        edges_keys_unique(s),
        0 <= i < s.len(),
    ensures
        edges_keys_unique(s.remove(i)),
        edges_map(s.remove(i)) == edges_map(s).remove(s[i].0@),
{
    let s1 = s.remove(i);
    let n = s.len() as int;
    assert(forall|k: int| 0 <= k < i ==> s1[k] == s[k]);
    assert(forall|k: int| i <= k < n - 1 ==> s1[k] == s[k + 1]);
    assert forall|k: Seq<char>| edges_map(s1).contains_key(k) == edges_map(s).remove(
        s[i].0@,
    ).contains_key(k) by {
        if edges_map(s1).contains_key(k) {
            let j = choose|j: int| 0 <= j < s1.len() && s1[j].0@ == k;
            let j0 = if j < i { j } else { j + 1 };
            assert(s[j0].0@ == k);
            assert(k != s[i].0@);
        }
        if k != s[i].0@ && edges_map(s).contains_key(k) {
            let j = choose|j: int| 0 <= j < s.len() && s[j].0@ == k;
            assert(j != i);
            if j < i {
                assert(s1[j].0@ == k);
            } else {
                assert(s1[j - 1].0@ == k);
            }
        }
    }
    assert forall|k: Seq<char>| #[trigger]
        edges_map(s1).contains_key(k) implies edges_map(s1)[k] == edges_map(s)[k] by {
        let j = choose|j: int| 0 <= j < s1.len() && s1[j].0@ == k;
        let j0 = if j < i { j } else { j + 1 };
        assert(s[j0].0@ == k);
        let j1 = choose|j1: int| 0 <= j1 < s.len() && s[j1].0@ == k;
        assert(j1 == j0);
        assert(s1[j].1@ == s[j0].1@);
    }
    assert(edges_map(s1) =~= edges_map(s).remove(s[i].0@));
}

/// The mathematical values of a vector of axioms, in order.
pub open spec fn axiom_views(s: Seq<Axiom>) -> Seq<AxiomModel> {
    s.map_values(|a: Axiom| a.view())
}

/// The strings of a vector are pairwise distinct as mathematical values.
pub open spec fn strings_unique(v: Seq<String>) -> bool {
    forall|i: int, j: int| 0 <= i < j < v.len() ==> v[i]@ != v[j]@
}

/// Every adjacency entry holds pairwise distinct neighbours.
pub open spec fn edges_values_unique(s: Seq<(String, Vec<String>)>) -> bool {
    forall|e: int| 0 <= e < s.len() ==> strings_unique(#[trigger] s[e].1@)
}

/// Pushing a string inserts its value into the set a vector stands for.
pub proof fn lemma_set_of_strings_push(v: Seq<String>, x: String)
    ensures
        set_of_strings(v.push(x)) == set_of_strings(v).insert(x@),
{
    let v1 = v.push(x);
    let n = v.len() as int;
    assert forall|y: Seq<char>| set_of_strings(v1).contains(y) == set_of_strings(v).insert(
        x@,
    ).contains(y) by {
        if y == x@ {
            assert(v1[n]@ == y);
        } else {
            if set_of_strings(v1).contains(y) {
                let i = choose|i: int| 0 <= i < v1.len() && v1[i]@ == y;
                assert(i < n && v[i]@ == y);
            }
            if set_of_strings(v).contains(y) {
                let i = choose|i: int| 0 <= i < v.len() && v[i]@ == y;
                assert(v1[i]@ == y);
            }
        }
    }
    assert(set_of_strings(v1) =~= set_of_strings(v).insert(x@));
}

/// Removing the one occurrence of a string removes its value from the set a
/// vector stands for.
pub proof fn lemma_set_of_strings_remove(v: Seq<String>, i: int)
    requires
        strings_unique(v),
        0 <= i < v.len(),
    ensures
        strings_unique(v.remove(i)),
        set_of_strings(v.remove(i)) == set_of_strings(v).remove(v[i]@),
{
    let v1 = v.remove(i);
    let n = v.len() as int;
    assert(forall|k: int| 0 <= k < i ==> v1[k] == v[k]);
    assert(forall|k: int| i <= k < n - 1 ==> v1[k] == v[k + 1]);
    assert forall|y: Seq<char>| set_of_strings(v1).contains(y) == set_of_strings(v).remove(
        v[i]@,
    ).contains(y) by {
        if set_of_strings(v1).contains(y) {
            let j = choose|j: int| 0 <= j < v1.len() && v1[j]@ == y;
            let j0 = if j < i { j } else { j + 1 };
            assert(v[j0]@ == y);
            assert(y != v[i]@);
        }
        if y != v[i]@ && set_of_strings(v).contains(y) {
            let j = choose|j: int| 0 <= j < v.len() && v[j]@ == y;
            assert(j != i);
            if j < i {
                assert(v1[j]@ == y);
            } else {
                assert(v1[j - 1]@ == y);
            }
        }
    }
    assert(set_of_strings(v1) =~= set_of_strings(v).remove(v[i]@));
}

/// Whether a vector holds a string with the given value.
fn vec_contains_string(v: &Vec<String>, x: &String) -> (r: bool)
    ensures
        r == set_of_strings(v@).contains(x@),
{
    let mut i: usize = 0;
    while i < v.len()
        invariant
            i <= v@.len(),
            forall|j: int| 0 <= j < i ==> v@[j]@ != x@,
        decreases v@.len() - i,
    {
        if v[i] == *x {
            return true;
        }
        i = i + 1;
    }
    false
}

/// The position of a key in a pair list, if present.
fn pairs_find(v: &Vec<(String, String)>, key: &String) -> (r: Option<usize>)
    ensures
        match r {
            Some(i) => i < v@.len() && v@[i as int].0@ == key@,
            None => !pairs_map(v@).contains_key(key@),
        },
{
    let mut i: usize = 0;
    while i < v.len()
        invariant
            i <= v@.len(),
            forall|j: int| 0 <= j < i ==> v@[j].0@ != key@,
        decreases v@.len() - i,
    {
        if v[i].0 == *key {
            return Some(i);
        }
        i = i + 1;
    }
    None
}

/// The position of a key in an adjacency list, if present.
pub(crate) fn edges_find(v: &Vec<(String, Vec<String>)>, key: &String) -> (r: Option<usize>)
    ensures
        match r {
            Some(i) => i < v@.len() && v@[i as int].0@ == key@,
            None => !edges_map(v@).contains_key(key@),
        },
{
    let mut i: usize = 0;
    while i < v.len()
        invariant
            i <= v@.len(),
            forall|j: int| 0 <= j < i ==> v@[j].0@ != key@,
        decreases v@.len() - i,
    {
        if v[i].0 == *key {
            return Some(i);
        }
        i = i + 1;
    }
    None
}

/// Record `val` as a neighbour of `key`, creating the entry on first use.
fn add_edge_entry(list: &mut Vec<(String, Vec<String>)>, key: &String, val: &String)
    requires
        edges_keys_unique(old(list)@),
        edges_values_unique(old(list)@),
    ensures
        edges_keys_unique(final(list)@),
        edges_values_unique(final(list)@),
        edges_map(final(list)@) == add_edge(edges_map(old(list)@), key@, val@),
{
    let ghost m0 = edges_map(old(list)@);
    match edges_find(list, key) {
        Some(i) => {
            proof {
                lemma_edges_map_entry(list@, i as int);
                lemma_edges_map_remove(list@, i as int);
            }
            let entry = list.remove(i);
            let (k, mut vals) = entry;
            let ghost vals0 = vals@;
            if !vec_contains_string(&vals, val) {
                vals.push(val.clone());
                proof {
                    lemma_set_of_strings_push(vals0, vals@.last());
                }
            } else {
                proof {
                    assert(set_of_strings(vals@) =~= set_of_strings(vals0).insert(val@));
                }
            }
            let ghost mid = list@;
            proof {
                assert(forall|j: int| 0 <= j < mid.len() ==> mid[j].0@ != k@);
            }
            list.push((k, vals));
            proof {
                lemma_edges_map_push(mid, (k, vals));
                assert(edges_map(list@) =~= add_edge(m0, key@, val@));
            }
        },
        None => {
            let mut vals: Vec<String> = Vec::new();
            vals.push(val.clone());
            let ghost mid = list@;
            list.push((key.clone(), vals));
            proof {
                lemma_edges_map_push(mid, list@.last());
                assert(list@.last().1@[0]@ == val@);
                assert(set_of_strings(list@.last().1@) =~= Set::empty().insert(val@));
                assert(edges_map(list@) =~= add_edge(m0, key@, val@));
            }
        },
    }
}

/// Retract `val` as a neighbour of `key`, if the entry is present.
fn remove_edge_entry(list: &mut Vec<(String, Vec<String>)>, key: &String, val: &String)
    requires
        edges_keys_unique(old(list)@),
        edges_values_unique(old(list)@),
    ensures
        edges_keys_unique(final(list)@),
        edges_values_unique(final(list)@),
        edges_map(final(list)@) == remove_edge(edges_map(old(list)@), key@, val@),
{
    let ghost m0 = edges_map(old(list)@);
    match edges_find(list, key) {
        None => {},
        Some(i) => {
            proof {
                lemma_edges_map_entry(list@, i as int);
                lemma_edges_map_remove(list@, i as int);
            }
            let entry = list.remove(i);
            let (k, mut vals) = entry;
            let ghost vals0 = vals@;
            let mut j: usize = 0;
            let mut found: bool = false;
            while j < vals.len() && !found
                invariant
                    j <= vals@.len(),
                    !found ==> forall|q: int| 0 <= q < j ==> vals@[q]@ != val@,
                    found ==> j < vals@.len() && vals@[j as int]@ == val@,
                    vals@ == vals0,
                decreases vals@.len() - j, (if found { 0int } else { 1int }),
            {
                if vals[j] == *val {
                    found = true;
                } else {
                    j = j + 1;
                }
            }
            if found {
                proof {
                    lemma_set_of_strings_remove(vals@, j as int);
                }
                vals.remove(j);
            } else {
                proof {
                    assert(set_of_strings(vals@) =~= set_of_strings(vals0).remove(val@));
                }
            }
            let ghost mid = list@;
            proof {
                assert(forall|q: int| 0 <= q < mid.len() ==> mid[q].0@ != k@);
            }
            list.push((k, vals));
            proof {
                lemma_edges_map_push(mid, (k, vals));
                assert(edges_map(list@) =~= remove_edge(m0, key@, val@));
            }
        },
    }
}

/// Pushing an axiom pushes its value onto the view sequence.
pub proof fn lemma_axiom_views_push(s: Seq<Axiom>, a: Axiom)
    ensures
        axiom_views(s.push(a)) == axiom_views(s).push(a.view()),
{
    assert(axiom_views(s.push(a)) =~= axiom_views(s).push(a.view()));
}

/// Removing an axiom removes its value from the view sequence.
pub proof fn lemma_axiom_views_remove(s: Seq<Axiom>, i: int)
    requires
        0 <= i < s.len(),
    ensures
        axiom_views(s.remove(i)) == axiom_views(s).remove(i),
{
    assert(axiom_views(s.remove(i)) =~= axiom_views(s).remove(i));
}

/// The position of the label axiom for `subject` in a vector of axioms.
fn find_label_pos(axioms: &Vec<Axiom>, subject: &String) -> (r: Option<usize>)
    ensures
        match r {
            Some(i) => i < axioms@.len() && find_label_index(axiom_views(axioms@), subject@)
                == Some(i as int),
            None => find_label_index(axiom_views(axioms@), subject@) is None,
        },
{
    let label_prop = "label".to_owned();
    let ghost views = axiom_views(axioms@);
    proof {
        lemma_find_label_index(views, subject@);
    }
    let mut i: usize = 0;
    while i < axioms.len()
        invariant
            i <= axioms@.len(),
            label_prop@ == label_property(),
            views == axiom_views(axioms@),
            forall|j: int| 0 <= j < i ==> !is_label_axiom_for(views[j], subject@),
        decreases axioms@.len() - i,
    {
        let hit = match &axioms[i] {
            Axiom::AnnotationAssertion { subject: s2, property, value: _ } => *property
                == label_prop && *s2 == *subject,
            _ => false,
        };
        proof {
            assert(views[i as int] == axioms@[i as int].view());
            assert(hit == is_label_axiom_for(views[i as int], subject@));
        }
        if hit {
            proof {
                lemma_find_label_index(views, subject@);
            }
            return Some(i);
        }
        i = i + 1;
    }
    proof {
        lemma_find_label_index(views, subject@);
    }
    None
}

/// The position of the first axiom structurally equal to `a` in a vector.
fn find_axiom_pos(axioms: &Vec<Axiom>, a: &Axiom) -> (r: Option<usize>)
    ensures
        match r {
            Some(i) => i < axioms@.len() && find_axiom_index(axiom_views(axioms@), a@) == Some(
                i as int,
            ),
            None => find_axiom_index(axiom_views(axioms@), a@) is None,
        },
{
    let ghost views = axiom_views(axioms@);
    let mut i: usize = 0;
    while i < axioms.len()
        invariant
            i <= axioms@.len(),
            views == axiom_views(axioms@),
            forall|j: int| 0 <= j < i ==> views[j] != a@,
        decreases axioms@.len() - i,
    {
        let hit = axioms[i].axiom_eq(a);
        proof {
            assert(views[i as int] == axioms@[i as int].view());
        }
        if hit {
            proof {
                lemma_find_axiom_index(views, a@);
            }
            return Some(i);
        }
        i = i + 1;
    }
    proof {
        lemma_find_axiom_index(views, a@);
    }
    None
}

/// The indexed ontology store: the axiom set, the reverse label index and the
/// two adjacency indices for the direct subclass relation.
pub struct OntologyStore {
    axioms: Vec<Axiom>,
    labels: Vec<(String, String)>,
    subclasses: Vec<(String, Vec<String>)>,
    superclasses: Vec<(String, Vec<String>)>,
}

impl OntologyStore {
    /// The mathematical value of this store.
    pub closed spec fn view(self) -> StoreModel {
        StoreModel {
            axioms: axiom_views(self.axioms@),
            labels: pairs_map(self.labels@),
            subclasses: edges_map(self.subclasses@),
            superclasses: edges_map(self.superclasses@),
        }
    }

    /// Internal well-formedness: the model invariants hold and the backing
    /// association lists have distinct keys and distinct neighbours.
    pub closed spec fn wf(self) -> bool {
        &&& store_wf(self.view())
        &&& pairs_keys_unique(self.labels@)
        &&& edges_keys_unique(self.subclasses@)
        &&& edges_values_unique(self.subclasses@)
        &&& edges_keys_unique(self.superclasses@)
        &&& edges_values_unique(self.superclasses@)
    }

    /// Create an empty store.
    pub fn new() -> (r: Self)
        ensures
            r.wf(),
            r@ == store_empty(),
    {
        let r = OntologyStore {
            axioms: Vec::new(),
            labels: Vec::new(),
            subclasses: Vec::new(),
            superclasses: Vec::new(),
        };
        proof {
            assert(r@.axioms =~= store_empty().axioms);
            assert(r@.labels =~= store_empty().labels);
            assert(r@.subclasses =~= store_empty().subclasses);
            assert(r@.superclasses =~= store_empty().superclasses);
            assert(r@ =~= store_empty());
        }
        r
    }

    /// Insert one axiom, upserting a label assertion and indexing an
    /// atomic-to-atomic subclass axiom.
    pub fn insert(&mut self, ax: Axiom)
        requires
            old(self).wf(),
        ensures
            final(self).wf(),
            final(self)@ == store_insert(old(self)@, ax@),
    {
        proof {
            lemma_insert_wf(old(self)@, ax@);
        }
        let label_prop = "label".to_owned();
        let is_label = match &ax {
            Axiom::AnnotationAssertion { subject: _, property, value: _ } => *property
                == label_prop,
            _ => false,
        };
        proof {
            assert(is_label == is_label_axiom(ax@));
        }
        if is_label {
            let (subject, value) = match &ax {
                Axiom::AnnotationAssertion { subject, property: _, value } => (
                    subject.clone(),
                    value.clone(),
                ),
                _ => (String::new(), String::new()),
            };
            match find_label_pos(&self.axioms, &subject) {
                Some(i) => {
                    proof {
                        lemma_find_label_index(axiom_views(self.axioms@), subject@);
                        lemma_axiom_views_remove(self.axioms@, i as int);
                    }
                    let old_ax = self.axioms.remove(i);
                    let old_value = match &old_ax {
                        Axiom::AnnotationAssertion { subject: _, property: _, value } => value.clone(),
                        _ => String::new(),
                    };
                    match pairs_find(&self.labels, &old_value) {
                        Some(j) => {
                            proof {
                                lemma_pairs_map_entry(self.labels@, j as int);
                            }
                            if self.labels[j].1 == subject {
                                proof {
                                    lemma_pairs_map_remove(self.labels@, j as int);
                                }
                                self.labels.remove(j);
                            }
                        },
                        None => {},
                    }
                },
                None => {},
            }
            let ghost axioms_mid = self.axioms@;
            self.axioms.push(ax);
            proof {
                lemma_axiom_views_push(axioms_mid, self.axioms@.last());
            }
            match pairs_find(&self.labels, &value) {
                Some(j) => {
                    proof {
                        lemma_pairs_map_entry(self.labels@, j as int);
                        lemma_pairs_map_remove(self.labels@, j as int);
                    }
                    self.labels.remove(j);
                },
                None => {},
            }
            let ghost labels_mid = self.labels@;
            self.labels.push((value, subject));
            proof {
                lemma_pairs_map_push(labels_mid, self.labels@.last());
                assert(pairs_map(self.labels@) =~= store_insert(old(self)@, ax@).labels);
                assert(self@ =~= store_insert(old(self)@, ax@));
            }
        } else {
            match find_axiom_pos(&self.axioms, &ax) {
                Some(_) => {
                    proof {
                        lemma_find_axiom_index(axiom_views(self.axioms@), ax@);
                        assert(self@.axioms.contains(ax@));
                        assert(self@ =~= store_insert(old(self)@, ax@));
                    }
                },
                None => {
                    proof {
                        lemma_find_axiom_index(axiom_views(self.axioms@), ax@);
                    }
                    let (atomic, sub_id, sup_id) = match &ax {
                        Axiom::SubClassOf {
                            sub: ClassExpression::AtomicClass(sub_id),
                            sup: ClassExpression::AtomicClass(sup_id),
                        } => (true, sub_id.clone(), sup_id.clone()),
                        _ => (false, String::new(), String::new()),
                    };
                    let ghost axioms_mid = self.axioms@;
                    self.axioms.push(ax);
                    proof {
                        lemma_axiom_views_push(axioms_mid, self.axioms@.last());
                    }
                    if atomic {
                        add_edge_entry(&mut self.subclasses, &sup_id, &sub_id);
                        add_edge_entry(&mut self.superclasses, &sub_id, &sup_id);
                    }
                    proof {
                        assert(self@ =~= store_insert(old(self)@, ax@));
                    }
                },
            }
        }
    }

    /// Remove the axiom structurally equal to `axiom`, retracting the index
    /// entries it justified; absent axioms leave the store unchanged.
    pub fn remove(&mut self, ax: &Axiom)
        requires
            old(self).wf(),
        ensures
            final(self).wf(),
            final(self)@ == store_remove(old(self)@, ax@),
    {
        proof {
            lemma_remove_wf(old(self)@, ax@);
        }
        match find_axiom_pos(&self.axioms, ax) {
            None => {},
            Some(i) => {
                proof {
                    lemma_find_axiom_index(axiom_views(self.axioms@), ax@);
                    lemma_axiom_views_remove(self.axioms@, i as int);
                }
                self.axioms.remove(i);
                let label_prop = "label".to_owned();
                match ax {
                    Axiom::AnnotationAssertion { subject, property, value } => {
                        if *property == label_prop {
                            match pairs_find(&self.labels, value) {
                                Some(j) => {
                                    proof {
                                        lemma_pairs_map_entry(self.labels@, j as int);
                                    }
                                    if self.labels[j].1 == *subject {
                                        proof {
                                            lemma_pairs_map_remove(self.labels@, j as int);
                                        }
                                        self.labels.remove(j);
                                    }
                                },
                                None => {},
                            }
                        }
                    },
                    Axiom::SubClassOf {
                        sub: ClassExpression::AtomicClass(sub_id),
                        sup: ClassExpression::AtomicClass(sup_id),
                    } => {
                        remove_edge_entry(&mut self.subclasses, sup_id, sub_id);
                        remove_edge_entry(&mut self.superclasses, sub_id, sup_id);
                    },
                    _ => {},
                }
                proof {
                    assert(self@ =~= store_remove(old(self)@, ax@));
                }
            },
        }
    }
}

/// Whether axiom `a` is about subject `id`: it declares it, makes it the
/// atomic subclass of something, or annotates it.
pub open spec fn has_subject(a: AxiomModel, id: Seq<char>) -> bool {
    match a {
        AxiomModel::DeclareClass(c) => c == id,
        AxiomModel::SubClassOf { sub, sup: _ } => sub matches ClassModel::AtomicClass(c) && c
            == id,
        AxiomModel::AnnotationAssertion { subject, .. } => subject == id,
        AxiomModel::EquivalentClasses(_) => false,
    }
}

/// The position of the first annotation of `subject` with `property`, if any.
pub open spec fn find_annotation_index(
    axioms: Seq<AxiomModel>,
    subject: Seq<char>,
    property: Seq<char>,
) -> Option<int>
    decreases axioms.len(),
{
    if axioms.len() == 0 {
        None
    } else if is_annotation_for(axioms[0], subject, property) {
        Some(0)
    } else {
        match find_annotation_index(axioms.subrange(1, axioms.len() as int), subject, property) {
            Some(i) => Some(i + 1),
            None => None,
        }
    }
}

/// Whether `a` annotates `subject` under `property`.
pub open spec fn is_annotation_for(a: AxiomModel, subject: Seq<char>, property: Seq<char>) -> bool {
    a matches AxiomModel::AnnotationAssertion { subject: s, property: p, .. } && s == subject && p
        == property
}

/// `find_annotation_index` returns the first position annotating `subject`
/// under `property`, or nothing when there is none.
pub proof fn lemma_find_annotation_index(
    axioms: Seq<AxiomModel>,
    subject: Seq<char>,
    property: Seq<char>,
)
    ensures
        match find_annotation_index(axioms, subject, property) {
            Some(i) => 0 <= i < axioms.len() && is_annotation_for(axioms[i], subject, property)
                && forall|j: int| 0 <= j < i ==> !is_annotation_for(axioms[j], subject, property),
            None => forall|j: int|
                0 <= j < axioms.len() ==> !is_annotation_for(axioms[j], subject, property),
        },
    decreases axioms.len(),
{
    if axioms.len() > 0 {
        let tail = axioms.subrange(1, axioms.len() as int);
        lemma_find_annotation_index(tail, subject, property);
        assert(forall|j: int| 0 <= j < tail.len() ==> tail[j] == axioms[j + 1]);
        if !is_annotation_for(axioms[0], subject, property) {
            match find_annotation_index(tail, subject, property) {
                Some(i) => {
                    assert forall|j: int| 0 <= j < i + 1 implies !is_annotation_for(
                        axioms[j],
                        subject,
                        property,
                    ) by {
                        if j > 0 {
                            assert(tail[j - 1] == axioms[j]);
                        }
                    }
                },
                None => {
                    assert forall|j: int| 0 <= j < axioms.len() implies !is_annotation_for(
                        axioms[j],
                        subject,
                        property,
                    ) by {
                        if j > 0 {
                            assert(tail[j - 1] == axioms[j]);
                        }
                    }
                },
            }
        }
    }
}

/// Inserting a sequence and then one more axiom is inserting the extended
/// sequence.
pub proof fn lemma_store_insert_all_snoc(s: StoreModel, axioms: Seq<AxiomModel>, a: AxiomModel)
    ensures
        store_insert_all(s, axioms.push(a)) == store_insert(store_insert_all(s, axioms), a),
    decreases axioms.len(),
{
    let pushed = axioms.push(a);
    if axioms.len() == 0 {
        assert(pushed[0] == a);
        assert(pushed.subrange(1, pushed.len() as int) =~= Seq::<AxiomModel>::empty());
        assert(store_insert_all(s, pushed) == store_insert_all(
            store_insert(s, a),
            Seq::<AxiomModel>::empty(),
        ));
        assert(store_insert_all(store_insert(s, a), Seq::<AxiomModel>::empty()) == store_insert(
            s,
            a,
        ));
        assert(axioms =~= Seq::<AxiomModel>::empty());
        assert(store_insert_all(s, axioms) == s);
    } else {
        assert(pushed[0] == axioms[0]);
        assert(pushed.subrange(1, pushed.len() as int) =~= axioms.subrange(
            1,
            axioms.len() as int,
        ).push(a));
        lemma_store_insert_all_snoc(
            store_insert(s, axioms[0]),
            axioms.subrange(1, axioms.len() as int),
            a,
        );
    }
}

/// Copy a vector of identifier strings.
fn clone_string_vec(v: &Vec<String>) -> (r: Vec<String>)
    ensures
        r@.len() == v@.len(),
        forall|i: int| 0 <= i < v@.len() ==> r@[i]@ == v@[i]@,
{
    let mut r: Vec<String> = Vec::new();
    let mut i: usize = 0;
    while i < v.len()
        invariant
            i <= v@.len(),
            r@.len() == i as int,
            forall|j: int| 0 <= j < i ==> r@[j]@ == v@[j]@,
        decreases v@.len() - i,
    {
        r.push(v[i].clone());
        i = i + 1;
    }
    r
}

impl OntologyStore {
    /// Bind `label` to `identifier`, replacing any previous label of
    /// `identifier` (the upsert of the insert path).
    pub fn set_label(&mut self, identifier: String, label: String)
        requires
            old(self).wf(),
        ensures
            final(self).wf(),
            final(self)@ == store_insert(old(self)@, label_axiom(identifier@, label@)),
    {
        let ax = Axiom::AnnotationAssertion {
            subject: identifier,
            property: "label".to_owned(),
            value: label,
        };
        proof {
            assert(ax@ == label_axiom(ax@->AnnotationAssertion_subject,
                ax@->AnnotationAssertion_value));
        }
        self.insert(ax);
    }

    /// Decode a tree and insert the resulting axiom; a malformed tree leaves
    /// the store unchanged and reports why.
    pub fn insert_tree(&mut self, t: &GenericTree) -> (r: Result<(), DecodeError>)
        requires
            old(self).wf(),
        ensures
            final(self).wf(),
            (match r {
                Ok(()) => decode_axiom_model(t.view()) is Ok && final(self)@ == store_insert(
                    old(self)@,
                    decode_axiom_model(t.view())->Ok_0,
                ),
                Err(e) => decode_axiom_model(t.view()) == Err::<AxiomModel, crate::codec::DecodeErrorModel>(e@)
                    && final(self)@ == old(self)@,
            }),
    {
        match decode_axiom(t) {
            Ok(ax) => {
                self.insert(ax);
                Ok(())
            },
            Err(e) => Err(e),
        }
    }

    /// Decode a tree and remove the resulting axiom; a malformed tree leaves
    /// the store unchanged and reports why.
    pub fn remove_tree(&mut self, t: &GenericTree) -> (r: Result<(), DecodeError>)
        requires
            old(self).wf(),
        ensures
            final(self).wf(),
            (match r {
                Ok(()) => decode_axiom_model(t.view()) is Ok && final(self)@ == store_remove(
                    old(self)@,
                    decode_axiom_model(t.view())->Ok_0,
                ),
                Err(e) => decode_axiom_model(t.view()) == Err::<AxiomModel, crate::codec::DecodeErrorModel>(e@)
                    && final(self)@ == old(self)@,
            }),
    {
        match decode_axiom(t) {
            Ok(ax) => {
                self.remove(&ax);
                Ok(())
            },
            Err(e) => Err(e),
        }
    }

    /// The identifier a label is bound to, if any (the reverse label index).
    pub fn lookup_identifier_for_label(&self, label: &String) -> (r: Option<String>)
        requires
            self.wf(),
        ensures
            match r {
                Some(id) => self@.labels.contains_key(label@) && id@ == self@.labels[label@],
                None => !self@.labels.contains_key(label@),
            },
    {
        match pairs_find(&self.labels, label) {
            Some(i) => {
                proof {
                    lemma_pairs_map_entry(self.labels@, i as int);
                }
                Some(self.labels[i].1.clone())
            },
            None => None,
        }
    }

    /// The label bound to `identifier` in the axiom set, if any.
    pub fn lookup_label(&self, identifier: &String) -> (r: Option<String>)
        ensures
            match find_label_index(self@.axioms, identifier@) {
                Some(i) => r is Some && r->0@ == self@.axioms[i]->AnnotationAssertion_value,
                None => r is None,
            },
    {
        proof {
            lemma_find_label_index(self@.axioms, identifier@);
        }
        match find_label_pos(&self.axioms, identifier) {
            Some(i) => match &self.axioms[i] {
                Axiom::AnnotationAssertion { subject: _, property: _, value } => Some(
                    value.clone(),
                ),
                _ => {
                    proof {
                        assert(false);
                    }
                    None
                },
            },
            None => None,
        }
    }

    /// The first annotation value for `subject` under `property`, if any.
    pub fn lookup_annotation_value(&self, subject: &String, property: &String) -> (r: Option<
        String,
    >)
        ensures
            match find_annotation_index(self@.axioms, subject@, property@) {
                Some(i) => r is Some && r->0@ == self@.axioms[i]->AnnotationAssertion_value,
                None => r is None,
            },
    {
        let ghost views = self@.axioms;
        proof {
            lemma_find_annotation_index(views, subject@, property@);
        }
        let mut i: usize = 0;
        while i < self.axioms.len()
            invariant
                i <= self.axioms@.len(),
                views == axiom_views(self.axioms@),
                forall|j: int| 0 <= j < i ==> !is_annotation_for(views[j], subject@, property@),
            decreases self.axioms@.len() - i,
        {
            proof {
                assert(views[i as int] == self.axioms@[i as int].view());
            }
            match &self.axioms[i] {
                Axiom::AnnotationAssertion { subject: s2, property: p2, value } => {
                    if *s2 == *subject && *p2 == *property {
                        proof {
                            lemma_find_annotation_index(views, subject@, property@);
                        }
                        return Some(value.clone());
                    }
                },
                _ => {},
            }
            i = i + 1;
        }
        None
    }

    /// The direct subclasses of `identifier`, as recorded by the subclass
    /// index.
    pub fn lookup_direct_subclasses(&self, identifier: &String) -> (r: Vec<String>)
        requires
            self.wf(),
        ensures
            strings_unique(r@),
            forall|x: Seq<char>|
                #[trigger] set_of_strings(r@).contains(x) <==> edge_in(
                    self@.subclasses,
                    identifier@,
                    x,
                ),
    {
        match edges_find(&self.subclasses, identifier) {
            Some(i) => {
                proof {
                    lemma_edges_map_entry(self.subclasses@, i as int);
                }
                let r = clone_string_vec(&self.subclasses[i].1);
                proof {
                    assert(set_of_strings(r@) =~= set_of_strings(self.subclasses@[i as int].1@));
                }
                r
            },
            None => {
                let r: Vec<String> = Vec::new();
                proof {
                    assert(forall|x: Seq<char>| !set_of_strings(r@).contains(x));
                }
                r
            },
        }
    }

    /// The direct superclasses of `identifier`, as recorded by the superclass
    /// index.
    pub fn lookup_direct_superclasses(&self, identifier: &String) -> (r: Vec<String>)
        requires
            self.wf(),
        ensures
            strings_unique(r@),
            forall|x: Seq<char>|
                #[trigger] set_of_strings(r@).contains(x) <==> edge_in(
                    self@.superclasses,
                    identifier@,
                    x,
                ),
    {
        match edges_find(&self.superclasses, identifier) {
            Some(i) => {
                proof {
                    lemma_edges_map_entry(self.superclasses@, i as int);
                }
                let r = clone_string_vec(&self.superclasses[i].1);
                proof {
                    assert(set_of_strings(r@) =~= set_of_strings(self.superclasses@[i as int].1@));
                }
                r
            },
            None => {
                let r: Vec<String> = Vec::new();
                proof {
                    assert(forall|x: Seq<char>| !set_of_strings(r@).contains(x));
                }
                r
            },
        }
    }

    /// Every class declared in the axiom set.
    pub fn lookup_all_declared_classes(&self) -> (r: Vec<String>)
        requires
            self.wf(),
        ensures
            strings_unique(r@),
            forall|x: Seq<char>|
                #[trigger] set_of_strings(r@).contains(x) <==> self@.axioms.contains(
                    AxiomModel::DeclareClass(x),
                ),
    {
        let ghost views = self@.axioms;
        let mut r: Vec<String> = Vec::new();
        let mut i: usize = 0;
        while i < self.axioms.len()
            invariant
                i <= self.axioms@.len(),
                views == axiom_views(self.axioms@),
                self.wf(),
                strings_unique(r@),
                forall|x: Seq<char>|
                    #[trigger] set_of_strings(r@).contains(x) <==> exists|j: int|
                        0 <= j < i && views[j] == AxiomModel::DeclareClass(x),
            decreases self.axioms@.len() - i,
        {
            proof {
                assert(views[i as int] == self.axioms@[i as int].view());
            }
            let ghost r0 = r@;
            match &self.axioms[i] {
                Axiom::DeclareClass(c) => {
                    r.push(c.clone());
                    proof {
                        lemma_set_of_strings_push(r0, r@.last());
                        assert forall|p: int, q: int| 0 <= p < q < r@.len() implies r@[p]@
                            != r@[q]@ by {
                            if q < r@.len() - 1 {
                                assert(r@[p] == r0[p] && r@[q] == r0[q]);
                            } else {
                                assert(r@[q]@ == c@);
                                assert(r@[p] == r0[p]);
                                if r0[p]@ == c@ {
                                    assert(set_of_strings(r0).contains(c@));
                                    let j = choose|j: int|
                                        0 <= j < i && views[j] == AxiomModel::DeclareClass(c@);
                                    assert(views[j] == views[i as int]);
                                    assert(false);
                                }
                            }
                        }
                        assert forall|x: Seq<char>|
                            #[trigger] set_of_strings(r@).contains(x) <==> exists|j: int|
                                0 <= j < i + 1 && views[j] == AxiomModel::DeclareClass(x) by {
                            if set_of_strings(r@).contains(x) {
                                if x == c@ {
                                    assert(views[i as int] == AxiomModel::DeclareClass(x));
                                } else {
                                    let j = choose|j: int|
                                        0 <= j < i && views[j] == AxiomModel::DeclareClass(x);
                                    assert(0 <= j < i + 1 && views[j] == AxiomModel::DeclareClass(
                                        x,
                                    ));
                                }
                            }
                            if exists|j: int|
                                0 <= j < i + 1 && views[j] == AxiomModel::DeclareClass(x) {
                                let j = choose|j: int|
                                    0 <= j < i + 1 && views[j] == AxiomModel::DeclareClass(x);
                                if j == i {
                                    assert(x == c@);
                                } else {
                                    assert(set_of_strings(r0).contains(x));
                                }
                            }
                        }
                    }
                },
                _ => {
                    proof {
                        assert forall|x: Seq<char>|
                            #[trigger] set_of_strings(r@).contains(x) <==> exists|j: int|
                                0 <= j < i + 1 && views[j] == AxiomModel::DeclareClass(x) by {
                            if exists|j: int|
                                0 <= j < i + 1 && views[j] == AxiomModel::DeclareClass(x) {
                                let j = choose|j: int|
                                    0 <= j < i + 1 && views[j] == AxiomModel::DeclareClass(x);
                                assert(j < i);
                            }
                        }
                    }
                },
            }
            i = i + 1;
        }
        proof {
            assert forall|x: Seq<char>|
                #[trigger] set_of_strings(r@).contains(x) <==> views.contains(
                    AxiomModel::DeclareClass(x),
                ) by {
                if views.contains(AxiomModel::DeclareClass(x)) {
                    let j = choose|j: int|
                        0 <= j < views.len() && views[j] == AxiomModel::DeclareClass(x);
                    assert(exists|j: int|
                        0 <= j < i && views[j] == AxiomModel::DeclareClass(x));
                }
            }
        }
        r
    }

    /// Every axiom about `identifier`, in store order.
    pub fn lookup_axioms_for_subject(&self, identifier: &String) -> (r: Vec<Axiom>)
        ensures
            forall|x: AxiomModel|
                #[trigger] axiom_views(r@).contains(x) <==> (self@.axioms.contains(x)
                    && has_subject(x, identifier@)),
    {
        let ghost views = self@.axioms;
        let mut r: Vec<Axiom> = Vec::new();
        let mut i: usize = 0;
        while i < self.axioms.len()
            invariant
                i <= self.axioms@.len(),
                views == axiom_views(self.axioms@),
                forall|x: AxiomModel|
                    #[trigger] axiom_views(r@).contains(x) <==> exists|j: int|
                        0 <= j < i && views[j] == x && has_subject(x, identifier@),
            decreases self.axioms@.len() - i,
        {
            proof {
                assert(views[i as int] == self.axioms@[i as int].view());
            }
            let hit = match &self.axioms[i] {
                Axiom::DeclareClass(c) => *c == *identifier,
                Axiom::SubClassOf { sub: ClassExpression::AtomicClass(c), sup: _ } => *c
                    == *identifier,
                Axiom::AnnotationAssertion { subject, .. } => *subject == *identifier,
                _ => false,
            };
            proof {
                assert(hit == has_subject(views[i as int], identifier@));
            }
            let ghost r0 = r@;
            if hit {
                let copy = self.axioms[i].duplicate();
                r.push(copy);
                proof {
                    lemma_axiom_views_push(r0, r@.last());
                    assert forall|x: AxiomModel|
                        #[trigger] axiom_views(r@).contains(x) <==> exists|j: int|
                            0 <= j < i + 1 && views[j] == x && has_subject(x, identifier@) by {
                        lemma_push_contains(axiom_views(r0), views[i as int], x);
                        if axiom_views(r@).contains(x) {
                            if x == views[i as int] {
                                assert(0 <= i < i + 1 && views[i as int] == x);
                            } else {
                                let j = choose|j: int|
                                    0 <= j < i && views[j] == x && has_subject(x, identifier@);
                                assert(0 <= j < i + 1 && views[j] == x);
                            }
                        }
                        if exists|j: int|
                            0 <= j < i + 1 && views[j] == x && has_subject(x, identifier@) {
                            let j = choose|j: int|
                                0 <= j < i + 1 && views[j] == x && has_subject(x, identifier@);
                            if j == i {
                                assert(x == views[i as int]);
                            } else {
                                assert(axiom_views(r0).contains(x));
                            }
                        }
                    }
                }
            } else {
                proof {
                    assert forall|x: AxiomModel|
                        #[trigger] axiom_views(r@).contains(x) <==> exists|j: int|
                            0 <= j < i + 1 && views[j] == x && has_subject(x, identifier@) by {
                        if exists|j: int|
                            0 <= j < i + 1 && views[j] == x && has_subject(x, identifier@) {
                            let j = choose|j: int|
                                0 <= j < i + 1 && views[j] == x && has_subject(x, identifier@);
                            assert(j < i);
                        }
                    }
                }
            }
            i = i + 1;
        }
        r
    }

    /// Every axiom of the store, in store order.
    pub fn list_all_axioms(&self) -> (r: Vec<Axiom>)
        ensures
            axiom_views(r@) == self@.axioms,
    {
        let mut r: Vec<Axiom> = Vec::new();
        let mut i: usize = 0;
        while i < self.axioms.len()
            invariant
                i <= self.axioms@.len(),
                r@.len() == i as int,
                forall|j: int| 0 <= j < i ==> r@[j].view() == self.axioms@[j].view(),
            decreases self.axioms@.len() - i,
        {
            let copy = self.axioms[i].duplicate();
            r.push(copy);
            i = i + 1;
        }
        proof {
            assert(axiom_views(r@) =~= self@.axioms);
        }
        r
    }

    /// Hydrate a store from a loaded axiom list by replaying every axiom
    /// through the same insert logic used for incremental inserts.
    pub fn from_axioms(axioms: &Vec<Axiom>) -> (r: Self)
        ensures
            r.wf(),
            r@ == store_insert_all(store_empty(), axiom_views(axioms@)),
    {
        let ghost views = axiom_views(axioms@);
        let mut r = Self::new();
        let mut i: usize = 0;
        while i < axioms.len()
            invariant
                i <= axioms@.len(),
                views == axiom_views(axioms@),
                r.wf(),
                r@ == store_insert_all(store_empty(), views.subrange(0, i as int)),
            decreases axioms@.len() - i,
        {
            proof {
                assert(views[i as int] == axioms@[i as int].view());
            }
            let copy = axioms[i].duplicate();
            proof {
                lemma_store_insert_all_snoc(store_empty(), views.subrange(0, i as int),
                    views[i as int]);
                assert(views.subrange(0, i as int).push(views[i as int]) =~= views.subrange(
                    0,
                    i as int + 1,
                ));
            }
            r.insert(copy);
            i = i + 1;
        }
        proof {
            assert(views.subrange(0, i as int) =~= views);
        }
        r
    }
}

impl OntologyStore {
    /// Every class reachable from `identifier` by following direct-subclass
    /// edges outward, `identifier` itself included.
    pub fn descendants_of(&self, identifier: &String) -> (r: Vec<String>)
        requires
            self.wf(),
        ensures
            strings_unique(r@),
            forall|x: Seq<char>|
                #[trigger] set_of_strings(r@).contains(x) <==> crate::closure::reachable(
                    self@.subclasses,
                    identifier@,
                    x,
                ),
    {
        crate::closure::closure_from(&self.subclasses, identifier)
    }

    /// Every class reachable from `identifier` by following direct-superclass
    /// edges outward, `identifier` itself included.
    pub fn ancestors_of(&self, identifier: &String) -> (r: Vec<String>)
        requires
            self.wf(),
        ensures
            strings_unique(r@),
            forall|x: Seq<char>|
                #[trigger] set_of_strings(r@).contains(x) <==> crate::closure::reachable(
                    self@.superclasses,
                    identifier@,
                    x,
                ),
    {
        crate::closure::closure_from(&self.superclasses, identifier)
    }
}

/// Index symmetry: an identifier `d` is recorded as a direct subclass of `c`
/// exactly when `c` is recorded as a direct superclass of `d`.
pub proof fn lemma_index_symmetry(s: StoreModel)
    requires
        store_wf(s),
    ensures
        forall|c: Seq<char>, d: Seq<char>|
            #[trigger] edge_in(s.subclasses, c, d) <==> #[trigger] edge_in(s.superclasses, d, c),
{
}

/// Label upsert: binding `first` and then `second` to the same subject leaves
/// exactly one label axiom for that subject, carrying `second`; the reverse
/// index answers `second` with the subject and no longer knows `first`.
pub proof fn lemma_label_upsert(s: StoreModel, x: Seq<char>, first: Seq<char>, second: Seq<char>)
    requires
        store_wf(s),
        first != second,
    ensures
        ({
            let s2 = store_insert(store_insert(s, label_axiom(x, first)), label_axiom(x, second));
            &&& s2.labels.contains_key(second) && s2.labels[second] == x
            &&& !s2.labels.contains_key(first)
            &&& s2.axioms.contains(label_axiom(x, second))
            &&& forall|i: int|
                0 <= i < s2.axioms.len() && is_label_axiom_for(#[trigger] s2.axioms[i], x)
                    ==> s2.axioms[i] == label_axiom(x, second)
        }),
{
    let a1 = label_axiom(x, first);
    let a2 = label_axiom(x, second);
    let s1 = store_insert(s, a1);
    let s2 = store_insert(s1, a2);
    lemma_insert_wf(s, a1);
    lemma_insert_wf(s1, a2);
    let n1 = s1.axioms.len() as int;
    assert(s1.axioms.last() == a1);
    assert(s1.labels.contains_key(first) && s1.labels[first] == x);
    lemma_find_label_index(s1.axioms, x);
    let i = match find_label_index(s1.axioms, x) {
        Some(i) => i,
        None => {
            assert(is_label_axiom_for(s1.axioms[n1 - 1], x));
            0
        },
    };
    assert(is_label_axiom_for(s1.axioms[i], x));
    assert(i == n1 - 1) by {
        if i < n1 - 1 {
            assert(is_label_axiom_for(s1.axioms[i], x) && is_label_axiom_for(
                s1.axioms[n1 - 1],
                x,
            ));
        }
    }
    assert(s1.axioms[i] == a1);
    assert(s2.labels == s1.labels.remove(first).insert(second, x));
    assert(s2.axioms.last() == a2);
    let n2 = s2.axioms.len() as int;
    assert forall|j: int|
        0 <= j < s2.axioms.len() && is_label_axiom_for(#[trigger] s2.axioms[j], x)
            implies s2.axioms[j] == a2 by {
        if j < n2 - 1 {
            assert(is_label_axiom_for(s2.axioms[j], x) && is_label_axiom_for(
                s2.axioms[n2 - 1],
                x,
            ));
        }
    }
    assert(s2.axioms.contains(a2)) by {
        assert(s2.axioms[n2 - 1] == a2);
    }
}

} // verus!
