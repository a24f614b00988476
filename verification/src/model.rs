//! The typed axiom data model: identifiers are plain strings, class
//! expressions form a small recursive grammar, and an axiom is one tagged
//! logical statement about classes and their annotations.

use vstd::prelude::*;

verus! {

/// A property in an axiom position: either a named object property or the
/// inverse of one.
#[derive(Debug, PartialEq, Eq)]
pub enum ObjectPropertyExpression {
    Property(String),
    InverseProperty(String),
}

/// Mathematical model of an `ObjectPropertyExpression`.
#[verifier::ext_equal]
pub enum PropertyModel {
    Property(Seq<char>),
    InverseProperty(Seq<char>),
}

/// A (possibly compound) description of a class.
#[derive(Debug, PartialEq, Eq)]
pub enum ClassExpression {
    AtomicClass(String),
    Intersection(Vec<ClassExpression>),
    Complement(Box<ClassExpression>),
    SomeValuesFrom { property: ObjectPropertyExpression, filler: Box<ClassExpression> },
    AllValuesFrom { property: ObjectPropertyExpression, filler: Box<ClassExpression> },
}

/// Mathematical model of a `ClassExpression`.
#[verifier::ext_equal]
pub enum ClassModel {
    AtomicClass(Seq<char>),
    Intersection(Seq<ClassModel>),
    Complement(Box<ClassModel>),
    SomeValuesFrom { property: PropertyModel, filler: Box<ClassModel> },
    AllValuesFrom { property: PropertyModel, filler: Box<ClassModel> },
}

/// One typed logical statement about classes, relationships or annotations.
#[derive(Debug, PartialEq, Eq)]
pub enum Axiom {
    DeclareClass(String),
    SubClassOf { sub: ClassExpression, sup: ClassExpression },
    AnnotationAssertion { subject: String, property: String, value: String },
    EquivalentClasses(Vec<ClassExpression>),
}

/// Mathematical model of an `Axiom`.
#[verifier::ext_equal]
pub enum AxiomModel {
    DeclareClass(Seq<char>),
    SubClassOf { sub: ClassModel, sup: ClassModel },
    AnnotationAssertion { subject: Seq<char>, property: Seq<char>, value: Seq<char> },
    EquivalentClasses(Seq<ClassModel>),
}

impl ObjectPropertyExpression {
    /// The mathematical value of this property expression.
    pub open spec fn view(self) -> PropertyModel {
        match self {
            ObjectPropertyExpression::Property(p) => PropertyModel::Property(p@),
            ObjectPropertyExpression::InverseProperty(p) => PropertyModel::InverseProperty(p@),
        }
    }

    /// Build a copy with the same mathematical value.
    pub fn duplicate(&self) -> (r: Self)
        ensures
            r.view() == self.view(),
    {
        match self {
            ObjectPropertyExpression::Property(p) => ObjectPropertyExpression::Property(p.clone()),
            ObjectPropertyExpression::InverseProperty(p) => ObjectPropertyExpression::InverseProperty(
                p.clone(),
            ),
        }
    }

    /// Whether this property expression equals `other` as a mathematical value.
    pub fn prop_eq(&self, other: &Self) -> (r: bool)
        ensures
            r == (self.view() == other.view()),
    {
        match (self, other) {
            (
                ObjectPropertyExpression::Property(a),
                ObjectPropertyExpression::Property(b),
            ) => *a == *b,
            (
                ObjectPropertyExpression::InverseProperty(a),
                ObjectPropertyExpression::InverseProperty(b),
            ) => *a == *b,
            _ => false,
        }
    }
}

impl ClassExpression {
    /// The mathematical value of this class expression.
    pub open spec fn view(self) -> ClassModel
        decreases self,
    {
        if self is AtomicClass {
            ClassModel::AtomicClass(self->AtomicClass_0@)
        } else if self is Intersection {
            ClassModel::Intersection(Self::views_of(self->Intersection_0@))
        } else if self is Complement {
            ClassModel::Complement(Box::new(self->Complement_0.view()))
        } else if self is SomeValuesFrom {
            ClassModel::SomeValuesFrom {
                property: self->SomeValuesFrom_property.view(),
                filler: Box::new(self->SomeValuesFrom_filler.view()),
            }
        } else {
            ClassModel::AllValuesFrom {
                property: self->AllValuesFrom_property.view(),
                filler: Box::new(self->AllValuesFrom_filler.view()),
            }
        }
    }

    /// The mathematical values of a sequence of class expressions, in order.
    pub open spec fn views_of(s: Seq<ClassExpression>) -> Seq<ClassModel>
        decreases s,
    {
        if s.len() == 0 {
            Seq::empty()
        } else {
            seq![s[0].view()] + Self::views_of(s.subrange(1, s.len() as int))
        }
    }

    /// `views_of` maps each class expression of a sequence to its value,
    /// pointwise.
    pub proof fn lemma_views_of(s: Seq<ClassExpression>)
        ensures
            Self::views_of(s).len() == s.len(),
            forall|i: int| 0 <= i < s.len() ==> #[trigger] Self::views_of(s)[i] == s[i].view(),
        decreases s.len(),
    {
        if s.len() > 0 {
            Self::lemma_views_of(s.subrange(1, s.len() as int));
        }
    }

    /// Build a copy with the same mathematical value.
    #[verifier::loop_isolation(false)]
    pub fn duplicate(&self) -> (r: Self)
        ensures
            r.view() == self.view(),
        decreases self,
    {
        match self {
            ClassExpression::AtomicClass(c) => ClassExpression::AtomicClass(c.clone()),
            ClassExpression::Intersection(parts) => {
                let mut out: Vec<ClassExpression> = Vec::new();
                let mut i: usize = 0;
                while i < parts.len()
                    invariant
                        i <= parts.len(),
                        out@.len() == i as int,
                        forall|j: int| 0 <= j < i ==> out[j].view() == parts[j].view(),
                    decreases parts.len() - i,
                {
                    proof {
                        assert(decreases_to!(self => self->Intersection_0@[i as int]));
                    }
                    let c = parts[i].duplicate();
                    out.push(c);
                    i = i + 1;
                }
                let r = ClassExpression::Intersection(out);
                proof {
                    Self::lemma_views_of(out@);
                    Self::lemma_views_of(parts@);
                    assert(Self::views_of(out@) =~= Self::views_of(parts@));
                }
                r
            },
            ClassExpression::Complement(inner) => ClassExpression::Complement(
                Box::new(inner.duplicate()),
            ),
            ClassExpression::SomeValuesFrom { property, filler } => ClassExpression::SomeValuesFrom {
                property: property.duplicate(),
                filler: Box::new(filler.duplicate()),
            },
            ClassExpression::AllValuesFrom { property, filler } => ClassExpression::AllValuesFrom {
                property: property.duplicate(),
                filler: Box::new(filler.duplicate()),
            },
        }
    }

    /// Whether this class expression equals `other` as a mathematical value.
    #[verifier::loop_isolation(false)]
    pub fn class_eq(&self, other: &Self) -> (r: bool)
        ensures
            r == (self.view() == other.view()),
        decreases self,
    {
        match (self, other) {
            (ClassExpression::AtomicClass(a), ClassExpression::AtomicClass(b)) => *a == *b,
            (ClassExpression::Intersection(xs), ClassExpression::Intersection(ys)) => {
                if xs.len() != ys.len() {
                    proof {
                        Self::lemma_views_of(xs@);
                        Self::lemma_views_of(ys@);
                    }
                    false
                } else {
                    let mut i: usize = 0;
                    let mut same: bool = true;
                    while i < xs.len()
                        invariant
                            i <= xs.len(),
                            same == (forall|j: int| 0 <= j < i ==> xs[j].view() == ys[j].view()),
                        decreases xs.len() - i,
                    {
                        proof {
                            assert(decreases_to!(self => self->Intersection_0@[i as int]));
                        }
                        let e = xs[i].class_eq(&ys[i]);
                        same = same && e;
                        i = i + 1;
                    }
                    proof {
                        Self::lemma_views_of(xs@);
                        Self::lemma_views_of(ys@);
                        if same {
                            assert forall|k: int| 0 <= k < xs@.len() implies Self::views_of(
                                xs@,
                            )[k] == Self::views_of(ys@)[k] by {
                                assert(xs@[k].view() == ys@[k].view());
                            }
                            assert(Self::views_of(xs@) =~= Self::views_of(ys@));
                        } else {
                            let k = choose|j: int|
                                0 <= j < xs@.len() && xs[j].view() != ys[j].view();
                            assert(Self::views_of(xs@)[k] != Self::views_of(ys@)[k]);
                        }
                    }
                    same
                }
            },
            (ClassExpression::Complement(a), ClassExpression::Complement(b)) => a.class_eq(b),
            (
                ClassExpression::SomeValuesFrom { property: pa, filler: fa },
                ClassExpression::SomeValuesFrom { property: pb, filler: fb },
            ) => {
                let pe = pa.prop_eq(pb);
                if pe {
                    fa.class_eq(fb)
                } else {
                    false
                }
            },
            (
                ClassExpression::AllValuesFrom { property: pa, filler: fa },
                ClassExpression::AllValuesFrom { property: pb, filler: fb },
            ) => {
                let pe = pa.prop_eq(pb);
                if pe {
                    fa.class_eq(fb)
                } else {
                    false
                }
            },
            _ => false,
        }
    }
}

impl Axiom {
    /// The mathematical value of this axiom.
    pub open spec fn view(self) -> AxiomModel {
        match self {
            Axiom::DeclareClass(c) => AxiomModel::DeclareClass(c@),
            Axiom::SubClassOf { sub, sup } => AxiomModel::SubClassOf {
                sub: sub.view(),
                sup: sup.view(),
            },
            Axiom::AnnotationAssertion { subject, property, value } => AxiomModel::AnnotationAssertion {
                subject: subject@,
                property: property@,
                value: value@,
            },
            Axiom::EquivalentClasses(parts) => AxiomModel::EquivalentClasses(
                ClassExpression::views_of(parts@),
            ),
        }
    }

    /// Build a copy with the same mathematical value.
    #[verifier::loop_isolation(false)]
    pub fn duplicate(&self) -> (r: Self)
        ensures
            r.view() == self.view(),
    {
        match self {
            Axiom::DeclareClass(c) => Axiom::DeclareClass(c.clone()),
            Axiom::SubClassOf { sub, sup } => Axiom::SubClassOf {
                sub: sub.duplicate(),
                sup: sup.duplicate(),
            },
            Axiom::AnnotationAssertion { subject, property, value } => Axiom::AnnotationAssertion {
                subject: subject.clone(),
                property: property.clone(),
                value: value.clone(),
            },
            Axiom::EquivalentClasses(parts) => {
                let mut out: Vec<ClassExpression> = Vec::new();
                let mut i: usize = 0;
                while i < parts.len()
                    invariant
                        i <= parts.len(),
                        out@.len() == i as int,
                        forall|j: int| 0 <= j < i ==> out[j].view() == parts[j].view(),
                    decreases parts.len() - i,
                {
                    let c = parts[i].duplicate();
                    out.push(c);
                    i = i + 1;
                }
                let r = Axiom::EquivalentClasses(out);
                proof {
                    ClassExpression::lemma_views_of(out@);
                    ClassExpression::lemma_views_of(parts@);
                    assert(ClassExpression::views_of(out@) =~= ClassExpression::views_of(parts@));
                }
                r
            },
        }
    }

    /// Whether this axiom equals `other` as a mathematical value.
    #[verifier::loop_isolation(false)]
    pub fn axiom_eq(&self, other: &Self) -> (r: bool)
        ensures
            r == (self.view() == other.view()),
    {
        match (self, other) {
            (Axiom::DeclareClass(a), Axiom::DeclareClass(b)) => *a == *b,
            (
                Axiom::SubClassOf { sub: sa, sup: pa },
                Axiom::SubClassOf { sub: sb, sup: pb },
            ) => {
                let se = sa.class_eq(sb);
                if se {
                    pa.class_eq(pb)
                } else {
                    false
                }
            },
            (
                Axiom::AnnotationAssertion { subject: sa, property: pa, value: va },
                Axiom::AnnotationAssertion { subject: sb, property: pb, value: vb },
            ) => *sa == *sb && *pa == *pb && *va == *vb,
            (Axiom::EquivalentClasses(xs), Axiom::EquivalentClasses(ys)) => {
                if xs.len() != ys.len() {
                    proof {
                        ClassExpression::lemma_views_of(xs@);
                        ClassExpression::lemma_views_of(ys@);
                    }
                    false
                } else {
                    let mut i: usize = 0;
                    let mut same: bool = true;
                    while i < xs.len()
                        invariant
                            i <= xs.len(),
                            same == (forall|j: int| 0 <= j < i ==> xs[j].view() == ys[j].view()),
                        decreases xs.len() - i,
                    {
                        let e = xs[i].class_eq(&ys[i]);
                        same = same && e;
                        i = i + 1;
                    }
                    proof {
                        ClassExpression::lemma_views_of(xs@);
                        ClassExpression::lemma_views_of(ys@);
                        if same {
                            assert forall|k: int| 0 <= k < xs@.len() implies ClassExpression::views_of(
                                xs@,
                            )[k] == ClassExpression::views_of(ys@)[k] by {
                                assert(xs@[k].view() == ys@[k].view());
                            }
                            assert(ClassExpression::views_of(xs@) =~= ClassExpression::views_of(
                                ys@,
                            ));
                        } else {
                            let k = choose|j: int|
                                0 <= j < xs@.len() && xs[j].view() != ys[j].view();
                            assert(ClassExpression::views_of(xs@)[k] != ClassExpression::views_of(
                                ys@,
                            )[k]);
                        }
                    }
                    same
                }
            },
            _ => false,
        }
    }
}

} // verus!
