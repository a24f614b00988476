//! Bidirectional mapping between typed axioms and generic trees.
//!
//! Encoding is total: every axiom, class expression and property expression
//! has a tree form, headed by its tag token; a produced node of length one is
//! collapsed to its sole child as the final step. Decoding accepts the
//! decodable subset (class declarations, subclass axioms over atomic classes
//! and existential restrictions, annotation assertions) and rejects anything
//! else with a typed decode error — never with a fallback axiom.

use vstd::prelude::*;

use crate::model::{
    Axiom, AxiomModel, ClassExpression, ClassModel, ObjectPropertyExpression, PropertyModel,
};
use crate::tree::{GenericTree, TreeModel};

verus! {

/// Why a tree was rejected by the decoder.
#[derive(Debug, PartialEq, Eq)]
pub enum DecodeError {
    /// The root of an axiom must be a node, not a bare token.
    ExpectedNode,
    /// A node needs at least a leading tag element.
    MissingTag,
    /// The leading tag element must be a leaf token.
    ExpectedTag,
    /// The tag is not one of the decodable tags; carries the offending tag.
    UnknownTag(String),
    /// The tag is known but the node has the wrong number of elements;
    /// carries the tag.
    WrongArity(String),
    /// A position that requires a bare identifier token held a node.
    ExpectedIdentifier,
}

/// Mathematical model of a `DecodeError`.
#[verifier::ext_equal]
pub enum DecodeErrorModel {
    ExpectedNode,
    MissingTag,
    ExpectedTag,
    UnknownTag(Seq<char>),
    WrongArity(Seq<char>),
    ExpectedIdentifier,
}

impl DecodeError {
    /// The mathematical value of this error.
    pub open spec fn view(self) -> DecodeErrorModel {
        match self {
            DecodeError::ExpectedNode => DecodeErrorModel::ExpectedNode,
            DecodeError::MissingTag => DecodeErrorModel::MissingTag,
            DecodeError::ExpectedTag => DecodeErrorModel::ExpectedTag,
            DecodeError::UnknownTag(t) => DecodeErrorModel::UnknownTag(t@),
            DecodeError::WrongArity(t) => DecodeErrorModel::WrongArity(t@),
            DecodeError::ExpectedIdentifier => DecodeErrorModel::ExpectedIdentifier,
        }
    }
}

/// The single-element-unwrap rule: a node of length one stands for its sole
/// child on encode.
pub open spec fn collapse(t: TreeModel) -> TreeModel {
    if t is Node && t->Node_0.len() == 1 {
        t->Node_0[0]
    } else {
        t
    }
}

/// Tree form of a property expression.
pub open spec fn encode_property_model(p: PropertyModel) -> TreeModel {
    match p {
        PropertyModel::Property(name) => collapse(TreeModel::Node(seq![TreeModel::Leaf(name)])),
        PropertyModel::InverseProperty(name) => collapse(
            TreeModel::Node(
                seq![TreeModel::Leaf("InverseObjectProperty"@), TreeModel::Leaf(name)],
            ),
        ),
    }
}

/// Tree form of a class expression.
pub open spec fn encode_class_model(c: ClassModel) -> TreeModel
    decreases c,
{
    if c is AtomicClass {
        collapse(TreeModel::Node(seq![TreeModel::Leaf(c->AtomicClass_0)]))
    } else if c is Intersection {
        collapse(
            TreeModel::Node(
                seq![TreeModel::Leaf("ObjectIntersectionOf"@)] + encode_class_models(
                    c->Intersection_0,
                ),
            ),
        )
    } else if c is Complement {
        collapse(
            TreeModel::Node(
                seq![
                    TreeModel::Leaf("ObjectComplementOf"@),
                    encode_class_model(*c->Complement_0),
                ],
            ),
        )
    } else if c is SomeValuesFrom {
        collapse(
            TreeModel::Node(
                seq![
                    TreeModel::Leaf("ObjectSomeValuesFrom"@),
                    encode_property_model(c->SomeValuesFrom_property),
                    encode_class_model(*c->SomeValuesFrom_filler),
                ],
            ),
        )
    } else {
        collapse(
            TreeModel::Node(
                seq![
                    TreeModel::Leaf("ObjectAllValuesFrom"@),
                    encode_property_model(c->AllValuesFrom_property),
                    encode_class_model(*c->AllValuesFrom_filler),
                ],
            ),
        )
    }
}

/// Tree forms of a sequence of class expressions, in order.
pub open spec fn encode_class_models(s: Seq<ClassModel>) -> Seq<TreeModel>
    decreases s,
{
    if s.len() == 0 {
        Seq::empty()
    } else {
        seq![encode_class_model(s[0])] + encode_class_models(s.subrange(1, s.len() as int))
    }
}

/// `encode_class_models` encodes each class expression of a sequence,
/// pointwise.
pub proof fn lemma_encode_class_models(s: Seq<ClassModel>)
    ensures
        encode_class_models(s).len() == s.len(),
        forall|i: int|
            0 <= i < s.len() ==> #[trigger] encode_class_models(s)[i] == encode_class_model(s[i]),
    decreases s.len(),
{
    if s.len() > 0 {
        lemma_encode_class_models(s.subrange(1, s.len() as int));
    }
}

/// Tree form of an axiom: a node headed by the axiom's tag token.
pub open spec fn encode_axiom_model(a: AxiomModel) -> TreeModel {
    match a {
        AxiomModel::DeclareClass(class) => collapse(
            TreeModel::Node(seq![TreeModel::Leaf("DeclareClass"@), TreeModel::Leaf(class)]),
        ),
        AxiomModel::SubClassOf { sub, sup } => collapse(
            TreeModel::Node(
                seq![
                    TreeModel::Leaf("SubClassOf"@),
                    encode_class_model(sub),
                    encode_class_model(sup),
                ],
            ),
        ),
        AxiomModel::AnnotationAssertion { subject, property, value } => collapse(
            TreeModel::Node(
                seq![
                    TreeModel::Leaf("AnnotationAssertion"@),
                    TreeModel::Leaf(subject),
                    TreeModel::Leaf(property),
                    TreeModel::Leaf(value),
                ],
            ),
        ),
        AxiomModel::EquivalentClasses(parts) => collapse(
            TreeModel::Node(
                seq![TreeModel::Leaf("EquivalentClasses"@)] + encode_class_models(parts),
            ),
        ),
    }
}

/// What the class-expression decoder accepts: an identifier token stands for
/// an atomic class, and a node tagged `ObjectSomeValuesFrom` holds a property
/// identifier token and a decodable filler.
pub open spec fn decode_class_model(t: TreeModel) -> Result<ClassModel, DecodeErrorModel>
    decreases t,
{
    if t is Leaf {
        Ok(ClassModel::AtomicClass(t->Leaf_0))
    } else {
        let es = t->Node_0;
        if es.len() == 0 {
            Err(DecodeErrorModel::MissingTag)
        } else if !(es[0] is Leaf) {
            Err(DecodeErrorModel::ExpectedTag)
        } else if es[0]->Leaf_0 == "ObjectSomeValuesFrom"@ {
            if es.len() != 3 {
                Err(DecodeErrorModel::WrongArity(es[0]->Leaf_0))
            } else if !(es[1] is Leaf) {
                Err(DecodeErrorModel::ExpectedIdentifier)
            } else {
                match decode_class_model(t->Node_0[2]) {
                    Ok(filler) => Ok(
                        ClassModel::SomeValuesFrom {
                            property: PropertyModel::Property(es[1]->Leaf_0),
                            filler: Box::new(filler),
                        },
                    ),
                    Err(e) => Err(e),
                }
            }
        } else {
            Err(DecodeErrorModel::UnknownTag(es[0]->Leaf_0))
        }
    }
}

/// What the axiom decoder accepts: a node whose leading element is one of the
/// decodable tag tokens, followed by that tag's fixed elements.
pub open spec fn decode_axiom_model(t: TreeModel) -> Result<AxiomModel, DecodeErrorModel> {
    if t is Leaf {
        Err(DecodeErrorModel::ExpectedNode)
    } else {
        let es = t->Node_0;
        if es.len() == 0 {
            Err(DecodeErrorModel::MissingTag)
        } else if !(es[0] is Leaf) {
            Err(DecodeErrorModel::ExpectedTag)
        } else {
            let tag = es[0]->Leaf_0;
            if tag == "DeclareClass"@ {
                if es.len() != 2 {
                    Err(DecodeErrorModel::WrongArity(tag))
                } else if !(es[1] is Leaf) {
                    Err(DecodeErrorModel::ExpectedIdentifier)
                } else {
                    Ok(AxiomModel::DeclareClass(es[1]->Leaf_0))
                }
            } else if tag == "SubClassOf"@ {
                if es.len() != 3 {
                    Err(DecodeErrorModel::WrongArity(tag))
                } else {
                    match decode_class_model(es[1]) {
                        Ok(sub) => match decode_class_model(es[2]) {
                            Ok(sup) => Ok(AxiomModel::SubClassOf { sub, sup }),
                            Err(e) => Err(e),
                        },
                        Err(e) => Err(e),
                    }
                }
            } else if tag == "AnnotationAssertion"@ {
                if es.len() != 4 {
                    Err(DecodeErrorModel::WrongArity(tag))
                } else if !(es[1] is Leaf) || !(es[2] is Leaf) || !(es[3] is Leaf) {
                    Err(DecodeErrorModel::ExpectedIdentifier)
                } else {
                    Ok(
                        AxiomModel::AnnotationAssertion {
                            subject: es[1]->Leaf_0,
                            property: es[2]->Leaf_0,
                            value: es[3]->Leaf_0,
                        },
                    )
                }
            } else {
                Err(DecodeErrorModel::UnknownTag(tag))
            }
        }
    }
}

/// The class expressions the decoder can reproduce: atomic classes, and
/// existential restrictions over a plain (non-inverse) property with a
/// decodable filler.
pub open spec fn decodable_class(c: ClassModel) -> bool
    decreases c,
{
    if c is AtomicClass {
        true
    } else if c is SomeValuesFrom {
        c->SomeValuesFrom_property is Property && decodable_class(*c->SomeValuesFrom_filler)
    } else {
        false
    }
}

/// The axioms the decoder can reproduce.
pub open spec fn decodable_axiom(a: AxiomModel) -> bool {
    match a {
        AxiomModel::DeclareClass(_) => true,
        AxiomModel::SubClassOf { sub, sup } => decodable_class(sub) && decodable_class(sup),
        AxiomModel::AnnotationAssertion { .. } => true,
        AxiomModel::EquivalentClasses(_) => false,
    }
}

/// Round trip for class expressions: decoding the encoding of any decodable
/// class expression gives the class expression back.
pub proof fn lemma_class_round_trip(c: ClassModel)
    requires
        decodable_class(c),
    ensures
        decode_class_model(encode_class_model(c)) == Ok::<ClassModel, DecodeErrorModel>(c),
    decreases c,
{
    if c is SomeValuesFrom {
        lemma_class_round_trip(*c->SomeValuesFrom_filler);
        let t = encode_class_model(c);
        assert(t->Node_0.len() == 3);
        assert(decode_class_model(t) == Ok::<ClassModel, DecodeErrorModel>(c));
    }
}

/// Round trip for axioms: decoding the encoding of any decodable axiom gives
/// the axiom back.
pub proof fn lemma_axiom_round_trip(a: AxiomModel)
    requires
        decodable_axiom(a),
    ensures
        decode_axiom_model(encode_axiom_model(a)) == Ok::<AxiomModel, DecodeErrorModel>(a),
{
    reveal_strlit("DeclareClass");
    reveal_strlit("SubClassOf");
    reveal_strlit("AnnotationAssertion");
    assert("DeclareClass"@.len() == 12);
    assert("SubClassOf"@.len() == 10);
    assert("AnnotationAssertion"@.len() == 19);
    match a {
        AxiomModel::DeclareClass(class) => {
            let t = encode_axiom_model(a);
            assert(t->Node_0 == seq![TreeModel::Leaf("DeclareClass"@), TreeModel::Leaf(class)]);
            assert(t->Node_0[0] == TreeModel::Leaf("DeclareClass"@));
            assert(t->Node_0[1] == TreeModel::Leaf(class));
            assert(decode_axiom_model(t) == Ok::<AxiomModel, DecodeErrorModel>(a));
        },
        AxiomModel::SubClassOf { sub, sup } => {
            lemma_class_round_trip(sub);
            lemma_class_round_trip(sup);
            let t = encode_axiom_model(a);
            assert(t->Node_0[0] == TreeModel::Leaf("SubClassOf"@));
            assert(t->Node_0[1] == encode_class_model(sub));
            assert(t->Node_0[2] == encode_class_model(sup));
            assert(t->Node_0.len() == 3);
            assert(t->Node_0[0]->Leaf_0 != "DeclareClass"@);
            assert(decode_axiom_model(t) == Ok::<AxiomModel, DecodeErrorModel>(a));
        },
        AxiomModel::AnnotationAssertion { subject, property, value } => {
            let t = encode_axiom_model(a);
            assert(t->Node_0.len() == 4);
            assert(t->Node_0[0] == TreeModel::Leaf("AnnotationAssertion"@));
            assert(t->Node_0[0]->Leaf_0 != "DeclareClass"@);
            assert(t->Node_0[0]->Leaf_0 != "SubClassOf"@);
            assert(decode_axiom_model(t) == Ok::<AxiomModel, DecodeErrorModel>(a));
        },
        AxiomModel::EquivalentClasses(_) => {},
    }
}

/// The mathematical value of a class-expression decode result.
pub open spec fn class_result_model(r: Result<ClassExpression, DecodeError>) -> Result<
    ClassModel,
    DecodeErrorModel,
> {
    match r {
        Ok(c) => Ok(c.view()),
        Err(e) => Err(e.view()),
    }
}

/// The mathematical value of an axiom decode result.
pub open spec fn axiom_result_model(r: Result<Axiom, DecodeError>) -> Result<
    AxiomModel,
    DecodeErrorModel,
> {
    match r {
        Ok(a) => Ok(a.view()),
        Err(e) => Err(e.view()),
    }
}

/// Wrap elements in a node, collapsing a node of length one to its sole
/// child (the final step of every encode).
fn collapse_node(es: Vec<GenericTree>) -> (r: GenericTree)
    ensures
        r.view() == collapse(TreeModel::Node(GenericTree::views_of(es@))),
{
    proof {
        GenericTree::lemma_views_of(es@);
    }
    if es.len() == 1 {
        let mut es = es;
        let sole = es.remove(0);
        sole
    } else {
        let r = GenericTree::Node(es);
        proof {
            assert(r.view() =~= TreeModel::Node(GenericTree::views_of(es@)));
        }
        r
    }
}

/// Encode a property expression as a tree.
pub fn encode_property(p: &ObjectPropertyExpression) -> (r: GenericTree)
    ensures
        r.view() == encode_property_model(p.view()),
{
    match p {
        ObjectPropertyExpression::Property(name) => {
            let mut es: Vec<GenericTree> = Vec::new();
            es.push(GenericTree::Leaf(name.clone()));
            let r = collapse_node(es);
            proof {
                GenericTree::lemma_views_of(es@);
                assert(GenericTree::views_of(es@) =~= seq![TreeModel::Leaf(name@)]);
            }
            r
        },
        ObjectPropertyExpression::InverseProperty(name) => {
            let mut es: Vec<GenericTree> = Vec::new();
            es.push(GenericTree::Leaf("InverseObjectProperty".to_owned()));
            es.push(GenericTree::Leaf(name.clone()));
            let r = collapse_node(es);
            proof {
                GenericTree::lemma_views_of(es@);
                assert(GenericTree::views_of(es@) =~= seq![
                    TreeModel::Leaf("InverseObjectProperty"@),
                    TreeModel::Leaf(name@),
                ]);
            }
            r
        },
    }
}

/// Encode a class expression as a tree.
#[verifier::loop_isolation(false)]
pub fn encode_class(c: &ClassExpression) -> (r: GenericTree)
    ensures
        r.view() == encode_class_model(c.view()),
    decreases c,
{
    match c {
        ClassExpression::AtomicClass(name) => {
            let mut es: Vec<GenericTree> = Vec::new();
            es.push(GenericTree::Leaf(name.clone()));
            let r = collapse_node(es);
            proof {
                GenericTree::lemma_views_of(es@);
                assert(GenericTree::views_of(es@) =~= seq![TreeModel::Leaf(name@)]);
            }
            r
        },
        ClassExpression::Intersection(parts) => {
            let mut es: Vec<GenericTree> = Vec::new();
            es.push(GenericTree::Leaf("ObjectIntersectionOf".to_owned()));
            let mut i: usize = 0;
            while i < parts.len()
                invariant
                    i <= parts.len(),
                    es@.len() == 1 + i as int,
                    es@[0].view() == TreeModel::Leaf("ObjectIntersectionOf"@),
                    forall|j: int|
                        0 <= j < i ==> es@[j + 1].view() == encode_class_model(parts[j].view()),
                decreases parts.len() - i,
            {
                proof {
                    assert(decreases_to!(c => c->Intersection_0@[i as int]));
                }
                let e = encode_class(&parts[i]);
                es.push(e);
                i = i + 1;
            }
            let r = collapse_node(es);
            proof {
                GenericTree::lemma_views_of(es@);
                ClassExpression::lemma_views_of(parts@);
                lemma_encode_class_models(ClassExpression::views_of(parts@));
                assert(GenericTree::views_of(es@) =~= seq![
                    TreeModel::Leaf("ObjectIntersectionOf"@),
                ] + encode_class_models(ClassExpression::views_of(parts@)));
            }
            r
        },
        ClassExpression::Complement(inner) => {
            let mut es: Vec<GenericTree> = Vec::new();
            es.push(GenericTree::Leaf("ObjectComplementOf".to_owned()));
            let e = encode_class(inner);
            es.push(e);
            let r = collapse_node(es);
            proof {
                GenericTree::lemma_views_of(es@);
                assert(GenericTree::views_of(es@) =~= seq![
                    TreeModel::Leaf("ObjectComplementOf"@),
                    encode_class_model(inner.view()),
                ]);
            }
            r
        },
        ClassExpression::SomeValuesFrom { property, filler } => {
            let mut es: Vec<GenericTree> = Vec::new();
            es.push(GenericTree::Leaf("ObjectSomeValuesFrom".to_owned()));
            let pe = encode_property(property);
            es.push(pe);
            let fe = encode_class(filler);
            es.push(fe);
            let r = collapse_node(es);
            proof {
                GenericTree::lemma_views_of(es@);
                assert(GenericTree::views_of(es@) =~= seq![
                    TreeModel::Leaf("ObjectSomeValuesFrom"@),
                    encode_property_model(property.view()),
                    encode_class_model(filler.view()),
                ]);
            }
            r
        },
        ClassExpression::AllValuesFrom { property, filler } => {
            let mut es: Vec<GenericTree> = Vec::new();
            es.push(GenericTree::Leaf("ObjectAllValuesFrom".to_owned()));
            let pe = encode_property(property);
            es.push(pe);
            let fe = encode_class(filler);
            es.push(fe);
            let r = collapse_node(es);
            proof {
                GenericTree::lemma_views_of(es@);
                assert(GenericTree::views_of(es@) =~= seq![
                    TreeModel::Leaf("ObjectAllValuesFrom"@),
                    encode_property_model(property.view()),
                    encode_class_model(filler.view()),
                ]);
            }
            r
        },
    }
}

/// Encode an axiom as a tree headed by its tag token.
#[verifier::loop_isolation(false)]
pub fn encode_axiom(a: &Axiom) -> (r: GenericTree)
    ensures
        r.view() == encode_axiom_model(a.view()),
{
    match a {
        Axiom::DeclareClass(class) => {
            let mut es: Vec<GenericTree> = Vec::new();
            es.push(GenericTree::Leaf("DeclareClass".to_owned()));
            es.push(GenericTree::Leaf(class.clone()));
            let r = collapse_node(es);
            proof {
                GenericTree::lemma_views_of(es@);
                assert(GenericTree::views_of(es@) =~= seq![
                    TreeModel::Leaf("DeclareClass"@),
                    TreeModel::Leaf(class@),
                ]);
            }
            r
        },
        Axiom::SubClassOf { sub, sup } => {
            let mut es: Vec<GenericTree> = Vec::new();
            es.push(GenericTree::Leaf("SubClassOf".to_owned()));
            let se = encode_class(sub);
            es.push(se);
            let pe = encode_class(sup);
            es.push(pe);
            let r = collapse_node(es);
            proof {
                GenericTree::lemma_views_of(es@);
                assert(GenericTree::views_of(es@) =~= seq![
                    TreeModel::Leaf("SubClassOf"@),
                    encode_class_model(sub.view()),
                    encode_class_model(sup.view()),
                ]);
            }
            r
        },
        Axiom::AnnotationAssertion { subject, property, value } => {
            let mut es: Vec<GenericTree> = Vec::new();
            es.push(GenericTree::Leaf("AnnotationAssertion".to_owned()));
            es.push(GenericTree::Leaf(subject.clone()));
            es.push(GenericTree::Leaf(property.clone()));
            es.push(GenericTree::Leaf(value.clone()));
            let r = collapse_node(es);
            proof {
                GenericTree::lemma_views_of(es@);
                assert(GenericTree::views_of(es@) =~= seq![
                    TreeModel::Leaf("AnnotationAssertion"@),
                    TreeModel::Leaf(subject@),
                    TreeModel::Leaf(property@),
                    TreeModel::Leaf(value@),
                ]);
            }
            r
        },
        Axiom::EquivalentClasses(parts) => {
            let mut es: Vec<GenericTree> = Vec::new();
            es.push(GenericTree::Leaf("EquivalentClasses".to_owned()));
            let mut i: usize = 0;
            while i < parts.len()
                invariant
                    i <= parts.len(),
                    es@.len() == 1 + i as int,
                    es@[0].view() == TreeModel::Leaf("EquivalentClasses"@),
                    forall|j: int|
                        0 <= j < i ==> es@[j + 1].view() == encode_class_model(parts[j].view()),
                decreases parts.len() - i,
            {
                let e = encode_class(&parts[i]);
                es.push(e);
                i = i + 1;
            }
            let r = collapse_node(es);
            proof {
                GenericTree::lemma_views_of(es@);
                ClassExpression::lemma_views_of(parts@);
                lemma_encode_class_models(ClassExpression::views_of(parts@));
                assert(GenericTree::views_of(es@) =~= seq![
                    TreeModel::Leaf("EquivalentClasses"@),
                ] + encode_class_models(ClassExpression::views_of(parts@)));
            }
            r
        },
    }
}

/// Decode a tree as a class expression.
pub fn decode_class(t: &GenericTree) -> (r: Result<ClassExpression, DecodeError>)
    ensures
        class_result_model(r) == decode_class_model(t.view()),
    decreases t,
{
    match t {
        GenericTree::Leaf(name) => Ok(ClassExpression::AtomicClass(name.clone())),
        GenericTree::Node(es) => {
            proof {
                GenericTree::lemma_views_of(es@);
            }
            if es.len() == 0 {
                Err(DecodeError::MissingTag)
            } else {
                match &es[0] {
                    GenericTree::Node(_) => Err(DecodeError::ExpectedTag),
                    GenericTree::Leaf(tag) => {
                        if *tag == "ObjectSomeValuesFrom".to_owned() {
                            if es.len() != 3 {
                                Err(DecodeError::WrongArity(tag.clone()))
                            } else {
                                match &es[1] {
                                    GenericTree::Node(_) => Err(DecodeError::ExpectedIdentifier),
                                    GenericTree::Leaf(prop) => {
                                        proof {
                                            assert(decreases_to!(t => t->Node_0@[2]));
                                        }
                                        let filler = decode_class(&es[2]);
                                        match filler {
                                            Ok(f) => Ok(
                                                ClassExpression::SomeValuesFrom {
                                                    property: ObjectPropertyExpression::Property(
                                                        prop.clone(),
                                                    ),
                                                    filler: Box::new(f),
                                                },
                                            ),
                                            Err(e) => Err(e),
                                        }
                                    },
                                }
                            }
                        } else {
                            Err(DecodeError::UnknownTag(tag.clone()))
                        }
                    },
                }
            }
        },
    }
}

/// Decode a tree as an axiom; an unrecognized or malformed tree yields a
/// decode error, never a fallback axiom.
pub fn decode_axiom(t: &GenericTree) -> (r: Result<Axiom, DecodeError>)
    ensures
        axiom_result_model(r) == decode_axiom_model(t.view()),
{
    match t {
        GenericTree::Leaf(_) => Err(DecodeError::ExpectedNode),
        GenericTree::Node(es) => {
            proof {
                GenericTree::lemma_views_of(es@);
            }
            if es.len() == 0 {
                Err(DecodeError::MissingTag)
            } else {
                match &es[0] {
                    GenericTree::Node(_) => Err(DecodeError::ExpectedTag),
                    GenericTree::Leaf(tag) => {
                        if *tag == "DeclareClass".to_owned() {
                            if es.len() != 2 {
                                Err(DecodeError::WrongArity(tag.clone()))
                            } else {
                                match &es[1] {
                                    GenericTree::Node(_) => Err(DecodeError::ExpectedIdentifier),
                                    GenericTree::Leaf(class) => Ok(
                                        Axiom::DeclareClass(class.clone()),
                                    ),
                                }
                            }
                        } else if *tag == "SubClassOf".to_owned() {
                            if es.len() != 3 {
                                Err(DecodeError::WrongArity(tag.clone()))
                            } else {
                                match decode_class(&es[1]) {
                                    Err(e) => Err(e),
                                    Ok(sub) => match decode_class(&es[2]) {
                                        Err(e) => Err(e),
                                        Ok(sup) => Ok(Axiom::SubClassOf { sub, sup }),
                                    },
                                }
                            }
                        } else if *tag == "AnnotationAssertion".to_owned() {
                            if es.len() != 4 {
                                Err(DecodeError::WrongArity(tag.clone()))
                            } else {
                                match (&es[1], &es[2], &es[3]) {
                                    (
                                        GenericTree::Leaf(subject),
                                        GenericTree::Leaf(property),
                                        GenericTree::Leaf(value),
                                    ) => Ok(
                                        Axiom::AnnotationAssertion {
                                            subject: subject.clone(),
                                            property: property.clone(),
                                            value: value.clone(),
                                        },
                                    ),
                                    _ => Err(DecodeError::ExpectedIdentifier),
                                }
                            }
                        } else {
                            Err(DecodeError::UnknownTag(tag.clone()))
                        }
                    },
                }
            }
        },
    }
}

} // verus!
