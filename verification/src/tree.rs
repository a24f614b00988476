//! The generic tagged-tree interchange value: either an atomic string token or
//! an ordered sequence of child trees. Callers that have no notion of the
//! typed axiom model build and inspect axioms as these trees.

use vstd::prelude::*;

verus! {

/// Interchange value for the codec boundary: an atomic string token, or an
/// ordered sequence of nested trees.
#[derive(Debug, PartialEq, Eq)]
pub enum GenericTree {
    Leaf(String),
    Node(Vec<GenericTree>),
}

/// Mathematical model of a `GenericTree`: the same shape over `Seq<char>`.
#[verifier::ext_equal]
pub enum TreeModel {
    Leaf(Seq<char>),
    Node(Seq<TreeModel>),
}

impl GenericTree {
    /// The mathematical value of this tree.
    pub open spec fn view(self) -> TreeModel
        decreases self,
    {
        if self is Leaf {
            TreeModel::Leaf(self->Leaf_0@)
        } else {
            TreeModel::Node(Self::views_of(self->Node_0@))
        }
    }

    /// The mathematical values of a sequence of trees, in order.
    pub open spec fn views_of(s: Seq<GenericTree>) -> Seq<TreeModel>
        decreases s,
    {
        if s.len() == 0 {
            Seq::empty()
        } else {
            seq![s[0].view()] + Self::views_of(s.subrange(1, s.len() as int))
        }
    }

    /// `views_of` maps each tree of a sequence to its value, pointwise.
    pub proof fn lemma_views_of(s: Seq<GenericTree>)
        ensures
            Self::views_of(s).len() == s.len(),
            forall|i: int| 0 <= i < s.len() ==> #[trigger] Self::views_of(s)[i] == s[i].view(),
        decreases s.len(),
    {
        if s.len() > 0 {
            Self::lemma_views_of(s.subrange(1, s.len() as int));
        }
    }

    /// Build a copy with the same mathematical value.
    #[verifier::loop_isolation(false)]
    pub fn duplicate(&self) -> (r: GenericTree)
        ensures
            r.view() == self.view(),
        decreases self,
    {
        match self {
            GenericTree::Leaf(s) => GenericTree::Leaf(s.clone()),
            GenericTree::Node(children) => {
                let mut out: Vec<GenericTree> = Vec::new();
                let mut i: usize = 0;
                while i < children.len()
                    invariant
                        i <= children.len(),
                        out@.len() == i as int,
                        forall|j: int| 0 <= j < i ==> out[j].view() == children[j].view(),
                    decreases children.len() - i,
                {
                    proof {
                        assert(decreases_to!(self => self->Node_0@[i as int]));
                    }
                    let c = children[i].duplicate();
                    out.push(c);
                    i = i + 1;
                }
                let r = GenericTree::Node(out);
                proof {
                    Self::lemma_views_of(out@);
                    Self::lemma_views_of(children@);
                    assert(r.view() == TreeModel::Node(Self::views_of(out@)));
                    assert(self.view() == TreeModel::Node(Self::views_of(children@)));
                    assert(Self::views_of(out@).len() == Self::views_of(children@).len());
                    assert forall|k: int| 0 <= k < out@.len() implies Self::views_of(out@)[k]
                        == Self::views_of(children@)[k] by {
                        assert(out@[k].view() == children@[k].view());
                    }
                    assert(Self::views_of(out@) =~= Self::views_of(children@));
                    assert(r.view() =~= self.view());
                }
                r
            },
        }
    }

    /// Whether this tree equals `other` as a mathematical value.
    #[verifier::loop_isolation(false)]
    pub fn tree_eq(&self, other: &GenericTree) -> (r: bool)
        ensures
            r == (self.view() == other.view()),
        decreases self,
    {
        match (self, other) {
            (GenericTree::Leaf(a), GenericTree::Leaf(b)) => *a == *b,
            (GenericTree::Node(xs), GenericTree::Node(ys)) => {
                if xs.len() != ys.len() {
                    proof {
                        Self::lemma_views_of(xs@);
                        Self::lemma_views_of(ys@);
                        assert(self.view()->Node_0.len() != other.view()->Node_0.len());
                    }
                    false
                } else {
                    let mut i: usize = 0;
                    let mut same: bool = true;
                    while i < xs.len()
                        invariant
                            i <= xs.len(),
                            same == (forall|j: int| 0 <= j < i ==> xs[j].view() == ys[j].view()),
                        decreases xs.len() - i,
                    {
                        proof {
                            assert(decreases_to!(self => self->Node_0@[i as int]));
                        }
                        let e = xs[i].tree_eq(&ys[i]);
                        same = same && e;
                        i = i + 1;
                    }
                    proof {
                        Self::lemma_views_of(xs@);
                        Self::lemma_views_of(ys@);
                        assert(self.view() == TreeModel::Node(Self::views_of(xs@)));
                        assert(other.view() == TreeModel::Node(Self::views_of(ys@)));
                        if same {
                            assert forall|k: int| 0 <= k < xs@.len() implies Self::views_of(
                                xs@,
                            )[k] == Self::views_of(ys@)[k] by {
                                assert(xs@[k].view() == ys@[k].view());
                            }
                            assert(Self::views_of(xs@) =~= Self::views_of(ys@));
                            assert(self.view() =~= other.view());
                        } else {
                            let k = choose|j: int|
                                0 <= j < xs@.len() && xs[j].view() != ys[j].view();
                            assert(Self::views_of(xs@)[k] != Self::views_of(ys@)[k]);
                            assert(self.view()->Node_0[k] != other.view()->Node_0[k]);
                        }
                    }
                    same
                }
            },
            (GenericTree::Leaf(_), GenericTree::Node(_)) => false,
            (GenericTree::Node(_), GenericTree::Leaf(_)) => false,
        }
    }
}

} // verus!
