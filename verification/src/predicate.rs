//! Predicate trees and their evaluation against a configuration.

use crate::config::Data;
use vstd::prelude::*;

verus! {

/// A leaf test.
#[derive(Debug, Clone, PartialEq, Eq)]
pub enum Predicate {
    /// Holds when the named feature is enabled.
    Feature(String),
}

/// A predicate tree.
#[derive(Debug, PartialEq, Eq)]
pub enum Group {
    /// A single leaf.
    Option(Predicate),
    /// Holds when every member holds.
    All(Vec<Group>),
    /// Holds when some member holds.
    Any(Vec<Group>),
    /// Holds when the inner tree does not.
    Not(Box<Group>),
}

/// What a directive says: open a scope under a predicate, or close one.
#[derive(Debug, PartialEq, Eq)]
pub enum CfgTag {
    Start(Group),
    End,
}

/// A predicate tree as contracts see it.
pub ghost enum Tree {
    Feature(Seq<char>),
    All(Seq<Tree>),
    Any(Seq<Tree>),
    Not(Box<Tree>),
}

/// A directive as contracts see it.
pub ghost enum Tag {
    Start(Tree),
    End,
}

/// Whether `t` holds when exactly the features in `features` are enabled.
pub open spec fn eval(t: Tree, features: Set<Seq<char>>) -> bool
    decreases t,
{
    match t {
        Tree::Feature(name) => features.contains(name),
        Tree::All(l) => forall|i: int| 0 <= i < l.len() ==> eval(#[trigger] l[i], features),
        Tree::Any(l) => exists|i: int| 0 <= i < l.len() && eval(#[trigger] l[i], features),
        Tree::Not(g) => !eval(*g, features),
    }
}

impl View for Predicate {
    type V = Tree;

    open spec fn view(&self) -> Tree {
        match self {
            Predicate::Feature(name) => Tree::Feature(name@),
        }
    }
}

/// The tree that `g` stands for.
pub open spec fn tree_of(g: Group) -> Tree
    decreases g,
{
    match g {
        Group::Option(p) => p@,
        Group::All(v) => Tree::All(
            Seq::new(
                v@.len(),
                |i: int|
                    if 0 <= i < v@.len() {
                        tree_of(v@[i])
                    } else {
                        arbitrary()
                    },
            ),
        ),
        Group::Any(v) => Tree::Any(
            Seq::new(
                v@.len(),
                |i: int|
                    if 0 <= i < v@.len() {
                        tree_of(v@[i])
                    } else {
                        arbitrary()
                    },
            ),
        ),
        Group::Not(g) => Tree::Not(Box::new(tree_of(*g))),
    }
}

impl View for Group {
    type V = Tree;

    open spec fn view(&self) -> Tree {
        tree_of(*self)
    }
}

impl View for CfgTag {
    type V = Tag;

    open spec fn view(&self) -> Tag {
        match self {
            CfgTag::Start(g) => Tag::Start(g@),
            CfgTag::End => Tag::End,
        }
    }
}

impl Predicate {
    /// Evaluates the leaf against `config`.
    pub fn matches(&self, config: &Data) -> (b: bool)
        ensures
            b == eval(self@, config@.features),
    {
        match self {
            Predicate::Feature(f) => config.has_feature(f.as_str()),
        }
    }
}

impl Group {
    /// Evaluates the tree against `config`.
    pub fn matches(&self, config: &Data) -> (b: bool)
        ensures
            b == eval(self@, config@.features),
        decreases self,
    {
        match self {
            Group::Option(o) => o.matches(config),
            Group::All(v) => {
                let mut i: usize = 0;
                while i < v.len()
                    invariant
                        i <= v@.len(),
                        self == Group::All(*v),
                        forall|j: int| 0 <= j < i ==> eval(#[trigger] v@[j]@, config@.features),
                    decreases v@.len() - i,
                {
                    if !v[i].matches(config) {
                        assert(self@->All_0[i as int] == v@[i as int]@);
                        return false;
                    }
                    i += 1;
                }
                assert forall|j: int| 0 <= j < self@->All_0.len() implies eval(
                    #[trigger] self@->All_0[j],
                    config@.features,
                ) by {
                    assert(self@->All_0[j] == v@[j]@);
                }
                true
            },
            Group::Any(v) => {
                let mut i: usize = 0;
                while i < v.len()
                    invariant
                        i <= v@.len(),
                        self == Group::Any(*v),
                        forall|j: int| 0 <= j < i ==> !eval(#[trigger] v@[j]@, config@.features),
                    decreases v@.len() - i,
                {
                    if v[i].matches(config) {
                        assert(self@->Any_0[i as int] == v@[i as int]@);
                        return true;
                    }
                    i += 1;
                }
                assert forall|j: int| 0 <= j < self@->Any_0.len() implies !eval(
                    #[trigger] self@->Any_0[j],
                    config@.features,
                ) by {
                    assert(self@->Any_0[j] == v@[j]@);
                }
                false
            },
            Group::Not(g) => !g.matches(config),
        }
    }
}

/// Each member of `l` under a negation.
pub open spec fn negate_each(l: Seq<Tree>) -> Seq<Tree> {
    Seq::new(l.len(), |i: int| Tree::Not(Box::new(l[i])))
}

/// Negating twice changes nothing.
pub proof fn law_double_negation(g: Tree, features: Set<Seq<char>>)
    ensures
        eval(Tree::Not(Box::new(Tree::Not(Box::new(g)))), features) == eval(g, features),
{
    let inner = Tree::Not(Box::new(g));
    assert(eval(inner, features) == !eval(g, features));
    assert(eval(Tree::Not(Box::new(inner)), features) == !eval(inner, features));
}

/// A conjunction without members holds.
pub proof fn law_all_empty(features: Set<Seq<char>>)
    ensures
        eval(Tree::All(Seq::empty()), features),
{
}

/// A disjunction without members does not hold.
pub proof fn law_any_empty(features: Set<Seq<char>>)
    ensures
        !eval(Tree::Any(Seq::empty()), features),
{
}

/// A conjunction holds exactly when each member does.
pub proof fn lemma_eval_all(l: Seq<Tree>, features: Set<Seq<char>>)
    ensures
        eval(Tree::All(l), features) == (forall|i: int|
            0 <= i < l.len() ==> eval(#[trigger] l[i], features)),
{
    assert(Tree::All(l)->All_0 == l);
}

/// A disjunction holds exactly when some member does.
pub proof fn lemma_eval_any(l: Seq<Tree>, features: Set<Seq<char>>)
    ensures
        eval(Tree::Any(l), features) == (exists|i: int|
            0 <= i < l.len() && eval(#[trigger] l[i], features)),
{
    assert(Tree::Any(l)->Any_0 == l);
}

proof fn lemma_negate_each(l: Seq<Tree>, features: Set<Seq<char>>)
    ensures
        negate_each(l).len() == l.len(),
        forall|i: int|
            0 <= i < l.len() ==> eval(#[trigger] negate_each(l)[i], features) == !eval(
                l[i],
                features,
            ),
{
    assert forall|i: int| 0 <= i < l.len() implies eval(#[trigger] negate_each(l)[i], features)
        == !eval(l[i], features) by {
        assert(negate_each(l)[i] == Tree::Not(Box::new(l[i])));
    }
}

/// De Morgan: no member holds exactly when every negated member holds.
pub proof fn law_not_any(l: Seq<Tree>, features: Set<Seq<char>>)
    ensures
        eval(Tree::Not(Box::new(Tree::Any(l))), features) == eval(
            Tree::All(negate_each(l)),
            features,
        ),
{
    let n = negate_each(l);
    lemma_negate_each(l, features);
    lemma_eval_all(l, features);
    lemma_eval_any(l, features);
    lemma_eval_all(n, features);
    lemma_eval_any(n, features);
    assert(eval(Tree::Not(Box::new(Tree::Any(l))), features) == !eval(Tree::Any(l), features));
    if eval(Tree::Any(l), features) {
        let i = choose|i: int| 0 <= i < l.len() && eval(#[trigger] l[i], features);
        assert(!eval(n[i], features));
    } else {
        assert forall|i: int| 0 <= i < n.len() implies eval(#[trigger] n[i], features) by {
            assert(!eval(l[i], features));
        }
    }
}

/// De Morgan: not every member holds exactly when some negated member holds.
pub proof fn law_not_all(l: Seq<Tree>, features: Set<Seq<char>>)
    ensures
        eval(Tree::Not(Box::new(Tree::All(l))), features) == eval(
            Tree::Any(negate_each(l)),
            features,
        ),
{
    let n = negate_each(l);
    lemma_negate_each(l, features);
    lemma_eval_all(l, features);
    lemma_eval_any(l, features);
    lemma_eval_all(n, features);
    lemma_eval_any(n, features);
    assert(eval(Tree::Not(Box::new(Tree::All(l))), features) == !eval(Tree::All(l), features));
    if eval(Tree::All(l), features) {
        assert forall|i: int| 0 <= i < n.len() implies !eval(#[trigger] n[i], features) by {
            assert(eval(l[i], features));
        }
    } else {
        let i = choose|i: int| 0 <= i < l.len() && !eval(#[trigger] l[i], features);
        assert(eval(n[i], features));
    }
}

} // verus!
