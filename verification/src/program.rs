//! What a finished program holds: patterns, declarations and definitions.

use crate::run::Net;
use crate::run::NetState;
use crate::term::clone_trees;
use crate::term::lemma_view_agent;
use crate::term::terms;
use crate::term::AgentId;
use crate::term::Term;
use crate::term::Tree;
use vstd::prelude::*;

verus! {
/// An agent kind with a tree at each of its ports.
#[derive(Debug)]
pub struct UntypedMatch {
    pub id: AgentId,
    pub aux: Vec<Tree>,
}

/// An agent kind whose ports each hold a tree before, a tree after and a
/// type.
#[derive(Debug)]
pub struct TypedMatch {
    pub id: AgentId,
    pub aux: Vec<(Tree, Tree, Tree)>,
}

/// A rewrite rule between two agent kinds, and the interactions that were
/// written inside its patterns.
#[derive(Debug)]
pub struct Definition {
    pub left: UntypedMatch,
    pub right: UntypedMatch,
    pub net: Net,
}

/// A typed constructor: its ports, its index trees and the type it belongs
/// to, and the interactions that were written inside the statement.
#[derive(Debug)]
pub struct Declaration {
    pub agent: TypedMatch,
    pub intermediate: Vec<Tree>,
    pub parent: UntypedMatch,
    pub net: Net,
}

/// The mathematical value of an `UntypedMatch`.
pub struct MatchView {
    pub id: AgentId,
    pub aux: Seq<Term>,
}

/// The mathematical value of a `TypedMatch`.
pub struct TypedView {
    pub id: AgentId,
    pub aux: Seq<(Term, Term, Term)>,
}

/// The mathematical value of a `Definition`.
pub struct DefinitionView {
    pub left: MatchView,
    pub right: MatchView,
    pub net: NetState,
}

/// The mathematical value of a `Declaration`.
pub struct DeclarationView {
    pub agent: TypedView,
    pub intermediate: Seq<Term>,
    pub parent: MatchView,
    pub net: NetState,
}

/// The views of a vector of triples of trees, in order.
pub open spec fn triples(ps: Seq<(Tree, Tree, Tree)>) -> Seq<(Term, Term, Term)> {
    Seq::new(ps.len(), |i: int| (ps[i].0@, ps[i].1@, ps[i].2@))
}

impl View for UntypedMatch {
    type V = MatchView;

    open spec fn view(&self) -> MatchView {
        MatchView { id: self.id, aux: terms(self.aux@) }
    }
}

impl View for TypedMatch {
    type V = TypedView;

    open spec fn view(&self) -> TypedView {
        TypedView { id: self.id, aux: triples(self.aux@) }
    }
}

impl View for Definition {
    type V = DefinitionView;

    open spec fn view(&self) -> DefinitionView {
        DefinitionView { left: self.left@, right: self.right@, net: self.net@ }
    }
}

impl View for Declaration {
    type V = DeclarationView;

    open spec fn view(&self) -> DeclarationView {
        DeclarationView {
            agent: self.agent@,
            intermediate: terms(self.intermediate@),
            parent: self.parent@,
            net: self.net@,
        }
    }
}

/// The three trees of each port, one port after the other.
pub open spec fn spread3(ps: Seq<(Term, Term, Term)>) -> Seq<Term> {
    Seq::new(
        3 * ps.len(),
        |i: int|
            if i % 3 == 0 {
                ps[i / 3].0
            } else if i % 3 == 1 {
                ps[i / 3].1
            } else {
                ps[i / 3].2
            },
    )
}

impl TypedView {
    /// The agent whose ports are the three trees of each port of the
    /// pattern, one port after the other.
    pub open spec fn term(self) -> Term {
        Term::Agent { id: self.id, aux: spread3(self.aux) }
    }
}

impl MatchView {
    /// The agent that the pattern describes.
    pub open spec fn term(self) -> Term {
        Term::Agent { id: self.id, aux: self.aux }
    }
}

impl UntypedMatch {
    /// The pattern as a tree: an agent of its kind with its port trees.
    pub fn into_tree(self) -> (t: Tree)
        ensures
            t@ == self@.term(),
    {
        proof {
            lemma_view_agent(self.id, self.aux);
        }
        Tree::Agent { id: self.id, aux: self.aux }
    }
}

impl Clone for UntypedMatch {
    fn clone(&self) -> (res: Self)
        ensures
            res@ == self@,
    {
        UntypedMatch { id: self.id, aux: clone_trees(&self.aux) }
    }
}

impl Clone for TypedMatch {
    fn clone(&self) -> (res: Self)
        ensures
            res@ == self@,
    {
        let mut aux: Vec<(Tree, Tree, Tree)> = Vec::new();
        let mut i: usize = 0;
        while i < self.aux.len()
            invariant
                i <= self.aux.len(),
                aux.len() == i,
                forall|j: int|
                    0 <= j < i ==> (#[trigger] aux[j]).0@ == self.aux[j].0@ && aux[j].1@
                        == self.aux[j].1@ && aux[j].2@ == self.aux[j].2@,
            decreases self.aux.len() - i,
        {
            let a = self.aux[i].0.clone();
            let b = self.aux[i].1.clone();
            let c = self.aux[i].2.clone();
            aux.push((a, b, c));
            i += 1;
        }
        assert(triples(aux@) =~= triples(self.aux@));
        TypedMatch { id: self.id, aux }
    }
}

impl Clone for Definition {
    fn clone(&self) -> (res: Self)
        ensures
            res@ == self@,
    {
        Definition { left: self.left.clone(), right: self.right.clone(), net: self.net.clone() }
    }
}

impl Clone for Declaration {
    fn clone(&self) -> (res: Self)
        ensures
            res@ == self@,
    {
        Declaration {
            agent: self.agent.clone(),
            intermediate: clone_trees(&self.intermediate),
            parent: self.parent.clone(),
            net: self.net.clone(),
        }
    }
}

impl From<UntypedMatch> for Tree {
    fn from(m: UntypedMatch) -> (t: Tree) {
        Tree::Agent { id: m.id, aux: m.aux }
    }
}

impl vstd::std_specs::convert::FromSpecImpl<UntypedMatch> for Tree {
    open spec fn obeys_from_spec() -> bool {
        true
    }

    open spec fn from_spec(m: UntypedMatch) -> Tree {
        Tree::Agent { id: m.id, aux: m.aux }
    }
}

/// The views of a vector of definitions, in order.
pub open spec fn definitions(ds: Seq<Definition>) -> Seq<DefinitionView> {
    Seq::new(ds.len(), |i: int| ds[i]@)
}

/// The views of a vector of declarations, in order.
pub open spec fn declarations(ds: Seq<Declaration>) -> Seq<DeclarationView> {
    Seq::new(ds.len(), |i: int| ds[i]@)
}

/// The views of a vector of checks, in order.
pub open spec fn checks(cs: Seq<(bool, Net)>) -> Seq<(bool, NetState)> {
    Seq::new(cs.len(), |i: int| (cs[i].0, cs[i].1@))
}
} // verus!
