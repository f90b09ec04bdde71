//! The surface syntax: statements over named agents and variables.

use crate::flatten::names_agent;
use crate::flatten::nodes;
use crate::flatten::nodes_upto;
use vstd::prelude::*;

verus! {
/// A tree as written: agents and variables by name, and `rest with l ~ r`,
/// which stands for `rest` beside the interaction of `l` with `r`.
#[derive(Debug)]
pub enum Tree {
    Agent { name: String, aux: Vec<Tree> },
    Variable { name: String },
    With { rest: Box<Tree>, redex: Box<(Tree, Tree)> },
}

/// An agent pattern whose ports each give a tree before, a tree after and a
/// type.
#[derive(Debug)]
pub struct TypedMatch {
    pub name: String,
    pub aux: Vec<(Tree, Tree, Tree)>,
}

/// An agent pattern with a tree at each port.
#[derive(Debug)]
pub struct UntypedMatch {
    pub name: String,
    pub aux: Vec<Tree>,
}

/// The interactions that a check asserts.
#[derive(Debug)]
pub struct Net {
    pub interactions: Vec<(Tree, Tree)>,
}

/// A declaration `agent : index : .. : type`, a definition `left ~ right`, or
/// a check of one interaction that is to pass or to fail.
#[derive(Debug)]
pub enum Statement {
    Decl(TypedMatch, Vec<Tree>, UntypedMatch),
    Def(UntypedMatch, UntypedMatch),
    Check(bool, Net),
}

/// The mathematical value of a surface tree.
pub enum Surface {
    Agent { name: Seq<char>, aux: Seq<Surface> },
    Variable { name: Seq<char> },
    With { rest: Box<Surface>, left: Box<Surface>, right: Box<Surface> },
}

/// The mathematical value of a `TypedMatch`.
pub struct TypedPattern {
    pub name: Seq<char>,
    pub aux: Seq<(Surface, Surface, Surface)>,
}

/// The mathematical value of an `UntypedMatch`.
pub struct Pattern {
    pub name: Seq<char>,
    pub aux: Seq<Surface>,
}

/// The mathematical value of a `Statement`.
pub enum Stmt {
    Decl(TypedPattern, Seq<Surface>, Pattern),
    Def(Pattern, Pattern),
    Check(bool, Seq<(Surface, Surface)>),
}

/// The value that a surface tree stands for.
pub open spec fn surface_of(t: Tree) -> Surface
    decreases t,
{
    match t {
        Tree::Agent { name, aux } => Surface::Agent {
            name: name@,
            aux: Seq::new(
                aux@.len(),
                |i: int|
                    if 0 <= i < aux@.len() {
                        surface_of(aux@[i])
                    } else {
                        Surface::Variable { name: Seq::empty() }
                    },
            ),
        },
        Tree::Variable { name } => Surface::Variable { name: name@ },
        Tree::With { rest, redex } => Surface::With {
            rest: Box::new(surface_of(*rest)),
            left: Box::new(surface_of(redex.0)),
            right: Box::new(surface_of(redex.1)),
        },
    }
}

impl View for Tree {
    type V = Surface;

    open spec fn view(&self) -> Surface {
        surface_of(*self)
    }
}

/// The values of a vector of surface trees, in order.
pub open spec fn surfaces(ts: Seq<Tree>) -> Seq<Surface> {
    Seq::new(ts.len(), |i: int| ts[i]@)
}

/// The values of a vector of pairs of surface trees, in order.
pub open spec fn surface_pairs(ps: Seq<(Tree, Tree)>) -> Seq<(Surface, Surface)> {
    Seq::new(ps.len(), |i: int| (ps[i].0@, ps[i].1@))
}

/// The values of a vector of triples of surface trees, in order.
pub open spec fn surface_triples(ps: Seq<(Tree, Tree, Tree)>) -> Seq<(Surface, Surface, Surface)> {
    Seq::new(ps.len(), |i: int| (ps[i].0@, ps[i].1@, ps[i].2@))
}

/// The value of an agent is the agent of the values of its ports.
pub proof fn lemma_view_agent(name: String, aux: Vec<Tree>)
    ensures
        (Tree::Agent { name, aux })@ == (Surface::Agent { name: name@, aux: surfaces(aux@) }),
{
    let t = Tree::Agent { name, aux };
    assert(t@->Agent_aux =~= surfaces(aux@));
}

impl View for TypedMatch {
    type V = TypedPattern;

    open spec fn view(&self) -> TypedPattern {
        TypedPattern { name: self.name@, aux: surface_triples(self.aux@) }
    }
}

impl View for UntypedMatch {
    type V = Pattern;

    open spec fn view(&self) -> Pattern {
        Pattern { name: self.name@, aux: surfaces(self.aux@) }
    }
}

impl View for Net {
    type V = Seq<(Surface, Surface)>;

    open spec fn view(&self) -> Seq<(Surface, Surface)> {
        surface_pairs(self.interactions@)
    }
}

impl View for Statement {
    type V = Stmt;

    open spec fn view(&self) -> Stmt {
        match self {
            Statement::Decl(a, vars, t) => Stmt::Decl(a@, surfaces(vars@), t@),
            Statement::Def(a, b) => Stmt::Def(a@, b@),
            Statement::Check(positive, net) => Stmt::Check(*positive, net@),
        }
    }
}

/// The three trees of each port, one port after the other.
pub open spec fn spread3(ps: Seq<(Surface, Surface, Surface)>) -> Seq<Surface> {
    Seq::new(
        3 * ps.len(),
        |i: int|
            if i % 3 == 0 {
                ps[i / 3].0
            } else if i % 3 == 1 {
                ps[i / 3].1
            } else {
                ps[i / 3].2
            },
    )
}

impl Pattern {
    /// The pattern as a tree: the agent `name` with the trees at its ports.
    pub open spec fn tree(self) -> Surface {
        Surface::Agent { name: self.name, aux: self.aux }
    }
}

impl TypedPattern {
    /// The pattern as a tree: the agent `name` with the three trees of each
    /// port, one port after the other.
    pub open spec fn tree(self) -> Surface {
        Surface::Agent { name: self.name, aux: spread3(self.aux) }
    }
}

impl Clone for Tree {
    fn clone(&self) -> (res: Self)
        ensures
            res@ == self@,
        decreases self,
    {
        match self {
            Tree::Agent { name, aux } => {
                proof {
                    lemma_view_agent(*name, *aux);
                }
                let aux = clone_trees(aux);
                let name = name.clone();
                proof {
                    lemma_view_agent(name, aux);
                }
                Tree::Agent { name, aux }
            },
            Tree::Variable { name } => Tree::Variable { name: name.clone() },
            Tree::With { rest, redex } => {
                let rest = (&**rest).clone();
                let left = redex.0.clone();
                let right = redex.1.clone();
                Tree::With { rest: Box::new(rest), redex: Box::new((left, right)) }
            },
        }
    }
}

/// A copy of the trees, one by one.
pub fn clone_trees(ts: &Vec<Tree>) -> (r: Vec<Tree>)
    ensures
        surfaces(r@) == surfaces(ts@),
    decreases ts,
{
    let mut r: Vec<Tree> = Vec::new();
    let mut i: usize = 0;
    while i < ts.len()
        invariant
            i <= ts.len(),
            r.len() == i,
            forall|j: int| 0 <= j < i ==> (#[trigger] r[j])@ == ts[j]@,
        decreases ts.len() - i,
    {
        let c = ts[i].clone();
        r.push(c);
        i += 1;
    }
    r
}

impl Clone for UntypedMatch {
    fn clone(&self) -> (res: Self)
        ensures
            res@ == self@,
    {
        UntypedMatch { name: self.name.clone(), aux: clone_trees(&self.aux) }
    }
}

impl Clone for TypedMatch {
    fn clone(&self) -> (res: Self)
        ensures
            res@ == self@,
    {
        let mut aux: Vec<(Tree, Tree, Tree)> = Vec::new();
        let mut i: usize = 0;
        while i < self.aux.len()
            invariant
                i <= self.aux.len(),
                aux.len() == i,
                forall|j: int|
                    0 <= j < i ==> (#[trigger] aux[j]).0@ == self.aux[j].0@ && aux[j].1@
                        == self.aux[j].1@ && aux[j].2@ == self.aux[j].2@,
            decreases self.aux.len() - i,
        {
            let a = self.aux[i].0.clone();
            let b = self.aux[i].1.clone();
            let c = self.aux[i].2.clone();
            aux.push((a, b, c));
            i += 1;
        }
        assert(surface_triples(aux@) =~= surface_triples(self.aux@));
        TypedMatch { name: self.name.clone(), aux }
    }
}

impl Clone for Net {
    fn clone(&self) -> (res: Self)
        ensures
            res@ == self@,
    {
        let mut interactions: Vec<(Tree, Tree)> = Vec::new();
        let mut i: usize = 0;
        while i < self.interactions.len()
            invariant
                i <= self.interactions.len(),
                interactions.len() == i,
                forall|j: int|
                    0 <= j < i ==> (#[trigger] interactions[j]).0@ == self.interactions[j].0@
                        && interactions[j].1@ == self.interactions[j].1@,
            decreases self.interactions.len() - i,
        {
            let a = self.interactions[i].0.clone();
            let b = self.interactions[i].1.clone();
            interactions.push((a, b));
            i += 1;
        }
        Net { interactions }
    }
}

impl Clone for Statement {
    fn clone(&self) -> (res: Self)
        ensures
            res@ == self@,
    {
        match self {
            Statement::Decl(a, vars, t) => Statement::Decl(a.clone(), clone_trees(vars), t.clone()),
            Statement::Def(a, b) => Statement::Def(a.clone(), b.clone()),
            Statement::Check(positive, net) => Statement::Check(*positive, net.clone()),
        }
    }
}

/// `n`, or `usize::MAX` where `n` is more than that.
pub open spec fn capped(n: nat) -> nat {
    if n <= usize::MAX {
        n
    } else {
        usize::MAX as nat
    }
}

impl Tree {
    /// The number of agents and variables written in the tree, or
    /// `usize::MAX` if there are more than that.
    pub fn count_nodes(&self) -> (n: usize)
        ensures
            n == capped(nodes(self@)),
        decreases self, 2nat,
    {
        match self {
            Tree::Agent { name, aux } => {
                proof {
                    lemma_view_agent(*name, *aux);
                }
                let n = count_nodes_upto(aux, aux.len());
                n.saturating_add(1)
            },
            Tree::Variable { name } => 1,
            Tree::With { rest, redex } => {
                let a = rest.count_nodes();
                let b = redex.0.count_nodes();
                let c = redex.1.count_nodes();
                a.saturating_add(b).saturating_add(c)
            },
        }
    }
}

/// The number of agents and variables written in the first `len` of `ts`, or
/// `usize::MAX` if there are more than that.
pub fn count_nodes_upto(ts: &Vec<Tree>, len: usize) -> (n: usize)
    requires
        len <= ts@.len(),
    ensures
        n == capped(nodes_upto(surfaces(ts@), len as nat)),
    decreases ts, 0nat,
{
    let mut n: usize = 0;
    let mut i: usize = 0;
    while i < len
        invariant
            i <= len <= ts.len(),
            n == capped(nodes_upto(surfaces(ts@), i as nat)),
        decreases len - i,
    {
        let k = ts[i].count_nodes();
        n = n.saturating_add(k);
        i += 1;
    }
    n
}

impl UntypedMatch {
    /// The number of nodes of the pattern as a tree, or `usize::MAX` if there
    /// are more than that.
    pub fn count_nodes(&self) -> (n: usize)
        ensures
            n == capped(nodes(self@.tree())),
    {
        count_nodes_upto(&self.aux, self.aux.len()).saturating_add(1)
    }
}

impl TypedMatch {
    /// The number of nodes of the pattern as a tree, or `usize::MAX` if there
    /// are more than that.
    pub fn count_nodes(&self) -> (n: usize)
        ensures
            n == capped(nodes(self@.tree())),
    {
        let ghost ts = spread3(self@.aux);
        let mut n: usize = 0;
        let mut i: usize = 0;
        while i < self.aux.len()
            invariant
                i <= self.aux.len(),
                ts == spread3(self@.aux),
                n == capped(nodes_upto(ts, (3 * i) as nat)),
            decreases self.aux.len() - i,
        {
            let a = self.aux[i].0.count_nodes();
            let b = self.aux[i].1.count_nodes();
            let c = self.aux[i].2.count_nodes();
            proof {
                let k: int = 3 * (i as int);
                assert(nodes_upto(ts, (k + 2) as nat) == nodes_upto(ts, (k + 1) as nat) + nodes(
                    ts[k + 1],
                ));
            }
            n = n.saturating_add(a).saturating_add(b).saturating_add(c);
            i += 1;
        }
        n.saturating_add(1)
    }
}
/// Whether one of `ts` names the agent `name`.
pub open spec fn names_agent_among(name: Seq<char>, ts: Seq<Surface>) -> bool {
    exists|i: int| 0 <= i < ts.len() && names_agent(name, #[trigger] ts[i])
}

impl Tree {
    /// Whether the tree names the agent `name`.
    pub fn names(&self, name: &String) -> (r: bool)
        ensures
            r == names_agent(name@, self@),
        decreases self, 1nat,
    {
        match self {
            Tree::Agent { name: n, aux } => {
                proof {
                    lemma_view_agent(*n, *aux);
                }
                *n == *name || any_names(aux, name)
            },
            Tree::Variable { name: n } => false,
            Tree::With { rest, redex } => {
                rest.names(name) || redex.0.names(name) || redex.1.names(name)
            },
        }
    }
}

/// Whether one of the trees names the agent `name`.
pub fn any_names(ts: &Vec<Tree>, name: &String) -> (r: bool)
    ensures
        r == names_agent_among(name@, surfaces(ts@)),
    decreases ts, 0nat,
{
    let mut i: usize = 0;
    while i < ts.len()
        invariant
            i <= ts.len(),
            forall|j: int| 0 <= j < i ==> !names_agent(name@, #[trigger] surfaces(ts@)[j]),
        decreases ts.len() - i,
    {
        if ts[i].names(name) {
            assert(names_agent(name@, surfaces(ts@)[i as int]));
            return true;
        }
        i += 1;
    }
    false
}

impl UntypedMatch {
    /// Whether the pattern names the agent `name`.
    pub fn names(&self, name: &String) -> (r: bool)
        ensures
            r == names_agent(name@, self@.tree()),
    {
        let here = self.name == *name;
        let below = any_names(&self.aux, name);
        proof {
            let aux = surfaces(self.aux@);
            if below {
                let i = choose|i: int| 0 <= i < aux.len() && names_agent(name@, #[trigger] aux[i]);
                assert(names_agent(name@, self@.tree()->aux[i]));
            }
        }
        here || below
    }
}

impl TypedMatch {
    /// Whether the pattern names the agent `name`.
    pub fn names(&self, name: &String) -> (r: bool)
        ensures
            r == names_agent(name@, self@.tree()),
    {
        if self.name == *name {
            return true;
        }
        let ghost ts = spread3(self@.aux);
        let mut i: usize = 0;
        while i < self.aux.len()
            invariant
                i <= self.aux.len(),
                ts == spread3(self@.aux),
                forall|j: int| 0 <= j < 3 * i ==> !names_agent(name@, #[trigger] ts[j]),
            decreases self.aux.len() - i,
        {
            let ghost k: int = 3 * (i as int);
            proof {
                assert(ts[k] == self.aux@[i as int].0@);
                assert(ts[k + 1] == self.aux@[i as int].1@);
                assert(ts[k + 2] == self.aux@[i as int].2@);
            }
            if self.aux[i].0.names(name) || self.aux[i].1.names(name) || self.aux[i].2.names(name) {
                proof {
                    let t = self@.tree();
                    if names_agent(name@, ts[k]) {
                        assert(names_agent(name@, t->aux[k]));
                    } else if names_agent(name@, ts[k + 1]) {
                        assert(names_agent(name@, t->aux[k + 1]));
                    } else {
                        assert(names_agent(name@, t->aux[k + 2]));
                    }
                }
                return true;
            }
            i += 1;
        }
        false
    }
}

} // verus!
