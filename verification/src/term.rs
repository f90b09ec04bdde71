//! Trees of agents and variables, and their mathematical model.

use vstd::prelude::*;

verus! {
/// Names an agent kind.
pub type AgentId = u64;

/// Names one wire; each of its two ends is a variable node with this id.
pub type VarId = u64;

/// A node of a net: an agent with its auxiliary ports, or one end of a wire.
#[derive(Debug)]
#[allow(inconsistent_fields)]
pub enum Tree {
    Agent { id: AgentId, aux: Vec<Tree> },
    Var { id: VarId },
}

/// The mathematical value of a `Tree`.
#[allow(inconsistent_fields)]
pub enum Term {
    Agent { id: AgentId, aux: Seq<Term> },
    Var { id: VarId },
}

/// The term that a tree stands for.
pub open spec fn term_of(t: Tree) -> Term
    decreases t,
{
    match t {
        Tree::Agent { id, aux } => Term::Agent {
            id,
            aux: Seq::new(
                aux@.len(),
                |i: int|
                    if 0 <= i < aux@.len() {
                        term_of(aux@[i])
                    } else {
                        Term::Var { id: 0 }
                    },
            ),
        },
        Tree::Var { id } => Term::Var { id },
    }
}

impl View for Tree {
    type V = Term;

    open spec fn view(&self) -> Term {
        term_of(*self)
    }
}

impl DeepView for Tree {
    type V = Term;

    open spec fn deep_view(&self) -> Term {
        self.view()
    }
}

/// The views of a vector of trees, in order.
pub open spec fn terms(ts: Seq<Tree>) -> Seq<Term> {
    Seq::new(ts.len(), |i: int| ts[i]@)
}

/// The views of a vector of pairs of trees, in order.
pub open spec fn pairs(ps: Seq<(Tree, Tree)>) -> Seq<(Term, Term)> {
    Seq::new(ps.len(), |i: int| (ps[i].0@, ps[i].1@))
}

/// The view of an agent is the agent of the views of its ports.
pub proof fn lemma_view_agent(id: AgentId, aux: Vec<Tree>)
    ensures
        (Tree::Agent { id, aux })@ == (Term::Agent { id, aux: terms(aux@) }),
{
    let t = Tree::Agent { id, aux };
    assert(t@->Agent_aux =~= terms(aux@));
}

impl Clone for Tree {
    fn clone(&self) -> (res: Self)
        ensures
            res@ == self@,
        decreases self,
    {
        match self {
            Tree::Agent { id, aux } => {
                let mut out: Vec<Tree> = Vec::new();
                let mut i: usize = 0;
                while i < aux.len()
                    invariant
                        i <= aux.len(),
                        out.len() == i,
                        self is Agent,
                        self->aux == *aux,
                        forall|j: int| 0 <= j < i ==> out[j]@ == aux[j]@,
                    decreases aux.len() - i,
                {
                    proof {
                        vstd::std_specs::vec::axiom_vec_index_decreases(*aux, i as int);
                    }
                    let c = aux[i].clone();
                    out.push(c);
                    i += 1;
                }
                proof {
                    lemma_view_agent(*id, *aux);
                    lemma_view_agent(*id, out);
                    assert(terms(out@) =~= terms(aux@));
                }
                Tree::Agent { id: *id, aux: out }
            },
            Tree::Var { id } => Tree::Var { id: *id },
        }
    }
}

impl Tree {
    /// The kind of an agent node; a variable has none.
    pub fn agent_id(&self) -> (r: Option<AgentId>)
        ensures
            r == self@.agent_id(),
    {
        match self {
            Tree::Agent { id, .. } => Some(*id),
            Tree::Var { .. } => None,
        }
    }
}

impl Term {
    /// The kind of an agent; a variable has none.
    pub open spec fn agent_id(self) -> Option<AgentId> {
        match self {
            Term::Agent { id, .. } => Some(id),
            Term::Var { .. } => None,
        }
    }
}
} // verus!

verus! {
/// Whether the variable `v` occurs in `t`.
pub open spec fn occurs(v: VarId, t: Term) -> bool
    decreases t,
{
    match t {
        Term::Agent { id, aux } => exists|i: int| 0 <= i < aux.len() && occurs(v, #[trigger] aux[i]),
        Term::Var { id } => id == v,
    }
}

/// Whether the variable `v` occurs in one of `ts`.
pub open spec fn occurs_in(v: VarId, ts: Seq<Term>) -> bool {
    exists|i: int| 0 <= i < ts.len() && occurs(v, #[trigger] ts[i])
}

/// The number of variable nodes in `t`.
pub open spec fn var_count(t: Term) -> nat
    decreases t, 0nat,
{
    match t {
        Term::Agent { id, aux } => var_count_upto(aux, aux.len()),
        Term::Var { id } => 1,
    }
}

/// The number of variable nodes in the first `n` of `ts`.
pub open spec fn var_count_upto(ts: Seq<Term>, n: nat) -> nat
    decreases ts, n,
{
    if n == 0 || n > ts.len() {
        0
    } else {
        var_count_upto(ts, (n - 1) as nat) + var_count(ts[n - 1])
    }
}

/// `t` with each variable in the domain of `rho` replaced by what `rho`
/// gives for it.
pub open spec fn rename(t: Term, rho: Map<VarId, VarId>) -> Term
    decreases t,
{
    match t {
        Term::Agent { id, aux } => Term::Agent {
            id,
            aux: Seq::new(
                aux.len(),
                |i: int|
                    if 0 <= i < aux.len() {
                        rename(aux[i], rho)
                    } else {
                        Term::Var { id: 0 }
                    },
            ),
        },
        Term::Var { id } => Term::Var {
            id: if rho.contains_key(id) {
                rho[id]
            } else {
                id
            },
        },
    }
}

/// Two renamings that agree on the variables of `t` rename it alike.
pub proof fn lemma_rename_agree(t: Term, rho1: Map<VarId, VarId>, rho2: Map<VarId, VarId>)
    requires
        forall|v: VarId| #[trigger]
            occurs(v, t) ==> rho1.contains_key(v) == rho2.contains_key(v) && (rho1.contains_key(v)
                ==> rho1[v] == rho2[v]),
    ensures
        rename(t, rho1) == rename(t, rho2),
    decreases t,
{
    match t {
        Term::Agent { id, aux } => {
            assert forall|i: int| 0 <= i < aux.len() implies rename(aux[i], rho1) == rename(
                aux[i],
                rho2,
            ) by {
                assert forall|v: VarId| #[trigger] occurs(v, aux[i]) implies rho1.contains_key(v)
                    == rho2.contains_key(v) && (rho1.contains_key(v) ==> rho1[v] == rho2[v]) by {
                    assert(occurs(v, t));
                }
                lemma_rename_agree(aux[i], rho1, rho2);
            }
            let r1 = rename(t, rho1);
            let r2 = rename(t, rho2);
            assert(r1->aux =~= r2->aux);
        },
        Term::Var { id } => {
            assert(occurs(id, t));
        },
    }
}

impl Tree {
    /// The number of variable nodes in the tree, or `usize::MAX` if there are
    /// more than that.
    pub fn count_vars(&self) -> (n: usize)
        ensures
            n == if var_count(self@) <= usize::MAX {
                var_count(self@)
            } else {
                usize::MAX as nat
            },
        decreases self, 2nat,
    {
        match self {
            Tree::Agent { id, aux } => {
                proof {
                    lemma_view_agent(*id, *aux);
                }
                let n = count_vars_all(aux);
                n
            },
            Tree::Var { id } => 1,
        }
    }
}

/// The number of variable nodes in `ts`, or `usize::MAX` if there are more
/// than that.
pub fn count_vars_all(ts: &Vec<Tree>) -> (n: usize)
    ensures
        n == if var_count_upto(terms(ts@), ts@.len()) <= usize::MAX {
            var_count_upto(terms(ts@), ts@.len())
        } else {
            usize::MAX as nat
        },
    decreases ts, 1nat,
{
    count_vars_upto(ts, ts.len())
}

/// The number of variable nodes in the first `len` of `ts`, or `usize::MAX`
/// if there are more than that.
pub fn count_vars_upto(ts: &Vec<Tree>, len: usize) -> (n: usize)
    requires
        len <= ts@.len(),
    ensures
        n == if var_count_upto(terms(ts@), len as nat) <= usize::MAX {
            var_count_upto(terms(ts@), len as nat)
        } else {
            usize::MAX as nat
        },
    decreases ts, 0nat,
{
    let mut n: usize = 0;
    let mut i: usize = 0;
    while i < len
        invariant
            i <= len <= ts.len(),
            n == if var_count_upto(terms(ts@), i as nat) <= usize::MAX {
                var_count_upto(terms(ts@), i as nat)
            } else {
                usize::MAX as nat
            },
        decreases len - i,
    {
        let k = ts[i].count_vars();
        n = n.saturating_add(k);
        i += 1;
    }
    n
}

/// The same items in the opposite order.
pub fn reversed<T>(v: Vec<T>) -> (r: Vec<T>)
    ensures
        r@ == v@.reverse(),
{
    let mut v = v;
    let ghost v0 = v@;
    let mut r: Vec<T> = Vec::new();
    while v.len() > 0
        invariant
            v@.len() + r@.len() == v0.len(),
            v@ == v0.take(v@.len() as int),
            forall|j: int| 0 <= j < r@.len() ==> r@[j] == v0[v0.len() - 1 - j],
        decreases v.len(),
    {
        let x = v.pop().unwrap();
        r.push(x);
    }
    r
}

/// A copy of the trees, one by one.
pub fn clone_trees(ts: &Vec<Tree>) -> (r: Vec<Tree>)
    ensures
        terms(r@) == terms(ts@),
{
    let mut r: Vec<Tree> = Vec::new();
    let mut i: usize = 0;
    while i < ts.len()
        invariant
            i <= ts.len(),
            r.len() == i,
            forall|j: int| 0 <= j < i ==> (#[trigger] r[j])@ == ts[j]@,
        decreases ts.len() - i,
    {
        let c = ts[i].clone();
        r.push(c);
        i += 1;
    }
    r
}
} // verus!
