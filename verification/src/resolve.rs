//! Reading a tree through the bindings of a net's wires.

use crate::run::Net;
use crate::run::NetState;
use crate::term::lemma_view_agent;
use crate::term::reversed;
use crate::term::terms;
use crate::term::Term;
use crate::term::Tree;
use crate::term::VarId;
use vstd::prelude::*;

verus! {
/// `t` with each bound wire replaced by the tree it is bound to, read the
/// same way; `None` where that asks for more than `depth` bindings inside one
/// another.
pub open spec fn resolve(vars: Map<VarId, Option<Term>>, t: Term, depth: nat) -> Option<Term>
    decreases depth, t,
{
    match t {
        Term::Agent { id, aux } => {
            if forall|i: int| 0 <= i < aux.len() ==> resolve(vars, aux[i], depth) is Some {
                Some(
                    Term::Agent {
                        id,
                        aux: Seq::new(
                            aux.len(),
                            |i: int|
                                if 0 <= i < aux.len() {
                                    resolve(vars, aux[i], depth).unwrap()
                                } else {
                                    Term::Var { id: 0 }
                                },
                        ),
                    },
                )
            } else {
                None
            }
        },
        Term::Var { id } => {
            if vars.contains_key(id) && vars[id] is Some {
                if depth == 0 {
                    None
                } else {
                    resolve(vars, vars[id].unwrap(), (depth - 1) as nat)
                }
            } else {
                Some(t)
            }
        },
    }
}

/// Whether reading `t` through the bindings comes to an end.
pub open spec fn resolves(vars: Map<VarId, Option<Term>>, t: Term) -> bool {
    exists|depth: nat| resolve(vars, t, depth) is Some
}

/// `t` read through the bindings.
pub open spec fn resolved(vars: Map<VarId, Option<Term>>, t: Term) -> Term {
    resolve(vars, t, choose|depth: nat| resolve(vars, t, depth) is Some).unwrap()
}

/// What taking `t` out through the bindings gives: each bound wire that is
/// met leaves the store and the tree it was bound to stands in its place,
/// taken out the same way; the result is that tree and the store that is
/// left. `None` where a wire is met that the store does not hold, or where
/// that asks for more than `depth` bindings inside one another.
pub open spec fn consume(vars: Map<VarId, Option<Term>>, t: Term, depth: nat) -> Option<
    (Term, Map<VarId, Option<Term>>),
>
    decreases depth, t, 0nat,
{
    match t {
        Term::Agent { id, aux } => match consume_upto(vars, aux, aux.len(), depth) {
            Some((ts, rest)) => Some((Term::Agent { id, aux: ts }, rest)),
            None => None,
        },
        Term::Var { id } => {
            if !vars.contains_key(id) {
                None
            } else {
                match vars[id] {
                    None => Some((t, vars)),
                    Some(bound) => {
                        if depth == 0 {
                            None
                        } else {
                            consume(vars.remove(id), bound, (depth - 1) as nat)
                        }
                    },
                }
            }
        },
    }
}

/// `consume` on the first `n` of `ts`, one after the other, each on the store
/// that the one before left.
pub open spec fn consume_upto(
    vars: Map<VarId, Option<Term>>,
    ts: Seq<Term>,
    n: nat,
    depth: nat,
) -> Option<(Seq<Term>, Map<VarId, Option<Term>>)>
    decreases depth, ts, n,
{
    if n == 0 || n > ts.len() {
        Some((Seq::empty(), vars))
    } else {
        match consume_upto(vars, ts, (n - 1) as nat, depth) {
            None => None,
            Some((done, rest)) => match consume(rest, ts[n - 1], depth) {
                None => None,
                Some((r, left)) => Some((done.push(r), left)),
            },
        }
    }
}

/// Whether `t` can be taken out through the bindings.
pub open spec fn consumes(vars: Map<VarId, Option<Term>>, t: Term) -> bool {
    exists|depth: nat| consume(vars, t, depth) is Some
}

/// `t` taken out through the bindings, and the store that is left.
pub open spec fn consumed(vars: Map<VarId, Option<Term>>, t: Term) -> (Term, Map<VarId, Option<Term>>) {
    consume(vars, t, choose|depth: nat| consume(vars, t, depth) is Some).unwrap()
}

impl Net {
    /// A copy of `tree` with each bound wire replaced by what it is bound to,
    /// down through the bindings. The net stays as it is.
    pub fn substitute_ref(&self, tree: &Tree) -> (res: Tree)
        requires
            self.wf(),
            resolves(self@.vars, tree@),
        ensures
            res@ == resolved(self@.vars, tree@),
    {
        let ghost depth = choose|depth: nat| resolve(self@.vars, tree@, depth) is Some;
        self.substitute_ref_deep(tree, Ghost(depth))
    }

    /// A copy of `tree` with each bound wire replaced by what it is bound to,
    /// down through the bindings, as far as that asks for no more than
    /// `depth` bindings inside one another; `None` where it asks for more,
    /// as it does at every depth where the bindings go in a circle. The net
    /// stays as it is.
    pub fn substitute_ref_within(&self, tree: &Tree, depth: usize) -> (res: Option<Tree>)
        requires
            self.wf(),
        ensures
            res.deep_view() == resolve(self@.vars, tree@, depth as nat),
        decreases depth, tree,
    {
        match tree {
            Tree::Agent { id, aux } => {
                let mut out: Vec<Tree> = Vec::new();
                let mut i: usize = 0;
                proof {
                    lemma_view_agent(*id, *aux);
                }
                while i < aux.len()
                    invariant
                        i <= aux.len(),
                        out.len() == i,
                        self.wf(),
                        tree is Agent,
                        tree->aux == *aux,
                        tree@ == (Term::Agent { id: *id, aux: terms(aux@) }),
                        forall|j: int|
                            0 <= j < i ==> resolve(self@.vars, aux[j]@, depth as nat) == Some(
                                (#[trigger] out[j])@,
                            ),
                    decreases aux.len() - i,
                {
                    match self.substitute_ref_within(&aux[i], depth) {
                        Some(c) => {
                            out.push(c);
                        },
                        None => {
                            assert(resolve(self@.vars, terms(aux@)[i as int], depth as nat) is None);
                            return None;
                        },
                    }
                    i += 1;
                }
                let res = Tree::Agent { id: *id, aux: out };
                proof {
                    lemma_view_agent(*id, out);
                    assert forall|j: int| 0 <= j < terms(aux@).len() implies resolve(
                        self@.vars,
                        terms(aux@)[j],
                        depth as nat,
                    ) is Some by {
                        assert(resolve(self@.vars, aux[j]@, depth as nat) == Some(out[j]@));
                    }
                    let want = resolve(self@.vars, tree@, depth as nat).unwrap();
                    assert(want is Agent);
                    assert(want->aux =~= terms(out@));
                }
                Some(res)
            },
            Tree::Var { id } => {
                match self.vars.get(*id) {
                    Some(Some(bound)) => {
                        if depth == 0 {
                            None
                        } else {
                            self.substitute_ref_within(bound, depth - 1)
                        }
                    },
                    _ => Some(Tree::Var { id: *id }),
                }
            },
        }
    }

    fn substitute_ref_deep(&self, tree: &Tree, Ghost(depth): Ghost<nat>) -> (res: Tree)
        requires
            self.wf(),
            resolve(self@.vars, tree@, depth) is Some,
        ensures
            res@ == resolve(self@.vars, tree@, depth).unwrap(),
        decreases depth, tree,
    {
        match tree {
            Tree::Agent { id, aux } => {
                let mut out: Vec<Tree> = Vec::new();
                let mut i: usize = 0;
                proof {
                    lemma_view_agent(*id, *aux);
                }
                while i < aux.len()
                    invariant
                        i <= aux.len(),
                        out.len() == i,
                        self.wf(),
                        tree is Agent,
                        tree->aux == *aux,
                        tree@ == (Term::Agent { id: *id, aux: terms(aux@) }),
                        resolve(self@.vars, tree@, depth) is Some,
                        forall|j: int|
                            0 <= j < i ==> (#[trigger] out[j])@ == resolve(
                                self@.vars,
                                aux[j]@,
                                depth,
                            ).unwrap(),
                    decreases aux.len() - i,
                {
                    assert(resolve(self@.vars, terms(aux@)[i as int], depth) is Some);
                    let c = self.substitute_ref_deep(&aux[i], Ghost(depth));
                    out.push(c);
                    i += 1;
                }
                let res = Tree::Agent { id: *id, aux: out };
                proof {
                    lemma_view_agent(*id, out);
                    let want = resolve(self@.vars, tree@, depth).unwrap();
                    assert(want->aux =~= terms(out@));
                }
                res
            },
            Tree::Var { id } => {
                match self.vars.get(*id) {
                    Some(Some(bound)) => self.substitute_ref_deep(bound, Ghost((depth - 1) as nat)),
                    _ => Tree::Var { id: *id },
                }
            },
        }
    }

    /// `tree` with each bound wire replaced by what it was bound to, down
    /// through the bindings; each wire that was replaced leaves the store.
    pub fn substitute(&mut self, tree: Tree) -> (res: Tree)
        requires
            old(self).wf(),
            consumes(old(self)@.vars, tree@),
        ensures
            final(self).wf(),
            (res@, final(self)@.vars) == consumed(old(self)@.vars, tree@),
            final(self)@ == (NetState { vars: final(self)@.vars, ..old(self)@ }),
            final(self).issued() == old(self).issued(),
    {
        let ghost depth = choose|depth: nat| consume(self@.vars, tree@, depth) is Some;
        self.substitute_within(tree, Ghost(depth))
    }

    fn substitute_within(&mut self, tree: Tree, Ghost(depth): Ghost<nat>) -> (res: Tree)
        requires
            old(self).wf(),
            consume(old(self)@.vars, tree@, depth) is Some,
        ensures
            final(self).wf(),
            (res@, final(self)@.vars) == consume(old(self)@.vars, tree@, depth).unwrap(),
            final(self)@ == (NetState { vars: final(self)@.vars, ..old(self)@ }),
            final(self).issued() == old(self).issued(),
        decreases depth, tree,
    {
        match tree {
            Tree::Agent { id, aux } => {
                let ghost ts = terms(aux@);
                let ghost aux0 = aux;
                let n = aux.len();
                let mut out: Vec<Tree> = Vec::new();
                let mut i: usize = 0;
                proof {
                    lemma_view_agent(id, aux);
                }
                let mut rest = reversed(aux);
                while i < n
                    invariant
                        i <= n,
                        n == aux0.len(),
                        out.len() == i,
                        self.wf(),
                        ts == terms(aux0@),
                        tree is Agent,
                        tree->aux == aux0,
                        rest@.len() == n - i,
                        forall|j: int| 0 <= j < rest@.len() ==> rest@[j] == aux0@[n - 1 - j],
                        self@ == (NetState { vars: self@.vars, ..old(self)@ }),
                        self.issued() == old(self).issued(),
                        consume_upto(old(self)@.vars, ts, n as nat, depth) is Some,
                        consume_upto(old(self)@.vars, ts, i as nat, depth) == Some(
                            (terms(out@), self@.vars),
                        ),
                    decreases n - i,
                {
                    proof {
                        lemma_consume_upto_prefix(old(self)@.vars, ts, (i + 1) as nat, n as nat, depth);
                    }
                    let a = rest.pop().unwrap();
                    proof {
                        vstd::std_specs::vec::axiom_vec_index_decreases(aux0, i as int);
                    }
                    let c = self.substitute_within(a, Ghost(depth));
                    out.push(c);
                    i += 1;
                }
                let res = Tree::Agent { id, aux: out };
                proof {
                    lemma_view_agent(id, out);
                }
                res
            },
            Tree::Var { id } => {
                let entry = self.vars.replace(id, None);
                match entry {
                    Some(Some(bound)) => {
                        self.vars.remove(id);
                        assert(self@.vars =~= old(self)@.vars.remove(id));
                        self.substitute_within(bound, Ghost((depth - 1) as nat))
                    },
                    _ => {
                        Tree::Var { id }
                    },
                }
            },
        }
    }
}

/// Where `consume_upto` comes through on the first `n` trees, it comes
/// through on the first `i` of them.
pub proof fn lemma_consume_upto_prefix(
    vars: Map<VarId, Option<Term>>,
    ts: Seq<Term>,
    i: nat,
    n: nat,
    depth: nat,
)
    requires
        i <= n <= ts.len(),
        consume_upto(vars, ts, n, depth) is Some,
    ensures
        consume_upto(vars, ts, i, depth) is Some,
    decreases n,
{
    if i < n {
        lemma_consume_upto_prefix(vars, ts, i, (n - 1) as nat, depth);
    }
}
} // verus!
