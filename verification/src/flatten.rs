//! What a surface tree means once its names have identifiers.

use crate::syntax::Surface;
use crate::term::AgentId;
use crate::term::Term;
use crate::term::VarId;
use vstd::prelude::*;

verus! {
/// The identifiers of agent names.
pub type AgentScope = Map<Seq<char>, AgentId>;

/// The identifiers of variable names.
pub type VarScope = Map<Seq<char>, VarId>;

/// Whether `t` names the agent `name`.
pub open spec fn names_agent(name: Seq<char>, t: Surface) -> bool
    decreases t,
{
    match t {
        Surface::Agent { name: n, aux } => n == name || exists|i: int|
            0 <= i < aux.len() && names_agent(name, #[trigger] aux[i]),
        Surface::Variable { name: n } => false,
        Surface::With { rest, left, right } => names_agent(name, *rest) || names_agent(name, *left)
            || names_agent(name, *right),
    }
}

/// Whether `t` names the variable `name`.
pub open spec fn names_var(name: Seq<char>, t: Surface) -> bool
    decreases t,
{
    match t {
        Surface::Agent { name: n, aux } => exists|i: int|
            0 <= i < aux.len() && names_var(name, #[trigger] aux[i]),
        Surface::Variable { name: n } => n == name,
        Surface::With { rest, left, right } => names_var(name, *rest) || names_var(name, *left)
            || names_var(name, *right),
    }
}

/// The number of agents and variables written in `t`.
pub open spec fn nodes(t: Surface) -> nat
    decreases t, 0nat,
{
    match t {
        Surface::Agent { name, aux } => 1 + nodes_upto(aux, aux.len()),
        Surface::Variable { name } => 1,
        Surface::With { rest, left, right } => nodes(*rest) + nodes(*left) + nodes(*right),
    }
}

/// The number of agents and variables written in the first `n` of `ts`.
pub open spec fn nodes_upto(ts: Seq<Surface>, n: nat) -> nat
    decreases ts, n,
{
    if n == 0 || n > ts.len() {
        0
    } else {
        nodes_upto(ts, (n - 1) as nat) + nodes(ts[n - 1])
    }
}

/// The tree that `t` stands for under the two scopes: each name gives way to
/// its identifier, and of `rest with l ~ r` only `rest` is left.
pub open spec fn flat(t: Surface, agents: AgentScope, vars: VarScope) -> Term
    decreases t,
{
    match t {
        Surface::Agent { name, aux } => Term::Agent {
            id: agents[name],
            aux: Seq::new(
                aux.len(),
                |i: int|
                    if 0 <= i < aux.len() {
                        flat(aux[i], agents, vars)
                    } else {
                        Term::Var { id: 0 }
                    },
            ),
        },
        Surface::Variable { name } => Term::Var { id: vars[name] },
        Surface::With { rest, left, right } => flat(*rest, agents, vars),
    }
}

/// The trees that `ts` stand for, in order.
pub open spec fn flat_all(ts: Seq<Surface>, agents: AgentScope, vars: VarScope) -> Seq<Term> {
    Seq::new(ts.len(), |i: int| flat(ts[i], agents, vars))
}

/// The interactions written inside `t` with `with`, in the order in which
/// they are met: those inside `l` and `r`, then `l ~ r` itself, then those
/// inside `rest`.
pub open spec fn hoisted(t: Surface, agents: AgentScope, vars: VarScope) -> Seq<(Term, Term)>
    decreases t, 0nat,
{
    match t {
        Surface::Agent { name, aux } => hoisted_upto(aux, aux.len(), agents, vars),
        Surface::Variable { name } => Seq::empty(),
        Surface::With { rest, left, right } => hoisted(*left, agents, vars) + hoisted(
            *right,
            agents,
            vars,
        ) + seq![(flat(*left, agents, vars), flat(*right, agents, vars))] + hoisted(
            *rest,
            agents,
            vars,
        ),
    }
}

/// The interactions written inside the first `n` of `ts`.
pub open spec fn hoisted_upto(ts: Seq<Surface>, n: nat, agents: AgentScope, vars: VarScope) -> Seq<
    (Term, Term),
>
    decreases ts, n,
{
    if n == 0 || n > ts.len() {
        Seq::empty()
    } else {
        hoisted_upto(ts, (n - 1) as nat, agents, vars) + hoisted(ts[n - 1], agents, vars)
    }
}

/// Whether the two pairs of scopes give the names of `t` the same
/// identifiers.
pub open spec fn agree_on(
    t: Surface,
    agents1: AgentScope,
    vars1: VarScope,
    agents2: AgentScope,
    vars2: VarScope,
) -> bool {
    &&& forall|name: Seq<char>| #[trigger] names_agent(name, t) ==> agents1[name] == agents2[name]
    &&& forall|name: Seq<char>| #[trigger] names_var(name, t) ==> vars1[name] == vars2[name]
}

/// Scopes that agree on the names of `t` give it the same meaning.
pub proof fn lemma_flat_agree(
    t: Surface,
    agents1: AgentScope,
    vars1: VarScope,
    agents2: AgentScope,
    vars2: VarScope,
)
    requires
        agree_on(t, agents1, vars1, agents2, vars2),
    ensures
        flat(t, agents1, vars1) == flat(t, agents2, vars2),
        hoisted(t, agents1, vars1) == hoisted(t, agents2, vars2),
    decreases t, 0nat,
{
    match t {
        Surface::Agent { name, aux } => {
            assert(names_agent(name, t));
            assert forall|i: int| 0 <= i < aux.len() implies flat(aux[i], agents1, vars1) == flat(
                aux[i],
                agents2,
                vars2,
            ) by {
                lemma_agree_child(t, i, agents1, vars1, agents2, vars2);
                lemma_flat_agree(aux[i], agents1, vars1, agents2, vars2);
            }
            assert(flat(t, agents1, vars1)->aux =~= flat(t, agents2, vars2)->aux);
            lemma_hoisted_upto_agree(t, aux.len(), agents1, vars1, agents2, vars2);
        },
        Surface::Variable { name } => {
            assert(names_var(name, t));
        },
        Surface::With { rest, left, right } => {
            assert forall|name: Seq<char>| #[trigger] names_agent(name, *rest) implies agents1[name]
                == agents2[name] by {
                assert(names_agent(name, t));
            }
            assert forall|name: Seq<char>| #[trigger] names_var(name, *rest) implies vars1[name]
                == vars2[name] by {
                assert(names_var(name, t));
            }
            assert forall|name: Seq<char>| #[trigger] names_agent(name, *left) implies agents1[name]
                == agents2[name] by {
                assert(names_agent(name, t));
            }
            assert forall|name: Seq<char>| #[trigger] names_var(name, *left) implies vars1[name]
                == vars2[name] by {
                assert(names_var(name, t));
            }
            assert forall|name: Seq<char>| #[trigger] names_agent(name, *right) implies agents1[name]
                == agents2[name] by {
                assert(names_agent(name, t));
            }
            assert forall|name: Seq<char>| #[trigger] names_var(name, *right) implies vars1[name]
                == vars2[name] by {
                assert(names_var(name, t));
            }
            lemma_flat_agree(*rest, agents1, vars1, agents2, vars2);
            lemma_flat_agree(*left, agents1, vars1, agents2, vars2);
            lemma_flat_agree(*right, agents1, vars1, agents2, vars2);
        },
    }
}

/// Scopes that agree on the names of an agent agree on those of its `i`th
/// port.
pub proof fn lemma_agree_child(
    t: Surface,
    i: int,
    agents1: AgentScope,
    vars1: VarScope,
    agents2: AgentScope,
    vars2: VarScope,
)
    requires
        t is Agent,
        0 <= i < t->aux.len(),
        agree_on(t, agents1, vars1, agents2, vars2),
    ensures
        agree_on(t->aux[i], agents1, vars1, agents2, vars2),
{
    let aux = t->aux;
    assert forall|name: Seq<char>| #[trigger] names_agent(name, aux[i]) implies agents1[name]
        == agents2[name] by {
        assert(names_agent(name, t));
    }
    assert forall|name: Seq<char>| #[trigger] names_var(name, aux[i]) implies vars1[name]
        == vars2[name] by {
        assert(names_var(name, t));
    }
}

proof fn lemma_hoisted_upto_agree(
    t: Surface,
    n: nat,
    agents1: AgentScope,
    vars1: VarScope,
    agents2: AgentScope,
    vars2: VarScope,
)
    requires
        t is Agent,
        n <= t->aux.len(),
        agree_on(t, agents1, vars1, agents2, vars2),
    ensures
        hoisted_upto(t->aux, n, agents1, vars1) == hoisted_upto(t->aux, n, agents2, vars2),
    decreases t, 0nat, n,
{
    if n > 0 {
        lemma_hoisted_upto_agree(t, (n - 1) as nat, agents1, vars1, agents2, vars2);
        lemma_agree_child(t, n - 1, agents1, vars1, agents2, vars2);
        lemma_flat_agree(t->aux[n - 1], agents1, vars1, agents2, vars2);
    }
}

/// Scopes that hold the names of `t` give it the same meaning as any
/// scopes that extend them.
pub proof fn lemma_flat_grown(
    t: Surface,
    agents1: AgentScope,
    vars1: VarScope,
    agents2: AgentScope,
    vars2: VarScope,
)
    requires
        agents1.submap_of(agents2),
        vars1.submap_of(vars2),
        forall|name: Seq<char>| #[trigger] names_agent(name, t) ==> agents1.contains_key(name),
        forall|name: Seq<char>| #[trigger] names_var(name, t) ==> vars1.contains_key(name),
    ensures
        flat(t, agents1, vars1) == flat(t, agents2, vars2),
        hoisted(t, agents1, vars1) == hoisted(t, agents2, vars2),
{
    assert forall|name: Seq<char>| #[trigger] names_agent(name, t) implies agents1[name]
        == agents2[name] by {
        assert(agents2.dom().contains(name) ==> agents1[name] == agents2[name]);
    }
    assert forall|name: Seq<char>| #[trigger] names_var(name, t) implies vars1[name]
        == vars2[name] by {
        assert(vars2.dom().contains(name) ==> vars1[name] == vars2[name]);
    }
    lemma_flat_agree(t, agents1, vars1, agents2, vars2);
}

/// The first `i` of `ts` hold at most as many nodes as the first `j`, for
/// `i <= j`.
pub proof fn lemma_nodes_upto_mono(ts: Seq<Surface>, i: nat, j: nat)
    requires
        i <= j <= ts.len(),
    ensures
        nodes_upto(ts, i) <= nodes_upto(ts, j),
    decreases j,
{
    if i < j {
        lemma_nodes_upto_mono(ts, i, (j - 1) as nat);
    }
}

/// The nodes of two sequences, one after the other, are the nodes of the
/// first and those of the second.
pub proof fn lemma_nodes_upto_concat(ts1: Seq<Surface>, ts2: Seq<Surface>, n: nat)
    requires
        n <= ts2.len(),
    ensures
        nodes_upto(ts1 + ts2, ts1.len() + n) == nodes_upto(ts1, ts1.len()) + nodes_upto(ts2, n),
    decreases n,
{
    if n == 0 {
        lemma_nodes_upto_prefix(ts1, ts1 + ts2, ts1.len());
    } else {
        lemma_nodes_upto_concat(ts1, ts2, (n - 1) as nat);
    }
}

/// Sequences that agree on their first `n` trees hold the same nodes there.
pub proof fn lemma_nodes_upto_prefix(ts1: Seq<Surface>, ts2: Seq<Surface>, n: nat)
    requires
        n <= ts1.len(),
        n <= ts2.len(),
        forall|j: int| 0 <= j < n ==> ts1[j] == ts2[j],
    ensures
        nodes_upto(ts1, n) == nodes_upto(ts2, n),
    decreases n,
{
    if n > 0 {
        lemma_nodes_upto_prefix(ts1, ts2, (n - 1) as nat);
    }
}

/// Sequences that agree on their first `n` trees have the same interactions
/// written inside them.
pub proof fn lemma_hoisted_upto_prefix(
    ts1: Seq<Surface>,
    ts2: Seq<Surface>,
    n: nat,
    agents: AgentScope,
    vars: VarScope,
)
    requires
        n <= ts1.len(),
        n <= ts2.len(),
        forall|j: int| 0 <= j < n ==> ts1[j] == ts2[j],
    ensures
        hoisted_upto(ts1, n, agents, vars) == hoisted_upto(ts2, n, agents, vars),
    decreases n,
{
    if n > 0 {
        lemma_hoisted_upto_prefix(ts1, ts2, (n - 1) as nat, agents, vars);
    }
}

/// The interactions written inside two sequences, one after the other, are
/// those of the first and then those of the second.
pub proof fn lemma_hoisted_upto_concat(
    ts1: Seq<Surface>,
    ts2: Seq<Surface>,
    n: nat,
    agents: AgentScope,
    vars: VarScope,
)
    requires
        n <= ts2.len(),
    ensures
        hoisted_upto(ts1 + ts2, ts1.len() + n, agents, vars) == hoisted_upto(
            ts1,
            ts1.len(),
            agents,
            vars,
        ) + hoisted_upto(ts2, n, agents, vars),
    decreases n,
{
    if n == 0 {
        lemma_hoisted_upto_prefix(ts1, ts1 + ts2, ts1.len(), agents, vars);
    } else {
        lemma_hoisted_upto_concat(ts1, ts2, (n - 1) as nat, agents, vars);
        let a = hoisted_upto(ts1, ts1.len(), agents, vars);
        let b = hoisted_upto(ts2, (n - 1) as nat, agents, vars);
        let c = hoisted(ts2[n - 1], agents, vars);
    }
}
} // verus!
