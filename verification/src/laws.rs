//! What holds of the engine whatever the net and the trees.

use crate::resolve::consume;
use crate::resolve::consume_upto;
use crate::resolve::consumed;
use crate::resolve::consumes;
use crate::resolve::resolve;
use crate::resolve::resolved;
use crate::resolve::resolves;
use crate::run::applied;
use crate::run::interacted;
use crate::run::NetState;
use crate::run::Rule;
use crate::term::occurs;
use crate::term::Term;
use crate::term::VarId;
use vstd::prelude::*;

verus! {
/// Two agents whose kinds have no rule, in either order, stay behind as one
/// more stuck pair, the two agents as they were and in their order; nothing
/// else in the net changes.
pub proof fn law_no_rule_sticks(pre: NetState, a: Term, b: Term, post: NetState)
    requires
        a is Agent,
        b is Agent,
        !pre.rules.contains_key((a.agent_id().unwrap(), b.agent_id().unwrap())),
        !pre.rules.contains_key((b.agent_id().unwrap(), a.agent_id().unwrap())),
        interacted(pre, a, b, post),
    ensures
        post.stuck == pre.stuck.push((a, b)),
        post.interactions == pre.interactions,
        post.vars == pre.vars,
        post.rules == pre.rules,
{
}

/// Two applications of rules give their variables different wires, as long
/// as the net of the second still holds the wires that the first made.
pub proof fn law_fresh_wires_disjoint(
    pre1: NetState,
    rule1: Rule,
    left1: Seq<Term>,
    right1: Seq<Term>,
    rho1: Map<VarId, VarId>,
    post1: NetState,
    pre2: NetState,
    rule2: Rule,
    left2: Seq<Term>,
    right2: Seq<Term>,
    rho2: Map<VarId, VarId>,
    post2: NetState,
)
    requires
        applied(pre1, rule1, left1, right1, rho1, post1),
        applied(pre2, rule2, left2, right2, rho2, post2),
        forall|v: VarId| rho1.values().contains(v) ==> pre2.vars.contains_key(v),
    ensures
        rho1.values().disjoint(rho2.values()),
{
}

/// An application of a rule right after another gives its variables wires
/// that the other did not use.
pub proof fn law_fresh_wires_in_a_row(
    pre: NetState,
    rule1: Rule,
    left1: Seq<Term>,
    right1: Seq<Term>,
    rho1: Map<VarId, VarId>,
    mid: NetState,
    rule2: Rule,
    left2: Seq<Term>,
    right2: Seq<Term>,
    rho2: Map<VarId, VarId>,
    post: NetState,
)
    requires
        applied(pre, rule1, left1, right1, rho1, mid),
        applied(mid, rule2, left2, right2, rho2, post),
    ensures
        rho1.values().disjoint(rho2.values()),
{
}

/// Whether the interaction of `a` with `b` is the wire `x` meeting `t`: the
/// wire on the right, or on the left of an agent.
pub open spec fn meets(a: Term, b: Term, x: VarId, t: Term) -> bool {
    (a == t && b == Term::Var { id: x }) || (a == Term::Var { id: x } && b == t && t is Agent)
}

/// An unbound wire that meets the tree `t` and then the tree `u`, from
/// either side, leaves the store, and `t` waits against `u`; nothing else
/// in the net changes.
pub proof fn law_bind_then_meet(
    s0: NetState,
    x: VarId,
    t: Term,
    a1: Term,
    b1: Term,
    s1: NetState,
    u: Term,
    a2: Term,
    b2: Term,
    s2: NetState,
)
    requires
        s0.vars.contains_key(x),
        s0.vars[x] is None,
        meets(a1, b1, x, t),
        interacted(s0, a1, b1, s1),
        meets(a2, b2, x, u),
        interacted(s1, a2, b2, s2),
    ensures
        s1 == (NetState { vars: s0.vars.insert(x, Some(t)), ..s0 }),
        s2.interactions == s0.interactions.push((t, u)),
        !s2.vars.contains_key(x),
        s2.vars == s0.vars.remove(x),
        s2.stuck == s0.stuck,
        s2.rules == s0.rules,
{
}

/// Whether no variable of `t` is bound in `vars`.
pub open spec fn settled(vars: Map<VarId, Option<Term>>, t: Term) -> bool {
    forall|v: VarId| #[trigger] occurs(v, t) ==> !(vars.contains_key(v) && vars[v] is Some)
}

/// Reading that comes to an end within some depth comes to the same end
/// within any greater depth.
pub proof fn lemma_resolve_deeper(vars: Map<VarId, Option<Term>>, t: Term, d: nat, e: nat)
    requires
        d <= e,
        resolve(vars, t, d) is Some,
    ensures
        resolve(vars, t, e) == resolve(vars, t, d),
    decreases d, t,
{
    match t {
        Term::Agent { id, aux } => {
            assert forall|i: int| 0 <= i < aux.len() implies resolve(vars, aux[i], e) == resolve(
                vars,
                aux[i],
                d,
            ) by {
                lemma_resolve_deeper(vars, aux[i], d, e);
            }
            assert(resolve(vars, t, e).unwrap()->aux =~= resolve(vars, t, d).unwrap()->aux);
        },
        Term::Var { id } => {
            if vars.contains_key(id) && vars[id] is Some {
                lemma_resolve_deeper(vars, vars[id].unwrap(), (d - 1) as nat, (e - 1) as nat);
            }
        },
    }
}

/// What reading gives holds no bound variable.
pub proof fn lemma_resolve_settled(vars: Map<VarId, Option<Term>>, t: Term, d: nat)
    requires
        resolve(vars, t, d) is Some,
    ensures
        settled(vars, resolve(vars, t, d).unwrap()),
    decreases d, t,
{
    let r = resolve(vars, t, d).unwrap();
    match t {
        Term::Agent { id, aux } => {
            assert forall|v: VarId| #[trigger] occurs(v, r) implies !(vars.contains_key(v)
                && vars[v] is Some) by {
                let i = choose|i: int| 0 <= i < r->aux.len() && occurs(v, #[trigger] r->aux[i]);
                lemma_resolve_settled(vars, aux[i], d);
            }
        },
        Term::Var { id } => {
            if vars.contains_key(id) && vars[id] is Some {
                lemma_resolve_settled(vars, vars[id].unwrap(), (d - 1) as nat);
            }
        },
    }
}

/// A tree that holds no bound variable reads as itself, at any depth.
pub proof fn lemma_resolve_identity(vars: Map<VarId, Option<Term>>, t: Term, d: nat)
    requires
        settled(vars, t),
    ensures
        resolve(vars, t, d) == Some(t),
    decreases t,
{
    match t {
        Term::Agent { id, aux } => {
            assert forall|i: int| 0 <= i < aux.len() implies resolve(vars, aux[i], d) == Some(
                aux[i],
            ) by {
                assert forall|v: VarId| #[trigger] occurs(v, aux[i]) implies !(vars.contains_key(v)
                    && vars[v] is Some) by {
                    assert(occurs(v, t));
                }
                lemma_resolve_identity(vars, aux[i], d);
            }
            assert(resolve(vars, t, d).unwrap()->aux =~= aux);
        },
        Term::Var { id } => {
            assert(occurs(id, t));
        },
    }
}

/// A tree that holds no bound variable reads as itself.
pub proof fn law_settled_reads_as_itself(vars: Map<VarId, Option<Term>>, t: Term)
    requires
        settled(vars, t),
    ensures
        resolves(vars, t),
        resolved(vars, t) == t,
{
    let d = choose|d: nat| resolve(vars, t, d) is Some;
    lemma_resolve_identity(vars, t, d);
}

/// Reading a tree twice gives what reading it once gives: what was read
/// holds no bound variable, and reads as itself.
pub proof fn law_reading_is_idempotent(vars: Map<VarId, Option<Term>>, t: Term)
    requires
        resolves(vars, t),
    ensures
        settled(vars, resolved(vars, t)),
        resolves(vars, resolved(vars, t)),
        resolved(vars, resolved(vars, t)) == resolved(vars, t),
{
    let d = choose|d: nat| resolve(vars, t, d) is Some;
    lemma_resolve_settled(vars, t, d);
    law_settled_reads_as_itself(vars, resolved(vars, t));
}

/// What reading a tree gives, within any depth, reads as itself within every
/// depth: it holds no bound variable.
pub proof fn law_reading_within_is_idempotent(
    vars: Map<VarId, Option<Term>>,
    t: Term,
    depth: nat,
    again: nat,
)
    requires
        resolve(vars, t, depth) is Some,
    ensures
        settled(vars, resolve(vars, t, depth).unwrap()),
        resolve(vars, resolve(vars, t, depth).unwrap(), again) == resolve(vars, t, depth),
{
    lemma_resolve_settled(vars, t, depth);
    lemma_resolve_identity(vars, resolve(vars, t, depth).unwrap(), again);
}

/// What taking a tree out gives is what reading it gives, in any store that
/// holds the bindings of this one; the store that is left holds the wires
/// that were not met, as they were; the wires that left were bound.
pub proof fn lemma_consume_reads(
    vars: Map<VarId, Option<Term>>,
    t: Term,
    d: nat,
    wider: Map<VarId, Option<Term>>,
)
    requires
        consume(vars, t, d) is Some,
        vars.submap_of(wider),
    ensures
        resolve(wider, t, d) == Some(consume(vars, t, d).unwrap().0),
        consume(vars, t, d).unwrap().1.submap_of(vars),
        forall|k: VarId|
            vars.contains_key(k) && !(#[trigger] consume(vars, t, d).unwrap().1.contains_key(k))
                ==> vars[k] is Some,
    decreases d, t, 0nat,
{
    match t {
        Term::Agent { id, aux } => {
            lemma_consume_upto_reads(vars, aux, aux.len(), d, wider);
            let out = consume_upto(vars, aux, aux.len(), d).unwrap().0;
            assert(resolve(wider, t, d).unwrap()->aux =~= out);
        },
        Term::Var { id } => {
            lemma_submap_at(vars, wider, id);
            match vars[id] {
                None => {},
                Some(bound) => {
                    let less = vars.remove(id);
                    lemma_consume_reads(less, bound, (d - 1) as nat, wider);
                    let rest = consume(less, bound, (d - 1) as nat).unwrap().1;
                    assert(rest.submap_of(vars)) by {
                        assert forall|k: VarId| #[trigger]
                            rest.dom().contains(k) implies #[trigger] vars.dom().contains(k)
                            && rest[k] == vars[k] by {
                            lemma_submap_at(rest, less, k);
                        }
                    }
                },
            }
        },
    }
}

/// `lemma_consume_reads` for the first `n` trees of a sequence.
pub proof fn lemma_consume_upto_reads(
    vars: Map<VarId, Option<Term>>,
    ts: Seq<Term>,
    n: nat,
    d: nat,
    wider: Map<VarId, Option<Term>>,
)
    requires
        n <= ts.len(),
        consume_upto(vars, ts, n, d) is Some,
        vars.submap_of(wider),
    ensures
        consume_upto(vars, ts, n, d).unwrap().0.len() == n,
        forall|j: int|
            0 <= j < n ==> resolve(wider, #[trigger] ts[j], d) == Some(
                consume_upto(vars, ts, n, d).unwrap().0[j],
            ),
        consume_upto(vars, ts, n, d).unwrap().1.submap_of(vars),
        forall|k: VarId|
            vars.contains_key(k) && !(#[trigger] consume_upto(vars, ts, n, d).unwrap().1.contains_key(
                k,
            )) ==> vars[k] is Some,
    decreases d, ts, n,
{
    if n > 0 {
        lemma_consume_upto_reads(vars, ts, (n - 1) as nat, d, wider);
        let (done, mid) = consume_upto(vars, ts, (n - 1) as nat, d).unwrap();
        assert(mid.submap_of(wider)) by {
            assert forall|k: VarId| #[trigger]
                mid.dom().contains(k) implies #[trigger] wider.dom().contains(k) && mid[k]
                == wider[k] by {
                lemma_submap_at(mid, vars, k);
            }
        }
        lemma_consume_reads(mid, ts[n - 1], d, wider);
        let rest = consume(mid, ts[n - 1], d).unwrap().1;
        assert(rest.submap_of(vars)) by {
            assert forall|k: VarId| #[trigger]
                rest.dom().contains(k) implies #[trigger] vars.dom().contains(k) && rest[k]
                == vars[k] by {
                lemma_submap_at(rest, mid, k);
            }
        }
    }
}

/// What a store holds, every store that it is part of holds too.
pub proof fn lemma_submap_at<K, V>(a: Map<K, V>, b: Map<K, V>, k: K)
    requires
        a.submap_of(b),
        a.contains_key(k),
    ensures
        b.contains_key(k),
        b[k] == a[k],
{
    assert(b.dom().contains(k) ==> a[k] == b[k]);
}

/// Taking a tree out gives the tree that reading it gives. The store that is
/// left holds the wires that were not met, as they were, and every wire that
/// left was bound.
pub proof fn law_taking_out_reads(vars: Map<VarId, Option<Term>>, t: Term)
    requires
        consumes(vars, t),
    ensures
        resolves(vars, t),
        consumed(vars, t).0 == resolved(vars, t),
        consumed(vars, t).1.submap_of(vars),
        forall|k: VarId|
            vars.contains_key(k) && !(#[trigger] consumed(vars, t).1.contains_key(k))
                ==> vars[k] is Some,
{
    let d = choose|d: nat| consume(vars, t, d) is Some;
    lemma_consume_reads(vars, t, d, vars);
    let e = choose|e: nat| resolve(vars, t, e) is Some;
    if d <= e {
        lemma_resolve_deeper(vars, t, d, e);
    } else {
        lemma_resolve_deeper(vars, t, e, d);
    }
}
} // verus!
