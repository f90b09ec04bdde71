//! Linear nets: each wire has at most two ends, and a bound wire at most one.
//! A linear net with linear rules stays linear as it runs, and the
//! interaction on top never meets a wire that the store does not hold.

use crate::fresh::injective;
use crate::run::applied;
use crate::run::interacted;
use crate::run::met;
use crate::run::reaches;
use crate::run::shorter;
use crate::run::stepped;
use crate::run::zipped;
use crate::run::NetState;
use crate::run::Rule;
use crate::term::occurs;
use crate::term::rename;
use crate::term::AgentId;
use crate::term::Term;
use crate::term::VarId;
use crate::finish::ProgramView;
use crate::typecheck::annotated_pairs;
use crate::typecheck::check_reaches;
use crate::typecheck::check_stepped;
use crate::typecheck::oriented;
use crate::typecheck::prepared;
use crate::typecheck::trigger_on;
use crate::typecheck::unwrapping;
use crate::typecheck::verdict;
use crate::typecheck::TypeError;
use vstd::prelude::*;

verus! {
/// The number of ends of the wire `v` in `t`.
pub open spec fn tally(v: VarId, t: Term) -> nat
    decreases t, 0nat,
{
    match t {
        Term::Agent { id, aux } => tally_upto(v, aux, aux.len()),
        Term::Var { id } => if id == v {
            1
        } else {
            0
        },
    }
}

/// The number of ends of the wire `v` in the first `n` of `ts`.
pub open spec fn tally_upto(v: VarId, ts: Seq<Term>, n: nat) -> nat
    decreases ts, n,
{
    if n == 0 || n > ts.len() {
        0
    } else {
        tally_upto(v, ts, (n - 1) as nat) + tally(v, ts[n - 1])
    }
}

/// The number of ends of the wire `v` in the first `n` pairs of `ps`.
pub open spec fn tally_pairs(v: VarId, ps: Seq<(Term, Term)>, n: nat) -> nat
    decreases n,
{
    if n == 0 || n > ps.len() {
        0
    } else {
        tally_pairs(v, ps, (n - 1) as nat) + tally(v, ps[n - 1].0) + tally(v, ps[n - 1].1)
    }
}

/// The number of ends of the wire `v` in the trees that the first `n` wires
/// of `bound` are bound to.
pub open spec fn tally_bound(
    v: VarId,
    vars: Map<VarId, Option<Term>>,
    bound: Seq<VarId>,
    n: nat,
) -> nat
    decreases n,
{
    if n == 0 || n > bound.len() {
        0
    } else {
        tally_bound(v, vars, bound, (n - 1) as nat) + match vars[bound[n - 1]] {
            Some(t) => tally(v, t),
            None => 0,
        }
    }
}

/// The number of ends of the wire `v` in the net, `bound` being its bound
/// wires.
pub open spec fn ends(v: VarId, net: NetState, bound: Seq<VarId>) -> nat {
    tally_pairs(v, net.interactions, net.interactions.len()) + tally_pairs(
        v,
        net.stuck,
        net.stuck.len(),
    ) + tally_bound(v, net.vars, bound, bound.len())
}

/// Whether `bound` lists the bound wires of the store, each once.
pub open spec fn lists_bound(vars: Map<VarId, Option<Term>>, bound: Seq<VarId>) -> bool {
    &&& bound.no_duplicates()
    &&& forall|k: VarId| #[trigger] bound.contains(k) <==> vars.contains_key(k) && vars[k] is Some
}

/// Whether the net is linear, `bound` being its bound wires: a wire that the
/// store does not hold has no end in the net, an unbound wire at most two,
/// and a bound wire at most one.
pub open spec fn linear_with(net: NetState, bound: Seq<VarId>) -> bool {
    &&& lists_bound(net.vars, bound)
    &&& forall|v: VarId|
        #![trigger ends(v, net, bound)]
        if !net.vars.contains_key(v) {
            ends(v, net, bound) == 0
        } else if net.vars[v] is None {
            ends(v, net, bound) <= 2
        } else {
            ends(v, net, bound) <= 1
        }
}

/// Whether the net is linear.
pub open spec fn linear(net: NetState) -> bool {
    exists|bound: Seq<VarId>| linear_with(net, bound)
}

/// Whether each variable of the rule has at most two ends in its templates.
pub open spec fn rule_linear(rule: Rule) -> bool {
    forall|u: VarId|
        #![trigger tally_upto(u, rule.left_ports, rule.left_ports.len())]
        tally_upto(u, rule.left_ports, rule.left_ports.len()) + tally_upto(
            u,
            rule.right_ports,
            rule.right_ports.len(),
        ) <= 2
}

/// Whether every rule of the table is linear.
pub open spec fn rules_linear(rules: Map<(AgentId, AgentId), Rule>) -> bool {
    forall|k: (AgentId, AgentId)| #[trigger] rules.contains_key(k) ==> rule_linear(rules[k])
}

/// The first `n` trees hold at most as many ends as the first `m`, for
/// `n <= m`.
pub proof fn lemma_tally_upto_mono(v: VarId, ts: Seq<Term>, n: nat, m: nat)
    requires
        n <= m <= ts.len(),
    ensures
        tally_upto(v, ts, n) <= tally_upto(v, ts, m),
    decreases m,
{
    if n < m {
        lemma_tally_upto_mono(v, ts, n, (m - 1) as nat);
    }
}

/// Sequences of pairs that agree on their first `n` pairs hold the same ends
/// there.
pub proof fn lemma_tally_pairs_prefix(
    v: VarId,
    ps: Seq<(Term, Term)>,
    qs: Seq<(Term, Term)>,
    n: nat,
)
    requires
        n <= ps.len(),
        n <= qs.len(),
        forall|i: int| 0 <= i < n ==> ps[i] == qs[i],
    ensures
        tally_pairs(v, ps, n) == tally_pairs(v, qs, n),
    decreases n,
{
    if n > 0 {
        lemma_tally_pairs_prefix(v, ps, qs, (n - 1) as nat);
    }
}

/// The ends in two sequences of pairs, one after the other, are those of the
/// first and those of the second.
pub proof fn lemma_tally_pairs_concat(
    v: VarId,
    ps: Seq<(Term, Term)>,
    qs: Seq<(Term, Term)>,
    n: nat,
)
    requires
        n <= qs.len(),
    ensures
        tally_pairs(v, ps + qs, ps.len() + n) == tally_pairs(v, ps, ps.len()) + tally_pairs(
            v,
            qs,
            n,
        ),
    decreases n,
{
    if n == 0 {
        lemma_tally_pairs_prefix(v, ps + qs, ps, ps.len());
    } else {
        lemma_tally_pairs_concat(v, ps, qs, (n - 1) as nat);
    }
}

/// One more pair adds the ends in its two trees.
pub proof fn lemma_tally_pairs_push(v: VarId, ps: Seq<(Term, Term)>, p: (Term, Term))
    ensures
        tally_pairs(v, ps.push(p), ps.len() + 1) == tally_pairs(v, ps, ps.len()) + tally(v, p.0)
            + tally(v, p.1),
{
    lemma_tally_pairs_prefix(v, ps.push(p), ps, ps.len());
}

/// Without the last pair the ends in its two trees are gone.
pub proof fn lemma_tally_pairs_pop(v: VarId, ps: Seq<(Term, Term)>)
    requires
        ps.len() > 0,
    ensures
        tally_pairs(v, ps, ps.len()) == tally_pairs(v, ps.drop_last(), (ps.len() - 1) as nat)
            + tally(v, ps.last().0) + tally(v, ps.last().1),
{
    lemma_tally_pairs_prefix(v, ps, ps.drop_last(), (ps.len() - 1) as nat);
}

/// Whether `rho` renames every variable of `t`.
pub open spec fn renames_all(rho: Map<VarId, VarId>, t: Term) -> bool {
    forall|u: VarId| #[trigger] occurs(u, t) ==> rho.contains_key(u)
}

/// A renaming that gives each variable a wire of its own keeps the number of
/// ends: the wire of a variable has as many ends in the renamed tree as the
/// variable had in the tree.
pub proof fn lemma_tally_renamed(u: VarId, t: Term, rho: Map<VarId, VarId>)
    requires
        injective(rho),
        rho.contains_key(u),
        renames_all(rho, t),
    ensures
        tally(rho[u], rename(t, rho)) == tally(u, t),
    decreases t, 0nat,
{
    match t {
        Term::Agent { id, aux } => {
            lemma_tally_renamed_upto(u, t, rho, aux.len());
        },
        Term::Var { id } => {
            assert(occurs(id, t));
        },
    }
}

/// `lemma_tally_renamed` for the first `n` ports of an agent.
pub proof fn lemma_tally_renamed_upto(u: VarId, t: Term, rho: Map<VarId, VarId>, n: nat)
    requires
        t is Agent,
        n <= t->aux.len(),
        injective(rho),
        rho.contains_key(u),
        renames_all(rho, t),
    ensures
        tally_upto(rho[u], rename(t, rho)->aux, n) == tally_upto(u, t->aux, n),
    decreases t, 0nat, n,
{
    if n > 0 {
        lemma_tally_renamed_upto(u, t, rho, (n - 1) as nat);
        let c = t->aux[n - 1];
        assert forall|w: VarId| #[trigger] occurs(w, c) implies rho.contains_key(w) by {
            assert(occurs(w, t));
        }
        lemma_tally_renamed(u, c, rho);
    }
}

/// A wire that the renaming gives to no variable has no end in a renamed
/// tree.
pub proof fn lemma_tally_unnamed(w: VarId, t: Term, rho: Map<VarId, VarId>)
    requires
        renames_all(rho, t),
        forall|u: VarId| #[trigger] rho.contains_key(u) ==> rho[u] != w,
    ensures
        tally(w, rename(t, rho)) == 0,
    decreases t, 0nat,
{
    match t {
        Term::Agent { id, aux } => {
            lemma_tally_unnamed_upto(w, t, rho, aux.len());
        },
        Term::Var { id } => {
            assert(occurs(id, t));
        },
    }
}

/// `lemma_tally_unnamed` for the first `n` ports of an agent.
pub proof fn lemma_tally_unnamed_upto(w: VarId, t: Term, rho: Map<VarId, VarId>, n: nat)
    requires
        t is Agent,
        n <= t->aux.len(),
        renames_all(rho, t),
        forall|u: VarId| #[trigger] rho.contains_key(u) ==> rho[u] != w,
    ensures
        tally_upto(w, rename(t, rho)->aux, n) == 0,
    decreases t, 0nat, n,
{
    if n > 0 {
        lemma_tally_unnamed_upto(w, t, rho, (n - 1) as nat);
        let c = t->aux[n - 1];
        assert forall|x: VarId| #[trigger] occurs(x, c) implies rho.contains_key(x) by {
            assert(occurs(x, t));
        }
        lemma_tally_unnamed(w, c, rho);
    }
}

/// The ends of the wire of the variable `u` in the first `n` pairs of
/// renamed templates against actual trees: those of `u` in the templates and
/// those of the wire in the actual trees.
pub proof fn lemma_tally_zipped_named(
    u: VarId,
    ts: Seq<Term>,
    xs: Seq<Term>,
    rho: Map<VarId, VarId>,
    n: nat,
)
    requires
        n <= shorter(ts.len(), xs.len()),
        injective(rho),
        rho.contains_key(u),
        forall|i: int| 0 <= i < n ==> renames_all(rho, #[trigger] ts[i]),
    ensures
        tally_pairs(rho[u], zipped(ts, xs, rho), n) == tally_upto(u, ts, n) + tally_upto(
            rho[u],
            xs,
            n,
        ),
    decreases n,
{
    if n > 0 {
        lemma_tally_zipped_named(u, ts, xs, rho, (n - 1) as nat);
        lemma_tally_renamed(u, ts[n - 1], rho);
    }
}

/// The ends of a wire that the renaming gives to no variable in the first
/// `n` pairs of renamed templates against actual trees: those in the actual
/// trees.
pub proof fn lemma_tally_zipped_unnamed(
    w: VarId,
    ts: Seq<Term>,
    xs: Seq<Term>,
    rho: Map<VarId, VarId>,
    n: nat,
)
    requires
        n <= shorter(ts.len(), xs.len()),
        forall|u: VarId| #[trigger] rho.contains_key(u) ==> rho[u] != w,
        forall|i: int| 0 <= i < n ==> renames_all(rho, #[trigger] ts[i]),
    ensures
        tally_pairs(w, zipped(ts, xs, rho), n) == tally_upto(w, xs, n),
    decreases n,
{
    if n > 0 {
        lemma_tally_zipped_unnamed(w, ts, xs, rho, (n - 1) as nat);
        lemma_tally_unnamed(w, ts[n - 1], rho);
    }
}

/// What a wire is bound to, counted in ends of `v`.
pub open spec fn entry_tally(v: VarId, vars: Map<VarId, Option<Term>>, k: VarId) -> nat {
    match vars[k] {
        Some(t) => tally(v, t),
        None => 0,
    }
}

/// Stores that agree on the first `n` wires of `bound` hold the same ends
/// there.
pub proof fn lemma_tally_bound_same(
    v: VarId,
    vars1: Map<VarId, Option<Term>>,
    vars2: Map<VarId, Option<Term>>,
    bound1: Seq<VarId>,
    bound2: Seq<VarId>,
    n: nat,
)
    requires
        n <= bound1.len(),
        n <= bound2.len(),
        forall|i: int| 0 <= i < n ==> bound1[i] == bound2[i],
        forall|i: int| 0 <= i < n ==> vars1[#[trigger] bound1[i]] == vars2[bound1[i]],
    ensures
        tally_bound(v, vars1, bound1, n) == tally_bound(v, vars2, bound2, n),
    decreases n,
{
    if n > 0 {
        lemma_tally_bound_same(v, vars1, vars2, bound1, bound2, (n - 1) as nat);
    }
}

/// Without the wire at place `i` the ends in what it was bound to are gone.
pub proof fn lemma_tally_bound_remove(
    v: VarId,
    vars: Map<VarId, Option<Term>>,
    bound: Seq<VarId>,
    i: int,
    n: nat,
)
    requires
        0 <= i < n <= bound.len(),
    ensures
        tally_bound(v, vars, bound, n) == tally_bound(v, vars, bound.remove(i), (n - 1) as nat)
            + entry_tally(v, vars, bound[i]),
    decreases n,
{
    let less = bound.remove(i);
    if i == n - 1 {
        lemma_tally_bound_same(v, vars, vars, bound, less, (n - 1) as nat);
    } else {
        lemma_tally_bound_remove(v, vars, bound, i, (n - 1) as nat);
    }
}

/// Whether the net is linear once `extra(v)` more ends of each wire `v` are
/// counted with it, `bound` being its bound wires.
pub open spec fn linear_plus(net: NetState, bound: Seq<VarId>, extra: spec_fn(VarId) -> nat) -> bool {
    &&& lists_bound(net.vars, bound)
    &&& forall|v: VarId|
        #![trigger ends(v, net, bound)]
        if !net.vars.contains_key(v) {
            ends(v, net, bound) + extra(v) == 0
        } else if net.vars[v] is None {
            ends(v, net, bound) + extra(v) <= 2
        } else {
            ends(v, net, bound) + extra(v) <= 1
        }
}

/// The ends of each wire in the two trees of a pair.
pub open spec fn pair_ends(a: Term, b: Term) -> spec_fn(VarId) -> nat {
    |v: VarId| tally(v, a) + tally(v, b)
}

/// In a linear net the wire that the interaction on top meets is in the
/// store.
pub proof fn law_linear_wire_is_held(net: NetState, x: VarId)
    requires
        linear(net),
        net.interactions.len() > 0,
        net.interactions.last().0 == (Term::Var { id: x }) || net.interactions.last().1 == (
            Term::Var { id: x }
        ),
    ensures
        net.vars.contains_key(x),
{
    let bound = choose|bound: Seq<VarId>| linear_with(net, bound);
    assert(ends(x, net, bound) >= 1);
}

/// An unbound wire that meets a tree: the net stays linear.
proof fn lemma_bind_keeps_linear(
    rest: NetState,
    bound: Seq<VarId>,
    x: VarId,
    o: Term,
    post: NetState,
)
    requires
        linear_plus(rest, bound, pair_ends(o, Term::Var { id: x })),
        rest.vars.contains_key(x),
        rest.vars[x] is None,
        post == (NetState { vars: rest.vars.insert(x, Some(o)), ..rest }),
    ensures
        linear_with(post, bound.push(x)),
{
    let bound2 = bound.push(x);
    let extra = pair_ends(o, Term::Var { id: x });
    assert(!bound.contains(x));
    assert(lists_bound(post.vars, bound2)) by {
        assert forall|k: VarId| #[trigger] bound2.contains(k) <==> post.vars.contains_key(k)
            && post.vars[k] is Some by {
            if bound.contains(k) {
                let i = choose|i: int| 0 <= i < bound.len() && bound[i] == k;
                assert(bound2[i] == k);
            }
            if k == x {
                assert(bound2[bound.len() as int] == x);
            }
        }
    }
    assert forall|v: VarId|
        #![trigger ends(v, post, bound2)]
        if !post.vars.contains_key(v) {
            ends(v, post, bound2) == 0
        } else if post.vars[v] is None {
            ends(v, post, bound2) <= 2
        } else {
            ends(v, post, bound2) <= 1
        } by {
        lemma_tally_bound_same(v, rest.vars, post.vars, bound, bound2, bound.len());
        assert(ends(v, post, bound2) == ends(v, rest, bound) + tally(v, o));
    }
}

/// A bound wire that meets a tree: the net stays linear.
proof fn lemma_resolve_keeps_linear(
    rest: NetState,
    bound: Seq<VarId>,
    x: VarId,
    t: Term,
    o: Term,
    post: NetState,
)
    requires
        linear_plus(rest, bound, pair_ends(o, Term::Var { id: x })),
        rest.vars.contains_key(x),
        rest.vars[x] == Some(t),
        post == (NetState {
            vars: rest.vars.remove(x),
            interactions: rest.interactions.push((t, o)),
            ..rest
        }),
    ensures
        exists|bound2: Seq<VarId>| linear_with(post, bound2),
{
    let extra = pair_ends(o, Term::Var { id: x });
    assert(bound.contains(x));
    let i = choose|i: int| 0 <= i < bound.len() && bound[i] == x;
    let bound2 = bound.remove(i);
    assert(lists_bound(post.vars, bound2)) by {
        assert forall|k: VarId| #[trigger] bound2.contains(k) <==> post.vars.contains_key(k)
            && post.vars[k] is Some by {
            if bound2.contains(k) {
                let j = choose|j: int| 0 <= j < bound2.len() && bound2[j] == k;
                if j < i {
                } else {
                }
            }
            if bound.contains(k) && k != x {
                let j = choose|j: int| 0 <= j < bound.len() && bound[j] == k;
                if j < i {
                    assert(bound2[j] == k);
                } else {
                    assert(bound2[j - 1] == k);
                }
            }
        }
    }
    assert forall|v: VarId|
        #![trigger ends(v, post, bound2)]
        if !post.vars.contains_key(v) {
            ends(v, post, bound2) == 0
        } else if post.vars[v] is None {
            ends(v, post, bound2) <= 2
        } else {
            ends(v, post, bound2) <= 1
        } by {
        lemma_tally_pairs_push(v, rest.interactions, (t, o));
        lemma_tally_bound_remove(v, rest.vars, bound, i, bound.len());
        lemma_tally_bound_same(v, rest.vars, post.vars, bound2, bound2, bound2.len());
        assert(ends(v, post, bound2) == ends(v, rest, bound) + tally(v, o));
    }
    assert(linear_with(post, bound2));
}

/// A wire that meets a tree: the net stays linear.
proof fn lemma_meet_keeps_linear(
    rest: NetState,
    bound: Seq<VarId>,
    x: VarId,
    o: Term,
    post: NetState,
)
    requires
        linear_plus(rest, bound, pair_ends(o, Term::Var { id: x })),
        met(rest, x, o, post),
    ensures
        linear(post),
{
    match rest.vars[x] {
        Some(t) => {
            lemma_resolve_keeps_linear(rest, bound, x, t, o, post);
        },
        None => {
            lemma_bind_keeps_linear(rest, bound, x, o, post);
        },
    }
}

/// A linear rule that is applied to the ports of two agents: the net stays
/// linear.
proof fn lemma_apply_keeps_linear(
    pre: NetState,
    bound: Seq<VarId>,
    rule: Rule,
    left: Seq<Term>,
    right: Seq<Term>,
    rho: Map<VarId, VarId>,
    post: NetState,
)
    requires
        linear_plus(
            pre,
            bound,
            |v: VarId| tally_upto(v, left, left.len()) + tally_upto(v, right, right.len()),
        ),
        rule_linear(rule),
        applied(pre, rule, left, right, rho, post),
    ensures
        linear_with(post, bound),
{
    let extra = |v: VarId| tally_upto(v, left, left.len()) + tally_upto(v, right, right.len());
    let lp = rule.left_ports;
    let rp = rule.right_ports;
    let n1 = shorter(lp.len(), left.len());
    let n2 = shorter(rp.len(), right.len());
    let z1 = zipped(lp, left, rho);
    let z2 = zipped(rp, right, rho);
    assert forall|i: int| 0 <= i < n1 implies renames_all(rho, #[trigger] lp[i]) by {
        assert forall|u: VarId| #[trigger] occurs(u, lp[i]) implies rho.contains_key(u) by {
            assert(lp.take(n1 as int)[i] == lp[i]);
        }
    }
    assert forall|i: int| 0 <= i < n2 implies renames_all(rho, #[trigger] rp[i]) by {
        assert forall|u: VarId| #[trigger] occurs(u, rp[i]) implies rho.contains_key(u) by {
            assert(rp.take(n2 as int)[i] == rp[i]);
        }
    }
    assert forall|v: VarId|
        #![trigger ends(v, post, bound)]
        if !post.vars.contains_key(v) {
            ends(v, post, bound) == 0
        } else if post.vars[v] is None {
            ends(v, post, bound) <= 2
        } else {
            ends(v, post, bound) <= 1
        } by {
        lemma_tally_pairs_concat(v, pre.interactions, z1, z1.len());
        lemma_tally_pairs_concat(v, pre.interactions + z1, z2, z2.len());
        assert forall|i: int| 0 <= i < bound.len() implies pre.vars[#[trigger] bound[i]]
            == post.vars[bound[i]] by {
            assert(bound.contains(bound[i]));
        }
        lemma_tally_bound_same(v, pre.vars, post.vars, bound, bound, bound.len());
        lemma_tally_upto_mono(v, left, n1, left.len());
        lemma_tally_upto_mono(v, right, n2, right.len());
        let waiting = tally_pairs(v, pre.interactions, pre.interactions.len());
        let stuck = tally_pairs(v, pre.stuck, pre.stuck.len());
        let held = tally_bound(v, pre.vars, bound, bound.len());
        assert(ends(v, pre, bound) == waiting + stuck + held);
        if rho.values().contains(v) {
            let u = choose|u: VarId| rho.contains_key(u) && rho[u] == v;
            lemma_tally_zipped_named(u, lp, left, rho, n1);
            lemma_tally_zipped_named(u, rp, right, rho, n2);
            lemma_tally_upto_mono(u, lp, n1, lp.len());
            lemma_tally_upto_mono(u, rp, n2, rp.len());
        } else {
            lemma_tally_zipped_unnamed(v, lp, left, rho, n1);
            lemma_tally_zipped_unnamed(v, rp, right, rho, n2);
        }
    }
}

/// A net that is linear with the ends of a pair counted beside it is linear
/// after the pair has interacted, if the rules are linear.
pub proof fn lemma_interact_keeps_linear(
    rest: NetState,
    bound: Seq<VarId>,
    a: Term,
    b: Term,
    post: NetState,
)
    requires
        linear_plus(rest, bound, pair_ends(a, b)),
        rules_linear(rest.rules),
        interacted(rest, a, b, post),
    ensures
        linear(post),
        post.rules == rest.rules,
{
    let extra = pair_ends(a, b);
    match (a, b) {
        (Term::Agent { id: ka, aux: xa }, Term::Agent { id: kb, aux: xb }) => {
            if rest.rules.contains_key((ka, kb)) {
                let rho = choose|rho: Map<VarId, VarId>|
                    applied(rest, rest.rules[(ka, kb)], xa, xb, rho, post);
                let ports = |v: VarId|
                    tally_upto(v, xa, xa.len()) + tally_upto(v, xb, xb.len());
                lemma_apply_keeps_linear(rest, bound, rest.rules[(ka, kb)], xa, xb, rho, post);
            } else if rest.rules.contains_key((kb, ka)) {
                let rho = choose|rho: Map<VarId, VarId>|
                    applied(rest, rest.rules[(kb, ka)], xb, xa, rho, post);
                let ports = |v: VarId|
                    tally_upto(v, xb, xb.len()) + tally_upto(v, xa, xa.len());
                lemma_apply_keeps_linear(rest, bound, rest.rules[(kb, ka)], xb, xa, rho, post);
            } else {
                assert forall|v: VarId|
                    #![trigger ends(v, post, bound)]
                    ends(v, post, bound) == ends(v, rest, bound) + extra(v) by {
                    lemma_tally_pairs_push(v, rest.stuck, (a, b));
                }
                assert(linear_with(post, bound));
            }
        },
        (_, Term::Var { id }) => {
            lemma_meet_keeps_linear(rest, bound, id, a, post);
        },
        (Term::Var { id }, _) => {
            let swapped = pair_ends(b, a);
            lemma_meet_keeps_linear(rest, bound, id, b, post);
        },
    }
}

/// A linear net with linear rules is linear after the interaction on top has
/// run.
pub proof fn law_step_keeps_linear(pre: NetState, post: NetState)
    requires
        linear(pre),
        rules_linear(pre.rules),
        stepped(pre, post),
    ensures
        linear(post),
        rules_linear(post.rules),
{
    let bound = choose|bound: Seq<VarId>| linear_with(pre, bound);
    let a = pre.interactions.last().0;
    let b = pre.interactions.last().1;
    let rest = pre.popped();
    let extra = pair_ends(a, b);
    assert forall|v: VarId|
        #![trigger ends(v, rest, bound)]
        ends(v, rest, bound) + extra(v) == ends(v, pre, bound) by {
        lemma_tally_pairs_pop(v, pre.interactions);
    }
    lemma_interact_keeps_linear(rest, bound, a, b, post);
}

/// A linear net with linear rules is linear after any number of
/// interactions.
pub proof fn law_run_keeps_linear(pre: NetState, post: NetState, n: nat)
    requires
        linear(pre),
        rules_linear(pre.rules),
        reaches(pre, post, n),
    ensures
        linear(post),
        rules_linear(post.rules),
    decreases n,
{
    if n > 0 {
        let mid = choose|mid: NetState| reaches(pre, mid, (n - 1) as nat) && stepped(mid, post);
        law_run_keeps_linear(pre, mid, (n - 1) as nat);
        law_step_keeps_linear(mid, post);
    }
}

/// A linear net with linear rules is linear after a step of a check: taking
/// an annotation off a stuck pair drops ends, and adds none.
pub proof fn law_check_step_keeps_linear(ann: AgentId, pre: NetState, post: NetState)
    requires
        linear(pre),
        rules_linear(pre.rules),
        check_stepped(ann, pre, post),
    ensures
        linear(post),
        rules_linear(post.rules),
{
    if pre.interactions.len() > 0 {
        law_step_keeps_linear(pre, post);
    } else {
        let bound = choose|bound: Seq<VarId>| linear_with(pre, bound);
        let x = pre.stuck.last().0;
        let y = pre.stuck.last().1;
        let p = unwrapping(ann, pre).unwrap();
        let rest = pre.unstuck();
        let whole = pair_ends(x, y);
        let extra = pair_ends(p.0, p.1);
        assert forall|v: VarId|
            #![trigger ends(v, rest, bound)]
            ends(v, rest, bound) + whole(v) == ends(v, pre, bound) by {
            lemma_tally_pairs_pop(v, pre.stuck);
        }
        assert forall|v: VarId| #[trigger] extra(v) <= whole(v) by {
            let (a, b) = oriented(ann, x, y);
            let k = a->aux.len();
            lemma_tally_upto_mono(v, a->aux, (k - 1) as nat, k);
        }
        lemma_interact_keeps_linear(rest, bound, p.0, p.1, post);
    }
}

/// A linear net with linear rules is linear after any number of steps of a
/// check.
pub proof fn law_check_keeps_linear(ann: AgentId, pre: NetState, post: NetState, n: nat)
    requires
        linear(pre),
        rules_linear(pre.rules),
        check_reaches(ann, pre, post, n),
    ensures
        linear(post),
        rules_linear(post.rules),
    decreases n,
{
    if n > 0 {
        let mid = choose|mid: NetState|
            check_reaches(ann, pre, mid, (n - 1) as nat) && #[trigger] check_stepped(
                ann,
                mid,
                post,
            );
        law_check_keeps_linear(ann, pre, mid, (n - 1) as nat);
        law_check_step_keeps_linear(ann, mid, post);
    }
}

/// The net with nothing in it is linear.
pub proof fn law_empty_is_linear()
    ensures
        linear(NetState::empty()),
        rules_linear(NetState::empty().rules),
{
    let bound = Seq::<VarId>::empty();
    assert(linear_with(NetState::empty(), bound));
}

/// In a linear net an interaction that cannot run is one of two agents
/// whose rule asks for more wires than the store has room for.
pub proof fn law_linear_blocks_only_for_room(net: NetState)
    requires
        linear(net),
        net.interactions.len() > 0,
        !net.can_step(),
    ensures
        net.interactions.last().0 is Agent,
        net.interactions.last().1 is Agent,
{
    let a = net.interactions.last().0;
    let b = net.interactions.last().1;
    match (a, b) {
        (_, Term::Var { id }) => {
            law_linear_wire_is_held(net, id);
        },
        (Term::Var { id }, _) => {
            law_linear_wire_is_held(net, id);
        },
        _ => {},
    }
}

/// How many of the first `n` wires of `vs` are the wire `v`.
pub open spec fn hits(v: VarId, vs: Seq<VarId>, n: nat) -> nat
    decreases n,
{
    if n == 0 || n > vs.len() {
        0
    } else {
        hits(v, vs, (n - 1) as nat) + if vs[n - 1] == v {
            1nat
        } else {
            0nat
        }
    }
}

/// A wire is hit where it is among the wires.
pub proof fn lemma_hits(v: VarId, vs: Seq<VarId>, n: nat)
    requires
        n <= vs.len(),
        vs.no_duplicates(),
    ensures
        hits(v, vs, n) <= 1,
        hits(v, vs, n) == 1 <==> exists|i: int| 0 <= i < n && vs[i] == v,
    decreases n,
{
    if n > 0 {
        lemma_hits(v, vs, (n - 1) as nat);
    }
}

/// Each annotated pair holds the ends of the pair it came from and two ends
/// of its wire.
pub proof fn lemma_tally_annotated(
    v: VarId,
    ps: Seq<(Term, Term)>,
    vs: Seq<VarId>,
    annotator: AgentId,
    n: nat,
)
    requires
        n <= ps.len(),
        vs.len() == ps.len(),
    ensures
        tally_pairs(v, annotated_pairs(ps, vs, annotator), 2 * n) == tally_pairs(v, ps, n) + 2
            * hits(v, vs, n),
    decreases n,
{
    if n > 0 {
        lemma_tally_annotated(v, ps, vs, annotator, (n - 1) as nat);
        let all = annotated_pairs(ps, vs, annotator);
        let k: int = 2 * (n - 1);
        let held = trigger_on(annotator, vs[n - 1]);
        assert(tally_pairs(v, all, (k + 1) as nat) == tally_pairs(v, all, k as nat) + tally(
            v,
            all[k].0,
        ) + tally(v, all[k].1));
        assert(tally(v, held) == if vs[n - 1] == v {
            1nat
        } else {
            0nat
        }) by {
            let aux = held->aux;
            assert(tally_upto(v, aux, 1) == tally_upto(v, aux, 0) + tally(v, aux[0]));
        }
    }
}

/// A linear net that is made ready for checking is linear.
pub proof fn law_prepare_keeps_linear(
    prog: ProgramView,
    net: NetState,
    vs: Seq<VarId>,
    start: NetState,
)
    requires
        linear(net),
        prepared(prog, net, vs, start),
    ensures
        linear(start),
{
    let bound = choose|bound: Seq<VarId>| linear_with(net, bound);
    assert forall|v: VarId|
        #![trigger ends(v, start, bound)]
        if !start.vars.contains_key(v) {
            ends(v, start, bound) == 0
        } else if start.vars[v] is None {
            ends(v, start, bound) <= 2
        } else {
            ends(v, start, bound) <= 1
        } by {
        lemma_tally_annotated(v, net.interactions, vs, prog.annotator_id, vs.len());
        lemma_hits(v, vs, vs.len());
        assert forall|i: int| 0 <= i < bound.len() implies net.vars[#[trigger] bound[i]]
            == start.vars[bound[i]] by {
            assert(bound.contains(bound[i]));
        }
        lemma_tally_bound_same(v, net.vars, start.vars, bound, bound, bound.len());
        assert(ends(v, start, bound) == ends(v, net, bound) + 2 * hits(v, vs, vs.len()));
        if vs.to_set().contains(v) {
        } else {
        }
    }
    assert(linear_with(start, bound));
}

/// A check of a linear net is blocked only by two agents whose rule asks for
/// more wires than the store has room for: the interaction on top, or, where
/// none waits, what the annotation on top of the stuck pairs wraps and the
/// other side of its pair.
pub proof fn law_linear_check_blocks_only_for_room(ann: AgentId, net: NetState)
    requires
        linear(net),
        verdict(ann, net) == Some(Err::<(), TypeError>(TypeError::Blocked)),
    ensures
        net.interactions.len() > 0 ==> net.interactions.last().0 is Agent
            && net.interactions.last().1 is Agent,
        net.interactions.len() == 0 ==> unwrapping(ann, net) is Some && unwrapping(
            ann,
            net,
        ).unwrap().0 is Agent && unwrapping(ann, net).unwrap().1 is Agent,
{
    if net.interactions.len() > 0 {
        law_linear_blocks_only_for_room(net);
    } else {
        let bound = choose|bound: Seq<VarId>| linear_with(net, bound);
        let x = net.stuck.last().0;
        let y = net.stuck.last().1;
        let (a, b) = oriented(ann, x, y);
        let k = a->aux.len();
        let payload = a->aux[k - 2];
        match payload {
            Term::Var { id } => {
                assert(tally_upto(id, a->aux, (k - 1) as nat) == tally_upto(
                    id,
                    a->aux,
                    (k - 2) as nat,
                ) + tally(id, a->aux[k - 2]));
                assert(ends(id, net, bound) >= 1);
            },
            _ => {},
        }
    }
}
} // verus!
