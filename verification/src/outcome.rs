//! A run of a linear net ends in one way, and a check of it has one
//! outcome. The store is free to choose the identifiers of new wires, so two
//! runs from one net may pass through different nets; they pass through nets
//! that are alike but for the names of their wires, and end alike.

use crate::finish::ProgramView;
use crate::fresh::injective;
use crate::linear::ends;
use crate::linear::law_check_keeps_linear;
use crate::linear::law_check_step_keeps_linear;
use crate::linear::law_prepare_keeps_linear;
use crate::linear::law_run_keeps_linear;
use crate::linear::lemma_tally_upto_mono;
use crate::linear::linear;
use crate::linear::linear_with;
use crate::linear::rules_linear;
use crate::linear::tally;
use crate::linear::tally_bound;
use crate::linear::tally_pairs;
use crate::run::applied;
use crate::run::can_interact;
use crate::run::halted;
use crate::run::interacted;
use crate::run::met;
use crate::run::reaches;
use crate::run::rule_var;
use crate::run::shorter;
use crate::run::stepped;
use crate::run::zipped;
use crate::run::Halt;
use crate::run::NetState;
use crate::run::Rule;
use crate::store::STORE_LIMIT;
use crate::term::lemma_rename_agree;
use crate::term::occurs;
use crate::term::occurs_in;
use crate::term::rename;
use crate::term::AgentId;
use crate::term::Term;
use crate::term::VarId;
use crate::typecheck::agrees;
use crate::typecheck::check_agrees;
use crate::typecheck::check_reaches;
use crate::typecheck::check_stepped;
use crate::typecheck::ended;
use crate::typecheck::oriented;
use crate::typecheck::prepared;
use crate::typecheck::trigger_on;
use crate::typecheck::typechecked;
use crate::typecheck::unwrapping;
use crate::typecheck::verdict;
use crate::typecheck::TypeError;
use vstd::prelude::*;

verus! {
/// Whether every wire in `t` is in the store.
pub open spec fn held(vars: Map<VarId, Option<Term>>, t: Term) -> bool {
    forall|v: VarId| #[trigger] occurs(v, t) ==> vars.contains_key(v)
}

/// Whether every wire in the pairs is in the store.
pub open spec fn held_pairs(vars: Map<VarId, Option<Term>>, ps: Seq<(Term, Term)>) -> bool {
    forall|i: int| 0 <= i < ps.len() ==> held(vars, (#[trigger] ps[i]).0) && held(vars, ps[i].1)
}

/// Whether the net is closed: every wire in its pairs and in the trees that
/// its wires are bound to is in its store.
pub open spec fn closed(net: NetState) -> bool {
    &&& held_pairs(net.vars, net.interactions)
    &&& held_pairs(net.vars, net.stuck)
    &&& forall|k: VarId| #[trigger]
        net.vars.contains_key(k) && net.vars[k] is Some ==> held(net.vars, net.vars[k].unwrap())
}

/// A wire that occurs in a tree has an end in it.
pub proof fn lemma_occurs_tally(v: VarId, t: Term)
    requires
        occurs(v, t),
    ensures
        tally(v, t) >= 1,
    decreases t,
{
    match t {
        Term::Agent { id, aux } => {
            let i = choose|i: int| 0 <= i < aux.len() && occurs(v, #[trigger] aux[i]);
            lemma_occurs_tally(v, aux[i]);
            lemma_tally_upto_mono(v, aux, (i + 1) as nat, aux.len());
        },
        Term::Var { id } => {},
    }
}

/// The pairs hold at least the ends that one of them holds.
pub proof fn lemma_tally_pairs_holds(v: VarId, ps: Seq<(Term, Term)>, n: nat, i: int)
    requires
        0 <= i < n <= ps.len(),
    ensures
        tally_pairs(v, ps, n) >= tally(v, ps[i].0) + tally(v, ps[i].1),
    decreases n,
{
    if i < n - 1 {
        lemma_tally_pairs_holds(v, ps, (n - 1) as nat, i);
    }
}

/// The bound trees hold at least the ends that one of them holds.
pub proof fn lemma_tally_bound_holds(
    v: VarId,
    vars: Map<VarId, Option<Term>>,
    bound: Seq<VarId>,
    n: nat,
    i: int,
)
    requires
        0 <= i < n <= bound.len(),
        vars[bound[i]] is Some,
    ensures
        tally_bound(v, vars, bound, n) >= tally(v, vars[bound[i]].unwrap()),
    decreases n,
{
    if i < n - 1 {
        lemma_tally_bound_holds(v, vars, bound, (n - 1) as nat, i);
    }
}

/// A linear net is closed.
pub proof fn lemma_linear_closed(net: NetState)
    requires
        linear(net),
    ensures
        closed(net),
{
    let bound = choose|bound: Seq<VarId>| linear_with(net, bound);
    assert forall|i: int| 0 <= i < net.interactions.len() implies held(
        net.vars,
        (#[trigger] net.interactions[i]).0,
    ) && held(net.vars, net.interactions[i].1) by {
        assert forall|v: VarId|
            occurs(v, net.interactions[i].0) || occurs(
                v,
                net.interactions[i].1,
            ) implies net.vars.contains_key(v) by {
            if occurs(v, net.interactions[i].0) {
                lemma_occurs_tally(v, net.interactions[i].0);
            } else {
                lemma_occurs_tally(v, net.interactions[i].1);
            }
            lemma_tally_pairs_holds(v, net.interactions, net.interactions.len(), i);
            assert(ends(v, net, bound) >= 1);
        }
    }
    assert forall|i: int| 0 <= i < net.stuck.len() implies held(
        net.vars,
        (#[trigger] net.stuck[i]).0,
    ) && held(net.vars, net.stuck[i].1) by {
        assert forall|v: VarId|
            occurs(v, net.stuck[i].0) || occurs(v, net.stuck[i].1) implies net.vars.contains_key(
            v,
        ) by {
            if occurs(v, net.stuck[i].0) {
                lemma_occurs_tally(v, net.stuck[i].0);
            } else {
                lemma_occurs_tally(v, net.stuck[i].1);
            }
            lemma_tally_pairs_holds(v, net.stuck, net.stuck.len(), i);
            assert(ends(v, net, bound) >= 1);
        }
    }
    assert forall|k: VarId| #[trigger]
        net.vars.contains_key(k) && net.vars[k] is Some implies held(
        net.vars,
        net.vars[k].unwrap(),
    ) by {
        assert(bound.contains(k));
        let j = choose|j: int| 0 <= j < bound.len() && bound[j] == k;
        assert forall|v: VarId| occurs(v, net.vars[k].unwrap()) implies net.vars.contains_key(
            v,
        ) by {
            lemma_occurs_tally(v, net.vars[k].unwrap());
            lemma_tally_bound_holds(v, net.vars, bound, bound.len(), j);
            assert(ends(v, net, bound) >= 1);
        }
    }
}

/// The pairs with each tree renamed by `sigma`.
pub open spec fn rename_pairs(ps: Seq<(Term, Term)>, sigma: Map<VarId, VarId>) -> Seq<
    (Term, Term),
> {
    Seq::new(ps.len(), |i: int| (rename(ps[i].0, sigma), rename(ps[i].1, sigma)))
}

/// What a wire is bound to, renamed by `sigma`.
pub open spec fn rename_entry(e: Option<Term>, sigma: Map<VarId, VarId>) -> Option<Term> {
    match e {
        Some(t) => Some(rename(t, sigma)),
        None => None,
    }
}

/// Whether `b` is `a` with its wires renamed by `sigma`, which gives each
/// wire of `a` a wire of `b` of its own: the pairs of `b` are those of `a`
/// renamed, a wire of `b` is bound to what the wire of `a` is bound to,
/// renamed, and both stores hold equally many wires.
pub open spec fn alike(sigma: Map<VarId, VarId>, a: NetState, b: NetState) -> bool {
    &&& injective(sigma)
    &&& forall|k: VarId| #[trigger] sigma.contains_key(k) <==> a.vars.contains_key(k)
    &&& forall|k: VarId| #[trigger]
        a.vars.contains_key(k) ==> b.vars.contains_key(sigma[k]) && b.vars[sigma[k]]
            == rename_entry(a.vars[k], sigma)
    &&& a.vars.dom().finite()
    &&& b.vars.dom().finite()
    &&& a.vars.len() == b.vars.len()
    &&& b.interactions == rename_pairs(a.interactions, sigma)
    &&& b.stuck == rename_pairs(a.stuck, sigma)
    &&& a.rules == b.rules
}

/// Whether two renamings do the same to every wire of the store.
pub open spec fn agree_on(
    vars: Map<VarId, Option<Term>>,
    s1: Map<VarId, VarId>,
    s2: Map<VarId, VarId>,
) -> bool {
    forall|v: VarId| #[trigger]
        vars.contains_key(v) ==> s1.contains_key(v) == s2.contains_key(v) && (s1.contains_key(v)
            ==> s1[v] == s2[v])
}

/// Renamings that agree on the store rename alike a tree whose wires the
/// store holds.
pub proof fn lemma_rename_held(
    vars: Map<VarId, Option<Term>>,
    t: Term,
    s1: Map<VarId, VarId>,
    s2: Map<VarId, VarId>,
)
    requires
        held(vars, t),
        agree_on(vars, s1, s2),
    ensures
        rename(t, s1) == rename(t, s2),
{
    lemma_rename_agree(t, s1, s2);
}

/// Renamings that agree on the store rename alike pairs whose wires the
/// store holds.
pub proof fn lemma_rename_pairs_held(
    vars: Map<VarId, Option<Term>>,
    ps: Seq<(Term, Term)>,
    s1: Map<VarId, VarId>,
    s2: Map<VarId, VarId>,
)
    requires
        held_pairs(vars, ps),
        agree_on(vars, s1, s2),
    ensures
        rename_pairs(ps, s1) == rename_pairs(ps, s2),
{
    assert forall|i: int| 0 <= i < ps.len() implies rename_pairs(ps, s1)[i] == rename_pairs(
        ps,
        s2,
    )[i] by {
        lemma_rename_held(vars, ps[i].0, s1, s2);
        lemma_rename_held(vars, ps[i].1, s1, s2);
    }
    assert(rename_pairs(ps, s1) =~= rename_pairs(ps, s2));
}

/// Renaming by `rho1` and then by `s` is renaming by `rho2`, where `s`
/// takes what `rho1` gives for a variable of the tree to what `rho2` gives
/// for it.
pub proof fn lemma_rename_twice(
    t: Term,
    rho1: Map<VarId, VarId>,
    rho2: Map<VarId, VarId>,
    s: Map<VarId, VarId>,
)
    requires
        forall|v: VarId| #[trigger]
            occurs(v, t) ==> rho1.contains_key(v) && rho2.contains_key(v) && s.contains_key(
                rho1[v],
            ) && s[rho1[v]] == rho2[v],
    ensures
        rename(rename(t, rho1), s) == rename(t, rho2),
    decreases t,
{
    match t {
        Term::Agent { id, aux } => {
            assert forall|i: int| 0 <= i < aux.len() implies rename(rename(aux[i], rho1), s)
                == rename(aux[i], rho2) by {
                assert forall|v: VarId| #[trigger] occurs(v, aux[i]) implies rho1.contains_key(v)
                    && rho2.contains_key(v) && s.contains_key(rho1[v]) && s[rho1[v]] == rho2[v] by {
                    assert(occurs(v, t));
                }
                lemma_rename_twice(aux[i], rho1, rho2, s);
            }
            let r1 = rename(rename(t, rho1), s);
            let r2 = rename(t, rho2);
            assert(r1->aux =~= r2->aux);
        },
        Term::Var { id } => {
            assert(occurs(id, t));
        },
    }
}

/// A tree under an agent holds only wires that the agent holds.
pub proof fn lemma_held_under(vars: Map<VarId, Option<Term>>, t: Term, i: int)
    requires
        held(vars, t),
        t is Agent,
        0 <= i < t->aux.len(),
    ensures
        held(vars, t->aux[i]),
{
    assert forall|v: VarId| #[trigger] occurs(v, t->aux[i]) implies vars.contains_key(v) by {
        assert(occurs(v, t));
    }
}

/// A wire that meets a tree in two nets that are alike leaves them alike.
pub proof fn lemma_alike_meet(
    sigma: Map<VarId, VarId>,
    a: NetState,
    b: NetState,
    x: VarId,
    o: Term,
    pa: NetState,
    pb: NetState,
) -> (s2: Map<VarId, VarId>)
    requires
        alike(sigma, a, b),
        met(a, x, o, pa),
        met(b, sigma[x], rename(o, sigma), pb),
        closed(pa),
    ensures
        alike(s2, pa, pb),
{
    match a.vars[x] {
        Some(bound) => {
            let s2 = sigma.remove(x);
            assert(agree_on(pa.vars, sigma, s2));
            assert(b.vars[sigma[x]] == Some(rename(bound, sigma)));
            assert(pb.interactions =~= rename_pairs(pa.interactions, sigma));
            lemma_rename_pairs_held(pa.vars, pa.interactions, sigma, s2);
            lemma_rename_pairs_held(pa.vars, pa.stuck, sigma, s2);
            assert forall|k: VarId| #[trigger] pa.vars.contains_key(k) implies pb.vars.contains_key(
                s2[k],
            ) && pb.vars[s2[k]] == rename_entry(pa.vars[k], s2) by {
                assert(a.vars.contains_key(k));
                assert(sigma.contains_key(k) && sigma.contains_key(x));
                assert(sigma[k] != sigma[x]);
                if pa.vars[k] is Some {
                    lemma_rename_held(pa.vars, pa.vars[k].unwrap(), sigma, s2);
                }
            }
            assert(pa.vars.dom() =~= a.vars.dom().remove(x));
            assert(pb.vars.dom() =~= b.vars.dom().remove(sigma[x]));
            assert(injective(s2));
            s2
        },
        None => {
            assert(b.vars[sigma[x]] == None::<Term>);
            assert(pa.vars.dom() =~= a.vars.dom());
            assert(pb.vars.dom() =~= b.vars.dom());
            assert forall|k: VarId| #[trigger] pa.vars.contains_key(k) implies pb.vars.contains_key(
                sigma[k],
            ) && pb.vars[sigma[k]] == rename_entry(pa.vars[k], sigma) by {
                assert(a.vars.contains_key(k));
                if k != x {
                    assert(sigma.contains_key(k) && sigma.contains_key(x));
                    assert(sigma[k] != sigma[x]);
                }
            }
            sigma
        },
    }
}

/// The variable that `rho` takes to `w`.
pub open spec fn origin(rho: Map<VarId, VarId>, w: VarId) -> VarId {
    choose|u: VarId| rho.contains_key(u) && rho[u] == w
}

/// The renaming of `a`'s wires extended to the wires that an application
/// made: the wire that one renaming of the rule's variables gave is taken to
/// the wire that the other gave for the same variable.
pub open spec fn extended(
    sigma: Map<VarId, VarId>,
    a: NetState,
    pa: NetState,
    rho1: Map<VarId, VarId>,
    rho2: Map<VarId, VarId>,
) -> Map<VarId, VarId> {
    Map::new(
        |k: VarId| pa.vars.contains_key(k),
        |k: VarId|
            if a.vars.contains_key(k) {
                sigma[k]
            } else {
                rho2[origin(rho1, k)]
            },
    )
}

/// The templates against renamed trees, under one renaming of the rule's
/// variables, are the templates against the trees under another, renamed.
pub proof fn lemma_zipped_alike(
    vars: Map<VarId, Option<Term>>,
    templates: Seq<Term>,
    t: Term,
    sigma: Map<VarId, VarId>,
    s2: Map<VarId, VarId>,
    rho1: Map<VarId, VarId>,
    rho2: Map<VarId, VarId>,
)
    requires
        t is Agent,
        held(vars, t),
        agree_on(vars, sigma, s2),
        forall|v: VarId| #[trigger]
            occurs_in(v, templates.take(shorter(templates.len(), t->aux.len()) as int))
                ==> rho1.contains_key(v) && rho2.contains_key(v) && s2.contains_key(rho1[v])
                && s2[rho1[v]] == rho2[v],
    ensures
        zipped(templates, rename(t, sigma)->aux, rho2) == rename_pairs(
            zipped(templates, t->aux, rho1),
            s2,
        ),
{
    let n = shorter(templates.len(), t->aux.len());
    let used = templates.take(n as int);
    let left = zipped(templates, rename(t, sigma)->aux, rho2);
    let right = rename_pairs(zipped(templates, t->aux, rho1), s2);
    assert(left.len() == right.len());
    assert forall|j: int| 0 <= j < n implies left[j] == right[j] by {
        assert forall|v: VarId| #[trigger] occurs(v, templates[j]) implies rho1.contains_key(v)
            && rho2.contains_key(v) && s2.contains_key(rho1[v]) && s2[rho1[v]] == rho2[v] by {
            assert(occurs(v, used[j]));
            assert(occurs_in(v, used));
        }
        lemma_rename_twice(templates[j], rho1, rho2, s2);
        lemma_held_under(vars, t, j);
        lemma_rename_held(vars, t->aux[j], sigma, s2);
    }
    assert(left =~= right);
}

/// A rule applied in two nets that are alike, to trees that are alike,
/// leaves them alike.
pub proof fn lemma_alike_apply(
    sigma: Map<VarId, VarId>,
    a: NetState,
    b: NetState,
    rule: Rule,
    ta: Term,
    tb: Term,
    rho1: Map<VarId, VarId>,
    rho2: Map<VarId, VarId>,
    pa: NetState,
    pb: NetState,
) -> (s2: Map<VarId, VarId>)
    requires
        alike(sigma, a, b),
        closed(a),
        ta is Agent,
        tb is Agent,
        held(a.vars, ta),
        held(a.vars, tb),
        applied(a, rule, ta->aux, tb->aux, rho1, pa),
        applied(b, rule, rename(ta, sigma)->aux, rename(tb, sigma)->aux, rho2, pb),
    ensures
        alike(s2, pa, pb),
{
    let s2 = extended(sigma, a, pa, rho1, rho2);
    assert(rename(ta, sigma)->aux.len() == ta->aux.len());
    assert(rename(tb, sigma)->aux.len() == tb->aux.len());
    assert forall|v: VarId| rho1.contains_key(v) == rho2.contains_key(v) by {
        assert(rule_var(rule, ta->aux, tb->aux, v) == rule_var(
            rule,
            rename(ta, sigma)->aux,
            rename(tb, sigma)->aux,
            v,
        ));
    }
    assert(rho1.dom() =~= rho2.dom());
    assert forall|v: VarId| #[trigger] rho1.contains_key(v) implies s2.contains_key(rho1[v])
        && s2[rho1[v]] == rho2[v] && !a.vars.contains_key(rho1[v]) by {
        assert(rho1.values().contains(rho1[v]));
        let u = origin(rho1, rho1[v]);
        assert(rho1.contains_key(u) && rho1[u] == rho1[v]);
        assert(u == v);
    }
    assert(agree_on(a.vars, sigma, s2));
    // The pairs.
    lemma_rename_pairs_held(a.vars, a.interactions, sigma, s2);
    lemma_rename_pairs_held(a.vars, a.stuck, sigma, s2);
    lemma_zipped_alike(a.vars, rule.left_ports, ta, sigma, s2, rho1, rho2);
    lemma_zipped_alike(a.vars, rule.right_ports, tb, sigma, s2, rho1, rho2);
    assert(pb.interactions =~= rename_pairs(pa.interactions, s2));
    // The wires.
    assert forall|k: VarId| #[trigger] pa.vars.contains_key(k) implies pb.vars.contains_key(s2[k])
        && pb.vars[s2[k]] == rename_entry(pa.vars[k], s2) by {
        if a.vars.contains_key(k) {
            assert(b.vars.contains_key(sigma[k]));
            if a.vars[k] is Some {
                lemma_rename_held(a.vars, a.vars[k].unwrap(), sigma, s2);
            }
        } else {
            assert(rho1.values().contains(k));
            let u = origin(rho1, k);
            assert(rho1.contains_key(u) && rho1[u] == k);
            assert(rho2.values().contains(rho2[u]));
        }
    }
    assert forall|j: VarId, k: VarId|
        #![trigger s2[j], s2[k]]
        s2.contains_key(j) && s2.contains_key(k) && j != k implies s2[j] != s2[k] by {
        if !a.vars.contains_key(j) {
            assert(rho1.values().contains(j));
            let u = origin(rho1, j);
            assert(rho1.contains_key(u) && rho1[u] == j);
            assert(rho2.values().contains(rho2[u]));
        } else {
            assert(sigma.contains_key(j));
            assert(b.vars.contains_key(sigma[j]));
        }
        if !a.vars.contains_key(k) {
            assert(rho1.values().contains(k));
            let u = origin(rho1, k);
            assert(rho1.contains_key(u) && rho1[u] == k);
            assert(rho2.values().contains(rho2[u]));
        } else {
            assert(sigma.contains_key(k));
            assert(b.vars.contains_key(sigma[k]));
        }
    }
    s2
}

/// An interaction in two nets that are alike, of trees that are alike,
/// leaves them alike.
pub proof fn lemma_alike_interact(
    sigma: Map<VarId, VarId>,
    a: NetState,
    b: NetState,
    ta: Term,
    tb: Term,
    pa: NetState,
    pb: NetState,
) -> (s2: Map<VarId, VarId>)
    requires
        alike(sigma, a, b),
        closed(a),
        held(a.vars, ta),
        held(a.vars, tb),
        interacted(a, ta, tb, pa),
        interacted(b, rename(ta, sigma), rename(tb, sigma), pb),
        closed(pa),
    ensures
        alike(s2, pa, pb),
{
    match (ta, tb) {
        (Term::Agent { id: ka, aux: xa }, Term::Agent { id: kb, aux: xb }) => {
            if a.rules.contains_key((ka, kb)) {
                let rule = a.rules[(ka, kb)];
                let rho1 = choose|rho: Map<VarId, VarId>| applied(a, rule, xa, xb, rho, pa);
                let rho2 = choose|rho: Map<VarId, VarId>|
                    applied(b, rule, rename(ta, sigma)->aux, rename(tb, sigma)->aux, rho, pb);
                lemma_alike_apply(sigma, a, b, rule, ta, tb, rho1, rho2, pa, pb)
            } else if a.rules.contains_key((kb, ka)) {
                let rule = a.rules[(kb, ka)];
                let rho1 = choose|rho: Map<VarId, VarId>| applied(a, rule, xb, xa, rho, pa);
                let rho2 = choose|rho: Map<VarId, VarId>|
                    applied(b, rule, rename(tb, sigma)->aux, rename(ta, sigma)->aux, rho, pb);
                lemma_alike_apply(sigma, a, b, rule, tb, ta, rho1, rho2, pa, pb)
            } else {
                assert(pb.stuck =~= rename_pairs(pa.stuck, sigma));
                sigma
            }
        },
        (_, Term::Var { id }) => {
            assert(occurs(id, tb));
            lemma_alike_meet(sigma, a, b, id, ta, pa, pb)
        },
        (Term::Var { id }, _) => {
            assert(occurs(id, ta));
            lemma_alike_meet(sigma, a, b, id, tb, pa, pb)
        },
    }
}

/// Two nets that are alike can let trees that are alike interact, or
/// neither can.
pub proof fn lemma_alike_can(
    sigma: Map<VarId, VarId>,
    a: NetState,
    b: NetState,
    ta: Term,
    tb: Term,
)
    requires
        alike(sigma, a, b),
        held(a.vars, ta),
        held(a.vars, tb),
    ensures
        can_interact(a, ta, tb) == can_interact(b, rename(ta, sigma), rename(tb, sigma)),
{
    match (ta, tb) {
        (Term::Agent { id: ka, aux: xa }, Term::Agent { id: kb, aux: xb }) => {
            assert(rename(ta, sigma)->aux.len() == xa.len());
            assert(rename(tb, sigma)->aux.len() == xb.len());
        },
        (_, Term::Var { id }) => {
            assert(occurs(id, tb));
        },
        (Term::Var { id }, _) => {
            assert(occurs(id, ta));
        },
    }
}

/// A step of a check in two nets that are alike leaves them alike.
pub proof fn lemma_alike_step(
    ann: AgentId,
    sigma: Map<VarId, VarId>,
    a: NetState,
    b: NetState,
    pa: NetState,
    pb: NetState,
) -> (s2: Map<VarId, VarId>)
    requires
        alike(sigma, a, b),
        linear(a),
        rules_linear(a.rules),
        check_stepped(ann, a, pa),
        check_stepped(ann, b, pb),
    ensures
        alike(s2, pa, pb),
{
    law_check_step_keeps_linear(ann, a, pa);
    lemma_linear_closed(a);
    lemma_linear_closed(pa);
    if a.interactions.len() > 0 {
        let ra = a.popped();
        let rb = b.popped();
        let last = a.interactions.len() - 1;
        assert(rb.interactions =~= rename_pairs(ra.interactions, sigma));
        assert(b.interactions[last] == rename_pairs(a.interactions, sigma)[last]);
        assert(held(a.vars, a.interactions[last].0) && held(a.vars, a.interactions[last].1));
        assert(held_pairs(ra.vars, ra.interactions)) by {
            assert forall|i: int| 0 <= i < ra.interactions.len() implies held(
                ra.vars,
                (#[trigger] ra.interactions[i]).0,
            ) && held(ra.vars, ra.interactions[i].1) by {
                assert(ra.interactions[i] == a.interactions[i]);
            }
        }
        lemma_alike_interact(
            sigma,
            ra,
            rb,
            a.interactions[last].0,
            a.interactions[last].1,
            pa,
            pb,
        )
    } else {
        let ra = a.unstuck();
        let rb = b.unstuck();
        let last = a.stuck.len() - 1;
        let x = a.stuck[last].0;
        let y = a.stuck[last].1;
        assert(b.stuck[last] == rename_pairs(a.stuck, sigma)[last]);
        assert(held(a.vars, x) && held(a.vars, y));
        let (m, other) = oriented(ann, x, y);
        let p = unwrapping(ann, a).unwrap();
        let k = m->aux.len() - 2;
        assert(p == (m->aux[k], other));
        assert(oriented(ann, rename(x, sigma), rename(y, sigma)) == (
            rename(m, sigma),
            rename(other, sigma),
        ));
        assert(rename(m, sigma)->aux[k] == rename(m->aux[k], sigma));
        assert(unwrapping(ann, b) == Some((rename(p.0, sigma), rename(p.1, sigma))));
        lemma_held_under(a.vars, m, k);
        assert(rb.stuck =~= rename_pairs(ra.stuck, sigma));
        assert(held_pairs(ra.vars, ra.stuck)) by {
            assert forall|i: int| 0 <= i < ra.stuck.len() implies held(
                ra.vars,
                (#[trigger] ra.stuck[i]).0,
            ) && held(ra.vars, ra.stuck[i].1) by {
                assert(ra.stuck[i] == a.stuck[i]);
            }
        }
        lemma_alike_interact(sigma, ra, rb, p.0, p.1, pa, pb)
    }
}

/// A check ends alike in two nets that are alike, or goes on in both.
pub proof fn lemma_alike_verdict(ann: AgentId, sigma: Map<VarId, VarId>, a: NetState, b: NetState)
    requires
        alike(sigma, a, b),
        closed(a),
    ensures
        verdict(ann, a) == verdict(ann, b),
{
    if a.interactions.len() > 0 {
        let ra = a.popped();
        let rb = b.popped();
        let last = a.interactions.len() - 1;
        assert(rb.interactions =~= rename_pairs(ra.interactions, sigma));
        assert(b.interactions[last] == rename_pairs(a.interactions, sigma)[last]);
        assert(held(a.vars, a.interactions[last].0) && held(a.vars, a.interactions[last].1));
        lemma_alike_can(sigma, ra, rb, a.interactions[last].0, a.interactions[last].1);
    } else if a.stuck.len() > 0 {
        let ra = a.unstuck();
        let rb = b.unstuck();
        let last = a.stuck.len() - 1;
        let x = a.stuck[last].0;
        let y = a.stuck[last].1;
        assert(b.stuck[last] == rename_pairs(a.stuck, sigma)[last]);
        assert(held(a.vars, x) && held(a.vars, y));
        if x is Agent && y is Agent {
            let (m, other) = oriented(ann, x, y);
            assert(oriented(ann, rename(x, sigma), rename(y, sigma)) == (
                rename(m, sigma),
                rename(other, sigma),
            ));
            if m.agent_id() == Some(ann) && m->aux.len() >= 2 {
                let k = m->aux.len() - 2;
                assert(rename(m, sigma)->aux[k] == rename(m->aux[k], sigma));
                lemma_held_under(a.vars, m, k);
                assert(rb.stuck =~= rename_pairs(ra.stuck, sigma));
                lemma_alike_can(sigma, ra, rb, m->aux[k], other);
            }
        }
    }
}

/// A check that has ended goes no further.
pub proof fn law_ended_check_stays(ann: AgentId, s: NetState, post: NetState)
    requires
        verdict(ann, s) is Some,
    ensures
        !check_stepped(ann, s, post),
{
}

/// A renaming that moves no wire of the tree leaves the tree as it is.
pub proof fn lemma_rename_fixed(t: Term, s: Map<VarId, VarId>)
    requires
        forall|v: VarId| #[trigger] occurs(v, t) && s.contains_key(v) ==> s[v] == v,
    ensures
        rename(t, s) == t,
    decreases t,
{
    match t {
        Term::Agent { id, aux } => {
            assert forall|i: int| 0 <= i < aux.len() implies rename(aux[i], s) == aux[i] by {
                assert forall|v: VarId| #[trigger] occurs(v, aux[i]) && s.contains_key(
                    v,
                ) implies s[v] == v by {
                    assert(occurs(v, t));
                }
                lemma_rename_fixed(aux[i], s);
            }
            assert(rename(t, s)->aux =~= aux);
        },
        Term::Var { id } => {
            assert(occurs(id, t));
        },
    }
}

/// The renaming between two nets made ready from one net: a wire of the net
/// stays, and the wire of a pair in one is taken to the wire of that pair in
/// the other.
pub open spec fn paired(
    net: NetState,
    vs1: Seq<VarId>,
    start1: NetState,
    vs2: Seq<VarId>,
) -> Map<VarId, VarId> {
    Map::new(
        |k: VarId| start1.vars.contains_key(k),
        |k: VarId|
            if net.vars.contains_key(k) {
                k
            } else {
                vs2[vs1.index_of(k)]
            },
    )
}

/// Two nets made ready from one closed net are alike.
pub proof fn lemma_alike_start(
    prog: ProgramView,
    net: NetState,
    vs1: Seq<VarId>,
    start1: NetState,
    vs2: Seq<VarId>,
    start2: NetState,
) -> (s: Map<VarId, VarId>)
    requires
        closed(net),
        prepared(prog, net, vs1, start1),
        prepared(prog, net, vs2, start2),
    ensures
        alike(s, start1, start2),
{
    let s = paired(net, vs1, start1, vs2);
    assert forall|i: int| 0 <= i < vs1.len() implies !net.vars.contains_key(#[trigger] vs1[i])
        && s.contains_key(vs1[i]) && s[vs1[i]] == vs2[i] && !net.vars.contains_key(vs2[i])
        && start2.vars.contains_key(vs2[i]) && start2.vars[vs2[i]] == None::<Term>
        && start1.vars[vs1[i]] == None::<Term> by {
        assert(vs1.to_set().contains(vs1[i]));
        assert(vs2.to_set().contains(vs2[i]));
        assert(vs1.contains(vs1[i]));
        let j = vs1.index_of(vs1[i]);
        assert(j == i);
    }
    assert forall|k: VarId| #[trigger] s.contains_key(k) && !net.vars.contains_key(k) implies 0
        <= vs1.index_of(k) < vs1.len() && vs1[vs1.index_of(k)] == k by {
        assert(vs1.to_set().contains(k));
        assert(vs1.contains(k));
    }
    assert forall|t: Term| #[trigger] held(net.vars, t) implies rename(t, s) == t by {
        lemma_rename_fixed(t, s);
    }
    assert forall|k: VarId| #[trigger] start1.vars.contains_key(k) implies start2.vars.contains_key(
        s[k],
    ) && start2.vars[s[k]] == rename_entry(start1.vars[k], s) by {
        if net.vars.contains_key(k) {
            if net.vars[k] is Some {
                assert(held(net.vars, net.vars[k].unwrap()));
            }
        } else {
            assert(s.contains_key(k));
        }
    }
    assert forall|j: VarId, k: VarId|
        #![trigger s[j], s[k]]
        s.contains_key(j) && s.contains_key(k) && j != k implies s[j] != s[k] by {
    }
    let ps = net.interactions;
    let an = prog.annotator_id;
    assert forall|i: int| 0 <= i < 2 * ps.len() implies start2.interactions[i] == rename_pairs(
        start1.interactions,
        s,
    )[i] by {
        let h = i / 2;
        assert(ps[h] == ps[h]);
        assert(held(net.vars, ps[h].0) && held(net.vars, ps[h].1));
        let t1 = trigger_on(an, vs1[h]);
        let t2 = trigger_on(an, vs2[h]);
        assert(0 <= h < vs1.len());
        assert(s.contains_key(vs1[h]) && s[vs1[h]] == vs2[h]);
        assert(t1->aux[0] == Term::Var { id: vs1[h] });
        assert(rename(t1->aux[0], s) == Term::Var { id: vs2[h] });
        assert(rename(t1, s)->aux.len() == 1);
        assert(rename(t1, s)->aux[0] == rename(t1->aux[0], s));
        assert(rename(t1, s)->aux =~= t2->aux);
    }
    assert(start2.interactions =~= rename_pairs(start1.interactions, s));
    assert forall|i: int| 0 <= i < net.stuck.len() implies net.stuck[i] == rename_pairs(
        net.stuck,
        s,
    )[i] by {
        assert(held(net.vars, net.stuck[i].0) && held(net.vars, net.stuck[i].1));
    }
    assert(start2.stuck =~= rename_pairs(start1.stuck, s));
    s
}

/// A run of `n` steps passes, after `k` of them, through a net from which
/// the rest of the steps lead to its end.
pub proof fn lemma_check_reaches_split(
    ann: AgentId,
    pre: NetState,
    post: NetState,
    n: nat,
    k: nat,
) -> (mid: NetState)
    requires
        check_reaches(ann, pre, post, n),
        k <= n,
    ensures
        check_reaches(ann, pre, mid, k),
        check_reaches(ann, mid, post, (n - k) as nat),
    decreases n,
{
    if k == n {
        post
    } else {
        let last = choose|last: NetState|
            check_reaches(ann, pre, last, (n - 1) as nat) && #[trigger] check_stepped(
                ann,
                last,
                post,
            );
        let mid = lemma_check_reaches_split(ann, pre, last, (n - 1) as nat, k);
        mid
    }
}

/// Runs of equally many steps from two nets that are alike end in nets that
/// are alike.
pub proof fn lemma_alike_reaches(
    ann: AgentId,
    sigma: Map<VarId, VarId>,
    a: NetState,
    b: NetState,
    ea: NetState,
    eb: NetState,
    n: nat,
) -> (s2: Map<VarId, VarId>)
    requires
        alike(sigma, a, b),
        linear(a),
        rules_linear(a.rules),
        check_reaches(ann, a, ea, n),
        check_reaches(ann, b, eb, n),
    ensures
        alike(s2, ea, eb),
    decreases n,
{
    if n == 0 {
        sigma
    } else {
        let ma = choose|mid: NetState|
            check_reaches(ann, a, mid, (n - 1) as nat) && #[trigger] check_stepped(ann, mid, ea);
        let mb = choose|mid: NetState|
            check_reaches(ann, b, mid, (n - 1) as nat) && #[trigger] check_stepped(ann, mid, eb);
        let s1 = lemma_alike_reaches(ann, sigma, a, b, ma, mb, (n - 1) as nat);
        law_check_keeps_linear(ann, a, ma, (n - 1) as nat);
        lemma_alike_step(ann, s1, ma, mb, ea, eb)
    }
}

/// From a net in which a check has ended no run of one step or more
/// starts.
pub proof fn lemma_ended_check_runs_nowhere(ann: AgentId, s: NetState, post: NetState, n: nat)
    requires
        verdict(ann, s) is Some,
        check_reaches(ann, s, post, n),
    ensures
        n == 0,
{
    if n > 0 {
        let first = lemma_check_reaches_split(ann, s, post, n, 1);
        let start = choose|mid: NetState|
            check_reaches(ann, s, mid, 0) && #[trigger] check_stepped(ann, mid, first);
        law_ended_check_stays(ann, s, first);
    }
}

/// A check of a linear net under linear rules has one outcome: whichever
/// identifiers the store gives to new wires, the check passes, or fails in
/// the same way, or runs out of the same number of steps.
pub proof fn law_linear_check_has_one_outcome(
    prog: ProgramView,
    net: NetState,
    steps: nat,
    r1: Result<(), TypeError>,
    r2: Result<(), TypeError>,
)
    requires
        linear(net),
        rules_linear(prog.rules),
        typechecked(prog, net, steps, r1),
        typechecked(prog, net, steps, r2),
    ensures
        r1 == r2,
{
    let ann = prog.ann_id;
    if net.vars.len() + net.interactions.len() <= STORE_LIMIT {
        let (vs1, start1, end1, n1) = choose|
            vs: Seq<VarId>,
            start: NetState,
            end: NetState,
            n: nat,
        |
            #![trigger prepared(prog, net, vs, start), check_reaches(prog.ann_id, start, end, n)]
            prepared(prog, net, vs, start) && n <= steps && check_reaches(
                prog.ann_id,
                start,
                end,
                n,
            ) && ended(prog.ann_id, end, n, steps, r1);
        let (vs2, start2, end2, n2) = choose|
            vs: Seq<VarId>,
            start: NetState,
            end: NetState,
            n: nat,
        |
            #![trigger prepared(prog, net, vs, start), check_reaches(prog.ann_id, start, end, n)]
            prepared(prog, net, vs, start) && n <= steps && check_reaches(
                prog.ann_id,
                start,
                end,
                n,
            ) && ended(prog.ann_id, end, n, steps, r2);
        lemma_linear_closed(net);
        law_prepare_keeps_linear(prog, net, vs1, start1);
        let s0 = lemma_alike_start(prog, net, vs1, start1, vs2, start2);
        if n1 <= n2 {
            let mid = lemma_check_reaches_split(ann, start2, end2, n2, n1);
            let s = lemma_alike_reaches(ann, s0, start1, start2, end1, mid, n1);
            law_check_keeps_linear(ann, start1, end1, n1);
            lemma_linear_closed(end1);
            lemma_alike_verdict(ann, s, end1, mid);
            if verdict(ann, mid) is Some {
                lemma_ended_check_runs_nowhere(ann, mid, end2, (n2 - n1) as nat);
            }
        } else {
            let mid = lemma_check_reaches_split(ann, start1, end1, n1, n2);
            let s = lemma_alike_reaches(ann, s0, start1, start2, mid, end2, n2);
            law_check_keeps_linear(ann, start1, mid, n2);
            lemma_linear_closed(mid);
            lemma_alike_verdict(ann, s, mid, end2);
            if verdict(ann, mid) is Some {
                lemma_ended_check_runs_nowhere(ann, mid, end1, (n1 - n2) as nat);
            }
        }
    }
}

/// A check of a linear net under linear rules comes out as it was to, within
/// the steps allowed, exactly when one outcome of it does: no other choice
/// of identifiers makes it come out otherwise.
pub proof fn law_linear_check_agrees_as_one_outcome_does(
    prog: ProgramView,
    steps: nat,
    i: int,
    r: Result<(), TypeError>,
)
    requires
        0 <= i < prog.checks.len(),
        linear(prog.checks[i].1),
        rules_linear(prog.rules),
        typechecked(prog, prog.checks[i].1, steps, r),
    ensures
        check_agrees(prog, steps, i) == agrees(prog.checks[i].0, r),
{
    if check_agrees(prog, steps, i) {
        let o = choose|o: Result<(), TypeError>| #[trigger]
            typechecked(prog, prog.checks[i].1, steps, o) && agrees(prog.checks[i].0, o);
        law_linear_check_has_one_outcome(prog, prog.checks[i].1, steps, o, r);
    }
}

/// In two nets that are alike the interaction on top can run, or in
/// neither.
pub proof fn lemma_alike_can_step(sigma: Map<VarId, VarId>, a: NetState, b: NetState)
    requires
        alike(sigma, a, b),
        closed(a),
    ensures
        a.can_step() == b.can_step(),
        a.interactions.len() == b.interactions.len(),
{
    if a.interactions.len() > 0 {
        let ra = a.popped();
        let rb = b.popped();
        let last = a.interactions.len() - 1;
        assert(rb.interactions =~= rename_pairs(ra.interactions, sigma));
        assert(b.interactions[last] == rename_pairs(a.interactions, sigma)[last]);
        assert(held(a.vars, a.interactions[last].0) && held(a.vars, a.interactions[last].1));
        lemma_alike_can(sigma, ra, rb, a.interactions[last].0, a.interactions[last].1);
    }
}

/// A closed net with finitely many wires is like itself.
pub proof fn lemma_alike_self(net: NetState) -> (s: Map<VarId, VarId>)
    requires
        closed(net),
        net.vars.dom().finite(),
    ensures
        alike(s, net, net),
{
    let s = Map::new(|k: VarId| net.vars.contains_key(k), |k: VarId| k);
    assert forall|t: Term| #[trigger] held(net.vars, t) implies rename(t, s) == t by {
        lemma_rename_fixed(t, s);
    }
    assert forall|k: VarId| #[trigger] net.vars.contains_key(k) implies net.vars[s[k]]
        == rename_entry(net.vars[k], s) by {
        if net.vars[k] is Some {
            assert(held(net.vars, net.vars[k].unwrap()));
        }
    }
    assert forall|i: int| 0 <= i < net.interactions.len() implies net.interactions[i]
        == rename_pairs(net.interactions, s)[i] by {
        assert(held(net.vars, net.interactions[i].0) && held(net.vars, net.interactions[i].1));
    }
    assert(net.interactions =~= rename_pairs(net.interactions, s));
    assert forall|i: int| 0 <= i < net.stuck.len() implies net.stuck[i] == rename_pairs(
        net.stuck,
        s,
    )[i] by {
        assert(held(net.vars, net.stuck[i].0) && held(net.vars, net.stuck[i].1));
    }
    assert(net.stuck =~= rename_pairs(net.stuck, s));
    s
}

/// A run of `n` steps passes, after `k` of them, through a net from which
/// the rest of the steps lead to its end.
pub proof fn lemma_reaches_split(pre: NetState, post: NetState, n: nat, k: nat) -> (mid: NetState)
    requires
        reaches(pre, post, n),
        k <= n,
    ensures
        reaches(pre, mid, k),
        reaches(mid, post, (n - k) as nat),
    decreases n,
{
    if k == n {
        post
    } else {
        let last = choose|last: NetState| reaches(pre, last, (n - 1) as nat) && stepped(last, post);
        let mid = lemma_reaches_split(pre, last, (n - 1) as nat, k);
        mid
    }
}

/// Runs of equally many steps from two nets that are alike end in nets that
/// are alike.
pub proof fn lemma_alike_run(
    sigma: Map<VarId, VarId>,
    a: NetState,
    b: NetState,
    ea: NetState,
    eb: NetState,
    n: nat,
) -> (s2: Map<VarId, VarId>)
    requires
        alike(sigma, a, b),
        linear(a),
        rules_linear(a.rules),
        reaches(a, ea, n),
        reaches(b, eb, n),
    ensures
        alike(s2, ea, eb),
    decreases n,
{
    if n == 0 {
        sigma
    } else {
        let ma = choose|mid: NetState| reaches(a, mid, (n - 1) as nat) && stepped(mid, ea);
        let mb = choose|mid: NetState| reaches(b, mid, (n - 1) as nat) && stepped(mid, eb);
        let s1 = lemma_alike_run(sigma, a, b, ma, mb, (n - 1) as nat);
        law_run_keeps_linear(a, ma, (n - 1) as nat);
        assert(check_stepped(0, ma, ea));
        assert(check_stepped(0, mb, eb));
        lemma_alike_step(0, s1, ma, mb, ea, eb)
    }
}

/// From a net whose interaction on top cannot run no run of one step or
/// more starts.
pub proof fn lemma_blocked_runs_nowhere(s: NetState, post: NetState, n: nat)
    requires
        !s.can_step(),
        reaches(s, post, n),
    ensures
        n == 0,
{
    if n > 0 {
        let first = lemma_reaches_split(s, post, n, 1);
        let start = choose|mid: NetState| reaches(s, mid, 0) && stepped(mid, first);
    }
}

/// Whether a run of `net` within `steps` steps can end in `end`, halting as
/// `halt` says.
pub open spec fn ran(net: NetState, steps: nat, end: NetState, halt: Halt) -> bool {
    exists|n: nat|
        n <= steps && #[trigger] reaches(net, end, n) && halt == halted(end, n, steps) && (halt
            == Halt::Blocked ==> !end.can_step())
}

/// A run of a linear net under linear rules ends in one way: whichever
/// identifiers the store gives to new wires, the run halts for the same
/// reason, in nets that are alike but for the names of their wires.
pub proof fn law_linear_run_ends_alike(
    net: NetState,
    steps: nat,
    end1: NetState,
    halt1: Halt,
    end2: NetState,
    halt2: Halt,
) -> (s: Map<VarId, VarId>)
    requires
        linear(net),
        rules_linear(net.rules),
        net.vars.dom().finite(),
        ran(net, steps, end1, halt1),
        ran(net, steps, end2, halt2),
    ensures
        halt1 == halt2,
        alike(s, end1, end2),
{
    let n1 = choose|n: nat|
        n <= steps && #[trigger] reaches(net, end1, n) && halt1 == halted(end1, n, steps) && (halt1
            == Halt::Blocked ==> !end1.can_step());
    let n2 = choose|n: nat|
        n <= steps && #[trigger] reaches(net, end2, n) && halt2 == halted(end2, n, steps) && (halt2
            == Halt::Blocked ==> !end2.can_step());
    lemma_linear_closed(net);
    let s0 = lemma_alike_self(net);
    if n1 <= n2 {
        let mid = lemma_reaches_split(net, end2, n2, n1);
        let s = lemma_alike_run(s0, net, net, end1, mid, n1);
        law_run_keeps_linear(net, end1, n1);
        lemma_linear_closed(end1);
        lemma_alike_can_step(s, end1, mid);
        if !mid.can_step() {
            lemma_blocked_runs_nowhere(mid, end2, (n2 - n1) as nat);
        }
        s
    } else {
        let mid = lemma_reaches_split(net, end1, n1, n2);
        let s = lemma_alike_run(s0, net, net, mid, end2, n2);
        law_run_keeps_linear(net, mid, n2);
        lemma_linear_closed(mid);
        lemma_alike_can_step(s, mid, end2);
        if !mid.can_step() {
            lemma_blocked_runs_nowhere(mid, end1, (n1 - n2) as nat);
        }
        s
    }
}

} // verus!
