//! The reduction engine: rules between pairs of agent kinds, and nets that
//! rewrite by them.

use crate::fresh::fresh_ids;
use crate::fresh::grown_by;
use crate::fresh::injective;
use crate::fresh::lemma_scope_grown_trans;
use crate::fresh::scope_grown;
use crate::linear::law_linear_blocks_only_for_room;
use crate::linear::law_run_keeps_linear;
use crate::linear::linear;
use crate::linear::rules_linear;
use crate::store::VarStore;
use crate::store::REUSE_AFTER;
use crate::store::STORE_LIMIT;
use crate::term::count_vars_upto;
use crate::term::lemma_rename_agree;
use crate::term::lemma_view_agent;
use crate::term::occurs;
use crate::term::occurs_in;
use crate::term::pairs;
use crate::term::rename;
use crate::term::reversed;
use crate::term::terms;
use crate::term::var_count;
use crate::term::var_count_upto;
use crate::term::AgentId;
use crate::term::Term;
use crate::term::Tree;
use crate::term::VarId;
use std::collections::BTreeMap;
use std::rc::Rc;
use vstd::prelude::*;

verus! {
/// A rewrite template for a pair of agent kinds: one template tree for each
/// auxiliary port of the left agent and of the right agent.
#[derive(Debug)]
pub struct InteractionRule {
    pub left_ports: Vec<Tree>,
    pub right_ports: Vec<Tree>,
}

/// The mathematical value of an `InteractionRule`.
pub struct Rule {
    pub left_ports: Seq<Term>,
    pub right_ports: Seq<Term>,
}

impl View for InteractionRule {
    type V = Rule;

    open spec fn view(&self) -> Rule {
        Rule { left_ports: terms(self.left_ports@), right_ports: terms(self.right_ports@) }
    }
}

/// The rule table: for a left kind and a right kind, at most one rule.
#[derive(Debug)]
pub struct InteractionSystem {
    pub rules: BTreeMap<AgentId, BTreeMap<AgentId, InteractionRule>>,
}

impl View for InteractionSystem {
    type V = Map<(AgentId, AgentId), Rule>;

    open spec fn view(&self) -> Map<(AgentId, AgentId), Rule> {
        Map::new(
            |k: (AgentId, AgentId)|
                self.rules@.contains_key(k.0) && self.rules@[k.0]@.contains_key(k.1),
            |k: (AgentId, AgentId)| self.rules@[k.0]@[k.1]@,
        )
    }
}

impl Default for InteractionSystem {
    fn default() -> (s: Self)
        ensures
            s@ == Map::<(AgentId, AgentId), Rule>::empty(),
    {
        let s = InteractionSystem { rules: BTreeMap::new() };
        s
    }
}

impl InteractionSystem {
    /// The rule stored for the left kind `a` and the right kind `b`.
    pub fn find(&self, a: AgentId, b: AgentId) -> (r: Option<&InteractionRule>)
        ensures
            r is Some <==> self@.contains_key((a, b)),
            r is Some ==> r.unwrap()@ == self@[(a, b)],
    {
        match self.rules.get(&a) {
            Some(row) => row.get(&b),
            None => None,
        }
    }
}

/// A reduction workspace: the interactions that wait, those that found no
/// rule, the wires, and the rule table.
#[derive(Debug)]
pub struct Net {
    pub interactions: Vec<(Tree, Tree)>,
    pub vars: VarStore,
    pub stuck: Vec<(Tree, Tree)>,
    pub system: Rc<InteractionSystem>,
}

/// The mathematical value of a `Net`.
#[verifier::ext_equal]
pub struct NetState {
    pub interactions: Seq<(Term, Term)>,
    pub vars: Map<VarId, Option<Term>>,
    pub stuck: Seq<(Term, Term)>,
    pub rules: Map<(AgentId, AgentId), Rule>,
}

impl View for Net {
    type V = NetState;

    open spec fn view(&self) -> NetState {
        NetState {
            interactions: pairs(self.interactions@),
            vars: self.vars@,
            stuck: pairs(self.stuck@),
            rules: self.system@,
        }
    }
}

/// `Rc::clone`: another handle on the same rule table.
#[verifier::external_body]
pub(crate) fn share(system: &Rc<InteractionSystem>) -> (r: Rc<InteractionSystem>)
    ensures
        r == *system,
{
    Rc::clone(system)
}

/// A copy of the pairs, tree by tree.
pub fn clone_pairs(ps: &Vec<(Tree, Tree)>) -> (r: Vec<(Tree, Tree)>)
    ensures
        pairs(r@) == pairs(ps@),
{
    let mut r: Vec<(Tree, Tree)> = Vec::new();
    let mut i: usize = 0;
    while i < ps.len()
        invariant
            i <= ps.len(),
            r.len() == i,
            forall|j: int| 0 <= j < i ==> (#[trigger] r[j]).0@ == ps[j].0@ && r[j].1@ == ps[j].1@,
        decreases ps.len() - i,
    {
        let a = ps[i].0.clone();
        let b = ps[i].1.clone();
        r.push((a, b));
        i += 1;
    }
    r
}

impl Clone for Net {
    fn clone(&self) -> (net: Self)
        ensures
            net@ == self@,
            net.wf() == self.wf(),
            net.spent() == self.spent(),
    {
        Net {
            interactions: clone_pairs(&self.interactions),
            vars: self.vars.clone(),
            stuck: clone_pairs(&self.stuck),
            system: share(&self.system),
        }
    }
}

impl Default for Net {
    fn default() -> (net: Self)
        ensures
            net.wf(),
            net@ == NetState::empty(),
    {
        let net = Net {
            interactions: Vec::new(),
            vars: VarStore::new(),
            stuck: Vec::new(),
            system: Rc::new(InteractionSystem::default()),
        };
        net
    }
}

impl NetState {
    /// The net with nothing in it and no rules.
    pub open spec fn empty() -> NetState {
        NetState {
            interactions: Seq::empty(),
            vars: Map::empty(),
            stuck: Seq::empty(),
            rules: Map::empty(),
        }
    }
}

impl Net {
    /// The wire store is well formed.
    pub open spec fn wf(&self) -> bool {
        self.vars.wf()
    }

    /// The wires that have left the net.
    pub open spec fn spent(&self) -> Set<VarId> {
        self.vars.spent()
    }

    /// The wires that the net has handed out: those it holds and those that
    /// have left it.
    pub open spec fn issued(&self) -> Set<VarId> {
        self.vars.issued()
    }

    /// Adds an unbound wire and returns its identifier, which is none that
    /// the net holds, and none that has left it as long as fewer than
    /// `REUSE_AFTER` have left it.
    pub fn new_var(&mut self) -> (id: VarId)
        requires
            old(self).wf(),
            old(self)@.vars.len() < STORE_LIMIT,
        ensures
            final(self).wf(),
            !old(self)@.vars.contains_key(id),
            final(self)@ == (NetState { vars: old(self)@.vars.insert(id, None), ..old(self)@ }),
            final(self)@.vars.len() == old(self)@.vars.len() + 1,
            old(self).spent().len() < REUSE_AFTER ==> !old(self).issued().contains(id),
            final(self).spent() == old(self).spent(),
            final(self).issued() == old(self).issued().insert(id),
    {
        self.vars.insert(None)
    }

    /// Puts the pair `(a, b)` on top of the waiting interactions.
    pub fn link(&mut self, a: Tree, b: Tree)
        ensures
            final(self).wf() == old(self).wf(),
            final(self)@ == (NetState {
                interactions: old(self)@.interactions.push((a@, b@)),
                ..old(self)@
            }),
            final(self).spent() == old(self).spent(),
            final(self).issued() == old(self).issued(),
    {
        self.interactions.push((a, b));
    }
}

/// The number of variable nodes in the first `i` of `ts` is at most that in
/// the first `j`, for `i <= j`.
pub proof fn lemma_var_count_upto_mono(ts: Seq<Term>, i: nat, j: nat)
    requires
        i <= j <= ts.len(),
    ensures
        var_count_upto(ts, i) <= var_count_upto(ts, j),
    decreases j,
{
    if i < j {
        lemma_var_count_upto_mono(ts, i, (j - 1) as nat);
    }
}

impl Net {
    /// Copies `tree` with its variables renamed by `scope`; a variable that
    /// `scope` does not hold yet gets a new wire, which `scope` then holds.
    pub fn freshen(&mut self, scope: &mut BTreeMap<VarId, VarId>, tree: &Tree) -> (res: Tree)
        requires
            old(self).wf(),
            old(self)@.vars.len() + var_count(tree@) <= STORE_LIMIT,
        ensures
            final(self).wf(),
            final(self)@ == (NetState { vars: final(self)@.vars, ..old(self)@ }),
            scope_grown(old(scope)@, old(self)@.vars, final(scope)@, final(self)@.vars, None),
            forall|v: VarId| #[trigger]
                final(scope)@.contains_key(v) <==> old(scope)@.contains_key(v) || occurs(v, tree@),
            res@ == rename(tree@, final(scope)@),
            final(self)@.vars.len() <= old(self)@.vars.len() + var_count(tree@),
            final(self)@.vars.len() + old(scope)@.len() == old(self)@.vars.len() + final(scope)@.len(),
            final(self).spent() == old(self).spent(),
            old(self).issued().subset_of(final(self).issued()),
        decreases tree,
    {
        match tree {
            Tree::Agent { id, aux } => {
                let mut out: Vec<Tree> = Vec::new();
                let mut i: usize = 0;
                proof {
                    lemma_view_agent(*id, *aux);
                }
                while i < aux.len()
                    invariant
                        i <= aux.len(),
                        out.len() == i,
                        tree is Agent,
                        tree->aux == *aux,
                        tree@ == (Term::Agent { id: *id, aux: terms(aux@) }),
                        self.wf(),
                        self@ == (NetState { vars: self@.vars, ..old(self)@ }),
                        scope_grown(old(scope)@, old(self)@.vars, scope@, self@.vars, None),
                        forall|v: VarId| #[trigger]
                            scope@.contains_key(v) <==> old(scope)@.contains_key(v) || exists|j: int|
                                0 <= j < i && occurs(v, #[trigger] terms(aux@)[j]),
                        forall|j: int| 0 <= j < i ==> (#[trigger] out[j])@ == rename(aux[j]@, scope@),
                        self@.vars.len() <= old(self)@.vars.len() + var_count_upto(
                            terms(aux@),
                            i as nat,
                        ),
                        self@.vars.len() + old(scope)@.len() == old(self)@.vars.len() + scope@.len(),
                        self.spent() == old(self).spent(),
                        old(self).issued().subset_of(self.issued()),
                        old(self)@.vars.len() + var_count_upto(terms(aux@), aux@.len())
                            <= STORE_LIMIT,
                    decreases aux.len() - i,
                {
                    let ghost scope_before = scope@;
                    let ghost vars_before = self@.vars;
                    proof {
                        lemma_var_count_upto_mono(terms(aux@), (i + 1) as nat, aux@.len());
                    }
                    let c = self.freshen(scope, &aux[i]);
                    proof {
                        lemma_scope_grown_trans(
                            old(scope)@,
                            old(self)@.vars,
                            scope_before,
                            vars_before,
                            scope@,
                            self@.vars, None,
                        );
                        assert forall|j: int| 0 <= j < i implies (#[trigger] out[j])@ == rename(
                            aux[j]@,
                            scope@,
                        ) by {
                            assert forall|v: VarId| #[trigger]
                                occurs(v, aux[j]@) implies scope_before.contains_key(v)
                                == scope@.contains_key(v) && (scope_before.contains_key(v)
                                ==> scope_before[v] == scope@[v]) by {
                                assert(occurs(v, terms(aux@)[j]));
                            }
                            lemma_rename_agree(aux[j]@, scope_before, scope@);
                        }
                    }
                    out.push(c);
                    i += 1;
                }
                let res = Tree::Agent { id: *id, aux: out };
                proof {
                    lemma_view_agent(*id, out);
                    let want = rename(tree@, scope@);
                    assert(want->aux =~= terms(out@));
                }
                res
            },
            Tree::Var { id } => {
                let known = match scope.get(id) {
                    Some(e) => Some(*e),
                    None => None,
                };
                match known {
                    Some(e) => {
                        Tree::Var { id: e }
                    },
                    None => {
                        let new_id = self.new_var();
                        scope.insert(*id, new_id);
                        proof {
                        }
                        Tree::Var { id: new_id }
                    },
                }
            },
        }
    }
}

/// The smaller of two lengths.
pub open spec fn shorter(a: nat, b: nat) -> nat {
    if a <= b {
        a
    } else {
        b
    }
}

/// Each template renamed by `rho`, paired with the actual tree at its place,
/// as far as both sequences go.
pub open spec fn zipped(templates: Seq<Term>, actual: Seq<Term>, rho: Map<VarId, VarId>) -> Seq<
    (Term, Term),
> {
    Seq::new(shorter(templates.len(), actual.len()), |i: int| (rename(templates[i], rho), actual[i]))
}

/// The number of variable nodes in the templates of `rule` that an
/// application to `left` and `right` uses.
pub open spec fn rule_var_count(rule: Rule, left: Seq<Term>, right: Seq<Term>) -> nat {
    var_count_upto(rule.left_ports, shorter(rule.left_ports.len(), left.len())) + var_count_upto(
        rule.right_ports,
        shorter(rule.right_ports.len(), right.len()),
    )
}

/// Whether `v` occurs in one of the templates of `rule` that an application
/// to `left` and `right` uses.
pub open spec fn rule_var(rule: Rule, left: Seq<Term>, right: Seq<Term>, v: VarId) -> bool {
    ||| occurs_in(v, rule.left_ports.take(shorter(rule.left_ports.len(), left.len()) as int))
    ||| occurs_in(v, rule.right_ports.take(shorter(rule.right_ports.len(), right.len()) as int))
}

/// `post` is what applying `rule` to the auxiliary trees `left` and `right`
/// makes of `pre`, with `rho` as the renaming of the rule's variables: `rho`
/// gives each of them a wire of its own that `pre` did not have, `post` has
/// these wires unbound beside those of `pre`, as many more as the rule has
/// variables, and on top of the waiting
/// interactions stand the renamed templates, each against its actual tree,
/// the left side first.
pub open spec fn applied(
    pre: NetState,
    rule: Rule,
    left: Seq<Term>,
    right: Seq<Term>,
    rho: Map<VarId, VarId>,
    post: NetState,
) -> bool {
    &&& forall|v: VarId| #[trigger] rho.contains_key(v) <==> rule_var(rule, left, right, v)
    &&& injective(rho)
    &&& grown_by(pre.vars, post.vars, rho.values(), None)
    &&& post.vars.dom().finite()
    &&& post.vars.len() == pre.vars.len() + rho.len()
    &&& post.interactions == pre.interactions + zipped(rule.left_ports, left, rho) + zipped(
        rule.right_ports,
        right,
        rho,
    )
    &&& post.stuck == pre.stuck
    &&& post.rules == pre.rules
}

impl Net {
    /// Renames the templates by `scope`, which it extends as `freshen` does,
    /// and puts each against its actual tree on the waiting interactions.
    fn apply_side(
        &mut self,
        scope: &mut BTreeMap<VarId, VarId>,
        templates: &Vec<Tree>,
        actual: Vec<Tree>,
    )
        requires
            old(self).wf(),
            old(self)@.vars.len() + var_count_upto(
                terms(templates@),
                shorter(templates@.len(), actual@.len()),
            ) <= STORE_LIMIT,
        ensures
            final(self).wf(),
            scope_grown(old(scope)@, old(self)@.vars, final(scope)@, final(self)@.vars, None),
            forall|v: VarId| #[trigger]
                final(scope)@.contains_key(v) <==> old(scope)@.contains_key(v) || occurs_in(
                    v,
                    terms(templates@).take(shorter(templates@.len(), actual@.len()) as int),
                ),
            final(self)@ == (NetState {
                vars: final(self)@.vars,
                interactions: old(self)@.interactions + zipped(
                    terms(templates@),
                    terms(actual@),
                    final(scope)@,
                ),
                ..old(self)@
            }),
            final(self)@.vars.len() <= old(self)@.vars.len() + var_count_upto(
                terms(templates@),
                shorter(templates@.len(), actual@.len()),
            ),
            final(self)@.vars.len() + old(scope)@.len() == old(self)@.vars.len() + final(scope)@.len(),
            final(self).spent() == old(self).spent(),
            old(self).issued().subset_of(final(self).issued()),
    {
        let ghost acts = terms(actual@);
        let ghost temps = terms(templates@);
        let ghost actual0 = actual@;
        let total = actual.len();
        let n = if templates.len() <= total {
            templates.len()
        } else {
            total
        };
        let mut rest = reversed(actual);
        let mut i: usize = 0;
        while i < n
            invariant
                i <= n,
                n == shorter(templates@.len(), actual0.len()),
                total == actual0.len(),
                acts == terms(actual0),
                temps == terms(templates@),
                rest@.len() == total - i,
                forall|j: int| 0 <= j < rest@.len() ==> rest@[j] == actual0[total - 1 - j],
                self.wf(),
                scope_grown(old(scope)@, old(self)@.vars, scope@, self@.vars, None),
                forall|v: VarId| #[trigger]
                    scope@.contains_key(v) <==> old(scope)@.contains_key(v) || exists|j: int|
                        0 <= j < i && occurs(v, #[trigger] temps[j]),
                self@ == (NetState {
                    vars: self@.vars,
                    interactions: old(self)@.interactions + Seq::new(
                        i as nat,
                        |j: int| (rename(temps[j], scope@), acts[j]),
                    ),
                    ..old(self)@
                }),
                self@.vars.len() <= old(self)@.vars.len() + var_count_upto(temps, i as nat),
                self@.vars.len() + old(scope)@.len() == old(self)@.vars.len() + scope@.len(),
                self.spent() == old(self).spent(),
                old(self).issued().subset_of(self.issued()),
                old(self)@.vars.len() + var_count_upto(temps, n as nat) <= STORE_LIMIT,
            decreases n - i,
        {
            let ghost scope_before = scope@;
            let ghost vars_before = self@.vars;
            proof {
                lemma_var_count_upto_mono(temps, (i + 1) as nat, n as nat);
            }
            let t = self.freshen(scope, &templates[i]);
            let a = rest.pop().unwrap();
            self.link(t, a);
            proof {
                lemma_scope_grown_trans(
                    old(scope)@,
                    old(self)@.vars,
                    scope_before,
                    vars_before,
                    scope@,
                    self@.vars, None,
                );
                assert forall|j: int| 0 <= j < i implies rename(temps[j], scope_before) == rename(
                    temps[j],
                    scope@,
                ) by {
                    assert forall|v: VarId| #[trigger]
                        occurs(v, temps[j]) implies scope_before.contains_key(v)
                        == scope@.contains_key(v) && (scope_before.contains_key(v)
                        ==> scope_before[v] == scope@[v]) by {
                        assert(scope_before.contains_key(v));
                    }
                    lemma_rename_agree(temps[j], scope_before, scope@);
                }
            }
            i += 1;
        }
        proof {
            let used = temps.take(n as int);
            assert forall|v: VarId| #[trigger]
                scope@.contains_key(v) <==> old(scope)@.contains_key(v) || occurs_in(v, used) by {
                if exists|j: int| 0 <= j < i && occurs(v, #[trigger] temps[j]) {
                    let j = choose|j: int| 0 <= j < i && occurs(v, #[trigger] temps[j]);
                    assert(occurs(v, used[j]));
                }
            }
        }
    }

    /// Applies `rule` to the auxiliary trees of the two agents that met: each
    /// template is copied with fresh wires for its variables, the same wire
    /// for the same variable throughout, and put against its actual tree.
    /// The store grows by no more wires than the templates hold variables.
    pub fn apply_rule(&mut self, rule: &InteractionRule, left: Vec<Tree>, right: Vec<Tree>)
        requires
            old(self).wf(),
            old(self)@.vars.len() + rule_var_count(rule@, terms(left@), terms(right@))
                <= STORE_LIMIT,
        ensures
            final(self).wf(),
            exists|rho: Map<VarId, VarId>|
                applied(old(self)@, rule@, terms(left@), terms(right@), rho, final(self)@),
            final(self)@.vars.len() <= old(self)@.vars.len() + rule_var_count(
                rule@,
                terms(left@),
                terms(right@),
            ),
            final(self).spent() == old(self).spent(),
            old(self).issued().subset_of(final(self).issued()),
    {
        let mut scope: BTreeMap<VarId, VarId> = BTreeMap::new();
        let ghost lefts = terms(left@);
        let ghost rights = terms(right@);
        self.apply_side(&mut scope, &rule.left_ports, left);
        let ghost scope_mid = scope@;
        let ghost vars_mid = self@.vars;
        self.apply_side(&mut scope, &rule.right_ports, right);
        proof {
            let rho = scope@;
            let empty = Map::<VarId, VarId>::empty();
            lemma_scope_grown_trans(empty, old(self)@.vars, scope_mid, vars_mid, rho, self@.vars, None);
            assert(fresh_ids(empty, rho) =~= rho.values());
            let used = rule@.left_ports.take(
                shorter(rule@.left_ports.len(), lefts.len()) as int,
            );
            assert forall|j: int| 0 <= j < shorter(rule@.left_ports.len(), lefts.len()) implies rename(
                rule@.left_ports[j],
                scope_mid,
            ) == rename(rule@.left_ports[j], rho) by {
                assert forall|v: VarId| #[trigger]
                    occurs(v, rule@.left_ports[j]) implies scope_mid.contains_key(v)
                    == rho.contains_key(v) && (scope_mid.contains_key(v) ==> scope_mid[v]
                    == rho[v]) by {
                    assert(occurs(v, used[j]));
                    assert(occurs_in(v, used));
                    assert(scope_mid.contains_key(v));
                }
                lemma_rename_agree(rule@.left_ports[j], scope_mid, rho);
            }
            assert(zipped(rule@.left_ports, lefts, scope_mid) =~= zipped(
                rule@.left_ports,
                lefts,
                rho,
            ));
            assert(empty.dom() =~= Set::<VarId>::empty());
            assert(empty.len() == 0);
            self.vars.lemma_finite();
            assert(self@.vars.dom().finite());
            assert(self@.vars.len() == old(self)@.vars.len() + rho.len());
            assert(applied(old(self)@, rule@, lefts, rights, rho, self@));
        }
    }
}

/// `post` is what `pre` becomes when the wire `id` meets the tree `other`:
/// an unbound wire is bound to `other`; a bound wire leaves the store, and
/// the tree it was bound to waits against `other`.
pub open spec fn met(pre: NetState, id: VarId, other: Term, post: NetState) -> bool {
    pre.vars.contains_key(id) && match pre.vars[id] {
        Some(bound) => post == (NetState {
            vars: pre.vars.remove(id),
            interactions: pre.interactions.push((bound, other)),
            ..pre
        }),
        None => post == (NetState { vars: pre.vars.insert(id, Some(other)), ..pre }),
    }
}

/// `post` is what the interaction of `a` with `b` makes of `pre`. Two agents
/// rewrite by the rule for their kinds, looked up in this order and then in
/// the other, or stay behind as a stuck pair where there is none. Otherwise
/// a variable meets the other tree: the right one if both are variables.
pub open spec fn interacted(pre: NetState, a: Term, b: Term, post: NetState) -> bool {
    match (a, b) {
        (Term::Agent { id: ka, aux: xa }, Term::Agent { id: kb, aux: xb }) => {
            if pre.rules.contains_key((ka, kb)) {
                exists|rho: Map<VarId, VarId>| applied(pre, pre.rules[(ka, kb)], xa, xb, rho, post)
            } else if pre.rules.contains_key((kb, ka)) {
                exists|rho: Map<VarId, VarId>| applied(pre, pre.rules[(kb, ka)], xb, xa, rho, post)
            } else {
                post == (NetState { stuck: pre.stuck.push((a, b)), ..pre })
            }
        },
        (_, Term::Var { id }) => met(pre, id, a, post),
        (Term::Var { id }, _) => met(pre, id, b, post),
    }
}

/// Whether the net can let `a` interact with `b`: the wire that is met is in
/// the store, or the store has room for the wires that the rule asks for.
pub open spec fn can_interact(pre: NetState, a: Term, b: Term) -> bool {
    match (a, b) {
        (Term::Agent { id: ka, aux: xa }, Term::Agent { id: kb, aux: xb }) => {
            if pre.rules.contains_key((ka, kb)) {
                pre.vars.len() + rule_var_count(pre.rules[(ka, kb)], xa, xb) <= STORE_LIMIT
            } else if pre.rules.contains_key((kb, ka)) {
                pre.vars.len() + rule_var_count(pre.rules[(kb, ka)], xb, xa) <= STORE_LIMIT
            } else {
                true
            }
        },
        (_, Term::Var { id }) => pre.vars.contains_key(id),
        (Term::Var { id }, _) => pre.vars.contains_key(id),
    }
}

impl Net {
    /// The wire `id` meets the tree `other`.
    fn meet(&mut self, id: VarId, other: Tree)
        requires
            old(self).wf(),
            old(self)@.vars.contains_key(id),
        ensures
            final(self).wf(),
            met(old(self)@, id, other@, final(self)@),
            final(self).issued() == old(self).issued(),
            final(self).spent().len() <= old(self).spent().len() + 1,
    {
        let entry = self.vars.replace(id, None);
        match entry {
            Some(Some(bound)) => {
                assert(self.issued() =~= old(self).issued());
                self.vars.remove(id);
                assert(self@.vars =~= old(self)@.vars.remove(id));
                self.link(bound, other);
            },
            _ => {
                self.vars.replace(id, Some(other));
                assert(self@.vars =~= old(self)@.vars.insert(id, Some(other@)));
                assert(self.issued() =~= old(self).issued());
            },
        }
    }

    /// One interaction of `a` with `b`. At most one wire leaves the net, and
    /// no wire that the net handed out is forgotten.
    pub fn interact(&mut self, a: Tree, b: Tree)
        requires
            old(self).wf(),
            can_interact(old(self)@, a@, b@),
        ensures
            final(self).wf(),
            interacted(old(self)@, a@, b@, final(self)@),
            old(self).issued().subset_of(final(self).issued()),
            final(self).spent().len() <= old(self).spent().len() + 1,
    {
        match (a, b) {
            (Tree::Agent { id: id1, aux: aux1 }, Tree::Agent { id: id2, aux: aux2 }) => {
                proof {
                    lemma_view_agent(id1, aux1);
                    lemma_view_agent(id2, aux2);
                }
                let rules = share(&self.system);
                if let Some(r) = rules.find(id1, id2) {
                    self.apply_rule(r, aux1, aux2);
                } else if let Some(r) = rules.find(id2, id1) {
                    self.apply_rule(r, aux2, aux1);
                } else {
                    self.stuck.push(
                        (Tree::Agent { id: id1, aux: aux1 }, Tree::Agent { id: id2, aux: aux2 }),
                    );
                    assert(self@.stuck =~= old(self)@.stuck.push((a@, b@)));
                }
            },
            (a, Tree::Var { id }) => {
                self.meet(id, a);
            },
            (Tree::Var { id }, a) => {
                self.meet(id, a);
            },
        }
    }
}

/// How a run of the engine ended.
#[derive(Debug, Clone, Copy, PartialEq, Eq, Structural)]
pub enum Halt {
    /// No interaction waits.
    Quiescent,
    /// The steps allowed were used up while interactions wait.
    OutOfSteps,
    /// The interaction on top cannot run: it meets a wire that the store does
    /// not hold, or the store has no room for the wires that its rule asks
    /// for.
    Blocked,
}

impl NetState {
    /// The net without the interaction on top.
    pub open spec fn popped(self) -> NetState {
        NetState { interactions: self.interactions.drop_last(), ..self }
    }

    /// Whether the interaction on top can run.
    pub open spec fn can_step(self) -> bool {
        self.interactions.len() > 0 && can_interact(
            self.popped(),
            self.interactions.last().0,
            self.interactions.last().1,
        )
    }
}

/// `post` is `pre` after the interaction on top, which can run, has run.
pub open spec fn stepped(pre: NetState, post: NetState) -> bool {
    pre.can_step() && interacted(
        pre.popped(),
        pre.interactions.last().0,
        pre.interactions.last().1,
        post,
    )
}

/// `post` is `pre` after `n` interactions have run, each the one on top.
pub open spec fn reaches(pre: NetState, post: NetState, n: nat) -> bool
    decreases n,
{
    if n == 0 {
        pre == post
    } else {
        exists|mid: NetState| reaches(pre, mid, (n - 1) as nat) && stepped(mid, post)
    }
}

/// How a run ends that has come to the net `end` in `n` of `steps` steps:
/// with nothing waiting; else out of steps, if all were used; else blocked.
pub open spec fn halted(end: NetState, n: nat, steps: nat) -> Halt {
    if end.interactions.len() == 0 {
        Halt::Quiescent
    } else if n == steps {
        Halt::OutOfSteps
    } else {
        Halt::Blocked
    }
}

impl Net {
    /// Whether `a` can interact with `b` in this net.
    pub fn ready(&self, a: &Tree, b: &Tree) -> (r: bool)
        requires
            self.wf(),
        ensures
            r == can_interact(self@, a@, b@),
    {
        match (a, b) {
            (Tree::Agent { id: id1, aux: aux1 }, Tree::Agent { id: id2, aux: aux2 }) => {
                if let Some(r) = self.system.find(*id1, *id2) {
                    self.has_room(r, aux1, aux2)
                } else if let Some(r) = self.system.find(*id2, *id1) {
                    self.has_room(r, aux2, aux1)
                } else {
                    true
                }
            },
            (_, Tree::Var { id }) => self.vars.contains(*id),
            (Tree::Var { id }, _) => self.vars.contains(*id),
        }
    }

    /// Whether the store has room for the wires that an application of `rule`
    /// to `left` and `right` asks for.
    pub fn has_room(&self, rule: &InteractionRule, left: &Vec<Tree>, right: &Vec<Tree>) -> (r: bool)
        ensures
            r == (self@.vars.len() + rule_var_count(rule@, terms(left@), terms(right@))
                <= STORE_LIMIT),
    {
        let n1 = if rule.left_ports.len() <= left.len() {
            rule.left_ports.len()
        } else {
            left.len()
        };
        let n2 = if rule.right_ports.len() <= right.len() {
            rule.right_ports.len()
        } else {
            right.len()
        };
        let c1 = count_vars_upto(&rule.left_ports, n1);
        let c2 = count_vars_upto(&rule.right_ports, n2);
        let have = self.vars.len();
        have <= STORE_LIMIT && c1 <= STORE_LIMIT - have && c2 <= STORE_LIMIT - have - c1
    }

    /// Runs the interaction on top, again and again, until none waits, or
    /// `steps` of them have run, or the one on top cannot run. Stuck pairs
    /// stay where they are. A linear net with linear rules stays linear, and
    /// is blocked only where the store has no room for the wires of a rule.
    /// At most one wire leaves the net with each step.
    pub fn normal(&mut self, steps: usize) -> (halt: Halt)
        requires
            old(self).wf(),
        ensures
            final(self).wf(),
            exists|n: nat|
                n <= steps && reaches(old(self)@, final(self)@, n) && halt == halted(
                    final(self)@,
                    n,
                    steps as nat,
                ),
            halt == Halt::Blocked ==> !final(self)@.can_step(),
            linear(old(self)@) && rules_linear(old(self)@.rules) ==> linear(final(self)@) && (halt
                == Halt::Blocked ==> final(self)@.interactions.last().0 is Agent
                && final(self)@.interactions.last().1 is Agent),
            old(self).issued().subset_of(final(self).issued()),
            final(self).spent().len() <= old(self).spent().len() + steps,
    {
        let mut done: usize = 0;
        let mut end = Halt::Quiescent;
        loop
            invariant
                self.wf(),
                done <= steps,
                reaches(old(self)@, self@, done as nat),
                old(self).issued().subset_of(self.issued()),
                self.spent().len() <= old(self).spent().len() + done,
            ensures
                self.wf(),
                done <= steps,
                reaches(old(self)@, self@, done as nat),
                old(self).issued().subset_of(self.issued()),
                self.spent().len() <= old(self).spent().len() + done,
                end == halted(self@, done as nat, steps as nat),
                end == Halt::Blocked ==> !self@.can_step(),
            decreases steps - done,
        {
            let len = self.interactions.len();
            if len == 0 {
                end = Halt::Quiescent;
                break ;
            }
            if done == steps {
                end = Halt::OutOfSteps;
                break ;
            }
            let ghost before = self@;
            let (a, b) = self.interactions.pop().unwrap();
            assert(self@ =~= before.popped());
            if !self.ready(&a, &b) {
                self.interactions.push((a, b));
                assert(self@ =~= before);
                end = Halt::Blocked;
                break ;
            }
            self.interact(a, b);
            assert(stepped(before, self@));
            done += 1;
        }
        proof {
            if linear(old(self)@) && rules_linear(old(self)@.rules) {
                law_run_keeps_linear(old(self)@, self@, done as nat);
                if end == Halt::Blocked {
                    law_linear_blocks_only_for_room(self@);
                }
            }
        }
        end
    }
}
} // verus!
