//! Building a program from statements: names get identifiers, trees are
//! flattened, and each declaration gets its annotator rule.

use crate::fresh::fresh_ids;
use crate::fresh::injective;
use crate::fresh::lemma_scope_grown_trans;
use crate::fresh::scope_grown;
use crate::names::NameTable;
use crate::program::checks;
use crate::program::declarations;
use crate::program::definitions;
use crate::program::Declaration;
use crate::program::DeclarationView;
use crate::program::triples;
use crate::program::Definition;
use crate::program::TypedMatch;
use crate::program::UntypedMatch;
use crate::program::DefinitionView;
use crate::run::Net;
use crate::run::NetState;
use crate::store::AgentStore;
use crate::store::STORE_LIMIT;
use crate::syntax::surfaces;
use crate::syntax::Surface;
use crate::term::lemma_view_agent;
use crate::term::terms;
use crate::term::AgentId;
use crate::term::Term;
use crate::term::Tree;
use crate::term::VarId;
use crate::flatten::hoisted;
use crate::flatten::hoisted_upto;
use crate::flatten::lemma_hoisted_upto_concat;
use crate::flatten::lemma_nodes_upto_concat;
use crate::flatten::lemma_nodes_upto_mono;
use crate::flatten::lemma_flat_grown;
use crate::flatten::names_agent;
use crate::flatten::names_var;
use crate::flatten::nodes;
use crate::flatten::nodes_upto;
use crate::flatten::flat;
use crate::flatten::AgentScope;
use crate::flatten::VarScope;
use vstd::prelude::*;

verus! {
/// Gathers the statements of a program.
#[derive(Debug)]
pub struct ProgramBuilder {
    pub var_scope: NameTable,
    pub agent_scope: NameTable,
    pub net: Net,
    pub agents: AgentStore,
    pub declarations: Vec<Declaration>,
    pub definitions: Vec<Definition>,
    pub checks: Vec<(bool, Net)>,
}

/// The mathematical value of a `ProgramBuilder`.
#[verifier::ext_equal]
pub struct BuilderState {
    pub var_scope: VarScope,
    pub agent_scope: AgentScope,
    pub net: NetState,
    pub agents: Map<AgentId, ()>,
    pub declarations: Seq<DeclarationView>,
    pub definitions: Seq<DefinitionView>,
    pub checks: Seq<(bool, NetState)>,
}

impl View for ProgramBuilder {
    type V = BuilderState;

    open spec fn view(&self) -> BuilderState {
        BuilderState {
            var_scope: self.var_scope@,
            agent_scope: self.agent_scope@,
            net: self.net@,
            agents: self.agents@,
            declarations: declarations(self.declarations@),
            definitions: definitions(self.definitions@),
            checks: checks(self.checks@),
        }
    }
}

/// Whether some name in `scope` has the identifier `id`.
pub open spec fn has_id(scope: AgentScope, id: AgentId) -> bool {
    exists|name: Seq<char>| #[trigger] scope.contains_key(name) && scope[name] == id
}

/// An identifier that has a name in a scope has it in every scope that
/// extends it.
pub proof fn lemma_has_id_grown(scope: AgentScope, wider: AgentScope, id: AgentId)
    requires
        scope.submap_of(wider),
        has_id(scope, id),
    ensures
        has_id(wider, id),
{
    let name = choose|name: Seq<char>| #[trigger] scope.contains_key(name) && scope[name] == id;
    assert(wider.dom().contains(name) ==> wider[name] == id);
    assert(wider.contains_key(name) && wider[name] == id);
}

impl BuilderState {
    /// Whether each store has room for `n` more entries.
    pub open spec fn room(self, n: nat) -> bool {
        self.agents.len() + n <= STORE_LIMIT && self.net.vars.len() + n <= STORE_LIMIT
    }
}

/// From `pre` to `post` only names were given identifiers and interactions
/// were put on top of the waiting ones: each new name has an identifier of
/// its own, new to its store; at most `n` entries came to each store.
pub open spec fn grew(pre: BuilderState, post: BuilderState, n: nat) -> bool {
    &&& scope_grown(pre.agent_scope, pre.agents, post.agent_scope, post.agents, ())
    &&& scope_grown(pre.var_scope, pre.net.vars, post.var_scope, post.net.vars, None)
    &&& post.agents.len() <= pre.agents.len() + n
    &&& post.net.vars.len() <= pre.net.vars.len() + n
    &&& pre.net.interactions.is_prefix_of(post.net.interactions)
    &&& post.net.stuck == pre.net.stuck
    &&& post.net.rules == pre.net.rules
    &&& post.declarations == pre.declarations
    &&& post.definitions == pre.definitions
    &&& post.checks == pre.checks
}

/// A builder has grown from itself, by nothing.
pub proof fn lemma_grew_refl(s: BuilderState)
    ensures
        grew(s, s, 0),
{
}

/// Growth after growth is growth.
pub proof fn lemma_grew_trans(s0: BuilderState, s1: BuilderState, s2: BuilderState, n: nat, m: nat)
    requires
        grew(s0, s1, n),
        grew(s1, s2, m),
    ensures
        grew(s0, s2, n + m),
{
    lemma_scope_grown_trans(
        s0.agent_scope,
        s0.agents,
        s1.agent_scope,
        s1.agents,
        s2.agent_scope,
        s2.agents,
        (),
    );
    lemma_scope_grown_trans(
        s0.var_scope,
        s0.net.vars,
        s1.var_scope,
        s1.net.vars,
        s2.var_scope,
        s2.net.vars,
        None,
    );
}

impl ProgramBuilder {
    /// The tables, the stores and the nets of the checks are well formed;
    /// every agent name has an identifier of its own, which the agent store
    /// holds; the constructor of every declaration has a name.
    pub open spec fn wf(&self) -> bool {
        &&& self.var_scope.wf()
        &&& self.agent_scope.wf()
        &&& self.net.wf()
        &&& self.agents.wf()
        &&& forall|i: int| 0 <= i < self.checks@.len() ==> (#[trigger] self.checks@[i]).1.wf()
        &&& forall|i: int|
            0 <= i < self.declarations@.len() ==> has_id(
                self.agent_scope@,
                (#[trigger] self.declarations@[i]).agent.id,
            )
        &&& injective(self.agent_scope@)
        &&& forall|name: Seq<char>| #[trigger]
            self.agent_scope@.contains_key(name) ==> self.agents@.contains_key(
                self.agent_scope@[name],
            )
    }

    /// The identifier of the agent `name`; a name that is new gets a new one.
    pub fn get_agent_id(&mut self, name: &String) -> (id: AgentId)
        requires
            old(self).wf(),
            old(self)@.agents.len() < STORE_LIMIT,
        ensures
            final(self).wf(),
            final(self)@ == (BuilderState {
                agent_scope: old(self)@.agent_scope.insert(name@, id),
                agents: final(self)@.agents,
                ..old(self)@
            }),
            grew(old(self)@, final(self)@, 1),
    {
        match self.agent_scope.get(name) {
            Some(id) => id,
            None => {
                let id = self.agents.insert();
                self.agent_scope.insert(name.clone(), id);
                proof {
                    assert forall|i: int| 0 <= i < self.declarations@.len() implies has_id(
                        self.agent_scope@,
                        (#[trigger] self.declarations@[i]).agent.id,
                    ) by {
                        lemma_has_id_grown(
                            old(self)@.agent_scope,
                            self@.agent_scope,
                            self.declarations@[i].agent.id,
                        );
                    }
                    assert(self@.agent_scope.contains_key(name@));
                }
                id
            },
        }
    }

    /// The identifier of the variable `name`; a name that the statement has
    /// not used yet gets a new wire in the builder's net.
    pub fn get_var_id(&mut self, name: &String) -> (id: VarId)
        requires
            old(self).wf(),
            old(self)@.net.vars.len() < STORE_LIMIT,
        ensures
            final(self).wf(),
            final(self)@ == (BuilderState {
                var_scope: old(self)@.var_scope.insert(name@, id),
                net: NetState { vars: final(self)@.net.vars, ..old(self)@.net },
                ..old(self)@
            }),
            grew(old(self)@, final(self)@, 1),
    {
        match self.var_scope.get(name) {
            Some(id) => id,
            None => {
                let id = self.net.vars.insert(None);
                self.var_scope.insert(name.clone(), id);
                proof {
                    assert(self@.var_scope.contains_key(name@));
                }
                id
            },
        }
    }
}

/// From `pre` to `post` the tree `t` was flattened into `res`: the scopes
/// took in the names of `t`, `res` is what `t` stands for under them, and the
/// interactions written inside `t` came on top of the waiting ones.
pub open spec fn flattened(pre: BuilderState, t: Surface, post: BuilderState, res: Term) -> bool {
    &&& grew(pre, post, nodes(t))
    &&& forall|name: Seq<char>| #[trigger]
        post.agent_scope.contains_key(name) <==> pre.agent_scope.contains_key(name) || names_agent(
            name,
            t,
        )
    &&& forall|name: Seq<char>| #[trigger]
        post.var_scope.contains_key(name) <==> pre.var_scope.contains_key(name) || names_var(
            name,
            t,
        )
    &&& res == flat(t, post.agent_scope, post.var_scope)
    &&& post.net.interactions == pre.net.interactions + hoisted(
        t,
        post.agent_scope,
        post.var_scope,
    )
}

/// Whether one of the first `n` of `ts` names the agent `name`.
pub open spec fn names_agent_upto(name: Seq<char>, ts: Seq<Surface>, n: nat) -> bool {
    exists|j: int| 0 <= j < n && j < ts.len() && names_agent(name, #[trigger] ts[j])
}

/// Whether one of the first `n` of `ts` names the variable `name`.
pub open spec fn names_var_upto(name: Seq<char>, ts: Seq<Surface>, n: nat) -> bool {
    exists|j: int| 0 <= j < n && j < ts.len() && names_var(name, #[trigger] ts[j])
}

/// From `pre` to `post` the first `n` of `ts` were flattened into `out`, one
/// after the other.
pub open spec fn flattened_upto(
    pre: BuilderState,
    ts: Seq<Surface>,
    n: nat,
    post: BuilderState,
    out: Seq<Term>,
) -> bool {
    &&& n <= ts.len()
    &&& grew(pre, post, nodes_upto(ts, n))
    &&& forall|name: Seq<char>| #[trigger]
        post.agent_scope.contains_key(name) <==> pre.agent_scope.contains_key(name)
            || names_agent_upto(name, ts, n)
    &&& forall|name: Seq<char>| #[trigger]
        post.var_scope.contains_key(name) <==> pre.var_scope.contains_key(name) || names_var_upto(
            name,
            ts,
            n,
        )
    &&& out.len() == n
    &&& forall|j: int|
        0 <= j < n ==> #[trigger] out[j] == flat(ts[j], post.agent_scope, post.var_scope)
    &&& post.net.interactions == pre.net.interactions + hoisted_upto(
        ts,
        n,
        post.agent_scope,
        post.var_scope,
    )
}

/// Flattening the next tree takes the sequence one tree further.
pub proof fn lemma_flattened_step(
    pre: BuilderState,
    ts: Seq<Surface>,
    n: nat,
    mid: BuilderState,
    out: Seq<Term>,
    post: BuilderState,
    res: Term,
)
    requires
        n < ts.len(),
        flattened_upto(pre, ts, n, mid, out),
        flattened(mid, ts[n as int], post, res),
    ensures
        flattened_upto(pre, ts, n + 1, post, out.push(res)),
{
    let a1 = mid.agent_scope;
    let v1 = mid.var_scope;
    let a2 = post.agent_scope;
    let v2 = post.var_scope;
    lemma_grew_trans(pre, mid, post, nodes_upto(ts, n), nodes(ts[n as int]));
    assert forall|j: int| 0 <= j < n implies flat(ts[j], a1, v1) == flat(ts[j], a2, v2) by {
        lemma_flat_grown(ts[j], a1, v1, a2, v2);
    }
    lemma_hoisted_upto_grown(ts, n, a1, v1, a2, v2);
    assert(post.net.interactions =~= pre.net.interactions + hoisted_upto(ts, n + 1, a2, v2));
}

/// Giving the agent `name` its identifier and then flattening its ports
/// flattens the agent.
pub proof fn lemma_flattened_agent(
    pre: BuilderState,
    name: Seq<char>,
    id: AgentId,
    mid: BuilderState,
    aux: Seq<Surface>,
    post: BuilderState,
    out: Seq<Term>,
)
    requires
        mid == (BuilderState {
            agent_scope: pre.agent_scope.insert(name, id),
            agents: mid.agents,
            ..pre
        }),
        grew(pre, mid, 1),
        flattened_upto(mid, aux, aux.len(), post, out),
    ensures
        flattened(pre, Surface::Agent { name, aux }, post, Term::Agent { id, aux: out }),
{
    let t = Surface::Agent { name, aux };
    lemma_grew_trans(pre, mid, post, 1, nodes_upto(aux, aux.len()));
    assert(post.agent_scope.dom().contains(name) ==> post.agent_scope[name] == id);
    let want = flat(t, post.agent_scope, post.var_scope);
    assert(want->aux =~= out);
}

impl ProgramBuilder {
    /// Flattens a tree: names give way to identifiers, and each interaction
    /// written with `with` goes on the builder's net, not into the result.
    pub fn load_tree(&mut self, tree: &crate::syntax::Tree) -> (res: Tree)
        requires
            old(self).wf(),
            old(self)@.room(nodes(tree@)),
        ensures
            final(self).wf(),
            flattened(old(self)@, tree@, final(self)@, res@),
        decreases tree,
    {
        match tree {
            crate::syntax::Tree::Agent { name, aux } => {
                proof {
                    crate::syntax::lemma_view_agent(*name, *aux);
                }
                let id = self.get_agent_id(name);
                let ghost mid = self@;
                let out = self.load_trees(aux);
                proof {
                    lemma_view_agent(id, out);
                    lemma_flattened_agent(
                        old(self)@,
                        name@,
                        id,
                        mid,
                        surfaces(aux@),
                        self@,
                        terms(out@),
                    );
                }
                Tree::Agent { id, aux: out }
            },
            crate::syntax::Tree::Variable { name } => {
                let id = self.get_var_id(name);
                Tree::Var { id }
            },
            crate::syntax::Tree::With { rest, redex } => {
                let ghost l = redex.0@;
                let ghost r = redex.1@;
                let ghost k = (**rest)@;
                let t0 = self.load_tree(&redex.0);
                let ghost s1 = self@;
                let t1 = self.load_tree(&redex.1);
                let ghost s2 = self@;
                self.net.link(t0, t1);
                let ghost s3 = self@;
                let res = self.load_tree(rest);
                proof {
                    let a = self@.agent_scope;
                    let v = self@.var_scope;
                    lemma_grew_trans(old(self)@, s1, s2, nodes(l), nodes(r));
                    lemma_grew_trans(old(self)@, s3, self@, nodes(l) + nodes(r), nodes(k));
                    lemma_submap_trans(s1.agent_scope, s2.agent_scope, a);
                    lemma_submap_trans(s1.var_scope, s2.var_scope, v);
                    lemma_flat_grown(l, s1.agent_scope, s1.var_scope, a, v);
                    lemma_flat_grown(r, s2.agent_scope, s2.var_scope, a, v);
                    assert(self@.net.interactions =~= old(self)@.net.interactions + hoisted(
                        tree@,
                        a,
                        v,
                    ));
                }
                res
            },
        }
    }

    /// Flattens the trees one after the other.
    pub fn load_trees(&mut self, trees: &Vec<crate::syntax::Tree>) -> (out: Vec<Tree>)
        requires
            old(self).wf(),
            old(self)@.room(nodes_upto(surfaces(trees@), trees@.len())),
        ensures
            final(self).wf(),
            flattened_upto(old(self)@, surfaces(trees@), trees@.len(), final(self)@, terms(out@)),
        decreases trees,
    {
        let ghost ts = surfaces(trees@);
        let mut out: Vec<Tree> = Vec::new();
        let mut i: usize = 0;
        while i < trees.len()
            invariant
                i <= trees.len(),
                ts == surfaces(trees@),
                self.wf(),
                old(self)@.room(nodes_upto(ts, ts.len())),
                flattened_upto(old(self)@, ts, i as nat, self@, terms(out@)),
            decreases trees.len() - i,
        {
            let ghost before = self@;
            let ghost done = terms(out@);
            proof {
                lemma_nodes_upto_mono(ts, (i + 1) as nat, ts.len());
            }
            let c = self.load_tree(&trees[i]);
            proof {
                lemma_flattened_step(old(self)@, ts, i as nat, before, done, self@, c@);
                assert(terms(out@.push(c)) =~= done.push(c@));
            }
            out.push(c);
            i += 1;
        }
        out
    }
}

impl ProgramBuilder {
    /// Flattens an agent pattern: its kind, then the tree at each port.
    pub fn load_untyped_match(&mut self, m: &crate::syntax::UntypedMatch) -> (res: UntypedMatch)
        requires
            old(self).wf(),
            old(self)@.room(nodes(m@.tree())),
        ensures
            final(self).wf(),
            flattened(old(self)@, m@.tree(), final(self)@, res@.term()),
    {
        let id = self.get_agent_id(&m.name);
        let ghost mid = self@;
        let aux = self.load_trees(&m.aux);
        proof {
            lemma_flattened_agent(old(self)@, m.name@, id, mid, surfaces(m.aux@), self@, terms(aux@));
        }
        UntypedMatch { id, aux }
    }

    /// Flattens a typed agent pattern: its kind, then for each port the tree
    /// before, the tree after and the type.
    pub fn load_typed_match(&mut self, m: &crate::syntax::TypedMatch) -> (res: TypedMatch)
        requires
            old(self).wf(),
            old(self)@.room(nodes(m@.tree())),
        ensures
            final(self).wf(),
            flattened(old(self)@, m@.tree(), final(self)@, res@.term()),
    {
        let id = self.get_agent_id(&m.name);
        let ghost mid = self@;
        let ghost ts = crate::syntax::spread3(m@.aux);
        let mut out: Vec<(Tree, Tree, Tree)> = Vec::new();
        let mut i: usize = 0;
        while i < m.aux.len()
            invariant
                i <= m.aux.len(),
                out.len() == i,
                ts == crate::syntax::spread3(m@.aux),
                self.wf(),
                mid.room(nodes_upto(ts, ts.len())),
                flattened_upto(mid, ts, (3 * i) as nat, self@, crate::program::spread3(triples(out@))),
            decreases m.aux.len() - i,
        {
            let ghost s0 = self@;
            let ghost done = crate::program::spread3(triples(out@));
            proof {
                lemma_nodes_upto_mono(ts, (3 * i + 1) as nat, ts.len());
                lemma_nodes_upto_mono(ts, (3 * i + 2) as nat, ts.len());
                lemma_nodes_upto_mono(ts, (3 * i + 3) as nat, ts.len());
            }
            let a = self.load_tree(&m.aux[i].0);
            let ghost s1 = self@;
            proof {
                lemma_flattened_step(mid, ts, (3 * i) as nat, s0, done, s1, a@);
            }
            let b = self.load_tree(&m.aux[i].1);
            let ghost s2 = self@;
            proof {
                lemma_flattened_step(mid, ts, (3 * i + 1) as nat, s1, done.push(a@), s2, b@);
            }
            let c = self.load_tree(&m.aux[i].2);
            proof {
                lemma_flattened_step(
                    mid,
                    ts,
                    (3 * i + 2) as nat,
                    s2,
                    done.push(a@).push(b@),
                    self@,
                    c@,
                );
                assert(crate::program::spread3(triples(out@.push((a, b, c)))) =~= done.push(a@).push(
                    b@,
                ).push(c@));
            }
            out.push((a, b, c));
            i += 1;
        }
        proof {
            lemma_flattened_agent(
                old(self)@,
                m.name@,
                id,
                mid,
                ts,
                self@,
                crate::program::spread3(triples(out@)),
            );
        }
        TypedMatch { id, aux: out }
    }
}

/// Flattening one tree is flattening the sequence that holds it alone.
pub proof fn lemma_flattened_one(pre: BuilderState, t: Surface, post: BuilderState, res: Term)
    requires
        flattened(pre, t, post, res),
    ensures
        flattened_upto(pre, seq![t], 1, post, seq![res]),
{
    lemma_flattened_step(pre, seq![t], 0, pre, Seq::empty(), post, res);
}

/// Flattening one sequence and then another flattens the two, one after the
/// other.
pub proof fn lemma_flattened_concat(
    pre: BuilderState,
    ts1: Seq<Surface>,
    mid: BuilderState,
    out1: Seq<Term>,
    ts2: Seq<Surface>,
    post: BuilderState,
    out2: Seq<Term>,
)
    requires
        flattened_upto(pre, ts1, ts1.len(), mid, out1),
        flattened_upto(mid, ts2, ts2.len(), post, out2),
    ensures
        flattened_upto(pre, ts1 + ts2, (ts1 + ts2).len(), post, out1 + out2),
{
    let ts = ts1 + ts2;
    let a1 = mid.agent_scope;
    let v1 = mid.var_scope;
    let a2 = post.agent_scope;
    let v2 = post.var_scope;
    lemma_grew_trans(pre, mid, post, nodes_upto(ts1, ts1.len()), nodes_upto(ts2, ts2.len()));
    lemma_nodes_upto_concat(ts1, ts2, ts2.len());
    lemma_hoisted_upto_concat(ts1, ts2, ts2.len(), a2, v2);
    lemma_hoisted_upto_grown(ts1, ts1.len(), a1, v1, a2, v2);
    assert forall|j: int| 0 <= j < ts.len() implies #[trigger] (out1 + out2)[j] == flat(
        ts[j],
        a2,
        v2,
    ) by {
        if j < ts1.len() {
            lemma_flat_grown(ts1[j], a1, v1, a2, v2);
        } else {
        }
    }
    assert forall|name: Seq<char>| #[trigger]
        a2.contains_key(name) <==> pre.agent_scope.contains_key(name) || names_agent_upto(
            name,
            ts,
            ts.len(),
        ) by {
        if names_agent_upto(name, ts, ts.len()) {
            let j = choose|j: int|
                0 <= j < ts.len() && j < ts.len() && names_agent(name, #[trigger] ts[j]);
            if j < ts1.len() {
            } else {
            }
        }
        if names_agent_upto(name, ts1, ts1.len()) {
            let j = choose|j: int|
                0 <= j < ts1.len() && j < ts1.len() && names_agent(name, #[trigger] ts1[j]);
            assert(ts[j] == ts1[j]);
        }
        if names_agent_upto(name, ts2, ts2.len()) {
            let j = choose|j: int|
                0 <= j < ts2.len() && j < ts2.len() && names_agent(name, #[trigger] ts2[j]);
            assert(ts[j + ts1.len()] == ts2[j]);
        }
    }
    assert forall|name: Seq<char>| #[trigger]
        v2.contains_key(name) <==> pre.var_scope.contains_key(name) || names_var_upto(
            name,
            ts,
            ts.len(),
        ) by {
        if names_var_upto(name, ts, ts.len()) {
            let j = choose|j: int|
                0 <= j < ts.len() && j < ts.len() && names_var(name, #[trigger] ts[j]);
            if j < ts1.len() {
            } else {
            }
        }
        if names_var_upto(name, ts1, ts1.len()) {
            let j = choose|j: int|
                0 <= j < ts1.len() && j < ts1.len() && names_var(name, #[trigger] ts1[j]);
            assert(ts[j] == ts1[j]);
        }
        if names_var_upto(name, ts2, ts2.len()) {
            let j = choose|j: int|
                0 <= j < ts2.len() && j < ts2.len() && names_var(name, #[trigger] ts2[j]);
            assert(ts[j + ts1.len()] == ts2[j]);
        }
    }
    assert(post.net.interactions =~= pre.net.interactions + hoisted_upto(ts, ts.len(), a2, v2));
}

/// A submap of a submap is a submap.
pub proof fn lemma_submap_trans<K, V>(a: Map<K, V>, b: Map<K, V>, c: Map<K, V>)
    requires
        a.submap_of(b),
        b.submap_of(c),
    ensures
        a.submap_of(c),
{
    assert forall|k: K| #[trigger] a.dom().contains(k) implies #[trigger] c.dom().contains(k) && a[k]
        == c[k] by {
        assert(b.dom().contains(k));
    }
}

/// Scopes that hold the names of the first `n` of `ts` find the same
/// interactions written inside them as any scopes that extend them.
pub proof fn lemma_hoisted_upto_grown(
    ts: Seq<Surface>,
    n: nat,
    agents1: AgentScope,
    vars1: VarScope,
    agents2: AgentScope,
    vars2: VarScope,
)
    requires
        n <= ts.len(),
        agents1.submap_of(agents2),
        vars1.submap_of(vars2),
        forall|name: Seq<char>, j: int|
            0 <= j < n && #[trigger] names_agent(name, ts[j]) ==> agents1.contains_key(name),
        forall|name: Seq<char>, j: int|
            0 <= j < n && #[trigger] names_var(name, ts[j]) ==> vars1.contains_key(name),
    ensures
        hoisted_upto(ts, n, agents1, vars1) == hoisted_upto(ts, n, agents2, vars2),
    decreases n,
{
    if n > 0 {
        lemma_hoisted_upto_grown(ts, (n - 1) as nat, agents1, vars1, agents2, vars2);
        lemma_flat_grown(ts[n - 1], agents1, vars1, agents2, vars2);
    }
}
} // verus!
