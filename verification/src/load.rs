//! Loading statements into a builder.

use crate::builder::flattened;
use crate::builder::flattened_upto;
use crate::builder::grew;
use crate::builder::lemma_flattened_concat;
use crate::builder::lemma_flattened_one;
use crate::builder::lemma_grew_refl;
use crate::builder::lemma_grew_trans;
use crate::builder::lemma_has_id_grown;
use crate::builder::lemma_submap_trans;
use crate::builder::names_agent_upto;
use crate::builder::names_var_upto;
use crate::builder::BuilderState;
use crate::builder::ProgramBuilder;
use crate::names::NameTable;
use crate::program::Declaration;
use crate::program::DeclarationView;
use crate::program::Definition;
use crate::program::DefinitionView;
use crate::program::MatchView;
use crate::program::TypedView;
use crate::program::UntypedMatch;
use crate::run::Net;
use crate::run::NetState;
use crate::store::AgentStore;
use crate::syntax::names_agent_among;
use crate::syntax::surface_pairs;
use crate::syntax::surfaces;
use crate::syntax::Pattern;
use crate::syntax::Statement;
use crate::syntax::Stmt;
use crate::syntax::Surface;
use crate::syntax::TypedPattern;
use crate::term::clone_trees;
use crate::term::lemma_view_agent;
use crate::term::terms;
use crate::term::AgentId;
use crate::term::Term;
use crate::term::Tree;
use crate::flatten::hoisted;
use crate::flatten::lemma_nodes_upto_mono;
use crate::flatten::lemma_flat_grown;
use crate::flatten::names_agent;
use crate::flatten::names_var;
use crate::flatten::nodes;
use crate::flatten::nodes_upto;
use crate::flatten::flat;
use crate::flatten::flat_all;
use crate::flatten::AgentScope;
use crate::flatten::VarScope;
use vstd::prelude::*;
use vstd::string::*;

verus! {
/// What an agent pattern stands for under the two scopes.
pub open spec fn flat_pattern(p: Pattern, agents: AgentScope, vars: VarScope) -> MatchView {
    MatchView { id: agents[p.name], aux: flat_all(p.aux, agents, vars) }
}

/// What a typed agent pattern stands for under the two scopes.
pub open spec fn flat_typed(p: TypedPattern, agents: AgentScope, vars: VarScope) -> TypedView {
    TypedView {
        id: agents[p.name],
        aux: Seq::new(
            p.aux.len(),
            |i: int|
                (
                    flat(p.aux[i].0, agents, vars),
                    flat(p.aux[i].1, agents, vars),
                    flat(p.aux[i].2, agents, vars),
                ),
        ),
    }
}

/// The trees of a definition, in the order in which they are flattened.
pub open spec fn def_trees(a: Pattern, b: Pattern) -> Seq<Surface> {
    seq![a.tree(), b.tree()]
}

/// The trees of a declaration, in the order in which they are flattened.
pub open spec fn decl_trees(a: TypedPattern, vars: Seq<Surface>, t: Pattern) -> Seq<Surface> {
    seq![a.tree()] + vars + seq![t.tree()]
}

/// From `pre` to `post` the trees `ts` were flattened, one after the other.
pub open spec fn read(pre: BuilderState, ts: Seq<Surface>, post: BuilderState) -> bool {
    flattened_upto(pre, ts, ts.len(), post, flat_all(ts, post.agent_scope, post.var_scope))
}

/// The builder with its net taken out and an empty one in its place.
pub open spec fn drained(s: BuilderState) -> BuilderState {
    BuilderState { net: NetState::empty(), ..s }
}

/// The builder with no variable names.
pub open spec fn cleared(s: BuilderState) -> BuilderState {
    BuilderState { var_scope: Map::empty(), ..s }
}

/// The definition that `a ~ b` makes in a builder that has flattened it.
pub open spec fn def_of(mid: BuilderState, a: Pattern, b: Pattern) -> DefinitionView {
    DefinitionView {
        left: flat_pattern(a, mid.agent_scope, mid.var_scope),
        right: flat_pattern(b, mid.agent_scope, mid.var_scope),
        net: mid.net,
    }
}

/// The declaration that `a : vars : t` makes in a builder that has flattened
/// it.
pub open spec fn decl_of(
    mid: BuilderState,
    a: TypedPattern,
    vars: Seq<Surface>,
    t: Pattern,
) -> DeclarationView {
    DeclarationView {
        agent: flat_typed(a, mid.agent_scope, mid.var_scope),
        intermediate: flat_all(vars, mid.agent_scope, mid.var_scope),
        parent: flat_pattern(t, mid.agent_scope, mid.var_scope),
        net: mid.net,
    }
}

/// From `pre` to `post` the definition `a ~ b` was taken in: its patterns
/// were flattened, and the definition holds them and the net that the
/// builder had by then; the builder's net is empty again.
pub open spec fn defined(pre: BuilderState, a: Pattern, b: Pattern, post: BuilderState) -> bool {
    exists|mid: BuilderState| #[trigger]
        read(pre, def_trees(a, b), mid) && post == (BuilderState {
            definitions: mid.definitions.push(def_of(mid, a, b)),
            ..drained(mid)
        })
}

/// The name of the annotator trigger.
pub open spec fn annotator_name() -> Seq<char> {
    "__ANNOTATOR"@
}

/// The name of the annotation wrapper.
pub open spec fn ann_name() -> Seq<char> {
    "__ANN"@
}

/// The pattern `__ANNOTATOR(a)`.
pub open spec fn annotator_pattern() -> Pattern {
    Pattern { name: annotator_name(), aux: seq![Surface::Variable { name: "a"@ }] }
}

/// The pattern `__ANN(a b)`.
pub open spec fn ann_pattern() -> Pattern {
    Pattern {
        name: ann_name(),
        aux: seq![Surface::Variable { name: "a"@ }, Surface::Variable { name: "b"@ }],
    }
}

/// From `pre` to `post` the kind of the pattern `p` was made sure of: where
/// its name had no identifier, the definition `p ~ p` was loaded as a
/// statement.
pub open spec fn kind_ensured(pre: BuilderState, p: Pattern, post: BuilderState) -> bool {
    if pre.agent_scope.contains_key(p.name) {
        post == pre
    } else {
        exists|mid: BuilderState| #[trigger] defined(pre, p, p, mid) && post == cleared(mid)
    }
}

/// The rule that lets the annotator trigger open an annotated instance of a
/// declared constructor: on the left the trigger, holding the annotation of
/// the constructor, with the tree after at each port, by its parent type; on
/// the right the constructor, holding at each port the annotation of the tree
/// before by the port's type.
pub open spec fn annotator_rule(
    decl: DeclarationView,
    annotator: AgentId,
    ann: AgentId,
) -> DefinitionView {
    DefinitionView {
        left: MatchView {
            id: annotator,
            aux: seq![
                Term::Agent {
                    id: ann,
                    aux: seq![
                        Term::Agent {
                            id: decl.agent.id,
                            aux: Seq::new(decl.agent.aux.len(), |i: int| decl.agent.aux[i].1),
                        },
                        decl.parent.term(),
                    ],
                },
            ],
        },
        right: MatchView {
            id: decl.agent.id,
            aux: Seq::new(
                decl.agent.aux.len(),
                |i: int|
                    Term::Agent { id: ann, aux: seq![decl.agent.aux[i].0, decl.agent.aux[i].2] },
            ),
        },
        net: decl.net,
    }
}

impl Default for ProgramBuilder {
    fn default() -> (b: Self)
        ensures
            b.wf(),
            b@ == BuilderState::empty(),
    {
        let b = ProgramBuilder {
            var_scope: NameTable::new(),
            agent_scope: NameTable::new(),
            net: Net::default(),
            agents: AgentStore::new(),
            declarations: Vec::new(),
            definitions: Vec::new(),
            checks: Vec::new(),
        };
        assert(b@ =~= BuilderState::empty());
        b
    }
}

impl BuilderState {
    /// The builder that has seen no statement.
    pub open spec fn empty() -> BuilderState {
        BuilderState {
            var_scope: Map::empty(),
            agent_scope: Map::empty(),
            net: NetState::empty(),
            agents: Map::empty(),
            declarations: Seq::empty(),
            definitions: Seq::empty(),
            checks: Seq::empty(),
        }
    }
}

impl ProgramBuilder {
    /// Takes the builder's net, with the interactions that were written
    /// inside the trees flattened so far, and leaves an empty one.
    pub fn drain(&mut self) -> (net: Net)
        requires
            old(self).wf(),
        ensures
            final(self).wf(),
            net.wf(),
            net@ == old(self)@.net,
            final(self)@ == drained(old(self)@),
    {
        let mut net = Net::default();
        std::mem::swap(&mut self.net, &mut net);
        net
    }

    /// Takes in the definition `a ~ b`.
    pub fn load_def(&mut self, a: &crate::syntax::UntypedMatch, b: &crate::syntax::UntypedMatch)
        requires
            old(self).wf(),
            old(self)@.room(nodes(a@.tree()) + nodes(b@.tree())),
        ensures
            final(self).wf(),
            defined(old(self)@, a@, b@, final(self)@),
    {
        let left = self.load_untyped_match(a);
        let ghost s1 = self@;
        let right = self.load_untyped_match(b);
        let ghost mid = self@;
        let net = self.drain();
        proof {
            let ts = def_trees(a@, b@);
            lemma_flattened_one(old(self)@, a@.tree(), s1, left@.term());
            lemma_flattened_one(s1, b@.tree(), mid, right@.term());
            lemma_flattened_concat(
                old(self)@,
                seq![a@.tree()],
                s1,
                seq![left@.term()],
                seq![b@.tree()],
                mid,
                seq![right@.term()],
            );
            assert(seq![a@.tree()] + seq![b@.tree()] =~= ts);
            let out = seq![left@.term()] + seq![right@.term()];
            assert(read(old(self)@, ts, mid));
            assert(out[0] == left@.term() && ts[0] == a@.tree());
            assert(out[1] == right@.term() && ts[1] == b@.tree());
            lemma_pattern_term(a@, mid.agent_scope, mid.var_scope, left@);
            lemma_pattern_term(b@, mid.agent_scope, mid.var_scope, right@);
        }
        let def = Definition { left, right, net };
        self.definitions.push(def);
        proof {
            assert(self@.definitions =~= mid.definitions.push(def_of(mid, a@, b@)));
            assert(self@ =~= (BuilderState {
                definitions: mid.definitions.push(def_of(mid, a@, b@)),
                ..drained(mid)
            }));
        }
    }
}

/// The two trees of each pair, one pair after the other.
pub open spec fn spread2(ps: Seq<(Surface, Surface)>) -> Seq<Surface> {
    Seq::new(
        2 * ps.len(),
        |i: int|
            if i % 2 == 0 {
                ps[i / 2].0
            } else {
                ps[i / 2].1
            },
    )
}

/// The interactions that the first `n` pairs of a check put on the net: for
/// each pair those written inside its two trees, then the pair itself.
pub open spec fn asserted_upto(
    ps: Seq<(Surface, Surface)>,
    n: nat,
    agents: AgentScope,
    vars: VarScope,
) -> Seq<(Term, Term)>
    decreases n,
{
    if n == 0 || n > ps.len() {
        Seq::empty()
    } else {
        asserted_upto(ps, (n - 1) as nat, agents, vars) + hoisted(ps[n - 1].0, agents, vars)
            + hoisted(ps[n - 1].1, agents, vars) + seq![
            (flat(ps[n - 1].0, agents, vars), flat(ps[n - 1].1, agents, vars)),
        ]
    }
}

/// From `pre` to `post` the first `n` pairs of a check were flattened and put
/// on the net.
pub open spec fn checked_upto(
    pre: BuilderState,
    ps: Seq<(Surface, Surface)>,
    n: nat,
    post: BuilderState,
) -> bool {
    &&& n <= ps.len()
    &&& grew(pre, post, nodes_upto(spread2(ps), 2 * n))
    &&& forall|name: Seq<char>| #[trigger]
        post.agent_scope.contains_key(name) <==> pre.agent_scope.contains_key(name)
            || names_agent_upto(name, spread2(ps), 2 * n)
    &&& forall|name: Seq<char>| #[trigger]
        post.var_scope.contains_key(name) <==> pre.var_scope.contains_key(name) || names_var_upto(
            name,
            spread2(ps),
            2 * n,
        )
    &&& post.net.interactions == pre.net.interactions + asserted_upto(
        ps,
        n,
        post.agent_scope,
        post.var_scope,
    )
}

/// Scopes that hold the names of the first `n` pairs find the same
/// interactions there as any scopes that extend them.
pub proof fn lemma_asserted_upto_grown(
    ps: Seq<(Surface, Surface)>,
    n: nat,
    agents1: AgentScope,
    vars1: VarScope,
    agents2: AgentScope,
    vars2: VarScope,
)
    requires
        n <= ps.len(),
        agents1.submap_of(agents2),
        vars1.submap_of(vars2),
        forall|name: Seq<char>| #[trigger]
            names_agent_upto(name, spread2(ps), 2 * n) ==> agents1.contains_key(name),
        forall|name: Seq<char>| #[trigger]
            names_var_upto(name, spread2(ps), 2 * n) ==> vars1.contains_key(name),
    ensures
        asserted_upto(ps, n, agents1, vars1) == asserted_upto(ps, n, agents2, vars2),
    decreases n,
{
    if n > 0 {
        let ts = spread2(ps);
        assert forall|name: Seq<char>| #[trigger]
            names_agent_upto(name, ts, (2 * (n - 1)) as nat) implies agents1.contains_key(name) by {
            let j = choose|j: int|
                0 <= j < 2 * (n - 1) && j < ts.len() && names_agent(name, #[trigger] ts[j]);
            assert(names_agent(name, ts[j]));
            assert(names_agent_upto(name, ts, 2 * n));
        }
        assert forall|name: Seq<char>| #[trigger]
            names_var_upto(name, ts, (2 * (n - 1)) as nat) implies vars1.contains_key(name) by {
            assert(names_var_upto(name, ts, 2 * n));
        }
        lemma_asserted_upto_grown(ps, (n - 1) as nat, agents1, vars1, agents2, vars2);
        let a = ps[n - 1].0;
        let b = ps[n - 1].1;
        assert(ts[2 * (n - 1)] == a);
        assert(ts[2 * (n - 1) + 1] == b);
        assert forall|name: Seq<char>| #[trigger] names_agent(name, a) implies agents1.contains_key(
            name,
        ) by {
            assert(names_agent(name, ts[2 * (n - 1)]));
            assert(names_agent_upto(name, ts, 2 * n));
        }
        assert forall|name: Seq<char>| #[trigger] names_var(name, a) implies vars1.contains_key(
            name,
        ) by {
            assert(names_var_upto(name, ts, 2 * n));
        }
        assert forall|name: Seq<char>| #[trigger] names_agent(name, b) implies agents1.contains_key(
            name,
        ) by {
            assert(names_agent_upto(name, ts, 2 * n));
        }
        assert forall|name: Seq<char>| #[trigger] names_var(name, b) implies vars1.contains_key(
            name,
        ) by {
            assert(names_var_upto(name, ts, 2 * n));
        }
        lemma_flat_grown(a, agents1, vars1, agents2, vars2);
        lemma_flat_grown(b, agents1, vars1, agents2, vars2);
    }
}

/// Flattening the two trees of the next pair and putting the pair on the net
/// takes a check one pair further.
pub proof fn lemma_checked_step(
    pre: BuilderState,
    ps: Seq<(Surface, Surface)>,
    n: nat,
    s0: BuilderState,
    s1: BuilderState,
    a: Term,
    s2: BuilderState,
    b: Term,
    post: BuilderState,
)
    requires
        n < ps.len(),
        checked_upto(pre, ps, n, s0),
        flattened(s0, ps[n as int].0, s1, a),
        flattened(s1, ps[n as int].1, s2, b),
        post == (BuilderState {
            net: NetState { interactions: s2.net.interactions.push((a, b)), ..s2.net },
            ..s2
        }),
    ensures
        checked_upto(pre, ps, n + 1, post),
{
    let ts = spread2(ps);
    let k: int = 2 * (n as int);
    let x = ps[n as int].0;
    let y = ps[n as int].1;
    assert(ts[k] == x);
    assert(ts[k + 1] == y);
    lemma_grew_trans(pre, s0, s1, nodes_upto(ts, 2 * n), nodes(x));
    lemma_grew_trans(pre, s1, s2, nodes_upto(ts, 2 * n) + nodes(x), nodes(y));
    assert(nodes_upto(ts, 2 * (n + 1)) == nodes_upto(ts, 2 * n) + nodes(x) + nodes(y)) by {
        assert(nodes_upto(ts, (2 * n + 1) as nat) == nodes_upto(ts, 2 * n) + nodes(ts[k]));
        assert(nodes_upto(ts, (2 * n + 2) as nat) == nodes_upto(ts, (2 * n + 1) as nat) + nodes(
            ts[k + 1],
        ));
    }
    lemma_submap_trans(s0.agent_scope, s1.agent_scope, s2.agent_scope);
    lemma_submap_trans(s0.var_scope, s1.var_scope, s2.var_scope);
    assert forall|name: Seq<char>| #[trigger]
        names_agent_upto(name, ts, 2 * n) implies s0.agent_scope.contains_key(name) by {}
    assert forall|name: Seq<char>| #[trigger]
        names_var_upto(name, ts, 2 * n) implies s0.var_scope.contains_key(name) by {}
    lemma_asserted_upto_grown(
        ps,
        n,
        s0.agent_scope,
        s0.var_scope,
        s2.agent_scope,
        s2.var_scope,
    );
    lemma_flat_grown(x, s1.agent_scope, s1.var_scope, s2.agent_scope, s2.var_scope);
    assert forall|name: Seq<char>| #[trigger]
        post.agent_scope.contains_key(name) <==> pre.agent_scope.contains_key(name)
            || names_agent_upto(name, ts, 2 * (n + 1)) by {
        if names_agent_upto(name, ts, 2 * (n + 1)) {
            let j = choose|j: int|
                0 <= j < 2 * (n + 1) && j < ts.len() && names_agent(name, #[trigger] ts[j]);
            if j < 2 * n {
                assert(names_agent_upto(name, ts, 2 * n));
            }
        }
        if names_agent_upto(name, ts, 2 * n) {
            let j = choose|j: int|
                0 <= j < 2 * n && j < ts.len() && names_agent(name, #[trigger] ts[j]);
            assert(names_agent(name, ts[j]));
        }
        if names_agent(name, x) {
            assert(names_agent(name, ts[k]));
        }
        if names_agent(name, y) {
            assert(names_agent(name, ts[k + 1]));
        }
    }
    assert forall|name: Seq<char>| #[trigger]
        post.var_scope.contains_key(name) <==> pre.var_scope.contains_key(name) || names_var_upto(
            name,
            ts,
            2 * (n + 1),
        ) by {
        if names_var_upto(name, ts, 2 * (n + 1)) {
            let j = choose|j: int|
                0 <= j < 2 * (n + 1) && j < ts.len() && names_var(name, #[trigger] ts[j]);
            if j < 2 * n {
                assert(names_var_upto(name, ts, 2 * n));
            }
        }
        if names_var_upto(name, ts, 2 * n) {
            let j = choose|j: int| 0 <= j < 2 * n && j < ts.len() && names_var(name, #[trigger] ts[j]);
            assert(names_var(name, ts[j]));
        }
        if names_var(name, x) {
            assert(names_var(name, ts[k]));
        }
        if names_var(name, y) {
            assert(names_var(name, ts[k + 1]));
        }
    }
    assert(post.net.interactions =~= pre.net.interactions + asserted_upto(
        ps,
        n + 1,
        post.agent_scope,
        post.var_scope,
    ));
}

/// From `pre` to `post` the statement `s` was loaded. A definition is taken
/// in. A check has its pairs flattened and put on the net, which the check
/// then holds. A declaration has its trees flattened and holds the net; the
/// two bookkeeping kinds are made sure of, and the declaration's annotator
/// rule is added. In the end no variable name is left.
pub open spec fn loaded(pre: BuilderState, s: Stmt, post: BuilderState) -> bool {
    match s {
        Stmt::Def(a, b) => exists|mid: BuilderState| #[trigger]
            defined(pre, a, b, mid) && post == cleared(mid),
        Stmt::Check(positive, ps) => exists|mid: BuilderState| #[trigger]
            checked_upto(pre, ps, ps.len(), mid) && post == cleared(
                BuilderState { checks: mid.checks.push((positive, mid.net)), ..drained(mid) },
            ),
        Stmt::Decl(a, vars, t) => exists|mid: BuilderState, with_rule: BuilderState|
            #![trigger
                read(pre, decl_trees(a, vars, t), mid),
                annotated(drained(mid), decl_of(mid, a, vars, t), with_rule)]
            read(pre, decl_trees(a, vars, t), mid) && annotated(
                drained(mid),
                decl_of(mid, a, vars, t),
                with_rule,
            ) && post == cleared(
                BuilderState {
                    declarations: with_rule.declarations.push(decl_of(mid, a, vars, t)),
                    ..with_rule
                },
            ),
    }
}

/// From `pre` to `post` the annotator rule of `decl` was added, after the
/// two bookkeeping kinds were made sure of: the annotator trigger first.
pub open spec fn annotated(pre: BuilderState, decl: DeclarationView, post: BuilderState) -> bool {
    exists|s1: BuilderState, s2: BuilderState|
        #![trigger kind_ensured(pre, annotator_pattern(), s1), kind_ensured(s1, ann_pattern(), s2)]
        kind_ensured(pre, annotator_pattern(), s1) && kind_ensured(s1, ann_pattern(), s2) && post
            == (BuilderState {
            definitions: s2.definitions.push(
                annotator_rule(
                    decl,
                    s2.agent_scope[annotator_name()],
                    s2.agent_scope[ann_name()],
                ),
            ),
            ..s2
        })
}

/// The surface trees that loading the annotator trigger flattens hold this
/// many nodes.
pub const ANNOTATOR_NODES: usize = 4;

/// The surface trees that loading the annotation wrapper flattens hold this
/// many nodes.
pub const ANN_NODES: usize = 6;

/// The nodes of the surface trees that making sure of the two bookkeeping
/// kinds flattens, under a scope: those of each kind that has no name yet.
pub open spec fn kinds_nodes(scope: AgentScope) -> nat {
    (if scope.contains_key(annotator_name()) {
        0nat
    } else {
        ANNOTATOR_NODES as nat
    }) + (if scope.contains_key(ann_name()) {
        0nat
    } else {
        ANN_NODES as nat
    })
}

impl ProgramBuilder {
    /// Makes sure of the kind of the pattern `p`, and returns its identifier:
    /// where the name has none yet, the definition `p ~ p` is loaded as a
    /// statement.
    pub fn ensure_kind(&mut self, p: &crate::syntax::UntypedMatch) -> (id: AgentId)
        requires
            old(self).wf(),
            !old(self)@.agent_scope.contains_key(p@.name) ==> old(self)@.room(
                2 * nodes(p@.tree()),
            ),
        ensures
            final(self).wf(),
            kind_ensured(old(self)@, p@, final(self)@),
            final(self)@.agent_scope.contains_key(p@.name),
            id == final(self)@.agent_scope[p@.name],
            old(self)@.agent_scope.submap_of(final(self)@.agent_scope),
            old(self)@.agent_scope.contains_key(p@.name) ==> final(self)@ == old(self)@,
            final(self)@.agents.len() <= old(self)@.agents.len() + 2 * nodes(p@.tree()),
            final(self)@.net.vars.len() <= old(self)@.net.vars.len(),
            forall|name: Seq<char>| #[trigger]
                final(self)@.agent_scope.contains_key(name) <==> old(self)@.agent_scope.contains_key(
                    name,
                ) || (!old(self)@.agent_scope.contains_key(p@.name) && names_agent(
                    name,
                    p@.tree(),
                )),
    {
        match self.agent_scope.get(&p.name) {
            Some(id) => id,
            None => {
                let ghost pre = self@;
                self.load_def(p, p);
                self.var_scope.clear();
                proof {
                    assert forall|name: Seq<char>| #[trigger]
                        self@.agent_scope.contains_key(name) <==> pre.agent_scope.contains_key(name)
                            || names_agent(name, p@.tree()) by {
                        lemma_kind_names(pre, p@, self@, name);
                    }
                    let ts = def_trees(p@, p@);
                    assert(nodes_upto(ts, 2) == nodes(p@.tree()) + nodes(p@.tree())) by {
                        assert(nodes_upto(ts, 1) == nodes_upto(ts, 0) + nodes(ts[0]));
                    }
                }
                match self.agent_scope.get(&p.name) {
                    Some(id) => id,
                    None => 0,
                }
            },
        }
    }

    /// The identifier of the annotator trigger, which is made on first need.
    pub fn get_annotator_id(&mut self) -> (id: AgentId)
        requires
            old(self).wf(),
            !old(self)@.agent_scope.contains_key(annotator_name()) ==> old(self)@.room(
                ANNOTATOR_NODES as nat,
            ),
        ensures
            final(self).wf(),
            kind_ensured(old(self)@, annotator_pattern(), final(self)@),
            final(self)@.agent_scope.contains_key(annotator_name()),
            id == final(self)@.agent_scope[annotator_name()],
            old(self)@.agent_scope.submap_of(final(self)@.agent_scope),
            old(self)@.agent_scope.contains_key(annotator_name()) ==> final(self)@ == old(self)@,
            final(self)@.agents.len() <= old(self)@.agents.len() + ANNOTATOR_NODES,
            final(self)@.net.vars.len() <= old(self)@.net.vars.len(),
            forall|name: Seq<char>|
                name != annotator_name() ==> (#[trigger] final(self)@.agent_scope.contains_key(name)
                    <==> old(self)@.agent_scope.contains_key(name)),
    {
        let mut aux: Vec<crate::syntax::Tree> = Vec::new();
        aux.push(crate::syntax::Tree::Variable { name: String::from_str("a") });
        let p = crate::syntax::UntypedMatch { name: String::from_str("__ANNOTATOR"), aux };
        proof {
            assert(p@.aux =~= annotator_pattern().aux);
            lemma_annotator_nodes();
            lemma_names_of_kinds();
        }
        self.ensure_kind(&p)
    }

    /// The identifier of the annotation wrapper, which is made on first need.
    pub fn get_ann_id(&mut self) -> (id: AgentId)
        requires
            old(self).wf(),
            !old(self)@.agent_scope.contains_key(ann_name()) ==> old(self)@.room(ANN_NODES as nat),
        ensures
            final(self).wf(),
            kind_ensured(old(self)@, ann_pattern(), final(self)@),
            final(self)@.agent_scope.contains_key(ann_name()),
            id == final(self)@.agent_scope[ann_name()],
            old(self)@.agent_scope.submap_of(final(self)@.agent_scope),
            old(self)@.agent_scope.contains_key(ann_name()) ==> final(self)@ == old(self)@,
            final(self)@.agents.len() <= old(self)@.agents.len() + ANN_NODES,
            final(self)@.net.vars.len() <= old(self)@.net.vars.len(),
            forall|name: Seq<char>|
                name != ann_name() ==> (#[trigger] final(self)@.agent_scope.contains_key(name)
                    <==> old(self)@.agent_scope.contains_key(name)),
    {
        let mut aux: Vec<crate::syntax::Tree> = Vec::new();
        aux.push(crate::syntax::Tree::Variable { name: String::from_str("a") });
        aux.push(crate::syntax::Tree::Variable { name: String::from_str("b") });
        let p = crate::syntax::UntypedMatch { name: String::from_str("__ANN"), aux };
        proof {
            assert(p@.aux =~= ann_pattern().aux);
            lemma_ann_nodes();
            lemma_names_of_kinds();
        }
        self.ensure_kind(&p)
    }

    /// Adds the annotator rule of a declaration, after making sure of the
    /// two bookkeeping kinds.
    pub fn add_decl_annotator_rule(&mut self, decl: &Declaration)
        requires
            old(self).wf(),
            old(self)@.room(kinds_nodes(old(self)@.agent_scope)),
        ensures
            final(self).wf(),
            annotated(old(self)@, decl@, final(self)@),
            old(self)@.agent_scope.submap_of(final(self)@.agent_scope),
    {
        proof {
            lemma_kind_names_differ();
        }
        let annotator = self.get_annotator_id();
        let ghost s1 = self@;
        let ann = self.get_ann_id();
        let ghost s2 = self@;
        proof {
            assert(s2.agent_scope.dom().contains(annotator_name()) ==> s2.agent_scope[annotator_name()]
                == annotator);
        }
        let ports = &decl.agent.aux;
        let ghost want = annotator_rule(decl@, annotator, ann);
        let mut afters: Vec<Tree> = Vec::new();
        let mut right_aux: Vec<Tree> = Vec::new();
        let mut i: usize = 0;
        while i < ports.len()
            invariant
                i <= ports.len(),
                ports == &decl.agent.aux,
                afters.len() == i,
                right_aux.len() == i,
                want == annotator_rule(decl@, annotator, ann),
                forall|j: int| 0 <= j < i ==> (#[trigger] afters[j])@ == decl@.agent.aux[j].1,
                forall|j: int| 0 <= j < i ==> (#[trigger] right_aux[j])@ == want.right.aux[j],
            decreases ports.len() - i,
        {
            let after = ports[i].1.clone();
            let mut pair: Vec<Tree> = Vec::new();
            pair.push(ports[i].0.clone());
            pair.push(ports[i].2.clone());
            proof {
                lemma_view_agent(ann, pair);
                assert(terms(pair@) =~= seq![decl@.agent.aux[i as int].0, decl@.agent.aux[i as int].2]);
            }
            afters.push(after);
            right_aux.push(Tree::Agent { id: ann, aux: pair });
            i += 1;
        }
        let parent_aux = clone_trees(&decl.parent.aux);
        let mut ann_aux: Vec<Tree> = Vec::new();
        proof {
            lemma_view_agent(decl.agent.id, afters);
            lemma_view_agent(decl.parent.id, parent_aux);
            assert(terms(afters@) =~= Seq::new(
                decl@.agent.aux.len(),
                |i: int| decl@.agent.aux[i].1,
            ));
        }
        ann_aux.push(Tree::Agent { id: decl.agent.id, aux: afters });
        ann_aux.push(Tree::Agent { id: decl.parent.id, aux: parent_aux });
        let mut left_aux: Vec<Tree> = Vec::new();
        proof {
            lemma_view_agent(ann, ann_aux);
            assert(terms(ann_aux@) =~= want.left.aux[0]->aux);
        }
        left_aux.push(Tree::Agent { id: ann, aux: ann_aux });
        let def = Definition {
            left: UntypedMatch { id: annotator, aux: left_aux },
            right: UntypedMatch { id: decl.agent.id, aux: right_aux },
            net: decl.net.clone(),
        };
        proof {
            assert(def@.left.aux =~= want.left.aux);
            assert(def@.right.aux =~= want.right.aux);
        }
        self.definitions.push(def);
        proof {
            lemma_submap_trans(old(self)@.agent_scope, s1.agent_scope, s2.agent_scope);
            assert(self@.definitions =~= s2.definitions.push(want));
        }
    }
}

/// The names that a builder holds after a kind was made sure of: those it
/// held and those of the kind's pattern.
pub proof fn lemma_kind_names(pre: BuilderState, p: Pattern, post: BuilderState, name: Seq<char>)
    requires
        kind_ensured(pre, p, post),
    ensures
        post.agent_scope.contains_key(name) <==> pre.agent_scope.contains_key(name) || (
        !pre.agent_scope.contains_key(p.name) && names_agent(name, p.tree())),
{
    if !pre.agent_scope.contains_key(p.name) {
        let took = choose|took: BuilderState| #[trigger]
            defined(pre, p, p, took) && post == cleared(took);
        let ts = def_trees(p, p);
        let mid = choose|mid: BuilderState| #[trigger]
            read(pre, ts, mid) && took == (BuilderState {
                definitions: mid.definitions.push(def_of(mid, p, p)),
                ..drained(mid)
            });
        if names_agent_upto(name, ts, ts.len()) {
            let j = choose|j: int|
                0 <= j < ts.len() && j < ts.len() && names_agent(name, #[trigger] ts[j]);
            assert(ts[j] == p.tree());
        }
        if names_agent(name, p.tree()) {
            assert(names_agent(name, ts[0]));
            assert(names_agent_upto(name, ts, ts.len()));
        }
    }
}

/// The pattern of a bookkeeping kind names no agent but the kind.
pub proof fn lemma_names_of_kinds()
    ensures
        forall|name: Seq<char>| #[trigger]
            names_agent(name, annotator_pattern().tree()) <==> name == annotator_name(),
        forall|name: Seq<char>| #[trigger]
            names_agent(name, ann_pattern().tree()) <==> name == ann_name(),
{
    assert forall|name: Seq<char>| #[trigger]
        names_agent(name, annotator_pattern().tree()) <==> name == annotator_name() by {
        let aux = annotator_pattern().aux;
        if exists|i: int| 0 <= i < aux.len() && names_agent(name, #[trigger] aux[i]) {
            let i = choose|i: int| 0 <= i < aux.len() && names_agent(name, #[trigger] aux[i]);
            assert(aux[i] is Variable);
        }
    }
    assert forall|name: Seq<char>| #[trigger]
        names_agent(name, ann_pattern().tree()) <==> name == ann_name() by {
        let aux = ann_pattern().aux;
        if exists|i: int| 0 <= i < aux.len() && names_agent(name, #[trigger] aux[i]) {
            let i = choose|i: int| 0 <= i < aux.len() && names_agent(name, #[trigger] aux[i]);
            assert(aux[i] is Variable);
        }
    }
}

/// The two bookkeeping kinds have different names.
pub proof fn lemma_kind_names_differ()
    ensures
        annotator_name() != ann_name(),
{
    reveal_strlit("__ANNOTATOR");
    reveal_strlit("__ANN");
    assert(annotator_name().len() != ann_name().len());
}

impl ProgramBuilder {
    /// The nodes of the surface trees that making sure of the two
    /// bookkeeping kinds flattens: those of each kind that has no name yet.
    pub fn kinds_needed(&self) -> (n: usize)
        requires
            self.wf(),
        ensures
            n == kinds_nodes(self@.agent_scope),
    {
        let annotator = match self.agent_scope.get(&String::from_str("__ANNOTATOR")) {
            Some(id) => 0,
            None => ANNOTATOR_NODES,
        };
        let ann = match self.agent_scope.get(&String::from_str("__ANN")) {
            Some(id) => 0,
            None => ANN_NODES,
        };
        annotator + ann
    }
}

/// The pattern of the annotator trigger, written twice, holds four nodes.
pub proof fn lemma_annotator_nodes()
    ensures
        2 * nodes(annotator_pattern().tree()) == 4,
{
    let aux = annotator_pattern().aux;
    assert(nodes_upto(aux, 1) == nodes_upto(aux, 0) + nodes(aux[0]));
}

/// The pattern of the annotation wrapper, written twice, holds six nodes.
pub proof fn lemma_ann_nodes()
    ensures
        2 * nodes(ann_pattern().tree()) == 6,
{
    let aux = ann_pattern().aux;
    assert(nodes_upto(aux, 1) == nodes_upto(aux, 0) + nodes(aux[0]));
    assert(nodes_upto(aux, 2) == nodes_upto(aux, 1) + nodes(aux[1]));
}

/// Whether the declaration `a : vars : t` names the agent `name`.
pub open spec fn decl_names(
    name: Seq<char>,
    a: TypedPattern,
    vars: Seq<Surface>,
    t: Pattern,
) -> bool {
    names_agent(name, a.tree()) || names_agent_among(name, vars) || names_agent(name, t.tree())
}

/// The nodes of the surface trees that the declaration `a : vars : t` has
/// flattened for the two bookkeeping kinds, under a scope: those of each
/// kind that neither the scope nor the declaration names.
pub open spec fn kinds_beside(
    scope: AgentScope,
    a: TypedPattern,
    vars: Seq<Surface>,
    t: Pattern,
) -> nat {
    (if scope.contains_key(annotator_name()) || decl_names(annotator_name(), a, vars, t) {
        0nat
    } else {
        ANNOTATOR_NODES as nat
    }) + (if scope.contains_key(ann_name()) || decl_names(ann_name(), a, vars, t) {
        0nat
    } else {
        ANN_NODES as nat
    })
}

impl Stmt {
    /// The number of agents and variables written in the statement.
    pub open spec fn nodes(self) -> nat {
        match self {
            Stmt::Def(a, b) => nodes(a.tree()) + nodes(b.tree()),
            Stmt::Check(positive, ps) => nodes_upto(spread2(ps), 2 * ps.len()),
            Stmt::Decl(a, vars, t) => nodes(a.tree()) + nodes_upto(vars, vars.len()) + nodes(
                t.tree(),
            ),
        }
    }

    /// The room that loading the statement asks of each store, under a scope
    /// of agent names: a declaration asks, beside its own nodes, for those
    /// of the bookkeeping kinds that are yet to be made.
    pub open spec fn room_needed(self, scope: AgentScope) -> nat {
        match self {
            Stmt::Decl(a, vars, t) => self.nodes() + kinds_beside(scope, a, vars, t),
            _ => self.nodes(),
        }
    }
}

/// A declaration names the agents that its trees name.
pub proof fn lemma_decl_names(name: Seq<char>, a: TypedPattern, vars: Seq<Surface>, t: Pattern)
    ensures
        decl_names(name, a, vars, t) <==> names_agent_upto(
            name,
            decl_trees(a, vars, t),
            decl_trees(a, vars, t).len(),
        ),
{
    let ts = decl_trees(a, vars, t);
    let n = vars.len() as int;
    assert(ts[0] == a.tree());
    assert(ts[n + 1] == t.tree());
    if names_agent_among(name, vars) {
        let i = choose|i: int| 0 <= i < vars.len() && names_agent(name, #[trigger] vars[i]);
        assert(ts[i + 1] == vars[i]);
        assert(names_agent(name, ts[i + 1]));
    }
    if names_agent(name, a.tree()) {
        assert(names_agent(name, ts[0]));
    }
    if names_agent(name, t.tree()) {
        assert(names_agent(name, ts[n + 1]));
    }
    if names_agent_upto(name, ts, ts.len()) {
        let j = choose|j: int|
            0 <= j < ts.len() && j < ts.len() && names_agent(name, #[trigger] ts[j]);
        if 0 < j < n + 1 {
            assert(ts[j] == vars[j - 1]);
            assert(names_agent(name, vars[j - 1]));
        }
    }
}

impl ProgramBuilder {
    /// Flattens the pairs of a check and puts each on the builder's net.
    pub fn load_pairs(&mut self, ps: &Vec<(crate::syntax::Tree, crate::syntax::Tree)>)
        requires
            old(self).wf(),
            old(self)@.room(nodes_upto(spread2(surface_pairs(ps@)), 2 * ps@.len())),
        ensures
            final(self).wf(),
            checked_upto(old(self)@, surface_pairs(ps@), ps@.len(), final(self)@),
    {
        let ghost pairs = surface_pairs(ps@);
        let ghost ts = spread2(pairs);
        let mut i: usize = 0;
        proof {
            lemma_grew_refl(self@);
        }
        while i < ps.len()
            invariant
                i <= ps.len(),
                pairs == surface_pairs(ps@),
                ts == spread2(pairs),
                self.wf(),
                old(self)@.room(nodes_upto(ts, ts.len())),
                checked_upto(old(self)@, pairs, i as nat, self@),
            decreases ps.len() - i,
        {
            let ghost s0 = self@;
            let ghost k: int = 2 * (i as int);
            proof {
                lemma_nodes_upto_mono(ts, (k + 1) as nat, ts.len());
                lemma_nodes_upto_mono(ts, (k + 2) as nat, ts.len());
            }
            let a = self.load_tree(&ps[i].0);
            let ghost s1 = self@;
            let b = self.load_tree(&ps[i].1);
            let ghost s2 = self@;
            self.net.link(a, b);
            proof {
                lemma_checked_step(old(self)@, pairs, i as nat, s0, s1, a@, s2, b@, self@);
            }
            i += 1;
        }
    }

    /// Loads one statement.
    pub fn load_statement(&mut self, statement: &Statement)
        requires
            old(self).wf(),
            old(self)@.room(statement@.room_needed(old(self)@.agent_scope)),
        ensures
            final(self).wf(),
            loaded(old(self)@, statement@, final(self)@),
    {
        match statement {
            Statement::Decl(a, vars, t) => {
                let ghost ts = decl_trees(a@, surfaces(vars@), t@);
                let agent = self.load_typed_match(a);
                let ghost s1 = self@;
                let intermediate = self.load_trees(vars);
                let ghost s2 = self@;
                let parent = self.load_untyped_match(t);
                let ghost mid = self@;
                let net = self.drain();
                proof {
                    lemma_flattened_one(old(self)@, a@.tree(), s1, agent@.term());
                    lemma_flattened_concat(
                        old(self)@,
                        seq![a@.tree()],
                        s1,
                        seq![agent@.term()],
                        surfaces(vars@),
                        s2,
                        terms(intermediate@),
                    );
                    lemma_flattened_one(s2, t@.tree(), mid, parent@.term());
                    lemma_flattened_concat(
                        old(self)@,
                        seq![a@.tree()] + surfaces(vars@),
                        s2,
                        seq![agent@.term()] + terms(intermediate@),
                        seq![t@.tree()],
                        mid,
                        seq![parent@.term()],
                    );
                    let out = seq![agent@.term()] + terms(intermediate@) + seq![parent@.term()];
                    assert(read(old(self)@, ts, mid));
                    let n = vars@.len() as int;
                    assert(out[0] == agent@.term() && ts[0] == a@.tree());
                    lemma_typed_term(a@, mid.agent_scope, mid.var_scope, agent@);
                    lemma_pattern_term(t@, mid.agent_scope, mid.var_scope, parent@);
                    assert(terms(intermediate@) =~= flat_all(
                        surfaces(vars@),
                        mid.agent_scope,
                        mid.var_scope,
                    )) by {
                        assert forall|j: int| 0 <= j < n implies terms(intermediate@)[j] == flat(
                            surfaces(vars@)[j],
                            mid.agent_scope,
                            mid.var_scope,
                        ) by {
                            assert(out[j + 1] == terms(intermediate@)[j]);
                        }
                    }
                }
                proof {
                    lemma_decl_names(annotator_name(), a@, surfaces(vars@), t@);
                    lemma_decl_names(ann_name(), a@, surfaces(vars@), t@);
                    assert(kinds_nodes(mid.agent_scope) == kinds_beside(
                        old(self)@.agent_scope,
                        a@,
                        surfaces(vars@),
                        t@,
                    ));
                }
                let decl = Declaration { agent, intermediate, parent, net };
                assert(decl@ == decl_of(mid, a@, surfaces(vars@), t@));
                self.add_decl_annotator_rule(&decl);
                let ghost with_rule = self@;
                proof {
                    assert(mid.agent_scope.contains_key(a@.name) && mid.agent_scope[a@.name]
                        == decl.agent.id);
                    lemma_has_id_grown(mid.agent_scope, with_rule.agent_scope, decl.agent.id);
                }
                self.declarations.push(decl);
                let ghost pushed = self@;
                self.var_scope.clear();
                proof {
                    assert(pushed.declarations =~= with_rule.declarations.push(decl@));
                }
            },
            Statement::Def(a, b) => {
                self.load_def(a, b);
                self.var_scope.clear();
            },
            Statement::Check(positive, net) => {
                self.load_pairs(&net.interactions);
                let ghost mid = self@;
                let taken = self.drain();
                self.checks.push((*positive, taken));
                let ghost pushed = self@;
                self.var_scope.clear();
                proof {
                    assert(pushed.checks =~= mid.checks.push((*positive, mid.net)));
                }
            },
        }
    }
}

/// A typed pattern whose tree stands for the agent of `m` stands for `m`.
pub proof fn lemma_typed_term(p: TypedPattern, agents: AgentScope, vars: VarScope, m: TypedView)
    requires
        flat(p.tree(), agents, vars) == m.term(),
    ensures
        flat_typed(p, agents, vars) == m,
{
    let t = flat(p.tree(), agents, vars);
    let got = crate::program::spread3(m.aux);
    assert(t->aux == got);
    assert forall|i: int| 0 <= i < p.aux.len() implies m.aux[i] == flat_typed(
        p,
        agents,
        vars,
    ).aux[i] by {
        assert(got[3 * i] == m.aux[i].0);
        assert(got[3 * i + 1] == m.aux[i].1);
        assert(got[3 * i + 2] == m.aux[i].2);
    }
    assert(m.aux =~= flat_typed(p, agents, vars).aux);
}

/// A pattern whose tree stands for the agent of `m` stands for `m`.
pub proof fn lemma_pattern_term(p: Pattern, agents: AgentScope, vars: VarScope, m: MatchView)
    requires
        flat(p.tree(), agents, vars) == m.term(),
    ensures
        flat_pattern(p, agents, vars) == m,
{
    let t = flat(p.tree(), agents, vars);
    assert(t->aux =~= flat_all(p.aux, agents, vars));
}
} // verus!
