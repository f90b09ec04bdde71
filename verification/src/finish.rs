//! Loading a whole book of statements and finishing the program.

use crate::builder::has_id;
use crate::builder::BuilderState;
use crate::builder::ProgramBuilder;
use crate::load::ann_name;
use crate::load::ann_pattern;
use crate::load::annotator_name;
use crate::load::annotator_pattern;
use crate::load::spread2;
use crate::load::kind_ensured;
use crate::load::loaded;
use crate::load::kinds_nodes;
use crate::load::lemma_kind_names_differ;
use crate::load::kinds_beside;
use crate::load::ANNOTATOR_NODES;
use crate::syntax::any_names;
use crate::syntax::surfaces;
use crate::load::ANN_NODES;
use crate::names::NameTable;
use crate::program::checks;
use crate::program::declarations;
use crate::program::definitions;
use crate::program::Declaration;
use crate::program::DeclarationView;
use crate::program::Definition;
use crate::program::DefinitionView;
use crate::run::InteractionRule;
use crate::run::InteractionSystem;
use crate::run::Net;
use crate::run::NetState;
use crate::run::Rule;
use crate::store::AgentStore;
use crate::store::STORE_LIMIT;
use crate::syntax::capped;
use crate::syntax::count_nodes_upto;
use crate::syntax::surface_pairs;
use crate::syntax::Statement;
use crate::syntax::Stmt;
use crate::term::clone_trees;
use crate::term::AgentId;
use crate::flatten::nodes;
use crate::flatten::nodes_upto;
use std::collections::BTreeMap;
use std::rc::Rc;
use vstd::prelude::*;
use vstd::string::*;

verus! {
/// Why a program could not be built.
#[derive(Debug, Clone, Copy, PartialEq, Eq, Structural)]
pub enum BuildError {
    /// A store of identifiers has no room for what is to be loaded.
    StoreFull,
    /// Two definitions give a rule for the same left and right kinds.
    DuplicateRule { left: AgentId, right: AgentId },
    /// The definition at this place holds interactions that were written
    /// inside its patterns.
    LeftoverNet { definition: usize },
}

/// The views of a vector of statements, in order.
pub open spec fn stmts(book: Seq<Statement>) -> Seq<Stmt> {
    Seq::new(book.len(), |i: int| book[i]@)
}

/// From `pre` to `post` the first `n` statements of `book` were loaded, one
/// after the other.
pub open spec fn loaded_upto(pre: BuilderState, book: Seq<Stmt>, n: nat, post: BuilderState) -> bool
    decreases n,
{
    if n == 0 {
        pre == post
    } else {
        exists|mid: BuilderState|
            loaded_upto(pre, book, (n - 1) as nat, mid) && #[trigger] loaded(
                mid,
                book[n - 1],
                post,
            )
    }
}

/// The rule that a definition gives.
pub open spec fn rule_of(d: DefinitionView) -> Rule {
    Rule { left_ports: d.left.aux, right_ports: d.right.aux }
}

/// The rule table of the first `n` definitions.
pub open spec fn rules_upto(ds: Seq<DefinitionView>, n: nat) -> Map<(AgentId, AgentId), Rule>
    decreases n,
{
    if n == 0 || n > ds.len() {
        Map::empty()
    } else {
        rules_upto(ds, (n - 1) as nat).insert(
            (ds[n - 1].left.id, ds[n - 1].right.id),
            rule_of(ds[n - 1]),
        )
    }
}

/// What is wrong with the definition at place `i`, if anything: an earlier
/// definition has a rule for its kinds in the same order, or else its net
/// holds interactions.
pub open spec fn fault(ds: Seq<DefinitionView>, i: int) -> Option<BuildError> {
    if rules_upto(ds, i as nat).contains_key((ds[i].left.id, ds[i].right.id)) {
        Some(BuildError::DuplicateRule { left: ds[i].left.id, right: ds[i].right.id })
    } else if ds[i].net.interactions.len() > 0 {
        Some(BuildError::LeftoverNet { definition: i as usize })
    } else {
        None
    }
}

/// A finished program.
#[derive(Debug)]
pub struct Program {
    pub system: Rc<InteractionSystem>,
    pub agent_scope: NameTable,
    pub agents: AgentStore,
    pub declarations: Vec<Declaration>,
    pub definitions: Vec<Definition>,
    pub checks: Vec<(bool, Net)>,
    pub annotator_id: AgentId,
    pub ann_id: AgentId,
}

/// The mathematical value of a `Program`.
#[verifier::ext_equal]
pub struct ProgramView {
    pub rules: Map<(AgentId, AgentId), Rule>,
    pub agent_scope: Map<Seq<char>, AgentId>,
    pub agents: Map<AgentId, ()>,
    pub declarations: Seq<DeclarationView>,
    pub definitions: Seq<DefinitionView>,
    pub checks: Seq<(bool, NetState)>,
    pub annotator_id: AgentId,
    pub ann_id: AgentId,
}

impl View for Program {
    type V = ProgramView;

    open spec fn view(&self) -> ProgramView {
        ProgramView {
            rules: self.system@,
            agent_scope: self.agent_scope@,
            agents: self.agents@,
            declarations: declarations(self.declarations@),
            definitions: definitions(self.definitions@),
            checks: checks(self.checks@),
            annotator_id: self.annotator_id,
            ann_id: self.ann_id,
        }
    }
}

impl Program {
    /// The name table and the nets of the checks are well formed, and the
    /// constructor of every declaration has a name.
    pub open spec fn wf(&self) -> bool {
        &&& self.agent_scope.wf()
        &&& forall|i: int| 0 <= i < self.checks@.len() ==> (#[trigger] self.checks@[i]).1.wf()
        &&& forall|i: int|
            0 <= i < self.declarations@.len() ==> has_id(
                self.agent_scope@,
                (#[trigger] self.declarations@[i]).agent.id,
            )
    }
}

/// The program that a builder in state `s` gives, with the rule table
/// `rules`.
pub open spec fn program_of(s: BuilderState, rules: Map<(AgentId, AgentId), Rule>) -> ProgramView {
    ProgramView {
        rules,
        agent_scope: s.agent_scope,
        agents: s.agents,
        declarations: s.declarations,
        definitions: s.definitions,
        checks: s.checks,
        annotator_id: s.agent_scope[annotator_name()],
        ann_id: s.agent_scope[ann_name()],
    }
}

impl InteractionSystem {
    /// Stores `rule` for the left kind `left` and the right kind `right`.
    pub fn put(&mut self, left: AgentId, right: AgentId, rule: InteractionRule)
        ensures
            final(self)@ == old(self)@.insert((left, right), rule@),
    {
        let mut row = match self.rules.remove(&left) {
            Some(row) => row,
            None => BTreeMap::new(),
        };
        row.insert(right, rule);
        self.rules.insert(left, row);
        proof {
            assert forall|k: (AgentId, AgentId)| #[trigger]
                self@.contains_key(k) <==> old(self)@.insert((left, right), rule@).contains_key(
                    k,
                ) by {
                if k.0 == left {
                } else {
                    assert(self.rules@.contains_key(k.0) == old(self).rules@.contains_key(k.0));
                }
            }
            assert(self@ =~= old(self)@.insert((left, right), rule@));
        }
    }
}

impl ProgramBuilder {
    /// Whether each store has room for loading `statement`.
    pub fn has_room(&self, statement: &Statement) -> (r: bool)
        requires
            self.wf(),
        ensures
            r == self@.room(statement@.room_needed(self@.agent_scope)),
    {
        let n = match statement {
            Statement::Decl(a, vars, t) => {
                let x = a.count_nodes();
                let y = count_nodes_upto(vars, vars.len());
                let z = t.count_nodes();
                let annotator = String::from_str("__ANNOTATOR");
                let ann = String::from_str("__ANN");
                let first = if self.agent_scope.get(&annotator).is_some() || a.names(&annotator)
                    || any_names(vars, &annotator) || t.names(&annotator) {
                    0
                } else {
                    ANNOTATOR_NODES
                };
                let second = if self.agent_scope.get(&ann).is_some() || a.names(&ann) || any_names(
                    vars,
                    &ann,
                ) || t.names(&ann) {
                    0
                } else {
                    ANN_NODES
                };
                assert(first + second == kinds_beside(
                    self@.agent_scope,
                    a@,
                    surfaces(vars@),
                    t@,
                ));
                x.saturating_add(y).saturating_add(z).saturating_add(first + second)
            },
            Statement::Def(a, b) => {
                let x = a.count_nodes();
                let y = b.count_nodes();
                x.saturating_add(y)
            },
            Statement::Check(positive, net) => {
                let ps = &net.interactions;
                let ghost pairs = surface_pairs(ps@);
                let ghost ts = spread2(pairs);
                let mut n: usize = 0;
                let mut i: usize = 0;
                while i < ps.len()
                    invariant
                        i <= ps.len(),
                        pairs == surface_pairs(ps@),
                        ts == spread2(pairs),
                        n == capped(nodes_upto(ts, (2 * i) as nat)),
                    decreases ps.len() - i,
                {
                    let a = ps[i].0.count_nodes();
                    let b = ps[i].1.count_nodes();
                    proof {
                        let k: int = 2 * (i as int);
                        assert(ts[k] == ps@[i as int].0@);
                        assert(nodes_upto(ts, (k + 1) as nat) == nodes_upto(ts, k as nat) + nodes(
                            ts[k],
                        ));
                        assert(nodes_upto(ts, (k + 2) as nat) == nodes_upto(ts, (k + 1) as nat)
                            + nodes(ts[k + 1]));
                    }
                    n = n.saturating_add(a).saturating_add(b);
                    i += 1;
                }
                n
            },
        };
        self.fits(n)
    }

    /// Whether each store has room for `n` more entries.
    pub fn fits(&self, n: usize) -> (r: bool)
        ensures
            r == self@.room(n as nat),
            n == usize::MAX ==> !r,
    {
        let agents = self.agents.len();
        let vars = self.net.vars.len();
        agents <= STORE_LIMIT && n <= STORE_LIMIT - agents && vars <= STORE_LIMIT && n
            <= STORE_LIMIT - vars
    }

    /// Loads the statements one after the other, and stops before the first
    /// for which a store has no room.
    pub fn load_book(&mut self, book: Vec<Statement>) -> (r: Result<(), BuildError>)
        requires
            old(self).wf(),
        ensures
            final(self).wf(),
            match r {
                Ok(()) => loaded_upto(old(self)@, stmts(book@), book@.len(), final(self)@),
                Err(e) => e == BuildError::StoreFull && exists|i: int|
                    0 <= i < book@.len() && loaded_upto(
                        old(self)@,
                        stmts(book@),
                        i as nat,
                        final(self)@,
                    ) && !final(self)@.room(
                        (#[trigger] stmts(book@)[i]).room_needed(final(self)@.agent_scope),
                    ),
            },
    {
        let mut i: usize = 0;
        while i < book.len()
            invariant
                i <= book.len(),
                self.wf(),
                loaded_upto(old(self)@, stmts(book@), i as nat, self@),
            decreases book.len() - i,
        {
            if !self.has_room(&book[i]) {
                assert(!self@.room(stmts(book@)[i as int].room_needed(self@.agent_scope)));
                return Err(BuildError::StoreFull);
            }
            let ghost before = self@;
            self.load_statement(&book[i]);
            assert(loaded_upto(old(self)@, stmts(book@), i as nat, before) && loaded(
                before,
                stmts(book@)[(i + 1) - 1],
                self@,
            ));
            i += 1;
        }
        Ok(())
    }

    /// The rule table of the definitions: each gives the rule for its left
    /// and right kinds. It is an error for two to give a rule for the same
    /// kinds in the same order, and for one to hold interactions in its net.
    pub fn build_interaction_system(&self) -> (r: Result<Rc<InteractionSystem>, BuildError>)
        ensures
            match r {
                Ok(system) => system@ == rules_upto(self@.definitions, self@.definitions.len())
                    && forall|i: int|
                    0 <= i < self@.definitions.len() ==> #[trigger] fault(self@.definitions, i)
                        is None,
                Err(e) => exists|i: int|
                    0 <= i < self@.definitions.len() && #[trigger] fault(self@.definitions, i)
                        == Some(e) && forall|j: int|
                        0 <= j < i ==> #[trigger] fault(self@.definitions, j) is None,
            },
    {
        let mut isys = InteractionSystem::default();
        let ghost ds = self@.definitions;
        let mut i: usize = 0;
        while i < self.definitions.len()
            invariant
                i <= self.definitions.len(),
                ds == self@.definitions,
                isys@ == rules_upto(ds, i as nat),
                forall|j: int| 0 <= j < i ==> #[trigger] fault(ds, j) is None,
            decreases self.definitions.len() - i,
        {
            let d = &self.definitions[i];
            if isys.find(d.left.id, d.right.id).is_some() {
                assert(fault(ds, i as int) == Some(
                    BuildError::DuplicateRule { left: d.left.id, right: d.right.id },
                ));
                return Err(BuildError::DuplicateRule { left: d.left.id, right: d.right.id });
            }
            if d.net.interactions.len() > 0 {
                return Err(BuildError::LeftoverNet { definition: i });
            }
            let rule = InteractionRule {
                left_ports: clone_trees(&d.left.aux),
                right_ports: clone_trees(&d.right.aux),
            };
            isys.put(d.left.id, d.right.id, rule);
            i += 1;
        }
        Ok(Rc::new(isys))
    }

    /// Finishes the program: the two bookkeeping kinds are made sure of, and
    /// then the rule table is built from all the definitions, theirs too.
    /// Where a store has no room for a kind that is to be made, nothing is
    /// made.
    pub fn finish(self) -> (r: Result<Program, BuildError>)
        requires
            self.wf(),
        ensures
            match r {
                Err(BuildError::StoreFull) => !self@.room(kinds_nodes(self@.agent_scope)),
                _ => self@.room(kinds_nodes(self@.agent_scope)) && exists|
                    s1: BuilderState,
                    s2: BuilderState,
                |
                    #![trigger
                        kind_ensured(self@, annotator_pattern(), s1),
                        kind_ensured(s1, ann_pattern(), s2)]
                    kind_ensured(self@, annotator_pattern(), s1) && kind_ensured(
                        s1,
                        ann_pattern(),
                        s2,
                    ) && finished(s2, r),
            },
    {
        let mut builder = self;
        if !builder.fits(builder.kinds_needed()) {
            return Err(BuildError::StoreFull);
        }
        proof {
            lemma_kind_names_differ();
        }
        let annotator_id = builder.get_annotator_id();
        let ghost s1 = builder@;
        let ann_id = builder.get_ann_id();
        let ghost s2 = builder@;
        proof {
            assert(s1.agent_scope.dom().contains(annotator_name()));
            assert(s2.agent_scope.dom().contains(annotator_name()) ==> s2.agent_scope[annotator_name()]
                == annotator_id);
        }
        let system = match builder.build_interaction_system() {
            Ok(system) => system,
            Err(e) => {
                assert(finished(s2, Err(e)));
                return Err(e);
            },
        };
        let program = Program {
            system,
            agent_scope: builder.agent_scope,
            agents: builder.agents,
            declarations: builder.declarations,
            definitions: builder.definitions,
            checks: builder.checks,
            annotator_id,
            ann_id,
        };
        assert(program@ =~= program_of(s2, rules_upto(s2.definitions, s2.definitions.len())));
        assert forall|i: int| 0 <= i < program@.definitions.len() implies has_rule(
            program@.rules,
            #[trigger] program@.definitions[i],
        ) by {
            law_every_definition_has_its_rule(s2.definitions, i);
        }
        assert(finished(s2, Ok(program)));
        Ok(program)
    }
}

/// Whether the table holds the rule of the definition `d` for its kinds.
pub open spec fn has_rule(rules: Map<(AgentId, AgentId), Rule>, d: DefinitionView) -> bool {
    rules.contains_key((d.left.id, d.right.id)) && rules[(d.left.id, d.right.id)] == rule_of(d)
}

/// Whether `r` is what finishing gives for a builder that has both
/// bookkeeping kinds: the program whose rule table holds the rule of every
/// definition, or the first fault among the definitions.
pub open spec fn finished(s: BuilderState, r: Result<Program, BuildError>) -> bool {
    match r {
        Ok(program) => program.wf() && program@ == program_of(
            s,
            rules_upto(s.definitions, s.definitions.len()),
        ) && (forall|i: int|
            0 <= i < s.definitions.len() ==> #[trigger] fault(s.definitions, i) is None) && forall|
            i: int,
        | 0 <= i < program@.definitions.len() ==> has_rule(program@.rules, #[trigger] program@.definitions[i]),
        Err(e) => exists|i: int|
            0 <= i < s.definitions.len() && #[trigger] fault(s.definitions, i) == Some(e) && forall|
                j: int,
            | 0 <= j < i ==> #[trigger] fault(s.definitions, j) is None,
    }
}

/// The rule table of definitions without fault holds, for each of them, the
/// rule of the last definition for its kinds: its own, as no two are for the
/// same kinds in the same order.
pub proof fn law_every_definition_has_its_rule(ds: Seq<DefinitionView>, i: int)
    requires
        0 <= i < ds.len(),
        forall|j: int| 0 <= j < ds.len() ==> #[trigger] fault(ds, j) is None,
    ensures
        rules_upto(ds, ds.len()).contains_key((ds[i].left.id, ds[i].right.id)),
        rules_upto(ds, ds.len())[(ds[i].left.id, ds[i].right.id)] == rule_of(ds[i]),
{
    lemma_rule_stays(ds, i, ds.len());
}

/// The rule that the definition at place `i` gives stays in the table of the
/// first `n` definitions, for `n > i`, where none of them has a fault.
pub proof fn lemma_rule_stays(ds: Seq<DefinitionView>, i: int, n: nat)
    requires
        0 <= i < n <= ds.len(),
        forall|j: int| 0 <= j < ds.len() ==> #[trigger] fault(ds, j) is None,
    ensures
        rules_upto(ds, n).contains_key((ds[i].left.id, ds[i].right.id)),
        rules_upto(ds, n)[(ds[i].left.id, ds[i].right.id)] == rule_of(ds[i]),
    decreases n,
{
    if i < n - 1 {
        lemma_rule_stays(ds, i, (n - 1) as nat);
        assert(fault(ds, n - 1) is None);
    }
}

} // verus!
