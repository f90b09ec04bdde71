//! The type checker: each asserted interaction is run with both sides
//! against the annotator trigger, on the engine that runs everything else.

use crate::finish::Program;
use crate::finish::ProgramView;
use crate::fresh::grown_by;
use crate::linear::law_check_step_keeps_linear;
use crate::linear::law_prepare_keeps_linear;
use crate::linear::linear;
use crate::linear::rules_linear;
use crate::program::checks;
use crate::run::can_interact;
use crate::run::interacted;
use crate::run::share;
use crate::run::stepped;
use crate::run::Net;
use crate::run::NetState;
use crate::store::STORE_LIMIT;
use crate::term::lemma_view_agent;
use crate::term::pairs;
use crate::term::reversed;
use crate::term::terms;
use crate::term::AgentId;
use crate::term::Term;
use crate::term::Tree;
use crate::term::VarId;
use vstd::prelude::*;
use vstd::string::*;

verus! {
/// Why a check did not pass.
#[derive(Debug, Clone, Copy, PartialEq, Eq, Structural)]
pub enum TypeError {
    /// Two agents met that have no rule, and neither is an annotation.
    Undefined { left: AgentId, right: AgentId },
    /// The steps allowed were used up.
    OutOfSteps,
    /// An interaction cannot run: it meets a wire that the store does not
    /// hold, or the store has no room for the wires that are asked for.
    Blocked,
    /// A stuck pair holds a variable, or an annotation with fewer than two
    /// ports.
    Malformed,
}

/// The annotator trigger holding the wire `v`.
pub open spec fn trigger_on(annotator: AgentId, v: VarId) -> Term {
    Term::Agent { id: annotator, aux: seq![Term::Var { id: v }] }
}

/// For each pair, its left tree against the annotator trigger and then its
/// right tree against the annotator trigger, the two triggers holding the two
/// ends of the pair's wire.
pub open spec fn annotated_pairs(ps: Seq<(Term, Term)>, vs: Seq<VarId>, annotator: AgentId) -> Seq<
    (Term, Term),
> {
    Seq::new(
        2 * ps.len(),
        |i: int|
            if i % 2 == 0 {
                (ps[i / 2].0, trigger_on(annotator, vs[i / 2]))
            } else {
                (ps[i / 2].1, trigger_on(annotator, vs[i / 2]))
            },
    )
}

/// `start` is `net` made ready for checking, with `vs` as the wires of its
/// pairs: each pair has a new wire of its own, the pairs are annotated, and
/// the rule table is the program's.
pub open spec fn prepared(prog: ProgramView, net: NetState, vs: Seq<VarId>, start: NetState) -> bool {
    &&& vs.len() == net.interactions.len()
    &&& vs.no_duplicates()
    &&& grown_by(net.vars, start.vars, vs.to_set(), None)
    &&& start.vars.dom().finite()
    &&& start.vars.len() == net.vars.len() + vs.len()
    &&& start.interactions == annotated_pairs(net.interactions, vs, prog.annotator_id)
    &&& start.stuck == net.stuck
    &&& start.rules == prog.rules
}

/// The stuck pair on top with the annotation first, if one side is one: the
/// right side is looked at first.
pub open spec fn oriented(ann: AgentId, x: Term, y: Term) -> (Term, Term) {
    if y.agent_id() == Some(ann) {
        (y, x)
    } else {
        (x, y)
    }
}

impl NetState {
    /// The net without the stuck pair on top.
    pub open spec fn unstuck(self) -> NetState {
        NetState { stuck: self.stuck.drop_last(), ..self }
    }
}

/// Where no interaction waits and the stuck pair on top holds an annotation:
/// the tree that the annotation wraps, and the other side of the pair.
pub open spec fn unwrapping(ann: AgentId, s: NetState) -> Option<(Term, Term)> {
    if s.interactions.len() == 0 && s.stuck.len() > 0 && s.stuck.last().0 is Agent
        && s.stuck.last().1 is Agent {
        let (a, b) = oriented(ann, s.stuck.last().0, s.stuck.last().1);
        if a.agent_id() == Some(ann) && a->aux.len() >= 2 {
            Some((a->aux[a->aux.len() - 2], b))
        } else {
            None
        }
    } else {
        None
    }
}

/// `post` is `pre` after one step of a check: the interaction on top runs;
/// where none waits, the annotation of the stuck pair on top is taken off
/// and what it wrapped interacts with the other side. Only an interaction
/// that can run makes a step.
pub open spec fn check_stepped(ann: AgentId, pre: NetState, post: NetState) -> bool {
    if pre.interactions.len() > 0 {
        stepped(pre, post)
    } else {
        unwrapping(ann, pre) matches Some(p) && can_interact(pre.unstuck(), p.0, p.1)
            && interacted(pre.unstuck(), p.0, p.1, post)
    }
}

/// `post` is `pre` after `n` steps of a check.
pub open spec fn check_reaches(ann: AgentId, pre: NetState, post: NetState, n: nat) -> bool
    decreases n,
{
    if n == 0 {
        pre == post
    } else {
        exists|mid: NetState|
            check_reaches(ann, pre, mid, (n - 1) as nat) && #[trigger] check_stepped(ann, mid, post)
    }
}

/// How a check ends in the state `s`, if it ends there: it passes where
/// nothing waits and nothing is stuck; it fails where the stuck pair on top
/// holds no annotation, or is malformed, or where the next interaction
/// cannot run.
pub open spec fn verdict(ann: AgentId, s: NetState) -> Option<Result<(), TypeError>> {
    if s.interactions.len() > 0 {
        if s.can_step() {
            None
        } else {
            Some(Err(TypeError::Blocked))
        }
    } else if s.stuck.len() == 0 {
        Some(Ok(()))
    } else if !(s.stuck.last().0 is Agent && s.stuck.last().1 is Agent) {
        Some(Err(TypeError::Malformed))
    } else {
        let (a, b) = oriented(ann, s.stuck.last().0, s.stuck.last().1);
        if a.agent_id() != Some(ann) {
            Some(
                Err(
                    TypeError::Undefined {
                        left: a.agent_id().unwrap(),
                        right: b.agent_id().unwrap(),
                    },
                ),
            )
        } else if a->aux.len() < 2 {
            Some(Err(TypeError::Malformed))
        } else if !can_interact(s.unstuck(), a->aux[a->aux.len() - 2], b) {
            Some(Err(TypeError::Blocked))
        } else {
            None
        }
    }
}

/// Whether `r` is how a check that ran `n` of `steps` steps ends in `end`.
pub open spec fn ended(
    ann: AgentId,
    end: NetState,
    n: nat,
    steps: nat,
    r: Result<(), TypeError>,
) -> bool {
    match r {
        Err(TypeError::OutOfSteps) => n == steps && verdict(ann, end) is None,
        _ => verdict(ann, end) == Some(r),
    }
}

/// Whether `r` is an outcome of checking `net` within `steps` steps: the
/// check is blocked at once where the store has no room for a wire for each
/// pair; otherwise the net is made ready and runs to its end. The store
/// chooses the identifiers of the new wires; a linear net has one outcome
/// whatever it chooses.
pub open spec fn typechecked(
    prog: ProgramView,
    net: NetState,
    steps: nat,
    r: Result<(), TypeError>,
) -> bool {
    if net.vars.len() + net.interactions.len() > STORE_LIMIT {
        r == Err::<(), TypeError>(TypeError::Blocked)
    } else {
        exists|vs: Seq<VarId>, start: NetState, end: NetState, n: nat|
            #![trigger prepared(prog, net, vs, start), check_reaches(prog.ann_id, start, end, n)]
            prepared(prog, net, vs, start) && n <= steps && check_reaches(
                prog.ann_id,
                start,
                end,
                n,
            ) && ended(prog.ann_id, end, n, steps, r)
    }
}

impl Program {
    /// Makes a net ready for checking: each pair gets a new wire, and its two
    /// trees wait, each against an annotator trigger that holds one end of
    /// the wire; the rule table is the program's. A linear net stays linear.
    pub fn prepare(&self, net: Net) -> (res: Net)
        requires
            net.wf(),
            net@.vars.len() + net@.interactions.len() <= STORE_LIMIT,
        ensures
            res.wf(),
            exists|vs: Seq<VarId>| prepared(self@, net@, vs, res@),
            linear(net@) ==> linear(res@),
            res.spent() == net.spent(),
            net.issued().subset_of(res.issued()),
    {
        let mut net = net;
        let ghost net0 = net@;
        let ghost spent0 = net.spent();
        let ghost issued0 = net.issued();
        let mut taken: Vec<(Tree, Tree)> = Vec::new();
        std::mem::swap(&mut net.interactions, &mut taken);
        let ghost ps = pairs(taken@);
        let ghost taken0 = taken@;
        let total = taken.len();
        let mut rest = reversed(taken);
        let ghost mut vs: Seq<VarId> = Seq::empty();
        let mut i: usize = 0;
        while i < total
            invariant
                i <= total,
                total == taken0.len(),
                ps == pairs(taken0),
                ps == net0.interactions,
                rest@.len() == total - i,
                forall|j: int| 0 <= j < rest@.len() ==> rest@[j] == taken0[total - 1 - j],
                net.wf(),
                net.spent() == spent0,
                issued0.subset_of(net.issued()),
                vs.len() == i,
                vs.no_duplicates(),
                grown_by(net0.vars, net@.vars, vs.to_set(), None),
                net@.vars.len() == net0.vars.len() + i,
                net0.vars.len() + total <= STORE_LIMIT,
                net@.interactions == annotated_pairs(ps.take(i as int), vs, self.annotator_id),
                net@.stuck == net0.stuck,
            decreases total - i,
        {
            let (a, b) = rest.pop().unwrap();
            let v = net.new_var();
            let mut left: Vec<Tree> = Vec::new();
            left.push(Tree::Var { id: v });
            let mut right: Vec<Tree> = Vec::new();
            right.push(Tree::Var { id: v });
            proof {
                lemma_view_agent(self.annotator_id, left);
                assert(terms(left@) =~= seq![Term::Var { id: v }]);
            }
            net.link(a, Tree::Agent { id: self.annotator_id, aux: left });
            net.link(b, Tree::Agent { id: self.annotator_id, aux: right });
            proof {
                let vs2 = vs.push(v);
                assert forall|x: VarId| vs2.contains(x) <==> vs.contains(x) || x == v by {
                    if vs.contains(x) {
                        let j = choose|j: int| 0 <= j < vs.len() && vs[j] == x;
                        assert(vs2[j] == x);
                    }
                    if x == v {
                        assert(vs2[vs.len() as int] == v);
                    }
                }
                assert(vs2.to_set() =~= vs.to_set().insert(v));
                vs = vs2;
            }
            i += 1;
        }
        net.system = share(&self.system);
        proof {
            assert(ps.take(total as int) =~= ps);
            net.vars.lemma_finite();
            if linear(net0) {
                law_prepare_keeps_linear(self@, net0, vs, net@);
            }
        }
        net
    }
}

/// How a check that was to pass, or to be rejected, came out otherwise.
#[derive(Debug, Clone, Copy)]
pub struct CheckError {
    /// The place of the check among the program's checks.
    pub check: usize,
    /// How the check ended.
    pub outcome: Result<(), TypeError>,
}

/// Whether the outcome `r` is what a check expects: a check that is to pass
/// passes, and one that is to be rejected meets an undefined interaction.
pub open spec fn agrees(expected: bool, r: Result<(), TypeError>) -> bool {
    match r {
        Ok(()) => expected,
        Err(TypeError::Undefined { left, right }) => !expected,
        Err(_) => false,
    }
}

/// Whether the check at place `i` comes out, within `steps` steps, as it was
/// to.
pub open spec fn check_agrees(prog: ProgramView, steps: nat, i: int) -> bool {
    exists|o: Result<(), TypeError>| #[trigger]
        typechecked(prog, prog.checks[i].1, steps, o) && agrees(prog.checks[i].0, o)
}

/// The message that names the two kinds of an undefined interaction.
pub open spec fn undefined_message(left: Seq<char>, right: Seq<char>) -> Seq<char> {
    "When typechecking net\n:\tUndefined Interaction:\n\t\t"@ + left + " ~ "@ + right
}

impl Program {
    /// The message that names the two kinds of an undefined interaction.
    pub fn type_error_message(&self, left: AgentId, right: AgentId) -> (message: String)
        requires
            self.agent_scope.named(left) is Some,
            self.agent_scope.named(right) is Some,
        ensures
            message@ == undefined_message(
                self.agent_scope.named(left).unwrap(),
                self.agent_scope.named(right).unwrap(),
            ),
    {
        let a = self.lookup_agent(left).unwrap();
        let b = self.lookup_agent(right).unwrap();
        let mut message = String::from_str(
            "When typechecking net\n:\tUndefined Interaction:\n\t\t",
        );
        message.append(a.as_str());
        message.append(" ~ ");
        message.append(b.as_str());
        message
    }

    /// Runs a net that is ready for checking to its end, within `steps`
    /// steps: waiting interactions run first; where none waits, the
    /// annotation of the stuck pair on top is taken off, its type witness is
    /// dropped, and what it wrapped interacts with the other side. A linear
    /// net with linear rules ends linear.
    pub fn settle(&self, net: Net, steps: usize) -> (r: Result<(), TypeError>)
        requires
            net.wf(),
        ensures
            exists|end: NetState, n: nat|
                #![trigger check_reaches(self.ann_id, net@, end, n)]
                n <= steps && check_reaches(self.ann_id, net@, end, n) && ended(
                    self.ann_id,
                    end,
                    n,
                    steps as nat,
                    r,
                ) && (linear(net@) && rules_linear(net@.rules) ==> linear(end)),
    {
        let ann = self.ann_id;
        let ghost start = net@;
        let mut work = net;
        let mut done: usize = 0;
        loop
            invariant
                work.wf(),
                ann == self.ann_id,
                start == net@,
                done <= steps,
                check_reaches(ann, start, work@, done as nat),
                linear(start) && rules_linear(start.rules) ==> linear(work@) && rules_linear(
                    work@.rules,
                ),
            decreases steps - done,
        {
            let ghost before = work@;
            if work.interactions.len() > 0 {
                let (a, b) = work.interactions.pop().unwrap();
                assert(work@ =~= before.popped());
                if !work.ready(&a, &b) {
                    return Err(TypeError::Blocked);
                }
                if done == steps {
                    return Err(TypeError::OutOfSteps);
                }
                work.interact(a, b);
                assert(check_stepped(ann, before, work@));
            } else if work.stuck.len() == 0 {
                return Ok(());
            } else {
                let (x, y) = work.stuck.pop().unwrap();
                assert(work@ =~= before.unstuck());
                match (x, y) {
                    (Tree::Agent { id: ix, aux: ax }, Tree::Agent { id: iy, aux: ay }) => {
                        let (ia, aa, ib, ab) = if iy == ann {
                            (iy, ay, ix, ax)
                        } else {
                            (ix, ax, iy, ay)
                        };
                        if ia != ann {
                            return Err(TypeError::Undefined { left: ia, right: ib });
                        }
                        if aa.len() < 2 {
                            return Err(TypeError::Malformed);
                        }
                        let mut aa = aa;
                        let witness = aa.pop();
                        let payload = aa.pop().unwrap();
                        let other = Tree::Agent { id: ib, aux: ab };
                        if !work.ready(&payload, &other) {
                            return Err(TypeError::Blocked);
                        }
                        if done == steps {
                            return Err(TypeError::OutOfSteps);
                        }
                        work.interact(payload, other);
                        assert(check_stepped(ann, before, work@));
                    },
                    _ => {
                        return Err(TypeError::Malformed);
                    },
                }
            }
            proof {
                if linear(start) && rules_linear(start.rules) {
                    law_check_step_keeps_linear(ann, before, work@);
                }
            }
            done += 1;
        }
    }

    /// Checks a net within `steps` steps: the net is made ready and runs to
    /// its end.
    pub fn typecheck_net(&self, net: Net, steps: usize) -> (r: Result<(), TypeError>)
        requires
            net.wf(),
        ensures
            typechecked(self@, net@, steps as nat, r),
    {
        let pairs = net.interactions.len();
        let wires = net.vars.len();
        if wires > STORE_LIMIT || pairs > STORE_LIMIT - wires {
            return Err(TypeError::Blocked);
        }
        let ghost net0 = net@;
        let ready = self.prepare(net);
        let r = self.settle(ready, steps);
        proof {
            let vs = choose|vs: Seq<VarId>| prepared(self@, net0, vs, ready@);
            let (end, n) = choose|end: NetState, n: nat|
                #![trigger check_reaches(self.ann_id, ready@, end, n)]
                n <= steps && check_reaches(self.ann_id, ready@, end, n) && ended(
                    self.ann_id,
                    end,
                    n,
                    steps as nat,
                    r,
                ) && (linear(ready@) && rules_linear(ready@.rules) ==> linear(end));
            assert(prepared(self@, net0, vs, ready@) && check_reaches(
                self@.ann_id,
                ready@,
                end,
                n,
            ));
        }
        r
    }

    /// Runs every check, each within `steps` steps, and stops at the first
    /// that does not come out as it was to. The checks are used up.
    pub fn check_well_typedness(&mut self, steps: usize) -> (r: Result<(), CheckError>)
        requires
            old(self).wf(),
        ensures
            final(self).wf(),
            final(self)@ == (ProgramView { checks: Seq::empty(), ..old(self)@ }),
            match r {
                Ok(()) => forall|i: int|
                    0 <= i < old(self)@.checks.len() ==> #[trigger] check_agrees(
                        old(self)@,
                        steps as nat,
                        i,
                    ),
                Err(e) => 0 <= e.check < old(self)@.checks.len() && typechecked(
                    old(self)@,
                    old(self)@.checks[e.check as int].1,
                    steps as nat,
                    e.outcome,
                ) && !agrees(old(self)@.checks[e.check as int].0, e.outcome) && forall|i: int|
                    0 <= i < e.check ==> #[trigger] check_agrees(old(self)@, steps as nat, i),
            },
    {
        let mut taken: Vec<(bool, Net)> = Vec::new();
        std::mem::swap(&mut self.checks, &mut taken);
        let ghost cs = checks(taken@);
        let ghost taken0 = taken@;
        let ghost prog = old(self)@;
        let total = taken.len();
        let mut rest = reversed(taken);
        let mut i: usize = 0;
        while i < total
            invariant
                i <= total,
                total == taken0.len(),
                cs == checks(taken0),
                cs == prog.checks,
                prog == old(self)@,
                forall|j: int| 0 <= j < taken0.len() ==> (#[trigger] taken0[j]).1.wf(),
                rest@.len() == total - i,
                forall|j: int| 0 <= j < rest@.len() ==> rest@[j] == taken0[total - 1 - j],
                self.wf(),
                self@ == (ProgramView { checks: Seq::empty(), ..prog }),
                forall|j: int| 0 <= j < i ==> #[trigger] check_agrees(prog, steps as nat, j),
            decreases total - i,
        {
            let (expected, net) = rest.pop().unwrap();
            let outcome = self.typecheck_net(net, steps);
            assert(typechecked(prog, cs[i as int].1, steps as nat, outcome)) by {
                lemma_typechecked_same(self@, prog, cs[i as int].1, steps as nat, outcome);
            }
            let fine = match outcome {
                Ok(()) => expected,
                Err(TypeError::Undefined { left, right }) => !expected,
                Err(_) => false,
            };
            if !fine {
                return Err(CheckError { check: i, outcome });
            }
            i += 1;
        }
        Ok(())
    }
}

/// Checking asks only for a program's rule table and its two bookkeeping
/// kinds.
pub proof fn lemma_typechecked_same(
    p: ProgramView,
    q: ProgramView,
    net: NetState,
    steps: nat,
    r: Result<(), TypeError>,
)
    requires
        p.rules == q.rules,
        p.annotator_id == q.annotator_id,
        p.ann_id == q.ann_id,
        typechecked(p, net, steps, r),
    ensures
        typechecked(q, net, steps, r),
{
    if net.vars.len() + net.interactions.len() <= STORE_LIMIT {
        let (vs, start, end, n) = choose|vs: Seq<VarId>, start: NetState, end: NetState, n: nat|
            #![trigger prepared(p, net, vs, start), check_reaches(p.ann_id, start, end, n)]
            prepared(p, net, vs, start) && n <= steps && check_reaches(p.ann_id, start, end, n)
                && ended(p.ann_id, end, n, steps, r);
        assert(prepared(q, net, vs, start) && check_reaches(q.ann_id, start, end, n));
    }
}
} // verus!
