//! The completeness check: every pair of constructors that the declared
//! types let meet has a definition.

use crate::finish::Program;
use crate::program::declarations;
use crate::program::definitions;
use crate::program::DeclarationView;
use crate::program::DefinitionView;
use crate::term::AgentId;
use vstd::prelude::*;
use vstd::string::*;

verus! {
/// The greatest number of index trees that one of the first `n` declarations
/// has.
pub open spec fn depth_upto(ds: Seq<DeclarationView>, n: nat) -> nat
    decreases n,
{
    if n == 0 || n > ds.len() {
        0
    } else {
        let rest = depth_upto(ds, (n - 1) as nat);
        if ds[n - 1].intermediate.len() > rest {
            ds[n - 1].intermediate.len()
        } else {
            rest
        }
    }
}

/// No declaration among the first `n` has more index trees than
/// `depth_upto` says.
pub proof fn lemma_depth_upto(ds: Seq<DeclarationView>, n: nat, i: int)
    requires
        0 <= i < n <= ds.len(),
    ensures
        ds[i].intermediate.len() <= depth_upto(ds, n),
    decreases n,
{
    if i < n - 1 {
        lemma_depth_upto(ds, (n - 1) as nat, i);
    }
}

/// The constructors of the kind `t` taken as a type at depth `d`, among the
/// first `n` declarations and in their order: a declaration with `d` index
/// trees whose parent type is `t` gives its constructor; one whose own
/// constructor is `t` gives, after that, the constructors of its parent type
/// at depth `d + 1`, among all declarations.
pub open spec fn instances_upto(ds: Seq<DeclarationView>, n: nat, t: AgentId, d: nat) -> Seq<AgentId>
    decreases depth_upto(ds, ds.len()) + 1 - d, n,
{
    if n == 0 || n > ds.len() {
        Seq::empty()
    } else {
        let rest = instances_upto(ds, (n - 1) as nat, t, d);
        let decl = ds[n - 1];
        if decl.intermediate.len() == d {
            let direct = if decl.parent.id == t {
                rest.push(decl.agent.id)
            } else {
                rest
            };
            if decl.agent.id == t {
                proof {
                    lemma_depth_upto(ds, ds.len(), n - 1);
                }
                direct + instances_upto(ds, ds.len(), decl.parent.id, d + 1)
            } else {
                direct
            }
        } else {
            rest
        }
    }
}

/// The constructors of the kind `t` taken as a type at depth `d`.
pub open spec fn instances(ds: Seq<DeclarationView>, t: AgentId, d: nat) -> Seq<AgentId> {
    instances_upto(ds, ds.len(), t, d)
}

/// Whether one of the first `n` definitions is for the kinds `a` and `b`, in
/// this order or the other.
pub open spec fn defined_upto(ds: Seq<DefinitionView>, n: nat, a: AgentId, b: AgentId) -> bool {
    exists|i: int|
        0 <= i < n && i < ds.len() && ((#[trigger] ds[i]).left.id == a && ds[i].right.id == b
            || ds[i].left.id == b && ds[i].right.id == a)
}

/// Whether a definition is for the kinds `a` and `b`, in this order or the
/// other.
pub open spec fn is_defined(ds: Seq<DefinitionView>, a: AgentId, b: AgentId) -> bool {
    defined_upto(ds, ds.len(), a, b)
}

impl Program {
    /// The name of the agent kind `id`: the first in the name table that has
    /// this identifier.
    pub fn lookup_agent(&self, id: AgentId) -> (r: Option<String>)
        ensures
            match r {
                Some(name) => self.agent_scope.named(id) == Some(name@),
                None => self.agent_scope.named(id) is None,
            },
    {
        self.agent_scope.name_of(id)
    }

    /// The constructors of the kind `t` taken as a type at depth `d`.
    pub fn get_nth_instances(&self, t: AgentId, d: usize) -> (r: Vec<AgentId>)
        ensures
            r@ == instances(self@.declarations, t, d as nat),
        decreases depth_upto(self@.declarations, self@.declarations.len()) + 1 - d,
    {
        let ghost ds = self@.declarations;
        let mut v: Vec<AgentId> = Vec::new();
        let mut k: usize = 0;
        while k < self.declarations.len()
            invariant
                k <= self.declarations.len(),
                ds == self@.declarations,
                v@ == instances_upto(ds, k as nat, t, d as nat),
            decreases self.declarations.len() - k,
        {
            let decl = &self.declarations[k];
            if decl.intermediate.len() == d {
                if decl.parent.id == t {
                    v.push(decl.agent.id);
                }
                if decl.agent.id == t {
                    proof {
                        lemma_depth_upto(ds, ds.len(), k as int);
                    }
                    if d < usize::MAX {
                        let mut more = self.get_nth_instances(decl.parent.id, d + 1);
                        v.append(&mut more);
                    } else {
                        proof {
                            assert forall|i: int| 0 <= i < ds.len() implies (
                            #[trigger] ds[i]).intermediate.len() <= usize::MAX by {
                                let x = self.declarations@[i];
                                assert(x.intermediate@.len() == x.intermediate.len());
                            }
                            lemma_depth_bounded(ds, ds.len(), usize::MAX as nat);
                            lemma_instances_beyond(ds, ds.len(), decl.parent.id, (d + 1) as nat);
                        }
                    }
                }
            }
            k += 1;
        }
        v
    }

    /// Whether a definition is for the kinds `a` and `b`, in this order or
    /// the other.
    pub fn has_definition(&self, a: AgentId, b: AgentId) -> (r: bool)
        ensures
            r == is_defined(self@.definitions, a, b),
    {
        let ghost ds = self@.definitions;
        let mut k: usize = 0;
        while k < self.definitions.len()
            invariant
                k <= self.definitions.len(),
                ds == self@.definitions,
                !defined_upto(ds, k as nat, a, b),
            decreases self.definitions.len() - k,
        {
            let x = &self.definitions[k];
            assert(x@ == ds[k as int]);
            if x.left.id == a && x.right.id == b || x.left.id == b && x.right.id == a {
                return true;
            }
            k += 1;
        }
        false
    }
}

/// The first of the first `m` kinds in `rs` for which no definition is for
/// it and `a`.
pub open spec fn first_undefined(
    ds: Seq<DefinitionView>,
    a: AgentId,
    rs: Seq<AgentId>,
    m: nat,
) -> Option<AgentId>
    decreases m,
{
    if m == 0 || m > rs.len() {
        None
    } else {
        match first_undefined(ds, a, rs, (m - 1) as nat) {
            Some(b) => Some(b),
            None => if is_defined(ds, a, rs[m - 1]) {
                None
            } else {
                Some(rs[m - 1])
            },
        }
    }
}

/// The first pair of a kind among the first `n` of `ls` and a kind of `rs`
/// that no definition is for; the pairs are taken with `ls` outermost.
pub open spec fn first_gap(
    ds: Seq<DefinitionView>,
    ls: Seq<AgentId>,
    rs: Seq<AgentId>,
    n: nat,
) -> Option<(AgentId, AgentId)>
    decreases n,
{
    if n == 0 || n > ls.len() {
        None
    } else {
        match first_gap(ds, ls, rs, (n - 1) as nat) {
            Some(p) => Some(p),
            None => match first_undefined(ds, ls[n - 1], rs, rs.len()) {
                Some(b) => Some((ls[n - 1], b)),
                None => None,
            },
        }
    }
}

/// The first pair of constructors that the first `k` definitions let meet
/// and no definition is for: for each definition, in order, the
/// constructors of its left kind against those of its right kind.
pub open spec fn missing_upto(
    decls: Seq<DeclarationView>,
    ds: Seq<DefinitionView>,
    k: nat,
) -> Option<(AgentId, AgentId)>
    decreases k,
{
    if k == 0 || k > ds.len() {
        None
    } else {
        match missing_upto(decls, ds, (k - 1) as nat) {
            Some(p) => Some(p),
            None => {
                let ls = instances(decls, ds[k - 1].left.id, 0);
                let rs = instances(decls, ds[k - 1].right.id, 0);
                first_gap(ds, ls, rs, ls.len())
            },
        }
    }
}

/// The first pair of constructors that the definitions let meet and no
/// definition is for.
pub open spec fn missing(decls: Seq<DeclarationView>, ds: Seq<DefinitionView>) -> Option<
    (AgentId, AgentId),
> {
    missing_upto(decls, ds, ds.len())
}

/// Every pair of constructors that a definition lets meet has a definition.
pub open spec fn complete(decls: Seq<DeclarationView>, ds: Seq<DefinitionView>) -> bool {
    forall|k: int, i: int, j: int|
        #![trigger instances(decls, ds[k].left.id, 0)[i], instances(decls, ds[k].right.id, 0)[j]]
        0 <= k < ds.len() && 0 <= i < instances(decls, ds[k].left.id, 0).len() && 0 <= j
            < instances(decls, ds[k].right.id, 0).len() ==> is_defined(
            ds,
            instances(decls, ds[k].left.id, 0)[i],
            instances(decls, ds[k].right.id, 0)[j],
        )
}

/// The message that names a pair of constructors without a definition.
pub open spec fn undefined_message(left: Seq<char>, right: Seq<char>) -> Seq<char> {
    "Undefined interaction between "@ + left + " and "@ + right
}

/// No kind is found without a definition exactly where each has one; a kind
/// that is found has none.
pub proof fn lemma_first_undefined(ds: Seq<DefinitionView>, a: AgentId, rs: Seq<AgentId>, m: nat)
    requires
        m <= rs.len(),
    ensures
        first_undefined(ds, a, rs, m) is None <==> forall|j: int|
            0 <= j < m ==> is_defined(ds, a, #[trigger] rs[j]),
        first_undefined(ds, a, rs, m) matches Some(b) ==> !is_defined(ds, a, b),
    decreases m,
{
    if m > 0 {
        lemma_first_undefined(ds, a, rs, (m - 1) as nat);
    }
}

/// No pair is found without a definition exactly where each has one; a pair
/// that is found has none.
pub proof fn lemma_first_gap(ds: Seq<DefinitionView>, ls: Seq<AgentId>, rs: Seq<AgentId>, n: nat)
    requires
        n <= ls.len(),
    ensures
        first_gap(ds, ls, rs, n) is None <==> forall|i: int, j: int|
            0 <= i < n && 0 <= j < rs.len() ==> is_defined(ds, #[trigger] ls[i], #[trigger] rs[j]),
        first_gap(ds, ls, rs, n) matches Some(p) ==> !is_defined(ds, p.0, p.1),
    decreases n,
{
    if n > 0 {
        lemma_first_gap(ds, ls, rs, (n - 1) as nat);
        lemma_first_undefined(ds, ls[n - 1], rs, rs.len());
    }
}

/// No pair is missing exactly where the definitions are complete.
pub proof fn lemma_missing_upto(decls: Seq<DeclarationView>, ds: Seq<DefinitionView>, k: nat)
    requires
        k <= ds.len(),
    ensures
        missing_upto(decls, ds, k) is None <==> forall|x: int, i: int, j: int|
            #![trigger instances(decls, ds[x].left.id, 0)[i], instances(decls, ds[x].right.id, 0)[j]]
            0 <= x < k && 0 <= i < instances(decls, ds[x].left.id, 0).len() && 0 <= j
                < instances(decls, ds[x].right.id, 0).len() ==> is_defined(
                ds,
                instances(decls, ds[x].left.id, 0)[i],
                instances(decls, ds[x].right.id, 0)[j],
            ),
        missing_upto(decls, ds, k) matches Some(p) ==> !is_defined(ds, p.0, p.1),
    decreases k,
{
    if k > 0 {
        lemma_missing_upto(decls, ds, (k - 1) as nat);
        let ls = instances(decls, ds[k - 1].left.id, 0);
        let rs = instances(decls, ds[k - 1].right.id, 0);
        lemma_first_gap(ds, ls, rs, ls.len());
    }
}

impl Program {
    /// The first pair of constructors that the definitions let meet and no
    /// definition is for.
    pub fn missing_pair(&self) -> (r: Option<(AgentId, AgentId)>)
        ensures
            r == missing(self@.declarations, self@.definitions),
            r is None <==> complete(self@.declarations, self@.definitions),
    {
        let ghost decls = self@.declarations;
        let ghost ds = self@.definitions;
        let mut k: usize = 0;
        proof {
            lemma_missing_upto(decls, ds, ds.len());
        }
        while k < self.definitions.len()
            invariant
                k <= self.definitions.len(),
                decls == self@.declarations,
                ds == self@.definitions,
                missing_upto(decls, ds, k as nat) is None,
            decreases self.definitions.len() - k,
        {
            let def = &self.definitions[k];
            let ls = self.get_nth_instances(def.left.id, 0);
            let rs = self.get_nth_instances(def.right.id, 0);
            let mut i: usize = 0;
            while i < ls.len()
                invariant
                    i <= ls.len(),
                    k < ds.len(),
                    ds == self@.definitions,
                    decls == self@.declarations,
                    missing_upto(decls, ds, k as nat) is None,
                    ls@ == instances(decls, ds[k as int].left.id, 0),
                    rs@ == instances(decls, ds[k as int].right.id, 0),
                    first_gap(ds, ls@, rs@, i as nat) is None,
                decreases ls.len() - i,
            {
                let mut j: usize = 0;
                while j < rs.len()
                    invariant
                        j <= rs.len(),
                        i < ls.len(),
                        k < ds.len(),
                        ds == self@.definitions,
                        decls == self@.declarations,
                        missing_upto(decls, ds, k as nat) is None,
                        ls@ == instances(decls, ds[k as int].left.id, 0),
                        rs@ == instances(decls, ds[k as int].right.id, 0),
                        first_gap(ds, ls@, rs@, i as nat) is None,
                        first_undefined(ds, ls@[i as int], rs@, j as nat) is None,
                    decreases rs.len() - j,
                {
                    if !self.has_definition(ls[i], rs[j]) {
                        proof {
                            let a = ls@[i as int];
                            lemma_undefined_from(ds, a, rs@, (j + 1) as nat);
                            lemma_gap_from(ds, ls@, rs@, (i + 1) as nat);
                            lemma_missing_from(decls, ds, (k + 1) as nat);
                        }
                        return Some((ls[i], rs[j]));
                    }
                    j += 1;
                }
                i += 1;
            }
            k += 1;
        }
        None
    }

    /// Whether a definition is for the kinds `a` and `b`; the error names the
    /// two kinds.
    pub fn require_defined(&self, a: AgentId, b: AgentId) -> (r: Result<(), String>)
        requires
            !is_defined(self@.definitions, a, b) ==> self.agent_scope.named(a) is Some
                && self.agent_scope.named(b) is Some,
        ensures
            r is Ok <==> is_defined(self@.definitions, a, b),
            r matches Err(message) ==> message@ == undefined_message(
                self.agent_scope.named(a).unwrap(),
                self.agent_scope.named(b).unwrap(),
            ),
    {
        if self.has_definition(a, b) {
            Ok(())
        } else {
            let left = self.lookup_agent(a).unwrap();
            let right = self.lookup_agent(b).unwrap();
            let mut message = String::from_str("Undefined interaction between ");
            message.append(left.as_str());
            message.append(" and ");
            message.append(right.as_str());
            Err(message)
        }
    }

    /// Checks that every pair of constructors that a definition lets meet has
    /// a definition: for each definition, the constructors of its left kind
    /// against those of its right kind. The error names the first pair that
    /// has none.
    pub fn check_completeness(&self) -> (r: Result<(), String>)
        requires
            self.wf(),
        ensures
            r is Ok <==> complete(self@.declarations, self@.definitions),
            r is Ok <==> missing(self@.declarations, self@.definitions) is None,
            r matches Err(message) ==> message@ == undefined_message(
                self.agent_scope.named(
                    missing(self@.declarations, self@.definitions).unwrap().0,
                ).unwrap(),
                self.agent_scope.named(
                    missing(self@.declarations, self@.definitions).unwrap().1,
                ).unwrap(),
            ),
    {
        match self.missing_pair() {
            None => Ok(()),
            Some((a, b)) => {
                proof {
                    let decls = self@.declarations;
                    let ds = self@.definitions;
                    lemma_missing_upto(decls, ds, ds.len());
                    lemma_missing_declared(decls, ds, ds.len());
                    self.agent_scope.lemma_named(a);
                    self.agent_scope.lemma_named(b);
                }
                self.require_defined(a, b)
            },
        }
    }
}

/// Whether `id` is the constructor of a declaration.
pub open spec fn declared(decls: Seq<DeclarationView>, id: AgentId) -> bool {
    exists|i: int| 0 <= i < decls.len() && (#[trigger] decls[i]).agent.id == id
}

/// The constructors of a kind are constructors of declarations.
pub proof fn lemma_instances_declared(decls: Seq<DeclarationView>, n: nat, t: AgentId, d: nat)
    requires
        n <= decls.len(),
    ensures
        forall|k: int|
            0 <= k < instances_upto(decls, n, t, d).len() ==> declared(
                decls,
                #[trigger] instances_upto(decls, n, t, d)[k],
            ),
    decreases depth_upto(decls, decls.len()) + 1 - d, n,
{
    if n > 0 {
        lemma_instances_declared(decls, (n - 1) as nat, t, d);
        let decl = decls[n - 1];
        let rest = instances_upto(decls, (n - 1) as nat, t, d);
        let all = instances_upto(decls, n, t, d);
        let direct = if decl.intermediate.len() == d && decl.parent.id == t {
            rest.push(decl.agent.id)
        } else {
            rest
        };
        let more = if decl.intermediate.len() == d && decl.agent.id == t {
            instances_upto(decls, decls.len(), decl.parent.id, d + 1)
        } else {
            Seq::empty()
        };
        if decl.intermediate.len() == d && decl.agent.id == t {
            lemma_depth_upto(decls, decls.len(), n - 1);
            lemma_instances_declared(decls, decls.len(), decl.parent.id, d + 1);
        }
    }
}

/// A kind without a definition is one of the kinds looked at.
pub proof fn lemma_first_undefined_among(
    ds: Seq<DefinitionView>,
    a: AgentId,
    rs: Seq<AgentId>,
    m: nat,
)
    requires
        m <= rs.len(),
        first_undefined(ds, a, rs, m) is Some,
    ensures
        exists|j: int| 0 <= j < m && #[trigger] rs[j] == first_undefined(ds, a, rs, m).unwrap(),
    decreases m,
{
    if m > 0 {
        if first_undefined(ds, a, rs, (m - 1) as nat) is Some {
            lemma_first_undefined_among(ds, a, rs, (m - 1) as nat);
        } else {
        }
    }
}

/// A pair without a definition is a pair of the kinds looked at.
pub proof fn lemma_first_gap_among(
    ds: Seq<DefinitionView>,
    ls: Seq<AgentId>,
    rs: Seq<AgentId>,
    n: nat,
)
    requires
        n <= ls.len(),
        first_gap(ds, ls, rs, n) is Some,
    ensures
        exists|i: int| 0 <= i < n && #[trigger] ls[i] == first_gap(ds, ls, rs, n).unwrap().0,
        exists|j: int|
            0 <= j < rs.len() && #[trigger] rs[j] == first_gap(ds, ls, rs, n).unwrap().1,
    decreases n,
{
    if n > 0 {
        if first_gap(ds, ls, rs, (n - 1) as nat) is Some {
            lemma_first_gap_among(ds, ls, rs, (n - 1) as nat);
        } else {
            lemma_first_undefined_among(ds, ls[n - 1], rs, rs.len());
        }
    }
}

/// The two kinds of a missing pair are constructors of declarations.
pub proof fn lemma_missing_declared(decls: Seq<DeclarationView>, ds: Seq<DefinitionView>, k: nat)
    requires
        k <= ds.len(),
        missing_upto(decls, ds, k) is Some,
    ensures
        declared(decls, missing_upto(decls, ds, k).unwrap().0),
        declared(decls, missing_upto(decls, ds, k).unwrap().1),
    decreases k,
{
    if k > 0 {
        if missing_upto(decls, ds, (k - 1) as nat) is Some {
            lemma_missing_declared(decls, ds, (k - 1) as nat);
        } else {
            let ls = instances(decls, ds[k - 1].left.id, 0);
            let rs = instances(decls, ds[k - 1].right.id, 0);
            lemma_first_gap_among(ds, ls, rs, ls.len());
            lemma_instances_declared(decls, decls.len(), ds[k - 1].left.id, 0);
            lemma_instances_declared(decls, decls.len(), ds[k - 1].right.id, 0);
        }
    }
}

/// A pair that is missing among the first `k` definitions is missing among
/// all.
pub proof fn lemma_missing_from(decls: Seq<DeclarationView>, ds: Seq<DefinitionView>, k: nat)
    requires
        k <= ds.len(),
        missing_upto(decls, ds, k) is Some,
    ensures
        missing(decls, ds) == missing_upto(decls, ds, k),
    decreases ds.len() - k,
{
    if k < ds.len() {
        lemma_missing_from(decls, ds, k + 1);
    }
}

/// A gap among the first `n` kinds of `ls` is the first gap of all.
pub proof fn lemma_gap_from(ds: Seq<DefinitionView>, ls: Seq<AgentId>, rs: Seq<AgentId>, n: nat)
    requires
        n <= ls.len(),
        first_gap(ds, ls, rs, n) is Some,
    ensures
        first_gap(ds, ls, rs, ls.len()) == first_gap(ds, ls, rs, n),
    decreases ls.len() - n,
{
    if n < ls.len() {
        lemma_gap_from(ds, ls, rs, n + 1);
    }
}

/// A kind among the first `m` of `rs` without a definition is the first of
/// all.
pub proof fn lemma_undefined_from(ds: Seq<DefinitionView>, a: AgentId, rs: Seq<AgentId>, m: nat)
    requires
        m <= rs.len(),
        first_undefined(ds, a, rs, m) is Some,
    ensures
        first_undefined(ds, a, rs, rs.len()) == first_undefined(ds, a, rs, m),
    decreases rs.len() - m,
{
    if m < rs.len() {
        lemma_undefined_from(ds, a, rs, m + 1);
    }
}

/// Where no declaration among the first `n` has more than `bound` index
/// trees, `depth_upto` is at most `bound`.
pub proof fn lemma_depth_bounded(ds: Seq<DeclarationView>, n: nat, bound: nat)
    requires
        n <= ds.len(),
        forall|i: int| 0 <= i < n ==> (#[trigger] ds[i]).intermediate.len() <= bound,
    ensures
        depth_upto(ds, n) <= bound,
    decreases n,
{
    if n > 0 {
        lemma_depth_bounded(ds, (n - 1) as nat, bound);
    }
}

/// Beyond the depth of every declaration a kind has no constructors.
pub proof fn lemma_instances_beyond(ds: Seq<DeclarationView>, n: nat, t: AgentId, d: nat)
    requires
        n <= ds.len(),
        d > depth_upto(ds, ds.len()),
    ensures
        instances_upto(ds, n, t, d) == Seq::<AgentId>::empty(),
    decreases n,
{
    if n > 0 {
        lemma_instances_beyond(ds, (n - 1) as nat, t, d);
        lemma_depth_upto(ds, ds.len(), n - 1);
    }
}
} // verus!
