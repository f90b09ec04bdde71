//! Writing nets and trees out for reading.

use crate::run::Net;
use crate::run::NetState;
use crate::term::lemma_view_agent;
use crate::term::pairs;
use crate::term::terms;
use crate::term::AgentId;
use crate::term::Term;
use crate::term::Tree;
use crate::term::VarId;
use std::collections::BTreeMap;
use vstd::prelude::*;
use vstd::string::*;

verus! {
/// The digit for `d`.
pub open spec fn digit(d: nat) -> char {
    if d == 0 {
        '0'
    } else if d == 1 {
        '1'
    } else if d == 2 {
        '2'
    } else if d == 3 {
        '3'
    } else if d == 4 {
        '4'
    } else if d == 5 {
        '5'
    } else if d == 6 {
        '6'
    } else if d == 7 {
        '7'
    } else if d == 8 {
        '8'
    } else {
        '9'
    }
}

/// `n` written in decimal digits.
pub open spec fn decimal(n: nat) -> Seq<char>
    decreases n,
{
    if n < 10 {
        seq![digit(n)]
    } else {
        decimal(n / 10).push(digit(n % 10))
    }
}

/// The digit for `d`, as a text.
fn digit_text(d: usize) -> (r: &'static str)
    requires
        d < 10,
    ensures
        r@ == seq![digit(d as nat)],
{
    proof {
        reveal_strlit("0");
        reveal_strlit("1");
        reveal_strlit("2");
        reveal_strlit("3");
        reveal_strlit("4");
        reveal_strlit("5");
        reveal_strlit("6");
        reveal_strlit("7");
        reveal_strlit("8");
        reveal_strlit("9");
    }
    let r = if d == 0 {
        "0"
    } else if d == 1 {
        "1"
    } else if d == 2 {
        "2"
    } else if d == 3 {
        "3"
    } else if d == 4 {
        "4"
    } else if d == 5 {
        "5"
    } else if d == 6 {
        "6"
    } else if d == 7 {
        "7"
    } else if d == 8 {
        "8"
    } else {
        "9"
    };
    r
}

/// `n` written in decimal digits.
pub fn decimal_string(n: usize) -> (r: String)
    ensures
        r@ == decimal(n as nat),
    decreases n,
{
    if n < 10 {
        String::from_str(digit_text(n))
    } else {
        let mut r = decimal_string(n / 10);
        r.append(digit_text(n % 10));
        r
    }
}

/// The names that a scope gives to wires.
pub open spec fn wire_names(scope: Map<VarId, String>) -> Map<VarId, Seq<char>> {
    scope.map_values(|s: String| s@)
}

/// What a tree reads as, and the scope after it: an agent is its name, with
/// its ports in brackets and blanks between them if it has any; a bound wire
/// is what it is bound to; an unbound wire is its name in the scope, and one
/// that has none gets `x` and the number of names in the scope. `None` where
/// that asks for more than `depth` bindings inside one another.
pub open spec fn shown(
    vars: Map<VarId, Option<Term>>,
    names: spec_fn(AgentId) -> Seq<char>,
    scope: Map<VarId, Seq<char>>,
    t: Term,
    depth: nat,
) -> Option<(Seq<char>, Map<VarId, Seq<char>>)>
    decreases depth, t, 0nat,
{
    match t {
        Term::Agent { id, aux } => {
            if aux.len() == 0 {
                Some((names(id), scope))
            } else {
                match shown_upto(vars, names, scope, aux, aux.len(), depth) {
                    Some((body, after)) => Some((names(id) + "("@ + body + ")"@, after)),
                    None => None,
                }
            }
        },
        Term::Var { id } => {
            if vars.contains_key(id) && vars[id] is Some {
                if depth == 0 {
                    None
                } else {
                    shown(vars, names, scope, vars[id].unwrap(), (depth - 1) as nat)
                }
            } else if scope.contains_key(id) {
                Some((scope[id], scope))
            } else {
                let name = "x"@ + decimal(scope.len());
                Some((name, scope.insert(id, name)))
            }
        },
    }
}

/// What the first `n` of `ts` read as, with a blank between one and the
/// next.
pub open spec fn shown_upto(
    vars: Map<VarId, Option<Term>>,
    names: spec_fn(AgentId) -> Seq<char>,
    scope: Map<VarId, Seq<char>>,
    ts: Seq<Term>,
    n: nat,
    depth: nat,
) -> Option<(Seq<char>, Map<VarId, Seq<char>>)>
    decreases depth, ts, n,
{
    if n == 0 || n > ts.len() {
        Some((Seq::empty(), scope))
    } else {
        match shown_upto(vars, names, scope, ts, (n - 1) as nat, depth) {
            None => None,
            Some((acc, mid)) => match shown(vars, names, mid, ts[n - 1], depth) {
                None => None,
                Some((piece, after)) => Some(
                    (
                        if n == 1 {
                            piece
                        } else {
                            acc + " "@ + piece
                        },
                        after,
                    ),
                ),
            },
        }
    }
}

/// What the first `n` of `ps` read as: each pair on a line of its own, after
/// a tab, with `~` between its two trees.
pub open spec fn shown_pairs(
    vars: Map<VarId, Option<Term>>,
    names: spec_fn(AgentId) -> Seq<char>,
    scope: Map<VarId, Seq<char>>,
    ps: Seq<(Term, Term)>,
    n: nat,
    depth: nat,
) -> Option<(Seq<char>, Map<VarId, Seq<char>>)>
    decreases n,
{
    if n == 0 || n > ps.len() {
        Some((Seq::empty(), scope))
    } else {
        match shown_pairs(vars, names, scope, ps, (n - 1) as nat, depth) {
            None => None,
            Some((acc, s0)) => match shown(vars, names, s0, ps[n - 1].0, depth) {
                None => None,
                Some((a, s1)) => match shown(vars, names, s1, ps[n - 1].1, depth) {
                    None => None,
                    Some((b, s2)) => Some((acc + "\t"@ + a + " ~ "@ + b + "\n"@, s2)),
                },
            },
        }
    }
}

/// What a net reads as: the waiting interactions under `Interactions`, then
/// the stuck pairs under `Stuck:`.
pub open spec fn shown_net(
    net: NetState,
    names: spec_fn(AgentId) -> Seq<char>,
    scope: Map<VarId, Seq<char>>,
    depth: nat,
) -> Option<(Seq<char>, Map<VarId, Seq<char>>)> {
    match shown_pairs(net.vars, names, scope, net.interactions, net.interactions.len(), depth) {
        None => None,
        Some((waiting, mid)) => match shown_pairs(
            net.vars,
            names,
            mid,
            net.stuck,
            net.stuck.len(),
            depth,
        ) {
            None => None,
            Some((stuck, after)) => Some(
                ("Interactions\n"@ + waiting + "Stuck:\n"@ + stuck, after),
            ),
        },
    }
}

/// Whether `f` can be asked for every kind and gives one name for each.
pub open spec fn names_fixed<F: Fn(AgentId) -> String>(f: &F) -> bool {
    &&& forall|id: AgentId| #[trigger] f.requires((id,))
    &&& forall|id: AgentId, a: String, b: String|
        #![trigger f.ensures((id,), a), f.ensures((id,), b)]
        f.ensures((id,), a) && f.ensures((id,), b) ==> a@ == b@
}

/// The names that `f` gives.
pub open spec fn names_of<F: Fn(AgentId) -> String>(f: &F) -> spec_fn(AgentId) -> Seq<char> {
    |id: AgentId| name_by(f, id)
}

/// Whether the tree can be written out: reading through the bindings comes
/// to an end.
pub open spec fn readable(
    vars: Map<VarId, Option<Term>>,
    names: spec_fn(AgentId) -> Seq<char>,
    scope: Map<VarId, Seq<char>>,
    t: Term,
) -> bool {
    exists|depth: nat| #[trigger] shown(vars, names, scope, t, depth) is Some
}

/// What the tree reads as, and the scope after it.
pub open spec fn written(
    vars: Map<VarId, Option<Term>>,
    names: spec_fn(AgentId) -> Seq<char>,
    scope: Map<VarId, Seq<char>>,
    t: Term,
) -> (Seq<char>, Map<VarId, Seq<char>>) {
    shown(
        vars,
        names,
        scope,
        t,
        choose|depth: nat| #[trigger] shown(vars, names, scope, t, depth) is Some,
    ).unwrap()
}

/// Whether the net can be written out: reading through the bindings comes to
/// an end.
pub open spec fn net_readable(
    net: NetState,
    names: spec_fn(AgentId) -> Seq<char>,
    scope: Map<VarId, Seq<char>>,
) -> bool {
    exists|depth: nat| #[trigger] shown_net(net, names, scope, depth) is Some
}

/// What the net reads as, and the scope after it.
pub open spec fn net_written(
    net: NetState,
    names: spec_fn(AgentId) -> Seq<char>,
    scope: Map<VarId, Seq<char>>,
) -> (Seq<char>, Map<VarId, Seq<char>>) {
    shown_net(
        net,
        names,
        scope,
        choose|depth: nat| #[trigger] shown_net(net, names, scope, depth) is Some,
    ).unwrap()
}

/// The name that `f` gives for the kind `id`.
pub open spec fn name_by<F: Fn(AgentId) -> String>(f: &F, id: AgentId) -> Seq<char> {
    (choose|r: String| f.ensures((id,), r))@
}

impl Net {
    /// Writes a tree out: agents by the names that `show_agent` gives, bound
    /// wires as what they are bound to, unbound wires by their names in
    /// `scope`, which takes in those that had none.
    pub fn show_tree<F: Fn(AgentId) -> String>(
        &self,
        show_agent: &F,
        scope: &mut BTreeMap<VarId, String>,
        tree: &Tree,
    ) -> (r: String)
        requires
            self.wf(),
            names_fixed(show_agent),
            readable(self@.vars, names_of(show_agent), wire_names(old(scope)@), tree@),
        ensures
            (r@, wire_names(final(scope)@)) == written(
                self@.vars,
                names_of(show_agent),
                wire_names(old(scope)@),
                tree@,
            ),
    {
        let ghost depth = choose|depth: nat| #[trigger]
            shown(
                self@.vars,
                names_of(show_agent),
                wire_names(old(scope)@),
                tree@,
                depth,
            ) is Some;
        self.show_tree_within(show_agent, scope, tree, Ghost(depth))
    }

    fn show_tree_within<F: Fn(AgentId) -> String>(
        &self,
        show_agent: &F,
        scope: &mut BTreeMap<VarId, String>,
        tree: &Tree,
        Ghost(depth): Ghost<nat>,
    ) -> (r: String)
        requires
            self.wf(),
            names_fixed(show_agent),
            shown(
                self@.vars,
                names_of(show_agent),
                wire_names(old(scope)@),
                tree@,
                depth,
            ) is Some,
        ensures
            shown(
                self@.vars,
                names_of(show_agent),
                wire_names(old(scope)@),
                tree@,
                depth,
            ) == Some((r@, wire_names(final(scope)@))),
        decreases depth, tree,
    {
        let ghost names = names_of(show_agent);
        let ghost vars = self@.vars;
        match tree {
            Tree::Agent { id, aux } => {
                proof {
                    lemma_view_agent(*id, *aux);
                }
                let mut s = show_agent(*id);
                if aux.len() == 0 {
                    return s;
                }
                let ghost ts = terms(aux@);
                let ghost head = s@;
                s.append("(");
                let mut i: usize = 0;
                let ghost mut body: Seq<char> = Seq::empty();
                while i < aux.len()
                    invariant
                        i <= aux.len(),
                        aux.len() > 0,
                        self.wf(),
                        names_fixed(show_agent),
                        names == names_of(show_agent),
                        vars == self@.vars,
                        ts == terms(aux@),
                        tree is Agent,
                        tree->aux == *aux,
                        shown_upto(vars, names, wire_names(old(scope)@), ts, ts.len(), depth)
                            is Some,
                        shown_upto(vars, names, wire_names(old(scope)@), ts, i as nat, depth)
                            == Some((body, wire_names(scope@))),
                        s@ == head + "("@ + body,
                    decreases aux.len() - i,
                {
                    proof {
                        lemma_shown_upto_prefix(
                            vars,
                            names,
                            wire_names(old(scope)@),
                            ts,
                            (i + 1) as nat,
                            ts.len(),
                            depth,
                        );
                    }
                    let piece = self.show_tree_within(show_agent, scope, &aux[i], Ghost(depth));
                    if i > 0 {
                        s.append(" ");
                    }
                    s.append(piece.as_str());
                    proof {
                        let grown = if i == 0 {
                            piece@
                        } else {
                            body + " "@ + piece@
                        };
                        assert(s@ =~= head + "("@ + grown);
                        body = grown;
                    }
                    i += 1;
                }
                s.append(")");
                s
            },
            Tree::Var { id } => {
                match self.vars.get(*id) {
                    Some(Some(bound)) => {
                        return self.show_tree_within(
                            show_agent,
                            scope,
                            bound,
                            Ghost((depth - 1) as nat),
                        );
                    },
                    _ => {},
                }
                let known = match scope.get(id) {
                    Some(name) => Some(name.clone()),
                    None => None,
                };
                match known {
                    Some(name) => name,
                    None => {
                        broadcast use vstd::std_specs::btree::group_btree_axioms;

                        let l = scope.len();
                        assert(l == wire_names(scope@).len()) by {
                            assert(wire_names(scope@).dom() =~= scope@.dom());
                        }
                        let mut name = String::from_str("x");
                        let digits = decimal_string(l);
                        name.append(digits.as_str());
                        scope.insert(*id, name.clone());
                        name
                    },
                }
            },
        }
    }

    /// Writes the pairs out, each on a line of its own.
    fn show_pairs<F: Fn(AgentId) -> String>(
        &self,
        show_agent: &F,
        scope: &mut BTreeMap<VarId, String>,
        ps: &Vec<(Tree, Tree)>,
        out: &mut String,
        Ghost(depth): Ghost<nat>,
    )
        requires
            self.wf(),
            names_fixed(show_agent),
            shown_pairs(
                self@.vars,
                names_of(show_agent),
                wire_names(old(scope)@),
                pairs(ps@),
                ps@.len(),
                depth,
            ) is Some,
        ensures
            shown_pairs(
                self@.vars,
                names_of(show_agent),
                wire_names(old(scope)@),
                pairs(ps@),
                ps@.len(),
                depth,
            ) == Some(
                (
                    final(out)@.subrange(old(out)@.len() as int, final(out)@.len() as int),
                    wire_names(final(scope)@),
                ),
            ),
            old(out)@.is_prefix_of(final(out)@),
    {
        let ghost names = names_of(show_agent);
        let ghost vars = self@.vars;
        let ghost all = pairs(ps@);
        let ghost head = out@;
        let ghost mut body: Seq<char> = Seq::empty();
        let mut i: usize = 0;
        while i < ps.len()
            invariant
                i <= ps.len(),
                self.wf(),
                names_fixed(show_agent),
                names == names_of(show_agent),
                vars == self@.vars,
                all == pairs(ps@),
                head == old(out)@,
                shown_pairs(vars, names, wire_names(old(scope)@), all, all.len(), depth) is Some,
                shown_pairs(vars, names, wire_names(old(scope)@), all, i as nat, depth) == Some(
                    (body, wire_names(scope@)),
                ),
                out@ == head + body,
            decreases ps.len() - i,
        {
            proof {
                lemma_shown_pairs_prefix(
                    vars,
                    names,
                    wire_names(old(scope)@),
                    all,
                    (i + 1) as nat,
                    all.len(),
                    depth,
                );
            }
            let a = self.show_tree_within(show_agent, scope, &ps[i].0, Ghost(depth));
            let b = self.show_tree_within(show_agent, scope, &ps[i].1, Ghost(depth));
            out.append("\t");
            out.append(a.as_str());
            out.append(" ~ ");
            out.append(b.as_str());
            out.append("\n");
            proof {
                let grown = body + "\t"@ + a@ + " ~ "@ + b@ + "\n"@;
                body = grown;
            }
            i += 1;
        }
    }

    /// Writes the net out: the waiting interactions and the stuck pairs.
    pub fn show_net<F: Fn(AgentId) -> String>(
        &self,
        show_agent: &F,
        scope: &mut BTreeMap<VarId, String>,
    ) -> (r: String)
        requires
            self.wf(),
            names_fixed(show_agent),
            net_readable(self@, names_of(show_agent), wire_names(old(scope)@)),
        ensures
            (r@, wire_names(final(scope)@)) == net_written(
                self@,
                names_of(show_agent),
                wire_names(old(scope)@),
            ),
    {
        let ghost names = names_of(show_agent);
        let ghost depth = choose|depth: nat| #[trigger]
            shown_net(self@, names, wire_names(old(scope)@), depth) is Some;
        let mut s = String::from_str("Interactions\n");
        let ghost s0 = s@;
        self.show_pairs(show_agent, scope, &self.interactions, &mut s, Ghost(depth));
        let ghost s1 = s@;
        s.append("Stuck:\n");
        self.show_pairs(show_agent, scope, &self.stuck, &mut s, Ghost(depth));
        proof {
            let waiting = s1.subrange(s0.len() as int, s1.len() as int);
            assert(s1 =~= s0 + waiting);
        }
        s
    }
}

/// Where the first `n` trees can be written out, the first `i` of them can.
pub proof fn lemma_shown_upto_prefix(
    vars: Map<VarId, Option<Term>>,
    names: spec_fn(AgentId) -> Seq<char>,
    scope: Map<VarId, Seq<char>>,
    ts: Seq<Term>,
    i: nat,
    n: nat,
    depth: nat,
)
    requires
        i <= n <= ts.len(),
        shown_upto(vars, names, scope, ts, n, depth) is Some,
    ensures
        shown_upto(vars, names, scope, ts, i, depth) is Some,
    decreases n,
{
    if i < n {
        lemma_shown_upto_prefix(vars, names, scope, ts, i, (n - 1) as nat, depth);
    }
}

/// Where the first `n` pairs can be written out, the first `i` of them can.
pub proof fn lemma_shown_pairs_prefix(
    vars: Map<VarId, Option<Term>>,
    names: spec_fn(AgentId) -> Seq<char>,
    scope: Map<VarId, Seq<char>>,
    ps: Seq<(Term, Term)>,
    i: nat,
    n: nat,
    depth: nat,
)
    requires
        i <= n <= ps.len(),
        shown_pairs(vars, names, scope, ps, n, depth) is Some,
    ensures
        shown_pairs(vars, names, scope, ps, i, depth) is Some,
    decreases n,
{
    if i < n {
        lemma_shown_pairs_prefix(vars, names, scope, ps, i, (n - 1) as nat, depth);
    }
}
} // verus!
