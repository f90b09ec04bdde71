use std::collections::BTreeMap;
use std::rc::Rc;
use typed_inet::run::Halt;
use typed_inet::run::InteractionRule;
use typed_inet::run::InteractionSystem;
use typed_inet::run::Net;
use typed_inet::store::VarStore;
use typed_inet::store::STORE_LIMIT;
use typed_inet::term::AgentId;
use typed_inet::term::Tree;
use typed_inet::term::VarId;

fn agent(id: AgentId, aux: Vec<Tree>) -> Tree {
    Tree::Agent { id, aux }
}

fn var(id: VarId) -> Tree {
    Tree::Var { id }
}

fn same(a: &Tree, b: &Tree) -> bool {
    match (a, b) {
        (Tree::Var { id: x }, Tree::Var { id: y }) => x == y,
        (Tree::Agent { id: x, aux: p }, Tree::Agent { id: y, aux: q }) => {
            x == y && p.len() == q.len() && p.iter().zip(q.iter()).all(|(s, t)| same(s, t))
        }
        _ => false,
    }
}

fn same_pair(a: &(Tree, Tree), b: &(Tree, Tree)) -> bool {
    same(&a.0, &b.0) && same(&a.1, &b.1)
}

fn vars_of(t: &Tree, out: &mut Vec<VarId>) {
    match t {
        Tree::Var { id } => out.push(*id),
        Tree::Agent { aux, .. } => {
            for c in aux {
                vars_of(c, out);
            }
        }
    }
}

fn net_with(rules: Vec<(AgentId, AgentId, InteractionRule)>) -> Net {
    let mut system = InteractionSystem::default();
    for (a, b, r) in rules {
        system.put(a, b, r);
    }
    let mut net = Net::default();
    net.system = Rc::new(system);
    net
}

const A: AgentId = 1;
const B: AgentId = 2;
const C: AgentId = 3;

#[test]
fn tree_clone_is_equal_and_independent() {
    let t = agent(A, vec![var(7), agent(B, vec![])]);
    let mut c = t.clone();
    assert!(same(&t, &c));
    if let Tree::Agent { aux, .. } = &mut c {
        aux.pop();
    }
    assert!(!same(&t, &c));
    assert!(same(&t, &agent(A, vec![var(7), agent(B, vec![])])));
}

#[test]
fn agent_id_of_agent_and_of_variable() {
    assert_eq!(agent(C, vec![]).agent_id(), Some(C));
    assert_eq!(var(5).agent_id(), None);
}

#[test]
fn count_vars_counts_occurrences() {
    let t = agent(A, vec![var(1), agent(B, vec![var(1), var(2)]), agent(C, vec![])]);
    assert_eq!(t.count_vars(), 3);
    assert_eq!(agent(A, vec![]).count_vars(), 0);
    assert_eq!(var(9).count_vars(), 1);
}

#[test]
fn store_hands_out_distinct_keys_with_bit_32() {
    let mut s = VarStore::new();
    assert_eq!(s.len(), 0);
    let a = s.insert(None);
    let b = s.insert(Some(var(1)));
    assert_ne!(a, b);
    assert_eq!(a | 0x1_0000_0000, a);
    assert_eq!(b | 0x1_0000_0000, b);
    assert_eq!(s.len(), 2);
    assert!(s.contains(a));
    assert!(s.contains(b));
    assert!(matches!(s.get(a), Some(None)));
    assert!(matches!(s.get(b), Some(Some(Tree::Var { id: 1 }))));
}

#[test]
fn store_does_not_find_what_it_did_not_hand_out() {
    let mut s = VarStore::new();
    let a = s.insert(None);
    let stripped = a & !0x1_0000_0000u64;
    assert_ne!(stripped, a);
    assert!(!s.contains(stripped));
    assert!(s.get(stripped).is_none());
    assert!(s.replace(stripped, Some(var(3))).is_none());
    assert!(s.remove(stripped).is_none());
    assert!(s.contains(a));
    assert!(!s.contains(a + 1));
    assert!(matches!(s.get(a), Some(None)));
}

#[test]
fn store_replace_returns_old_entry() {
    let mut s = VarStore::new();
    let a = s.insert(None);
    let before = s.replace(a, Some(agent(A, vec![])));
    assert!(matches!(before, Some(None)));
    let again = s.replace(a, None);
    assert!(matches!(again, Some(Some(Tree::Agent { id: A, .. }))));
    assert!(matches!(s.get(a), Some(None)));
    assert_eq!(s.len(), 1);
}

#[test]
fn store_remove_takes_the_entry_out() {
    let mut s = VarStore::new();
    let a = s.insert(Some(var(4)));
    let b = s.insert(None);
    let out = s.remove(a);
    assert!(matches!(out, Some(Some(Tree::Var { id: 4 }))));
    assert!(!s.contains(a));
    assert!(s.contains(b));
    assert_eq!(s.len(), 1);
    assert!(s.remove(a).is_none());
    assert_eq!(s.len(), 1);
}

#[test]
fn store_clone_is_a_copy() {
    let mut s = VarStore::new();
    let a = s.insert(Some(agent(B, vec![var(1)])));
    let mut c = s.clone();
    assert_eq!(c.len(), 1);
    assert!(matches!(c.get(a), Some(Some(Tree::Agent { id: B, .. }))));
    c.remove(a);
    assert!(s.contains(a));
    assert!(!c.contains(a));
}

#[test]
fn store_limit_is_two_less_than_two_to_the_32() {
    assert_eq!(STORE_LIMIT as u64, (1u64 << 32) - 2);
}

#[test]
fn new_var_is_unbound_and_new() {
    let mut net = Net::default();
    let x = net.new_var();
    let y = net.new_var();
    assert_ne!(x, y);
    assert!(matches!(net.vars.get(x), Some(None)));
    assert!(matches!(net.vars.get(y), Some(None)));
    assert_eq!(net.vars.len(), 2);
    assert!(net.interactions.is_empty());
    assert!(net.stuck.is_empty());
}

#[test]
fn link_pushes_on_top() {
    let mut net = Net::default();
    net.link(agent(A, vec![]), agent(B, vec![]));
    net.link(agent(C, vec![]), var(1));
    assert_eq!(net.interactions.len(), 2);
    assert!(same_pair(&net.interactions[1], &(agent(C, vec![]), var(1))));
    assert!(same_pair(&net.interactions[0], &(agent(A, vec![]), agent(B, vec![]))));
}

#[test]
fn agents_without_rule_get_stuck_unchanged() {
    let mut net = net_with(vec![(
        A,
        A,
        InteractionRule { left_ports: vec![], right_ports: vec![] },
    )]);
    let x = net.new_var();
    net.link(agent(C, vec![]), agent(C, vec![]));
    let a = agent(A, vec![var(x), agent(C, vec![])]);
    let b = agent(B, vec![agent(A, vec![])]);
    net.interact(a.clone(), b.clone());
    assert_eq!(net.stuck.len(), 1);
    assert!(same_pair(&net.stuck[0], &(a, b)));
    assert_eq!(net.interactions.len(), 1);
    assert!(same_pair(&net.interactions[0], &(agent(C, vec![]), agent(C, vec![]))));
    assert_eq!(net.vars.len(), 1);
    assert!(matches!(net.vars.get(x), Some(None)));
}

#[test]
fn stuck_pairs_keep_their_order() {
    let mut net = Net::default();
    net.interact(agent(B, vec![]), agent(A, vec![]));
    net.interact(agent(A, vec![]), agent(B, vec![]));
    assert_eq!(net.stuck.len(), 2);
    assert!(same_pair(&net.stuck[0], &(agent(B, vec![]), agent(A, vec![]))));
    assert!(same_pair(&net.stuck[1], &(agent(A, vec![]), agent(B, vec![]))));
}

fn swap_rule() -> InteractionRule {
    // A(x y) ~ B(y x): the two wires cross.
    InteractionRule {
        left_ports: vec![var(100), var(200)],
        right_ports: vec![var(200), var(100)],
    }
}

#[test]
fn rule_is_applied_with_fresh_wires_left_side_first() {
    let mut net = net_with(vec![(A, B, swap_rule())]);
    let p = agent(C, vec![]);
    let q = agent(C, vec![agent(C, vec![])]);
    let r = agent(A, vec![]);
    let s = agent(B, vec![]);
    net.interact(agent(A, vec![p.clone(), q.clone()]), agent(B, vec![r.clone(), s.clone()]));
    assert!(net.stuck.is_empty());
    assert_eq!(net.interactions.len(), 4);
    assert_eq!(net.vars.len(), 2);
    let ids: Vec<VarId> = net
        .interactions
        .iter()
        .map(|(t, _)| match t {
            Tree::Var { id } => *id,
            _ => panic!("template is a wire"),
        })
        .collect();
    let (x, y) = (ids[0], ids[1]);
    assert_ne!(x, y);
    assert_eq!(ids, vec![x, y, y, x]);
    assert!(same(&net.interactions[0].1, &p));
    assert!(same(&net.interactions[1].1, &q));
    assert!(same(&net.interactions[2].1, &r));
    assert!(same(&net.interactions[3].1, &s));
    assert!(matches!(net.vars.get(x), Some(None)));
    assert!(matches!(net.vars.get(y), Some(None)));
    assert_ne!(x, 100);
    assert_ne!(y, 200);
}

#[test]
fn rule_is_found_in_the_other_order_and_sides_swap() {
    let mut net = net_with(vec![(A, B, swap_rule())]);
    let p = agent(C, vec![]);
    let q = agent(A, vec![]);
    net.interact(agent(B, vec![p.clone()]), agent(A, vec![q.clone()]));
    // left ports go against the ports of the A agent, which stood on the right
    assert_eq!(net.interactions.len(), 2);
    assert!(same(&net.interactions[0].1, &q));
    assert!(same(&net.interactions[1].1, &p));
    let mut ids = vec![];
    vars_of(&net.interactions[0].0, &mut ids);
    vars_of(&net.interactions[1].0, &mut ids);
    assert_eq!(ids.len(), 2);
    assert_ne!(ids[0], ids[1]);
}

#[test]
fn rule_in_given_order_wins_over_the_other_order() {
    let ab = InteractionRule { left_ports: vec![agent(C, vec![])], right_ports: vec![] };
    let ba = InteractionRule { left_ports: vec![], right_ports: vec![agent(C, vec![])] };
    let mut net = net_with(vec![(A, B, ab), (B, A, ba)]);
    net.interact(agent(B, vec![var(1)]), agent(A, vec![agent(A, vec![])]));
    assert_eq!(net.interactions.len(), 1);
    // rule (B, A): its right port goes against the port of the agent on the right
    assert!(same_pair(&net.interactions[0], &(agent(C, vec![]), agent(A, vec![]))));
}

#[test]
fn ports_beyond_the_shorter_side_are_left_out() {
    let rule = InteractionRule {
        left_ports: vec![var(1), var(2), var(3)],
        right_ports: vec![var(1)],
    };
    let mut net = net_with(vec![(A, B, rule)]);
    net.interact(agent(A, vec![agent(C, vec![])]), agent(B, vec![]));
    assert_eq!(net.interactions.len(), 1);
    assert_eq!(net.vars.len(), 1);
}

#[test]
fn same_variable_gets_same_wire_however_often_it_occurs() {
    let rule = InteractionRule {
        left_ports: vec![agent(C, vec![var(5), var(5)]), var(5)],
        right_ports: vec![],
    };
    let mut net = net_with(vec![(A, A, rule)]);
    net.interact(agent(A, vec![agent(B, vec![]), agent(B, vec![])]), agent(A, vec![]));
    assert_eq!(net.vars.len(), 1);
    let mut ids = vec![];
    vars_of(&net.interactions[0].0, &mut ids);
    vars_of(&net.interactions[1].0, &mut ids);
    assert_eq!(ids.len(), 3);
    assert!(ids.iter().all(|v| *v == ids[0]));
}

#[test]
fn two_applications_use_disjoint_wires() {
    let mut net = net_with(vec![(A, B, swap_rule())]);
    net.interact(
        agent(A, vec![agent(C, vec![]), agent(C, vec![])]),
        agent(B, vec![agent(C, vec![]), agent(C, vec![])]),
    );
    let mut first = vec![];
    for (t, _) in net.interactions.iter() {
        vars_of(t, &mut first);
    }
    let seen = net.interactions.len();
    net.interact(
        agent(A, vec![agent(A, vec![]), agent(C, vec![agent(C, vec![])])]),
        agent(B, vec![agent(B, vec![]), agent(A, vec![])]),
    );
    let mut second = vec![];
    for (t, _) in net.interactions[seen..].iter() {
        vars_of(t, &mut second);
    }
    assert_eq!(first.len(), 4);
    assert_eq!(second.len(), 4);
    for v in first.iter() {
        assert!(!second.contains(v));
    }
    assert_eq!(net.vars.len(), 4);
}

#[test]
fn unbound_wire_is_bound_to_what_it_meets() {
    let mut net = Net::default();
    let x = net.new_var();
    let t = agent(A, vec![agent(B, vec![])]);
    net.interact(t.clone(), var(x));
    assert!(net.interactions.is_empty());
    assert!(net.stuck.is_empty());
    match net.vars.get(x) {
        Some(Some(bound)) => assert!(same(bound, &t)),
        _ => panic!("the wire is bound"),
    }
}

#[test]
fn bound_wire_met_from_the_right_leaves_and_links() {
    let mut net = Net::default();
    let x = net.new_var();
    let t = agent(A, vec![]);
    let u = agent(B, vec![agent(C, vec![])]);
    net.interact(t.clone(), var(x));
    net.interact(u.clone(), var(x));
    assert!(!net.vars.contains(x));
    assert_eq!(net.vars.len(), 0);
    assert_eq!(net.interactions.len(), 1);
    assert!(same_pair(&net.interactions[0], &(t, u)));
}

#[test]
fn bound_wire_met_from_the_left_leaves_and_links() {
    let mut net = Net::default();
    let x = net.new_var();
    let t = agent(A, vec![]);
    let u = agent(B, vec![]);
    net.interact(var(x), t.clone());
    match net.vars.get(x) {
        Some(Some(bound)) => assert!(same(bound, &t)),
        _ => panic!("the wire is bound"),
    }
    net.interact(var(x), u.clone());
    assert!(!net.vars.contains(x));
    assert_eq!(net.interactions.len(), 1);
    assert!(same_pair(&net.interactions[0], &(t, u)));
}

#[test]
fn of_two_wires_the_right_one_is_met() {
    let mut net = Net::default();
    let x = net.new_var();
    let y = net.new_var();
    net.interact(var(x), var(y));
    assert!(matches!(net.vars.get(x), Some(None)));
    match net.vars.get(y) {
        Some(Some(Tree::Var { id })) => assert_eq!(*id, x),
        _ => panic!("the right wire is bound to the left one"),
    }
}

#[test]
fn ready_tells_whether_a_wire_is_held() {
    let mut net = Net::default();
    let x = net.new_var();
    assert!(net.ready(&agent(A, vec![]), &var(x)));
    assert!(net.ready(&var(x), &agent(A, vec![])));
    assert!(!net.ready(&agent(A, vec![]), &var(x + 1)));
    assert!(!net.ready(&var(12), &agent(A, vec![])));
    assert!(net.ready(&var(12), &var(x)));
    assert!(!net.ready(&var(x), &var(12)));
    assert!(net.ready(&agent(A, vec![]), &agent(B, vec![])));
}

#[test]
fn normal_runs_until_nothing_waits() {
    let mut net = net_with(vec![(A, B, swap_rule())]);
    net.link(
        agent(A, vec![agent(C, vec![]), agent(A, vec![])]),
        agent(B, vec![agent(C, vec![]), agent(B, vec![])]),
    );
    let halt = net.normal(100);
    assert_eq!(halt, Halt::Quiescent);
    assert!(net.interactions.is_empty());
    assert_eq!(net.vars.len(), 0);
    // x: C ~ B, y: A ~ C; neither pair has a rule
    assert_eq!(net.stuck.len(), 2);
    let kinds: Vec<(Option<AgentId>, Option<AgentId>)> =
        net.stuck.iter().map(|(a, b)| (a.agent_id(), b.agent_id())).collect();
    assert!(kinds.contains(&(Some(C), Some(B))) || kinds.contains(&(Some(B), Some(C))));
    assert!(kinds.contains(&(Some(A), Some(C))) || kinds.contains(&(Some(C), Some(A))));
}

#[test]
fn normal_takes_the_pair_on_top_first() {
    let mut net = Net::default();
    net.link(agent(A, vec![]), agent(A, vec![]));
    net.link(agent(B, vec![]), agent(B, vec![]));
    assert_eq!(net.normal(1), Halt::OutOfSteps);
    assert_eq!(net.stuck.len(), 1);
    assert!(same_pair(&net.stuck[0], &(agent(B, vec![]), agent(B, vec![]))));
    assert_eq!(net.interactions.len(), 1);
}

#[test]
fn normal_with_no_steps_does_nothing() {
    let mut net = Net::default();
    net.link(agent(A, vec![]), agent(A, vec![]));
    assert_eq!(net.normal(0), Halt::OutOfSteps);
    assert_eq!(net.interactions.len(), 1);
    assert!(net.stuck.is_empty());
    let mut empty = Net::default();
    assert_eq!(empty.normal(0), Halt::Quiescent);
}

#[test]
fn normal_leaves_stuck_pairs_alone() {
    let mut net = Net::default();
    net.stuck.push((agent(A, vec![]), agent(B, vec![])));
    assert_eq!(net.normal(10), Halt::Quiescent);
    assert_eq!(net.stuck.len(), 1);
}

#[test]
fn normal_stops_at_a_wire_that_is_not_held() {
    let mut net = Net::default();
    net.link(agent(A, vec![]), var(77));
    net.link(agent(B, vec![]), agent(B, vec![]));
    assert_eq!(net.normal(10), Halt::Blocked);
    assert_eq!(net.stuck.len(), 1);
    assert_eq!(net.interactions.len(), 1);
    assert!(same_pair(&net.interactions[0], &(agent(A, vec![]), var(77))));
}

#[test]
fn net_clone_shares_rules_and_copies_the_rest() {
    let mut net = net_with(vec![(A, B, swap_rule())]);
    let x = net.new_var();
    net.link(agent(A, vec![]), var(x));
    let mut copy = net.clone();
    assert!(Rc::ptr_eq(&net.system, &copy.system));
    copy.normal(10);
    assert_eq!(net.interactions.len(), 1);
    assert!(matches!(net.vars.get(x), Some(None)));
    assert!(matches!(copy.vars.get(x), Some(Some(_))));
}

#[test]
fn system_find_is_directional() {
    let mut system = InteractionSystem::default();
    assert!(system.find(A, B).is_none());
    system.put(A, B, swap_rule());
    assert!(system.find(A, B).is_some());
    assert!(system.find(B, A).is_none());
    system.put(A, C, InteractionRule { left_ports: vec![], right_ports: vec![] });
    assert_eq!(system.find(A, B).unwrap().left_ports.len(), 2);
    assert_eq!(system.find(A, C).unwrap().left_ports.len(), 0);
    let rows: BTreeMap<AgentId, usize> =
        system.rules.iter().map(|(k, v)| (*k, v.len())).collect();
    assert_eq!(rows.get(&A), Some(&2));
}

#[test]
fn linear_net_with_linear_rules_runs_without_blocking() {
    // A(x y) ~ B(y x) uses each variable twice; the net uses each wire twice
    let mut net = net_with(vec![(A, B, swap_rule())]);
    let p = net.new_var();
    let q = net.new_var();
    net.link(agent(A, vec![var(p), var(q)]), agent(B, vec![var(q), var(p)]));
    assert_eq!(net.normal(1000), Halt::Quiescent);
    assert!(net.stuck.is_empty());
    assert_eq!(net.vars.len(), 2);
}

#[test]
fn wire_used_three_times_blocks_the_run() {
    let mut net = Net::default();
    let x = net.new_var();
    net.link(agent(A, vec![]), var(x));
    net.link(agent(B, vec![]), var(x));
    net.link(agent(C, vec![]), var(x));
    assert_eq!(net.normal(1000), Halt::Blocked);
    assert_eq!(net.interactions.len(), 1);
    assert!(same_pair(&net.interactions[0], &(agent(A, vec![]), var(x))));
    assert_eq!(net.stuck.len(), 1);
    assert!(same_pair(&net.stuck[0], &(agent(C, vec![]), agent(B, vec![]))));
    assert!(!net.vars.contains(x));
}

#[test]
fn new_wire_is_none_that_the_net_handed_out_before() {
    let mut net = Net::default();
    let mut seen: Vec<VarId> = Vec::new();
    for round in 0..20 {
        let mut live: Vec<VarId> = Vec::new();
        for _ in 0..(5 + round) {
            let v = net.new_var();
            assert!(!seen.contains(&v), "{} was handed out before", v);
            seen.push(v);
            live.push(v);
        }
        // every other wire leaves the net, and its slot is filled again
        for (i, v) in live.iter().enumerate() {
            if i % 2 == 0 {
                assert_eq!(net.vars.remove(*v).is_some(), true);
                assert!(!net.vars.contains(*v));
            }
        }
    }
    // a wire that left through an interaction is not handed out again either
    let x = net.new_var();
    net.interact(var(x), agent(1, vec![]));
    net.interact(var(x), agent(2, vec![]));
    assert!(!net.vars.contains(x));
    for _ in 0..50 {
        assert_ne!(net.new_var(), x);
    }
}

#[test]
fn copy_of_a_store_hands_out_none_of_the_wires_that_left_the_store() {
    let mut store = VarStore::new();
    let gone: Vec<VarId> = (0..10).map(|_| store.insert(None)).collect();
    for v in gone.iter() {
        store.remove(*v);
    }
    let mut copy = store.clone();
    for _ in 0..30 {
        let v = copy.insert(None);
        assert!(!gone.contains(&v));
    }
}

fn alike(a: &Tree, b: &Tree, to: &mut BTreeMap<VarId, VarId>, back: &mut BTreeMap<VarId, VarId>) -> bool {
    match (a, b) {
        (Tree::Var { id: x }, Tree::Var { id: y }) => {
            *to.entry(*x).or_insert(*y) == *y && *back.entry(*y).or_insert(*x) == *x
        }
        (Tree::Agent { id: x, aux: p }, Tree::Agent { id: y, aux: q }) => {
            x == y && p.len() == q.len() && p.iter().zip(q.iter()).all(|(s, t)| alike(s, t, to, back))
        }
        _ => false,
    }
}

#[test]
fn run_ends_alike_whichever_wires_the_store_hands_out() {
    // A(x y) ~ B(y x) on a chain of pairs that share wires
    let mut net = net_with(vec![(A, B, swap_rule())]);
    let p = net.new_var();
    let q = net.new_var();
    let r = net.new_var();
    net.link(agent(A, vec![var(p), var(q)]), agent(B, vec![var(q), var(r)]));
    net.link(agent(A, vec![var(p), agent(C, vec![])]), agent(C, vec![var(r)]));
    // the same net in a store that has handed out wires before
    let mut other = net.clone();
    let spare: Vec<VarId> = (0..7).map(|_| other.new_var()).collect();
    for v in spare {
        other.vars.remove(v);
    }
    for steps in [0, 1, 2, 3, 1000] {
        let mut one = net.clone();
        let mut two = other.clone();
        assert_eq!(one.normal(steps), two.normal(steps));
        assert_eq!(one.vars.len(), two.vars.len());
        assert_eq!(one.interactions.len(), two.interactions.len());
        assert_eq!(one.stuck.len(), two.stuck.len());
        let mut to = BTreeMap::new();
        let mut back = BTreeMap::new();
        for (x, y) in one.interactions.iter().zip(two.interactions.iter()) {
            assert!(alike(&x.0, &y.0, &mut to, &mut back) && alike(&x.1, &y.1, &mut to, &mut back));
        }
        for (x, y) in one.stuck.iter().zip(two.stuck.iter()) {
            assert!(alike(&x.0, &y.0, &mut to, &mut back) && alike(&x.1, &y.1, &mut to, &mut back));
        }
        for (x, y) in to.iter() {
            match (one.vars.get(*x), two.vars.get(*y)) {
                (Some(Some(s)), Some(Some(t))) => assert!(alike(s, t, &mut to.clone(), &mut back.clone())),
                (Some(None), Some(None)) => {}
                (None, None) => {}
                (s, t) => panic!("{:?} {:?}", s, t),
            }
        }
    }
}
