use std::collections::BTreeMap;
use typed_inet::run::Net;
use typed_inet::show::decimal_string;
use typed_inet::term::AgentId;
use typed_inet::term::Tree;
use typed_inet::term::VarId;

fn ag(id: AgentId, aux: Vec<Tree>) -> Tree {
    Tree::Agent { id, aux }
}

fn wire(id: VarId) -> Tree {
    Tree::Var { id }
}

fn alike(a: &Tree, b: &Tree) -> bool {
    match (a, b) {
        (Tree::Var { id: x }, Tree::Var { id: y }) => x == y,
        (Tree::Agent { id: x, aux: p }, Tree::Agent { id: y, aux: q }) => {
            x == y && p.len() == q.len() && p.iter().zip(q.iter()).all(|(s, t)| alike(s, t))
        }
        _ => false,
    }
}

fn kind_name(id: AgentId) -> String {
    match id {
        1 => "Z".to_string(),
        2 => "S".to_string(),
        3 => "Pair".to_string(),
        _ => "?".to_string(),
    }
}

/// A net with `x` bound to `S(y)`, `y` bound to `Z`, `z` and `w` unbound.
fn bound_net() -> (Net, VarId, VarId, VarId, VarId) {
    let mut net = Net::default();
    let x = net.new_var();
    let y = net.new_var();
    let z = net.new_var();
    let w = net.new_var();
    net.interact(ag(2, vec![wire(y)]), wire(x));
    net.interact(ag(1, vec![]), wire(y));
    (net, x, y, z, w)
}

#[test]
fn substitute_ref_reads_through_bindings() {
    let (net, x, _y, z, _w) = bound_net();
    let t = ag(3, vec![wire(x), wire(z)]);
    let r = net.substitute_ref(&t);
    assert!(alike(&r, &ag(3, vec![ag(2, vec![ag(1, vec![])]), wire(z)])));
}

#[test]
fn substitute_ref_leaves_the_store_alone() {
    let (net, x, y, z, w) = bound_net();
    let t = ag(3, vec![wire(x), wire(x), wire(z)]);
    let _ = net.substitute_ref(&t);
    assert_eq!(net.vars.len(), 4);
    assert!(matches!(net.vars.get(x), Some(Some(_))));
    assert!(matches!(net.vars.get(y), Some(Some(_))));
    assert!(matches!(net.vars.get(z), Some(None)));
    assert!(matches!(net.vars.get(w), Some(None)));
}

#[test]
fn substitute_ref_twice_is_substitute_ref_once() {
    let (net, x, _y, z, _w) = bound_net();
    let t = ag(3, vec![wire(x), wire(z), wire(x)]);
    let once = net.substitute_ref(&t);
    let twice = net.substitute_ref(&once);
    assert!(alike(&once, &twice));
    assert_eq!(net.vars.len(), 4);
}

#[test]
fn substitute_ref_of_resolved_tree_is_the_tree() {
    let (net, _x, _y, z, w) = bound_net();
    let t = ag(3, vec![wire(z), ag(1, vec![]), wire(w), wire(9999)]);
    let r = net.substitute_ref(&t);
    assert!(alike(&r, &t));
}

#[test]
fn substitute_reads_the_same_and_clears_what_it_met() {
    let (mut net, x, y, z, w) = bound_net();
    let t = ag(3, vec![wire(x), wire(z)]);
    let read = net.substitute_ref(&t);
    let taken = net.substitute(t);
    assert!(alike(&read, &taken));
    assert!(!net.vars.contains(x));
    assert!(!net.vars.contains(y));
    assert!(matches!(net.vars.get(z), Some(None)));
    assert!(matches!(net.vars.get(w), Some(None)));
    assert_eq!(net.vars.len(), 2);
}

#[test]
fn substitute_keeps_unbound_wires_in_place() {
    let (mut net, _x, _y, z, w) = bound_net();
    let t = ag(3, vec![wire(z), wire(w), wire(z)]);
    let r = net.substitute(t.clone());
    assert!(alike(&r, &t));
    assert_eq!(net.vars.len(), 4);
}

#[test]
fn decimal_string_writes_digits() {
    assert_eq!(decimal_string(0), "0");
    assert_eq!(decimal_string(7), "7");
    assert_eq!(decimal_string(10), "10");
    assert_eq!(decimal_string(1234567890), "1234567890");
    assert_eq!(decimal_string(usize::MAX), usize::MAX.to_string());
}

#[test]
fn show_tree_writes_agents_ports_and_wires() {
    let (net, x, _y, z, w) = bound_net();
    let mut scope: BTreeMap<VarId, String> = BTreeMap::new();
    let t = ag(3, vec![wire(z), wire(x), wire(w), wire(z)]);
    let s = net.show_tree(&kind_name, &mut scope, &t);
    assert_eq!(s, "Pair(x0 S(Z) x1 x0)");
    assert_eq!(scope.len(), 2);
    assert_eq!(scope.get(&z), Some(&"x0".to_string()));
    assert_eq!(scope.get(&w), Some(&"x1".to_string()));
}

#[test]
fn show_tree_of_agent_without_ports_has_no_brackets() {
    let net = Net::default();
    let mut scope: BTreeMap<VarId, String> = BTreeMap::new();
    assert_eq!(net.show_tree(&kind_name, &mut scope, &ag(1, vec![])), "Z");
    assert_eq!(net.show_tree(&kind_name, &mut scope, &ag(2, vec![ag(1, vec![])])), "S(Z)");
    assert!(scope.is_empty());
}

#[test]
fn show_tree_uses_names_already_in_scope() {
    let net = Net::default();
    let mut scope: BTreeMap<VarId, String> = BTreeMap::new();
    scope.insert(5, "five".to_string());
    let s = net.show_tree(&kind_name, &mut scope, &ag(3, vec![wire(5), wire(6)]));
    assert_eq!(s, "Pair(five x1)");
    assert_eq!(scope.get(&6), Some(&"x1".to_string()));
}

#[test]
fn show_net_lists_waiting_and_stuck_pairs() {
    let (mut net, x, _y, z, _w) = bound_net();
    net.link(ag(1, vec![]), wire(z));
    net.link(wire(x), ag(3, vec![wire(z)]));
    net.stuck.push((ag(1, vec![]), ag(2, vec![wire(9)])));
    let mut scope: BTreeMap<VarId, String> = BTreeMap::new();
    let s = net.show_net(&kind_name, &mut scope);
    assert_eq!(s, "Interactions\n\tZ ~ x0\n\tS(Z) ~ Pair(x0)\nStuck:\n\tZ ~ S(x1)\n");
}

#[test]
fn show_net_of_empty_net() {
    let net = Net::default();
    let mut scope: BTreeMap<VarId, String> = BTreeMap::new();
    assert_eq!(net.show_net(&kind_name, &mut scope), "Interactions\nStuck:\n");
}

#[test]
fn substitute_ref_within_reads_as_far_as_the_depth_goes() {
    let (net, x, _y, z, _w) = bound_net();
    let t = ag(3, vec![wire(x), wire(z)]);
    // x is bound to S(y) and y to Z: two bindings inside one another
    assert!(net.substitute_ref_within(&t, 0).is_none());
    assert!(net.substitute_ref_within(&t, 1).is_none());
    let r = net.substitute_ref_within(&t, 2).unwrap();
    assert!(alike(&r, &ag(3, vec![ag(2, vec![ag(1, vec![])]), wire(z)])));
    assert!(alike(&net.substitute_ref_within(&t, 50).unwrap(), &r));
    assert!(alike(&net.substitute_ref_within(&r, 0).unwrap(), &r));
    assert!(alike(&r, &net.substitute_ref(&t)));
    assert_eq!(net.vars.len(), 4);
}

#[test]
fn substitute_ref_within_gives_up_on_a_circle() {
    let mut net = Net::default();
    let x = net.new_var();
    net.interact(ag(2, vec![wire(x)]), wire(x));
    for depth in [0usize, 1, 5, 1000] {
        assert!(net.substitute_ref_within(&wire(x), depth).is_none());
    }
    assert!(alike(&net.substitute_ref_within(&ag(1, vec![]), 0).unwrap(), &ag(1, vec![])));
    assert!(matches!(net.vars.get(x), Some(Some(_))));
}
