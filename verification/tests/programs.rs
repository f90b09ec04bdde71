use typed_inet::builder::ProgramBuilder;
use typed_inet::finish::BuildError;
use typed_inet::finish::Program;
use typed_inet::parser::CodeParser;
use typed_inet::run::Net;
use typed_inet::syntax::Statement;
use typed_inet::term::AgentId;
use typed_inet::term::Tree;
use typed_inet::typecheck::TypeError;

fn book(text: &str) -> Vec<Statement> {
    CodeParser::new(text).parse_book().unwrap()
}

fn loaded(text: &str) -> ProgramBuilder {
    let mut builder = ProgramBuilder::default();
    builder.load_book(book(text)).unwrap();
    builder
}

fn program(text: &str) -> Program {
    loaded(text).finish().unwrap()
}

fn id_of(p: &Program, name: &str) -> AgentId {
    p.agent_scope.get(&name.to_string()).unwrap()
}

fn shape(p: &Program, t: &Tree) -> String {
    match t {
        Tree::Var { .. } => "_".to_string(),
        Tree::Agent { id, aux } => {
            let inner: Vec<String> = aux.iter().map(|c| shape(p, c)).collect();
            format!("{}({})", p.lookup_agent(*id).unwrap(), inner.join(" "))
        }
    }
}

fn wires(t: &Tree, out: &mut Vec<u64>) {
    match t {
        Tree::Var { id } => out.push(*id),
        Tree::Agent { aux, .. } => aux.iter().for_each(|c| wires(c, out)),
    }
}

const NATS: &str = "Z() : Nat\nS(a -> a : Nat) : Nat\n";

#[test]
fn agents_get_one_identifier_for_the_whole_program() {
    let p = program("Z() : Nat\nS(a -> a : Nat) : Nat\nZ() ~ S(b)\ncheck no Z() ~ Nat()");
    let z = id_of(&p, "Z");
    let s = id_of(&p, "S");
    let nat = id_of(&p, "Nat");
    assert_ne!(z, s);
    assert_ne!(z, nat);
    assert_ne!(s, nat);
    assert_eq!(p.declarations[0].agent.id, z);
    assert_eq!(p.declarations[0].parent.id, nat);
    assert_eq!(p.declarations[1].agent.id, s);
    assert_eq!(p.declarations[1].parent.id, nat);
    let def = p.definitions.last().unwrap();
    assert_eq!(def.left.id, z);
    assert_eq!(def.right.id, s);
    assert_eq!(p.checks[0].1.interactions[0].0.agent_id(), Some(z));
    assert_eq!(p.checks[0].1.interactions[0].1.agent_id(), Some(nat));
}

#[test]
fn names_come_in_the_order_in_which_they_are_met() {
    let p = program("Z() : Nat");
    let names: Vec<String> =
        (0..p.agent_scope.len()).map(|i| p.agent_scope.entry(i).0).collect();
    assert_eq!(names, vec!["Z", "Nat", "__ANNOTATOR", "__ANN"]);
    assert_eq!(p.annotator_id, id_of(&p, "__ANNOTATOR"));
    assert_eq!(p.ann_id, id_of(&p, "__ANN"));
    assert_eq!(p.agents.len(), 4);
}

#[test]
fn bookkeeping_kinds_are_made_by_finish_where_no_declaration_made_them() {
    let b = loaded("A() ~ B()");
    assert_eq!(b.agent_scope.len(), 2);
    assert_eq!(b.definitions.len(), 1);
    let p = b.finish().unwrap();
    assert_eq!(p.agent_scope.len(), 4);
    assert_ne!(p.annotator_id, p.ann_id);
    assert_eq!(p.definitions.len(), 3);
    assert!(p.system.find(id_of(&p, "A"), id_of(&p, "B")).is_some());
    assert_eq!(p.system.find(p.annotator_id, p.annotator_id).unwrap().left_ports.len(), 1);
    assert_eq!(p.system.find(p.ann_id, p.ann_id).unwrap().right_ports.len(), 2);
}

#[test]
fn every_definition_of_a_finished_program_has_its_rule() {
    for text in ["A(x) ~ B(x)", "", "Z() : Nat\nS(a -> a : Nat) : Nat\nZ() ~ S(b)", "check no A() ~ B()"] {
        let p = program(text);
        let rules: usize = p.system.rules.values().map(|row| row.len()).sum();
        assert_eq!(rules, p.definitions.len());
        for d in p.definitions.iter() {
            let rule = p.system.find(d.left.id, d.right.id).unwrap();
            assert_eq!(format!("{:?}", rule.left_ports), format!("{:?}", d.left.aux));
            assert_eq!(format!("{:?}", rule.right_ports), format!("{:?}", d.right.aux));
        }
    }
}

#[test]
fn first_declaration_makes_the_bookkeeping_kinds_with_their_rules() {
    let p = program(NATS);
    assert_eq!(p.declarations.len(), 2);
    assert_eq!(p.definitions.len(), 4);
    let ann = p.ann_id;
    let annotator = p.annotator_id;
    assert_eq!((p.definitions[0].left.id, p.definitions[0].right.id), (annotator, annotator));
    assert_eq!((p.definitions[1].left.id, p.definitions[1].right.id), (ann, ann));
    assert_eq!(p.definitions[0].left.aux.len(), 1);
    assert_eq!(p.definitions[1].left.aux.len(), 2);
    let mut w = vec![];
    p.definitions[1].left.aux.iter().for_each(|t| wires(t, &mut w));
    p.definitions[1].right.aux.iter().for_each(|t| wires(t, &mut w));
    assert_eq!(w.len(), 4);
    assert_ne!(w[0], w[1]);
    assert_eq!((w[0], w[1]), (w[2], w[3]));
    assert!(p.system.find(ann, ann).is_some());
    assert!(p.system.find(annotator, annotator).is_some());
}

#[test]
fn annotator_rule_of_a_declaration() {
    let p = program("Cons(h -> g : T  t -> u : List(T)) : List(T)");
    let def = p.definitions.last().unwrap();
    assert_eq!(def.left.id, p.annotator_id);
    assert_eq!(def.left.aux.len(), 1);
    assert_eq!(shape(&p, &def.left.aux[0]), "__ANN(Cons(_ _) List(T()))");
    assert_eq!(def.right.id, id_of(&p, "Cons"));
    let right: Vec<String> = def.right.aux.iter().map(|t| shape(&p, t)).collect();
    assert_eq!(right, vec!["__ANN(_ T())", "__ANN(_ List(T()))"]);
    // left holds the trees after, right the trees before
    let decl = &p.declarations[0];
    let mut before = vec![];
    let mut after = vec![];
    for port in decl.agent.aux.iter() {
        wires(&port.0, &mut before);
        wires(&port.1, &mut after);
    }
    let mut on_left = vec![];
    wires(&def.left.aux[0], &mut on_left);
    let mut on_right = vec![];
    def.right.aux.iter().for_each(|t| wires(t, &mut on_right));
    assert_eq!(on_left, after);
    assert_eq!(on_right, before);
    assert_eq!(before.len(), 2);
    assert_ne!(before[0], after[0]);
    let rule = p.system.find(p.annotator_id, id_of(&p, "Cons")).unwrap();
    assert_eq!(rule.left_ports.len(), 1);
    assert_eq!(rule.right_ports.len(), 2);
}

#[test]
fn declaration_keeps_its_index_trees() {
    let p = program("Nil() : t : Type : List(t)");
    let decl = &p.declarations[0];
    assert_eq!(decl.intermediate.len(), 2);
    assert!(matches!(decl.intermediate[0], Tree::Var { .. }));
    assert_eq!(shape(&p, &decl.intermediate[1]), "Type()");
    assert_eq!(shape(&p, &Tree::Agent { id: decl.parent.id, aux: decl.parent.aux.clone() }), "List(_)");
    let mut w = vec![];
    wires(&decl.intermediate[0], &mut w);
    wires(&decl.parent.aux[0], &mut w);
    assert_eq!(w[0], w[1]);
}

#[test]
fn variables_are_local_to_a_statement() {
    let mut b = ProgramBuilder::default();
    let mut statements = book("A(x y) ~ B(y x)\nC(x) ~ D(x)");
    let second = statements.pop().unwrap();
    let first = statements.pop().unwrap();
    b.load_statement(&first);
    assert_eq!(b.var_scope.len(), 0);
    assert_eq!(b.net.vars.len(), 0);
    b.load_statement(&second);
    assert_eq!(b.var_scope.len(), 0);
    let d0 = &b.definitions[0];
    let mut w = vec![];
    d0.left.aux.iter().for_each(|t| wires(t, &mut w));
    d0.right.aux.iter().for_each(|t| wires(t, &mut w));
    assert_eq!(w.len(), 4);
    assert_ne!(w[0], w[1]);
    assert_eq!((w[0], w[1]), (w[3], w[2]));
    assert_eq!(d0.net.vars.len(), 2);
    assert_eq!(b.definitions[1].net.vars.len(), 1);
}

#[test]
fn check_holds_its_pair_after_what_was_written_inside() {
    let p = program("check yes S(a with a ~ Z()) ~ Z() with P() ~ Q()");
    assert_eq!(p.checks.len(), 1);
    let (expected, net) = &p.checks[0];
    assert!(*expected);
    let pairs: Vec<String> = net
        .interactions
        .iter()
        .map(|(a, b)| format!("{} ~ {}", shape(&p, a), shape(&p, b)))
        .collect();
    assert_eq!(pairs, vec!["_ ~ Z()", "P() ~ Q()", "S(_) ~ Z()"]);
    assert_eq!(net.vars.len(), 1);
    assert!(net.stuck.is_empty());
}

#[test]
fn interactions_written_inside_a_statement_stay_with_it() {
    let b = loaded("S(a with a ~ W() -> a : Nat) : Nat\ncheck yes Z() ~ Z()");
    assert_eq!(b.declarations[0].net.interactions.len(), 1);
    assert_eq!(b.checks[0].1.interactions.len(), 1);
    assert_eq!(b.checks[0].1.vars.len(), 0);
    assert!(b.net.interactions.is_empty());
    // the annotator rule holds a copy of the declaration's net
    assert_eq!(b.definitions.last().unwrap().net.interactions.len(), 1);
    assert_eq!(b.definitions[0].net.interactions.len(), 0);
}

#[test]
fn drain_takes_the_net_and_leaves_an_empty_one() {
    let mut b = ProgramBuilder::default();
    let mut parser = CodeParser::new("S(a) with a ~ Z()");
    let tree = parser.parse_tree().unwrap();
    let flat = b.load_tree(&tree);
    assert!(matches!(flat, Tree::Agent { .. }));
    assert_eq!(b.net.interactions.len(), 1);
    let net: Net = b.drain();
    assert_eq!(net.interactions.len(), 1);
    assert_eq!(net.vars.len(), 1);
    assert!(b.net.interactions.is_empty());
    assert_eq!(b.net.vars.len(), 0);
    assert_eq!(b.var_scope.len(), 1);
}

#[test]
fn definition_with_interactions_inside_cannot_be_finished() {
    let b = loaded("A() ~ A()\nB(x) ~ C(y with y ~ x)");
    assert_eq!(b.finish().err(), Some(BuildError::LeftoverNet { definition: 1 }));
}

#[test]
fn declaration_with_interactions_inside_cannot_be_finished() {
    let b = loaded("S(a with a ~ W() -> a : Nat) : Nat");
    assert_eq!(b.finish().err(), Some(BuildError::LeftoverNet { definition: 2 }));
}

#[test]
fn two_rules_for_the_same_kinds_cannot_be_finished() {
    let b = loaded("A(x) ~ B(x)\nB() ~ A()\nA() ~ B()");
    let a = b.agent_scope.get(&"A".to_string()).unwrap();
    let bb = b.agent_scope.get(&"B".to_string()).unwrap();
    assert_eq!(b.finish().err(), Some(BuildError::DuplicateRule { left: a, right: bb }));
}

#[test]
fn rules_for_the_same_kinds_in_both_orders_can_be_finished() {
    let p = program("A(x) ~ B(x)\nB() ~ A()");
    let a = id_of(&p, "A");
    let b = id_of(&p, "B");
    assert_eq!(p.system.find(a, b).unwrap().left_ports.len(), 1);
    assert_eq!(p.system.find(b, a).unwrap().left_ports.len(), 0);
}

#[test]
fn duplicate_is_found_before_the_net_of_the_same_definition() {
    let b = loaded("A() ~ A()\nA(x with x ~ A()) ~ A()");
    let a = b.agent_scope.get(&"A".to_string()).unwrap();
    assert_eq!(b.finish().err(), Some(BuildError::DuplicateRule { left: a, right: a }));
}

#[test]
fn has_room_for_ordinary_statements() {
    let b = ProgramBuilder::default();
    for s in book("Z() : Nat\nA(x) ~ B(x)\ncheck no Z() ~ Nat()").iter() {
        assert!(b.has_room(s));
    }
    assert!(b.fits(10));
    assert!(!b.fits(usize::MAX));
}

#[test]
fn direct_instance_check_meets_the_type_without_annotator_rule() {
    // the declared type has no declaration of its own, so nothing lets the
    // annotator trigger open it
    let mut p = program("Z() : Nat\ncheck yes Z() ~ Nat()");
    let (expected, net) = p.checks.pop().unwrap();
    assert!(expected);
    let r = p.typecheck_net(net, 1000);
    assert_eq!(
        r,
        Err(TypeError::Undefined { left: id_of(&p, "Nat"), right: p.annotator_id })
    );
    assert_eq!(
        p.type_error_message(id_of(&p, "Nat"), p.annotator_id),
        "When typechecking net\n:\tUndefined Interaction:\n\t\tNat ~ __ANNOTATOR"
    );
}

#[test]
fn check_of_instance_against_declared_type_passes_with_rules_for_both() {
    let text = "Z() : Nat\nNat() : Type\nZ() ~ Nat()\nNat() ~ Type()\ncheck yes Z() ~ Nat()";
    let mut p = program(text);
    assert!(p.check_well_typedness(1000).is_ok());
    assert!(p.checks.is_empty());
}

#[test]
fn zero_against_successor_is_rejected() {
    let mut p = program("Z() : Nat\nS(a -> a : Nat) : Nat\ncheck no Z() ~ S(Z())");
    let net = p.checks[0].1.clone();
    let r = p.typecheck_net(net, 1000);
    match r {
        Err(TypeError::Undefined { left, right }) => {
            assert_ne!(left, p.ann_id);
            assert_ne!(right, p.ann_id);
            let names = (p.lookup_agent(left).unwrap(), p.lookup_agent(right).unwrap());
            assert_eq!(names, ("Z".to_string(), "S".to_string()));
        }
        other => panic!("{:?}", other),
    }
    assert!(p.check_well_typedness(1000).is_ok());
}

const WELL_TYPED: &str =
    "Z() : Nat\nS(a -> a : Nat) : Nat\nZ() ~ Z()\nS(a) ~ S(a)\nNat() ~ Nat()\n";

#[test]
fn equal_numbers_check() {
    let mut p = program(&format!(
        "{}check yes Z() ~ Z()\ncheck yes S(Z()) ~ S(Z())\ncheck yes S(S(Z())) ~ S(S(Z()))",
        WELL_TYPED
    ));
    for (expected, net) in p.checks.iter() {
        assert!(*expected);
        assert_eq!(p.typecheck_net(net.clone(), 10_000), Ok(()));
    }
    assert!(p.check_well_typedness(10_000).is_ok());
    assert!(p.checks.is_empty());
}

#[test]
fn unequal_numbers_are_rejected() {
    let mut p = program(&format!("{}check no S(Z()) ~ S(S(Z()))", WELL_TYPED));
    let r = p.typecheck_net(p.checks[0].1.clone(), 10_000);
    let z = id_of(&p, "Z");
    let s = id_of(&p, "S");
    assert_eq!(r, Err(TypeError::Undefined { left: z, right: s }));
    assert!(p.check_well_typedness(10_000).is_ok());
}

#[test]
fn check_ends_the_same_way_whichever_wires_the_store_hands_out() {
    for text in [
        "check yes S(S(Z())) ~ S(S(Z()))",
        "check no S(Z()) ~ S(S(Z()))",
        "check yes Z() ~ S(Z())",
    ] {
        let p = program(&format!("{}{}", WELL_TYPED, text));
        let net = p.checks[0].1.clone();
        // the same net in a store that has handed out wires before
        let mut other = net.clone();
        let spare: Vec<u64> = (0..5).map(|_| other.new_var()).collect();
        for v in spare {
            other.vars.remove(v);
        }
        assert_eq!(other.vars.len(), net.vars.len());
        for steps in [0, 3, 7, 10_000] {
            let first = p.typecheck_net(net.clone(), steps);
            assert_eq!(p.typecheck_net(net.clone(), steps), first);
            assert_eq!(p.typecheck_net(other.clone(), steps), first);
        }
    }
}

#[test]
fn check_that_comes_out_otherwise_is_reported_with_its_place() {
    let mut p = program(&format!(
        "{}check yes Z() ~ Z()\ncheck yes Z() ~ S(Z())\ncheck no Z() ~ Z()",
        WELL_TYPED
    ));
    let e = p.check_well_typedness(10_000).unwrap_err();
    assert_eq!(e.check, 1);
    assert!(matches!(e.outcome, Err(TypeError::Undefined { .. })));
    assert!(p.checks.is_empty());
    let mut q = program(&format!("{}check no Z() ~ Z()", WELL_TYPED));
    let e = q.check_well_typedness(10_000).unwrap_err();
    assert_eq!(e.check, 0);
    assert_eq!(e.outcome, Ok(()));
}

#[test]
fn check_runs_out_of_steps() {
    let mut p = program(&format!("{}check yes S(Z()) ~ S(Z())", WELL_TYPED));
    let net = p.checks[0].1.clone();
    assert_eq!(p.typecheck_net(net.clone(), 0), Err(TypeError::OutOfSteps));
    assert_eq!(p.typecheck_net(net.clone(), 5), Err(TypeError::OutOfSteps));
    let mut needed = 0;
    while p.typecheck_net(net.clone(), needed) == Err(TypeError::OutOfSteps) {
        needed += 1;
    }
    assert_eq!(p.typecheck_net(net.clone(), needed), Ok(()));
    assert_eq!(p.typecheck_net(net, needed + 1), Ok(()));
    let e = p.check_well_typedness(3).unwrap_err();
    assert_eq!(e.check, 0);
    assert_eq!(e.outcome, Err(TypeError::OutOfSteps));
}

#[test]
fn check_of_nothing_passes() {
    let p = program(WELL_TYPED);
    assert_eq!(p.typecheck_net(Net::default(), 0), Ok(()));
}

#[test]
fn check_is_blocked_by_a_wire_that_the_net_does_not_hold() {
    let p = program(WELL_TYPED);
    let mut net = Net::default();
    net.link(Tree::Var { id: 999 }, Tree::Agent { id: id_of(&p, "Z"), aux: vec![] });
    assert_eq!(p.typecheck_net(net, 1000), Err(TypeError::Blocked));
}

#[test]
fn stuck_pair_with_a_wire_is_malformed() {
    let p = program(WELL_TYPED);
    let mut net = Net::default();
    net.stuck.push((Tree::Var { id: 1 }, Tree::Agent { id: id_of(&p, "Z"), aux: vec![] }));
    assert_eq!(p.settle(net, 10), Err(TypeError::Malformed));
}

#[test]
fn annotation_with_one_port_is_malformed() {
    let p = program(WELL_TYPED);
    let z = Tree::Agent { id: id_of(&p, "Z"), aux: vec![] };
    let mut net = Net::default();
    net.stuck.push((z.clone(), Tree::Agent { id: p.ann_id, aux: vec![z.clone()] }));
    assert_eq!(p.settle(net, 10), Err(TypeError::Malformed));
}

#[test]
fn annotation_in_a_stuck_pair_is_taken_off() {
    let p = program(WELL_TYPED);
    let z = Tree::Agent { id: id_of(&p, "Z"), aux: vec![] };
    let nat = Tree::Agent { id: id_of(&p, "Nat"), aux: vec![] };
    let wrapped = Tree::Agent { id: p.ann_id, aux: vec![z.clone(), nat.clone()] };
    let mut left = Net::default();
    left.system = p.system.clone();
    left.stuck.push((wrapped.clone(), z.clone()));
    assert_eq!(p.settle(left, 10), Ok(()));
    let mut right = Net::default();
    right.system = p.system.clone();
    right.stuck.push((z.clone(), wrapped.clone()));
    assert_eq!(p.settle(right, 10), Ok(()));
    // what is wrapped is the tree before the last; the last is dropped
    let odd = Tree::Agent { id: p.ann_id, aux: vec![nat.clone(), z.clone(), nat.clone()] };
    let mut three = Net::default();
    three.system = p.system.clone();
    three.stuck.push((odd, z.clone()));
    assert_eq!(p.settle(three, 10), Ok(()));
    let mut wrong = Net::default();
    wrong.system = p.system.clone();
    wrong.stuck.push((wrapped, nat));
    assert_eq!(
        p.settle(wrong, 10),
        Err(TypeError::Undefined { left: id_of(&p, "Z"), right: id_of(&p, "Nat") })
    );
}

#[test]
fn prepare_annotates_each_pair() {
    let p = program(&format!("{}check yes Z() ~ S(Z())", WELL_TYPED));
    let net = p.checks[0].1.clone();
    let ready = p.prepare(net);
    assert_eq!(ready.interactions.len(), 2);
    assert_eq!(ready.vars.len(), 1);
    assert_eq!(shape(&p, &ready.interactions[0].0), "Z()");
    assert_eq!(shape(&p, &ready.interactions[0].1), "__ANNOTATOR(_)");
    assert_eq!(shape(&p, &ready.interactions[1].0), "S(Z())");
    assert_eq!(shape(&p, &ready.interactions[1].1), "__ANNOTATOR(_)");
    let mut w = vec![];
    wires(&ready.interactions[0].1, &mut w);
    wires(&ready.interactions[1].1, &mut w);
    assert_eq!(w[0], w[1]);
    assert!(std::rc::Rc::ptr_eq(&ready.system, &p.system));
}

#[test]
fn completeness_names_the_first_missing_pair() {
    let p = program("Z() : Nat\nS(a -> a : Nat) : Nat\nZ() ~ Z()\nNat() ~ Nat()");
    assert_eq!(p.missing_pair(), Some((id_of(&p, "Z"), id_of(&p, "S"))));
    assert_eq!(
        p.check_completeness(),
        Err("Undefined interaction between Z and S".to_string())
    );
}

#[test]
fn completeness_takes_a_rule_in_either_order() {
    let p = program(
        "Z() : Nat\nS(a -> a : Nat) : Nat\nZ() ~ Z()\nS(a) ~ Z()\nS(a) ~ S(a)\nNat() ~ Nat()",
    );
    assert_eq!(p.missing_pair(), None);
    assert_eq!(p.check_completeness(), Ok(()));
    assert!(p.has_definition(id_of(&p, "Z"), id_of(&p, "S")));
    assert!(p.has_definition(id_of(&p, "S"), id_of(&p, "Z")));
    assert!(!p.has_definition(id_of(&p, "Nat"), id_of(&p, "Z")));
    assert_eq!(p.require_defined(id_of(&p, "S"), id_of(&p, "Z")), Ok(()));
    assert_eq!(
        p.require_defined(id_of(&p, "Nat"), id_of(&p, "Z")),
        Err("Undefined interaction between Nat and Z".to_string())
    );
}

#[test]
fn completeness_of_a_program_without_declarations() {
    let p = program("A() ~ B()");
    assert_eq!(p.check_completeness(), Ok(()));
}

#[test]
fn instances_follow_the_declared_types() {
    let text = "Z() : Nat\nS(a -> a : Nat) : Nat\nTrue() : Bool\nNil() : t : List(t)\nNat() : Type";
    let p = program(text);
    let ids = |names: &[&str]| -> Vec<AgentId> { names.iter().map(|n| id_of(&p, n)).collect() };
    assert_eq!(p.get_nth_instances(id_of(&p, "Nat"), 0), ids(&["Z", "S"]));
    assert_eq!(p.get_nth_instances(id_of(&p, "Bool"), 0), ids(&["True"]));
    assert_eq!(p.get_nth_instances(id_of(&p, "Type"), 0), ids(&["Nat"]));
    assert_eq!(p.get_nth_instances(id_of(&p, "List"), 0), ids(&[]));
    assert_eq!(p.get_nth_instances(id_of(&p, "List"), 1), ids(&["Nil"]));
    assert_eq!(p.get_nth_instances(id_of(&p, "Nat"), 1), ids(&[]));
    assert_eq!(p.get_nth_instances(id_of(&p, "Z"), 0), ids(&[]));
    assert_eq!(p.get_nth_instances(id_of(&p, "Nat"), usize::MAX), ids(&[]));
}

#[test]
fn instances_of_a_constructor_go_one_level_deeper() {
    // Vec is declared with no index tree and is itself used as a type with one
    let text = "Vec() : VecKind\nVNil() : n : VecKind\nVOne() : n : Other";
    let p = program(text);
    let vec_kind = id_of(&p, "VecKind");
    assert_eq!(p.get_nth_instances(vec_kind, 0), vec![id_of(&p, "Vec")]);
    assert_eq!(p.get_nth_instances(vec_kind, 1), vec![id_of(&p, "VNil")]);
    assert_eq!(p.get_nth_instances(id_of(&p, "Vec"), 0), vec![id_of(&p, "VNil")]);
}

#[test]
fn lookup_agent_gives_the_name() {
    let p = program("Z() : Nat");
    assert_eq!(p.lookup_agent(id_of(&p, "Nat")), Some("Nat".to_string()));
    assert_eq!(p.lookup_agent(p.ann_id), Some("__ANN".to_string()));
    assert_eq!(p.lookup_agent(12345), None);
}

#[test]
fn pattern_as_tree() {
    let p = program("A(x B()) ~ C()");
    let def = &p.definitions[0];
    let left = typed_inet::program::UntypedMatch {
        id: def.left.id,
        aux: def.left.aux.clone(),
    };
    assert_eq!(shape(&p, &left.into_tree()), "A(_ B())");
    let again = typed_inet::program::UntypedMatch {
        id: def.left.id,
        aux: def.left.aux.clone(),
    };
    let t: Tree = again.into();
    assert_eq!(shape(&p, &t), "A(_ B())");
}

#[test]
fn clones_of_declarations_and_definitions_are_equal() {
    let p = program("Cons(h -> g : T  t -> u : List(T)) : n : List(T)\nA(x B()) ~ C(x)");
    let d = p.declarations[0].clone();
    assert_eq!(format!("{:?}", d), format!("{:?}", p.declarations[0]));
    for def in p.definitions.iter() {
        assert_eq!(format!("{:?}", def.clone()), format!("{:?}", def));
    }
}

#[test]
fn whole_run_of_a_book() {
    let text = "; naturals\nZ() : Nat\nS(a -> a : Nat) : Nat\nZ() ~ Z()\nS(a) ~ S(a)\nZ() ~ S(a)\nNat() ~ Nat()\ncheck yes S(Z()) ~ S(Z())\ncheck no Nat() ~ Z()\n";
    let mut p = program(text);
    let rules: usize = p.system.rules.values().map(|row| row.len()).sum();
    assert_eq!(rules, 8);
    assert_eq!(p.checks.len(), 2);
    assert!(p.check_well_typedness(100_000).is_ok());
    assert_eq!(p.check_completeness(), Ok(()));
}

#[test]
fn declaration_asks_room_only_for_kinds_that_are_to_be_made() {
    let statements = book("Z() : Nat\nS(a -> a : Nat) : Nat");
    let mut b = ProgramBuilder::default();
    assert!(b.has_room(&statements[0]));
    assert_eq!(b.kinds_needed(), 10);
    b.load_statement(&statements[0]);
    assert_eq!(b.kinds_needed(), 0);
    assert!(b.has_room(&statements[1]));
    let mut only_ann = ProgramBuilder::default();
    only_ann.load_book(book("__ANN(x y) ~ __ANN(x y)")).unwrap();
    assert_eq!(only_ann.kinds_needed(), 4);
    let p = only_ann.finish().unwrap();
    assert_eq!(p.definitions.len(), 2);
    assert!(p.system.find(p.ann_id, p.ann_id).is_some());
    assert!(p.system.find(p.annotator_id, p.annotator_id).is_some());
}

#[test]
fn patterns_tell_which_agents_they_name() {
    let statements = book("Cons(h -> g : T  t -> u : List(T with A() ~ B(x))) : n : Vec(n)");
    match &statements[0] {
        Statement::Decl(a, vars, t) => {
            for name in ["Cons", "T", "List", "A", "B"] {
                assert!(a.names(&name.to_string()), "{}", name);
            }
            for name in ["h", "Vec", "n", "__ANN", ""] {
                assert!(!a.names(&name.to_string()), "{}", name);
            }
            assert!(t.names(&"Vec".to_string()));
            assert!(!t.names(&"n".to_string()));
            assert!(!typed_inet::syntax::any_names(vars, &"Vec".to_string()));
            assert!(vars[0].count_nodes() == 1);
        }
        other => panic!("{:?}", other),
    }
}
