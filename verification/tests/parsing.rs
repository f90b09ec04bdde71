use typed_inet::parser::CodeParser;
use typed_inet::parser::ParseError;
use typed_inet::syntax::Statement;
use typed_inet::syntax::Tree;

fn written(t: &Tree) -> String {
    match t {
        Tree::Agent { name, aux } => {
            let inner: Vec<String> = aux.iter().map(written).collect();
            format!("{}({})", name, inner.join(" "))
        }
        Tree::Variable { name } => format!("${}", name),
        Tree::With { rest, redex } => {
            format!("[{} with {} ~ {}]", written(rest), written(&redex.0), written(&redex.1))
        }
    }
}

fn expected(e: ParseError) -> (usize, String) {
    match e {
        ParseError::Expected { at, what } => (at, what),
        ParseError::Plain { what } => panic!("plain fault: {}", what),
    }
}

fn plain(e: ParseError) -> String {
    match e {
        ParseError::Plain { what } => what,
        ParseError::Expected { at, what } => panic!("fault at {}: {}", at, what),
    }
}

#[test]
fn new_parser_stands_at_the_start() {
    let p = CodeParser::new("Z() : Nat");
    assert_eq!(p.position(), 0);
    assert_eq!(p.peek_one(), Some('Z'));
    let q = CodeParser::new("");
    assert_eq!(q.position(), 0);
    assert_eq!(q.peek_one(), None);
}

#[test]
fn skip_trivia_passes_blanks_and_semicolon_comments() {
    let mut p = CodeParser::new(" \t\r\n ; a comment ~ ( \n\x0C; another\n  Z");
    p.skip_trivia();
    assert_eq!(p.peek_one(), Some('Z'));
    let at = p.position();
    p.skip_trivia();
    assert_eq!(p.position(), at);
}

#[test]
fn skip_trivia_stops_at_slash_comments() {
    let mut p = CodeParser::new("  // not a comment here\nZ");
    p.skip_trivia();
    assert_eq!(p.position(), 2);
    assert_eq!(p.peek_one(), Some('/'));
}

#[test]
fn skip_trivia_counts_characters_not_bytes() {
    let mut p = CodeParser::new("; é漢\nλ");
    p.skip_trivia();
    assert_eq!(p.position(), 5);
    assert_eq!(p.peek_one(), Some('λ'));
}

#[test]
fn skip_trivia_ends_with_comment_at_end_of_text() {
    let mut p = CodeParser::new("  ; no newline");
    p.skip_trivia();
    assert_eq!(p.position(), 14);
    assert_eq!(p.peek_one(), None);
}

#[test]
fn skip_trivia_does_not_pass_no_break_space() {
    let mut p = CodeParser::new("\u{a0}Z");
    p.skip_trivia();
    assert_eq!(p.position(), 0);
}

#[test]
fn consume_passes_blanks_and_slash_comments() {
    let mut p = CodeParser::new("  // c\n // d\n  ->x");
    assert!(p.consume("->").is_ok());
    assert_eq!(p.peek_one(), Some('x'));
}

#[test]
fn consume_does_not_pass_semicolon_comments() {
    let mut p = CodeParser::new(" ; c\n->");
    let (at, what) = expected(p.consume("->").unwrap_err());
    assert_eq!(at, 1);
    assert_eq!(what, "->");
    assert_eq!(p.position(), 1);
}

#[test]
fn consume_fails_on_other_text_and_at_the_end() {
    let mut p = CodeParser::new("-x");
    assert_eq!(expected(p.consume("->").unwrap_err()), (0, "->".to_string()));
    let mut q = CodeParser::new("  ");
    assert_eq!(expected(q.consume("~").unwrap_err()), (2, "~".to_string()));
}

#[test]
fn starts_with_looks_at_the_next_characters() {
    let mut p = CodeParser::new("check yes");
    assert!(p.starts_with("check"));
    assert!(p.starts_with(""));
    assert!(!p.starts_with("checks"));
    assert!(!p.starts_with("check yes!"));
    p.consume("check").unwrap();
    assert!(p.starts_with(" yes"));
}

#[test]
fn name_characters() {
    for c in "aZ09_-+*/<>[]{}.,;'\"!?@#$%^&|\\éλ".chars() {
        assert!(CodeParser::is_name_char(c), "{:?}", c);
    }
    for c in ":=~() \t\n\r\u{a0}\u{2003}\u{0}\u{7f}\u{85}".chars() {
        assert!(!CodeParser::is_name_char(c), "{:?}", c);
    }
}

#[test]
fn parse_name_takes_name_characters() {
    let mut p = CodeParser::new("  ; c\n  Nat-1(x)");
    assert_eq!(p.parse_name().unwrap(), "Nat-1");
    assert_eq!(p.peek_one(), Some('('));
    let mut q = CodeParser::new("λx→y z");
    assert_eq!(q.parse_name().unwrap(), "λx→y");
    assert_eq!(q.position(), 4);
}

#[test]
fn parse_name_wants_a_name() {
    let mut p = CodeParser::new("   (x)");
    assert_eq!(expected(p.parse_name().unwrap_err()), (3, "name".to_string()));
    assert_eq!(p.position(), 3);
    let mut q = CodeParser::new("");
    assert_eq!(expected(q.parse_name().unwrap_err()), (0, "name".to_string()));
}

#[test]
fn parse_var_wants_a_lowercase_start() {
    let mut p = CodeParser::new("  abc Def");
    assert_eq!(p.parse_var().unwrap(), "abc");
    assert_eq!(plain(p.parse_var().unwrap_err()), "Not a var name char");
    assert_eq!(p.peek_one(), Some('D'));
    let mut q = CodeParser::new("");
    assert_eq!(plain(q.parse_var().unwrap_err()), "Not a var name char");
    let mut r = CodeParser::new("éa");
    assert_eq!(r.parse_var().unwrap(), "éa");
}

#[test]
fn parse_tree_reads_agents_and_variables() {
    let mut p = CodeParser::new("S( a  Pair(Z() b)\n Z ) rest");
    let t = p.parse_tree().unwrap();
    assert_eq!(written(&t), "S($a Pair(Z() $b) Z())");
    assert_eq!(p.peek_one(), Some('r'));
}

#[test]
fn parse_tree_takes_lowercase_names_as_variables_without_ports() {
    let mut p = CodeParser::new("x(Z)");
    let t = p.parse_tree().unwrap();
    assert_eq!(written(&t), "$x");
    assert_eq!(p.peek_one(), Some('('));
}

#[test]
fn parse_tree_reads_with() {
    let mut p = CodeParser::new("S(a) with a ~ Z() with b ~ c ; done\n)");
    let t = p.parse_tree().unwrap();
    assert_eq!(written(&t), "[S($a) with $a ~ [Z() with $b ~ $c]]");
    assert_eq!(p.peek_one(), Some(')'));
}

#[test]
fn parse_tree_takes_the_word_with_as_a_variable() {
    let mut p = CodeParser::new("with a ~ b");
    let t = p.parse_tree().unwrap();
    assert_eq!(written(&t), "$with");
}

#[test]
fn parse_tree_takes_a_name_that_begins_with_with_as_with() {
    let mut p = CodeParser::new("Z without ~ b");
    let t = p.parse_tree().unwrap();
    assert_eq!(written(&t), "[Z() with $out ~ $b]");
}

#[test]
fn parse_tree_faults() {
    let mut p = CodeParser::new("S(a");
    assert_eq!(expected(p.parse_tree().unwrap_err()), (3, "name".to_string()));
    let mut q = CodeParser::new("Z with a b");
    assert_eq!(expected(q.parse_tree().unwrap_err()), (9, "~".to_string()));
    let mut r = CodeParser::new("  )");
    assert_eq!(expected(r.parse_tree().unwrap_err()), (2, "name".to_string()));
    let mut s = CodeParser::new("S(a : b)");
    assert_eq!(expected(s.parse_tree().unwrap_err()), (4, "name".to_string()));
}

#[test]
fn parse_untyped_match_keeps_lowercase_names() {
    let mut p = CodeParser::new("foo(a B) ~");
    let m = p.parse_untyped_match().unwrap();
    assert_eq!(m.name, "foo");
    assert_eq!(m.aux.len(), 2);
    assert_eq!(written(&m.aux[0]), "$a");
    assert_eq!(written(&m.aux[1]), "B()");
    assert_eq!(p.peek_one(), Some(' '));
    let mut q = CodeParser::new("Nat");
    let n = q.parse_untyped_match().unwrap();
    assert_eq!(n.name, "Nat");
    assert!(n.aux.is_empty());
}

#[test]
fn parse_typed_match_reads_ports() {
    let mut p = CodeParser::new("Cons(h -> h : T  t -> u :List(T)):");
    let m = p.parse_typed_match().unwrap();
    assert_eq!(m.name, "Cons");
    assert_eq!(m.aux.len(), 2);
    assert_eq!(written(&m.aux[0].0), "$h");
    assert_eq!(written(&m.aux[0].1), "$h");
    assert_eq!(written(&m.aux[0].2), "T()");
    assert_eq!(written(&m.aux[1].0), "$t");
    assert_eq!(written(&m.aux[1].1), "$u");
    assert_eq!(written(&m.aux[1].2), "List(T())");
    assert_eq!(p.peek_one(), Some(':'));
}

#[test]
fn names_hold_arrows_and_semicolons() {
    let mut p = CodeParser::new("t->u;x y");
    assert_eq!(p.parse_name().unwrap(), "t->u;x");
    assert_eq!(p.position(), 6);
}

#[test]
fn parse_typed_match_faults() {
    let mut p = CodeParser::new("S(a : Nat)");
    assert_eq!(expected(p.parse_typed_match().unwrap_err()), (4, "->".to_string()));
    let mut q = CodeParser::new("S(a -> b Nat)");
    assert_eq!(expected(q.parse_typed_match().unwrap_err()), (9, ":".to_string()));
}

#[test]
fn parse_net_reads_one_pair() {
    let mut p = CodeParser::new("Z() ~ S(Z())");
    let net = p.parse_net().unwrap();
    assert_eq!(net.interactions.len(), 1);
    assert_eq!(written(&net.interactions[0].0), "Z()");
    assert_eq!(written(&net.interactions[0].1), "S(Z())");
}

#[test]
fn parse_statement_reads_a_check() {
    let mut p = CodeParser::new("  check yes Z() ~ Nat()");
    match p.parse_statement().unwrap() {
        Statement::Check(positive, net) => {
            assert!(positive);
            assert_eq!(net.interactions.len(), 1);
            assert_eq!(written(&net.interactions[0].1), "Nat()");
        }
        other => panic!("{:?}", other),
    }
    let mut q = CodeParser::new("check no a ~ b");
    assert!(matches!(q.parse_statement().unwrap(), Statement::Check(false, _)));
}

#[test]
fn parse_statement_wants_yes_or_no() {
    let mut p = CodeParser::new("check maybe Z ~ Z");
    assert_eq!(plain(p.parse_statement().unwrap_err()), "Expected yes or no");
    let mut q = CodeParser::new("check");
    assert_eq!(expected(q.parse_statement().unwrap_err()), (5, "name".to_string()));
    let mut r = CodeParser::new("checkyes Z ~ Z");
    assert!(matches!(r.parse_statement().unwrap(), Statement::Check(true, _)));
}

#[test]
fn parse_statement_reads_a_definition() {
    let mut p = CodeParser::new("Add(a b) ~ S(c with c ~ Add(a d)) ; next\nZ");
    match p.parse_statement().unwrap() {
        Statement::Def(l, r) => {
            assert_eq!(l.name, "Add");
            assert_eq!(l.aux.len(), 2);
            assert_eq!(r.name, "S");
            assert_eq!(written(&r.aux[0]), "[$c with $c ~ Add($a $d)]");
        }
        other => panic!("{:?}", other),
    }
}

#[test]
fn parse_statement_reads_a_declaration() {
    let mut p = CodeParser::new("S(a -> a : Nat) : Nat");
    match p.parse_statement().unwrap() {
        Statement::Decl(agent, vars, parent) => {
            assert_eq!(agent.name, "S");
            assert_eq!(agent.aux.len(), 1);
            assert!(vars.is_empty());
            assert_eq!(parent.name, "Nat");
        }
        other => panic!("{:?}", other),
    }
}

#[test]
fn parse_statement_reads_index_trees() {
    let mut p = CodeParser::new("Nil() : t : Type : List(t)\nZ");
    match p.parse_statement().unwrap() {
        Statement::Decl(agent, vars, parent) => {
            assert_eq!(agent.name, "Nil");
            assert_eq!(vars.len(), 2);
            assert_eq!(written(&vars[0]), "$t");
            assert_eq!(written(&vars[1]), "Type()");
            assert_eq!(parent.name, "List");
            assert_eq!(written(&parent.aux[0]), "$t");
        }
        other => panic!("{:?}", other),
    }
    assert_eq!(p.peek_one(), Some('\n'));
}

#[test]
fn parse_statement_faults_where_it_began() {
    let mut p = CodeParser::new("  Z() Nat");
    let (at, what) = expected(p.parse_statement().unwrap_err());
    assert_eq!(at, 0);
    assert_eq!(what, "Expected typed pattern match or untyped pattern match.");
    assert_eq!(p.position(), 0);
    let mut q = CodeParser::new("Z() ~ ");
    assert_eq!(expected(q.parse_statement().unwrap_err()), (6, "name".to_string()));
    let mut r = CodeParser::new("Z() : ");
    assert_eq!(expected(r.parse_statement().unwrap_err()), (6, "name".to_string()));
}

#[test]
fn parse_book_reads_all_statements() {
    let text = "; naturals\nZ() : Nat\nS(a -> a : Nat) : Nat\n\nZ() ~ Z() ; rule\ncheck no Z() ~ S(Z())\n  ; end";
    let mut p = CodeParser::new(text);
    let book = p.parse_book().unwrap();
    assert_eq!(book.len(), 4);
    assert!(matches!(book[0], Statement::Decl(..)));
    assert!(matches!(book[1], Statement::Decl(..)));
    assert!(matches!(book[2], Statement::Def(..)));
    assert!(matches!(book[3], Statement::Check(false, _)));
    assert_eq!(p.peek_one(), None);
}

#[test]
fn parse_book_of_nothing_is_empty() {
    assert!(CodeParser::new("").parse_book().unwrap().is_empty());
    assert!(CodeParser::new(" ; only a comment").parse_book().unwrap().is_empty());
}

#[test]
fn parse_book_stops_at_the_first_fault() {
    let mut p = CodeParser::new("Z() : Nat\n) oops\nS() : Nat");
    let (at, what) = expected(p.parse_book().unwrap_err());
    assert_eq!(at, 10);
    assert_eq!(what, "Expected typed pattern match or untyped pattern match.");
}

#[test]
fn count_nodes_counts_names() {
    let mut p = CodeParser::new("S(a Pair(Z b)) with a ~ Z");
    let t = p.parse_tree().unwrap();
    assert_eq!(t.count_nodes(), 7);
    let mut q = CodeParser::new("Cons(h -> h : T  t -> u : List(T))");
    let m = q.parse_typed_match().unwrap();
    assert_eq!(m.count_nodes(), 8);
    let mut r = CodeParser::new("Foo(a B)");
    assert_eq!(r.parse_untyped_match().unwrap().count_nodes(), 3);
}

#[test]
fn clones_of_statements_are_equal() {
    let text = "Cons(h -> h : T  t -> u : List(T)) : n : List(T)\nA(x) ~ B(y with y ~ x)\ncheck no Z() ~ S(Z())";
    let book = CodeParser::new(text).parse_book().unwrap();
    for s in book.iter() {
        let c = s.clone();
        assert_eq!(format!("{:?}", c), format!("{:?}", s));
    }
    let mut p = CodeParser::new("S(a) with a ~ Z(b)");
    let t = p.parse_tree().unwrap();
    assert_eq!(written(&t.clone()), written(&t));
}
