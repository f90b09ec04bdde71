//! The parser of the surface syntax: a hand over the characters of a text.

use crate::syntax::surface_pairs;
use crate::syntax::surface_triples;
use crate::syntax::surfaces;
use crate::syntax::Net;
use crate::syntax::Pattern;
use crate::syntax::Statement;
use crate::syntax::Stmt;
use crate::syntax::Surface;
use crate::syntax::Tree;
use crate::syntax::TypedMatch;
use crate::syntax::TypedPattern;
use crate::syntax::UntypedMatch;
use vstd::prelude::*;
use vstd::std_specs::iter::IteratorSpec;
use vstd::string::*;

verus! {
/// Where parsing failed and what was looked for there, or a message alone.
#[derive(Debug)]
pub enum ParseError {
    Expected { at: usize, what: String },
    Plain { what: String },
}

/// The mathematical value of a `ParseError`.
pub enum Fault {
    Expected { at: nat, what: Seq<char> },
    Plain { what: Seq<char> },
}

impl View for ParseError {
    type V = Fault;

    open spec fn view(&self) -> Fault {
        match self {
            ParseError::Expected { at, what } => Fault::Expected { at: *at as nat, what: what@ },
            ParseError::Plain { what } => Fault::Plain { what: what@ },
        }
    }
}

/// The mathematical value of what a parsing function returns.
pub open spec fn seen<T: View>(r: Result<T, ParseError>) -> Result<T::V, Fault> {
    match r {
        Ok(t) => Ok(t@),
        Err(e) => Err(e@),
    }
}

/// Whether Unicode counts `c` as white space, as `char::is_whitespace` tells.
pub uninterp spec fn white_space(c: char) -> bool;

/// Whether `c` is white space: of ASCII the space and U+0009 to U+000D;
/// beyond ASCII what Unicode counts as white space.
pub open spec fn is_space(c: char) -> bool {
    if is_ascii(c) {
        c == ' ' || 0x09 <= (c as u32) <= 0x0d
    } else {
        white_space(c)
    }
}

/// Whether `c` is a control character: one of the control codes, which are
/// U+0000 to U+001F and U+007F to U+009F.
pub open spec fn is_control_code(c: char) -> bool {
    (c as u32) <= 0x1f || 0x7f <= (c as u32) <= 0x9f
}

/// Whether `c` is a character of ASCII.
pub open spec fn is_ascii(c: char) -> bool {
    (c as u32) < 0x80
}

/// Whether Unicode counts `c` as lowercase, as `char::is_lowercase` tells.
pub uninterp spec fn lowercase(c: char) -> bool;

/// Whether `c` is a lowercase letter: of ASCII the letters `a` to `z`; beyond
/// ASCII what Unicode counts as lowercase.
pub open spec fn is_lower(c: char) -> bool {
    if is_ascii(c) {
        'a' <= c <= 'z'
    } else {
        lowercase(c)
    }
}

/// Whether `c` is a blank of ASCII: space, tab, line feed, form feed or
/// carriage return.
pub open spec fn is_blank(c: char) -> bool {
    c == ' ' || c == '\t' || c == '\n' || c == '\x0C' || c == '\r'
}

/// `char::is_whitespace`: whether the character has the Unicode property
/// `White_Space`. Of ASCII these are the space and U+0009 to U+000D.
pub assume_specification[ char::is_whitespace ](c: char) -> (r: bool)
    ensures
        r == white_space(c),
        is_ascii(c) ==> r == (c == ' ' || 0x09 <= (c as u32) <= 0x0d),
;

/// `char::is_control`: whether the character is in the general category of
/// control codes, which are U+0000 to U+001F and U+007F to U+009F.
pub assume_specification[ char::is_control ](c: char) -> (r: bool)
    ensures
        r == is_control_code(c),
;

/// `char::is_lowercase`: whether the character has the Unicode property
/// `Lowercase`. Of ASCII these are the letters `a` to `z`.
pub assume_specification[ char::is_lowercase ](c: char) -> (r: bool)
    ensures
        r == lowercase(c),
        is_ascii(c) ==> r == ('a' <= c <= 'z'),
;

/// `char::is_ascii_whitespace`: whether the character is a space, a tab, a
/// line feed, a form feed or a carriage return.
pub assume_specification[ char::is_ascii_whitespace ](c: &char) -> (r: bool)
    ensures
        r == is_blank(*c),
;

/// The character at place `i`, if the text goes that far.
pub open spec fn peek(s: Seq<char>, i: nat) -> Option<char> {
    if i < s.len() {
        Some(s[i as int])
    } else {
        None
    }
}

/// Whether `text` stands in `s` at place `i`.
pub open spec fn starts_with(s: Seq<char>, i: nat, text: Seq<char>) -> bool {
    i + text.len() <= s.len() && s.subrange(i as int, (i + text.len()) as int) == text
}

/// The place after the line that `i` is in.
pub open spec fn line_end(s: Seq<char>, i: nat) -> nat
    decreases s.len() - i,
{
    if i >= s.len() {
        i
    } else if s[i as int] == '\n' {
        i + 1
    } else {
        line_end(s, i + 1)
    }
}

/// The rest of a line ends within the text, after where it began.
pub proof fn lemma_line_end(s: Seq<char>, i: nat)
    requires
        i <= s.len(),
    ensures
        i <= line_end(s, i) <= s.len(),
        i < s.len() ==> i < line_end(s, i),
    decreases s.len() - i,
{
    if i < s.len() && s[i as int] != '\n' {
        lemma_line_end(s, i + 1);
    }
}

/// The place after the blanks and the comments that stand at `i`; a comment
/// goes from a semicolon to the end of its line.
pub open spec fn trivia_end(s: Seq<char>, i: nat) -> nat
    decreases s.len() - i,
{
    if i >= s.len() {
        i
    } else if is_blank(s[i as int]) {
        trivia_end(s, i + 1)
    } else if s[i as int] == ';' {
        proof {
            lemma_line_end(s, i);
        }
        trivia_end(s, line_end(s, i))
    } else {
        i
    }
}

/// The place after the blanks and the comments that stand at `i`; a comment
/// goes from two slashes to the end of its line.
pub open spec fn slash_trivia_end(s: Seq<char>, i: nat) -> nat
    decreases s.len() - i,
{
    if i >= s.len() {
        i
    } else if is_blank(s[i as int]) {
        slash_trivia_end(s, i + 1)
    } else if s[i as int] == '/' && peek(s, i + 1) == Some('/') {
        proof {
            lemma_line_end(s, i);
        }
        slash_trivia_end(s, line_end(s, i))
    } else {
        i
    }
}

/// Blanks and comments end within the text, at a character that begins
/// neither, and passing over them twice comes to the same place.
pub proof fn lemma_trivia_end(s: Seq<char>, i: nat)
    requires
        i <= s.len(),
    ensures
        i <= trivia_end(s, i) <= s.len(),
        trivia_end(s, trivia_end(s, i)) == trivia_end(s, i),
        peek(s, trivia_end(s, i)) matches Some(c) ==> !is_blank(c) && c != ';',
    decreases s.len() - i,
{
    if i < s.len() {
        if is_blank(s[i as int]) {
            lemma_trivia_end(s, i + 1);
        } else if s[i as int] == ';' {
            lemma_line_end(s, i);
            lemma_trivia_end(s, line_end(s, i));
        }
    }
}

/// Blanks and slash comments end within the text.
pub proof fn lemma_slash_trivia_end(s: Seq<char>, i: nat)
    requires
        i <= s.len(),
    ensures
        i <= slash_trivia_end(s, i) <= s.len(),
    decreases s.len() - i,
{
    if i < s.len() {
        if is_blank(s[i as int]) {
            lemma_slash_trivia_end(s, i + 1);
        } else if s[i as int] == '/' && peek(s, i + 1) == Some('/') {
            lemma_line_end(s, i);
            lemma_slash_trivia_end(s, line_end(s, i));
        }
    }
}

/// What looking for `text` at `i` gives: blanks and slash comments are
/// passed over; then `text` is taken, or is found missing.
pub open spec fn p_consume(s: Seq<char>, i: nat, text: Seq<char>) -> (Result<(), Fault>, nat) {
    let j = slash_trivia_end(s, i);
    if starts_with(s, j, text) {
        (Ok(()), j + text.len())
    } else {
        (Err(Fault::Expected { at: j, what: text }), j)
    }
}

/// Whether `c` can stand in a name: it is no white space, no control
/// character and none of `:=~()`.
pub open spec fn is_name_char(c: char) -> bool {
    !is_space(c) && !is_control_code(c) && c != ':' && c != '=' && c != '~' && c != '(' && c != ')'
}

/// The place after the name characters that stand at `i`.
pub open spec fn name_end(s: Seq<char>, i: nat) -> nat
    decreases s.len() - i,
{
    if i < s.len() && is_name_char(s[i as int]) {
        name_end(s, i + 1)
    } else {
        i
    }
}

/// A name ends within the text, at a character that cannot stand in a name.
pub proof fn lemma_name_end(s: Seq<char>, i: nat)
    requires
        i <= s.len(),
    ensures
        i <= name_end(s, i) <= s.len(),
        forall|k: int| i <= k < name_end(s, i) ==> is_name_char(#[trigger] s[k]),
        peek(s, name_end(s, i)) matches Some(c) ==> !is_name_char(c),
    decreases s.len() - i,
{
    if i < s.len() && is_name_char(s[i as int]) {
        lemma_name_end(s, i + 1);
    }
}

/// What parsing a name at `i` gives: blanks and comments are passed over,
/// and the name characters that follow are the name; there must be one.
pub open spec fn p_name(s: Seq<char>, i: nat) -> (Result<Seq<char>, Fault>, nat) {
    let j = trivia_end(s, i);
    let k = name_end(s, j);
    if k == j {
        (Err(Fault::Expected { at: j, what: "name"@ }), j)
    } else {
        (Ok(s.subrange(j as int, k as int)), k)
    }
}

/// What parsing a variable name at `i` gives: a name that begins with a
/// lowercase letter.
pub open spec fn p_var(s: Seq<char>, i: nat) -> (Result<Seq<char>, Fault>, nat) {
    let j = trivia_end(s, i);
    if peek(s, j) matches Some(c) && is_lower(c) {
        p_name(s, j)
    } else {
        (Err(Fault::Plain { what: "Not a var name char"@ }), j)
    }
}

/// What was parsed with `acc` put before it.
pub open spec fn after<T>(acc: Seq<T>, r: (Result<Seq<T>, Fault>, nat)) -> (
    Result<Seq<T>, Fault>,
    nat,
) {
    match r.0 {
        Ok(ts) => (Ok(acc + ts), r.1),
        Err(e) => (Err(e), r.1),
    }
}

/// The fault of a parser that does not move on, or stands beyond its text.
/// Parsing within a text never gives it: see `law_statement_moves_on`.
pub open spec fn stalled(i: nat) -> Fault {
    Fault::Expected { at: i, what: Seq::empty() }
}

/// What parsing a tree at `i` gives: a name; for a name that does not begin
/// with a lowercase letter, the trees at its ports; then, if `with` follows,
/// a tree, `~` and another tree.
pub open spec fn p_tree(s: Seq<char>, i: nat) -> (Result<Surface, Fault>, nat)
    decreases s.len() - i, 0nat,
{
    if i > s.len() {
        (Err(stalled(i)), i)
    } else {
        proof {
            lemma_trivia_end(s, i);
            lemma_name_end(s, trivia_end(s, i));
        }
        match p_name(s, trivia_end(s, i)) {
            (Err(e), j) => (Err(e), j),
            (Ok(name), j) => {
                if is_lower(name[0]) {
                    p_with(s, j, Surface::Variable { name })
                } else {
                    match p_ports(s, j) {
                        (Err(e), k) => (Err(e), k),
                        (Ok(aux), k) => if k < j || k > s.len() {
                            (Err(stalled(k)), k)
                        } else {
                            p_with(s, k, Surface::Agent { name, aux })
                        },
                    }
                }
            },
        }
    }
}

/// What parsing the ports of an agent at `i` gives: nothing, or trees
/// between `(` and `)`.
pub open spec fn p_ports(s: Seq<char>, i: nat) -> (Result<Seq<Surface>, Fault>, nat)
    decreases s.len() - i, 2nat,
{
    if i > s.len() {
        (Err(stalled(i)), i)
    } else {
        proof {
            lemma_trivia_end(s, i);
        }
        let a = trivia_end(s, i);
        if peek(s, a) == Some('(') {
            proof {
                lemma_trivia_end(s, a + 1);
            }
            match p_args(s, trivia_end(s, a + 1)) {
                (Err(e), c) => (Err(e), c),
                (Ok(ts), c) => match p_consume(s, c, ")"@) {
                    (Err(e), d) => (Err(e), d),
                    (Ok(()), d) => (Ok(ts), d),
                },
            }
        } else {
            (Ok(Seq::empty()), a)
        }
    }
}

/// What parsing trees at `i` gives, up to a `)`.
pub open spec fn p_args(s: Seq<char>, i: nat) -> (Result<Seq<Surface>, Fault>, nat)
    decreases s.len() - i, 1nat,
{
    if peek(s, i) == Some(')') || i > s.len() {
        (Ok(Seq::empty()), i)
    } else {
        match p_tree(s, i) {
            (Err(e), j) => (Err(e), j),
            (Ok(t), j) => {
                let k = trivia_end(s, j);
                if k <= i || k > s.len() {
                    (Err(stalled(j)), j)
                } else {
                    after(seq![t], p_args(s, k))
                }
            },
        }
    }
}

/// What parsing the rest of a tree at `i` gives, `t` being what was parsed
/// of it: `t`, or, if `with` follows, `t` with the interaction of two trees.
pub open spec fn p_with(s: Seq<char>, i: nat, t: Surface) -> (Result<Surface, Fault>, nat)
    decreases s.len() - i, 3nat,
{
    if i > s.len() {
        (Err(stalled(i)), i)
    } else {
        let a = trivia_end(s, i);
        if starts_with(s, a, "with"@) {
            match p_consume(s, a, "with"@) {
                (Err(e), b) => (Err(e), b),
                (Ok(()), b) => if b <= i || b > s.len() {
                    (Err(stalled(b)), b)
                } else {
                    match p_tree(s, b) {
                        (Err(e), c) => (Err(e), c),
                        (Ok(left), c) => match p_consume(s, trivia_end(s, c), "~"@) {
                            (Err(e), d) => (Err(e), d),
                            (Ok(()), d) => if d <= i || d > s.len() {
                                (Err(stalled(d)), d)
                            } else {
                                match p_tree(s, d) {
                                    (Err(e), f) => (Err(e), f),
                                    (Ok(right), f) => (
                                        Ok(
                                            Surface::With {
                                                rest: Box::new(t),
                                                left: Box::new(left),
                                                right: Box::new(right),
                                            },
                                        ),
                                        f,
                                    ),
                                }
                            },
                        },
                    }
                },
            }
        } else {
            (Ok(t), a)
        }
    }
}

/// What parsing an agent pattern at `i` gives: a name and the trees at its
/// ports.
pub open spec fn p_untyped(s: Seq<char>, i: nat) -> (Result<Pattern, Fault>, nat) {
    match p_name(s, trivia_end(s, i)) {
        (Err(e), j) => (Err(e), j),
        (Ok(name), j) => match p_ports(s, j) {
            (Err(e), k) => (Err(e), k),
            (Ok(aux), k) => (Ok(Pattern { name, aux }), k),
        },
    }
}

/// What parsing one typed port at `i` gives: `before -> after : type`.
pub open spec fn p_typed_port(s: Seq<char>, i: nat) -> (
    Result<(Surface, Surface, Surface), Fault>,
    nat,
) {
    match p_tree(s, i) {
        (Err(e), a) => (Err(e), a),
        (Ok(from), a) => match p_consume(s, trivia_end(s, a), "->"@) {
            (Err(e), b) => (Err(e), b),
            (Ok(()), b) => match p_tree(s, b) {
                (Err(e), c) => (Err(e), c),
                (Ok(to), c) => match p_consume(s, trivia_end(s, c), ":"@) {
                    (Err(e), d) => (Err(e), d),
                    (Ok(()), d) => match p_tree(s, d) {
                        (Err(e), f) => (Err(e), f),
                        (Ok(ty), f) => (Ok((from, to, ty)), f),
                    },
                },
            },
        },
    }
}

/// What parsing typed ports at `i` gives, up to a `)`.
pub open spec fn p_typed_args(s: Seq<char>, i: nat) -> (
    Result<Seq<(Surface, Surface, Surface)>, Fault>,
    nat,
)
    decreases s.len() - i,
{
    if peek(s, i) == Some(')') || i > s.len() {
        (Ok(Seq::empty()), i)
    } else {
        match p_typed_port(s, i) {
            (Err(e), j) => (Err(e), j),
            (Ok(t), j) => {
                let k = trivia_end(s, j);
                if k <= i || k > s.len() {
                    (Err(stalled(j)), j)
                } else {
                    after(seq![t], p_typed_args(s, k))
                }
            },
        }
    }
}

/// What parsing a typed agent pattern at `i` gives: a name and its typed
/// ports, if any, between `(` and `)`.
pub open spec fn p_typed(s: Seq<char>, i: nat) -> (Result<TypedPattern, Fault>, nat) {
    match p_name(s, trivia_end(s, i)) {
        (Err(e), j) => (Err(e), j),
        (Ok(name), j) => {
            let a = trivia_end(s, j);
            if peek(s, a) == Some('(') {
                match p_typed_args(s, trivia_end(s, a + 1)) {
                    (Err(e), c) => (Err(e), c),
                    (Ok(aux), c) => match p_consume(s, c, ")"@) {
                        (Err(e), d) => (Err(e), d),
                        (Ok(()), d) => (Ok(TypedPattern { name, aux }), d),
                    },
                }
            } else {
                (Ok(TypedPattern { name, aux: Seq::empty() }), a)
            }
        },
    }
}

/// What parsing the interaction of a check at `i` gives: `tree ~ tree`.
pub open spec fn p_net(s: Seq<char>, i: nat) -> (Result<Seq<(Surface, Surface)>, Fault>, nat) {
    match p_tree(s, i) {
        (Err(e), a) => (Err(e), a),
        (Ok(left), a) => match p_consume(s, trivia_end(s, a), "~"@) {
            (Err(e), b) => (Err(e), b),
            (Ok(()), b) => match p_tree(s, b) {
                (Err(e), c) => (Err(e), c),
                (Ok(right), c) => (Ok(seq![(left, right)]), c),
            },
        },
    }
}

/// The index trees of a declaration that stand at `i`, each followed by a
/// colon, and the place where the declaration's type begins.
pub open spec fn p_indices(s: Seq<char>, i: nat) -> (Seq<Surface>, nat)
    decreases s.len() - i,
{
    match p_tree(s, i) {
        (Err(e), j) => (Seq::empty(), i),
        (Ok(t), j) => {
            let k = trivia_end(s, j);
            if peek(s, k) == Some(':') {
                let m = trivia_end(s, k + 1);
                if m <= i || m > s.len() {
                    (Seq::empty(), i)
                } else {
                    let rest = p_indices(s, m);
                    (seq![t] + rest.0, rest.1)
                }
            } else {
                (Seq::empty(), i)
            }
        },
    }
}

/// What parsing a check at `i` gives, `i` being where the word `check`
/// begins: `check yes` or `check no`, and an interaction.
pub open spec fn p_check(s: Seq<char>, i: nat) -> (Result<Stmt, Fault>, nat) {
    match p_consume(s, i, "check"@) {
        (Err(e), a) => (Err(e), a),
        (Ok(()), a) => match p_name(s, trivia_end(s, a)) {
            (Err(e), b) => (Err(e), b),
            (Ok(word), b) => if word == "yes"@ || word == "no"@ {
                match p_net(s, b) {
                    (Err(e), c) => (Err(e), c),
                    (Ok(net), c) => (Ok(Stmt::Check(word == "yes"@, net)), c),
                }
            } else {
                (Err(Fault::Plain { what: "Expected yes or no"@ }), b)
            },
        },
    }
}

/// What parsing a declaration at `i` gives, if a typed pattern and a colon
/// stand there: the index trees, each followed by a colon, and the type.
pub open spec fn p_decl(s: Seq<char>, i: nat) -> Option<(Result<Stmt, Fault>, nat)> {
    match p_typed(s, i) {
        (Err(e), a) => None,
        (Ok(agent), a) => {
            let b = trivia_end(s, a);
            if peek(s, b) == Some(':') {
                let (vars, c) = p_indices(s, trivia_end(s, b + 1));
                match p_untyped(s, c) {
                    (Err(e), d) => Some((Err(e), d)),
                    (Ok(parent), d) => Some((Ok(Stmt::Decl(agent, vars, parent)), d)),
                }
            } else {
                None
            }
        },
    }
}

/// What parsing a definition at `i` gives, if a pattern and `~` stand there:
/// the pattern on the other side.
pub open spec fn p_def(s: Seq<char>, i: nat) -> Option<(Result<Stmt, Fault>, nat)> {
    match p_untyped(s, i) {
        (Err(e), a) => None,
        (Ok(left), a) => {
            let b = trivia_end(s, a);
            if peek(s, b) == Some('~') {
                match p_untyped(s, b + 1) {
                    (Err(e), c) => Some((Err(e), c)),
                    (Ok(right), c) => Some((Ok(Stmt::Def(left, right)), c)),
                }
            } else {
                None
            }
        },
    }
}

/// What parsing a statement at `i` gives: a check where the word `check`
/// stands; else a definition; else a declaration; else a fault at `i`.
pub open spec fn p_statement(s: Seq<char>, i: nat) -> (Result<Stmt, Fault>, nat) {
    let a = trivia_end(s, i);
    if starts_with(s, a, "check"@) {
        p_check(s, a)
    } else {
        match p_def(s, a) {
            Some(r) => r,
            None => match p_decl(s, i) {
                Some(r) => r,
                None => (
                    Err(
                        Fault::Expected {
                            at: i,
                            what: "Expected typed pattern match or untyped pattern match."@,
                        },
                    ),
                    i,
                ),
            },
        }
    }
}

/// What parsing statements at `i` gives, up to the end of the text.
pub open spec fn p_statements(s: Seq<char>, i: nat) -> (Result<Seq<Stmt>, Fault>, nat)
    decreases s.len() - i,
{
    if i >= s.len() {
        (Ok(Seq::empty()), i)
    } else {
        match p_statement(s, i) {
            (Err(e), j) => (Err(e), j),
            (Ok(t), j) => {
                let k = trivia_end(s, j);
                if k <= i || k > s.len() {
                    (Err(stalled(j)), j)
                } else {
                    after(seq![t], p_statements(s, k))
                }
            },
        }
    }
}

/// What parsing a book at `i` gives: the statements up to the end of the
/// text.
pub open spec fn p_book(s: Seq<char>, i: nat) -> (Result<Seq<Stmt>, Fault>, nat) {
    p_statements(s, trivia_end(s, i))
}

/// A name that is parsed within the text ends within it, after where it
/// began.
pub proof fn lemma_p_name_bounds(s: Seq<char>, i: nat)
    requires
        i <= s.len(),
    ensures
        i <= p_name(s, i).1 <= s.len(),
        p_name(s, i).0 is Ok ==> i < p_name(s, i).1,
{
    lemma_trivia_end(s, i);
    lemma_name_end(s, trivia_end(s, i));
}

/// Looking for a text within the text ends within it, after the text that
/// was looked for if it was found.
pub proof fn lemma_p_consume_bounds(s: Seq<char>, i: nat, text: Seq<char>)
    requires
        i <= s.len(),
    ensures
        i <= p_consume(s, i, text).1 <= s.len(),
        p_consume(s, i, text).0 is Ok ==> i + text.len() <= p_consume(s, i, text).1,
{
    lemma_slash_trivia_end(s, i);
}

/// A tree that is parsed within the text ends within it, after where it
/// began.
pub proof fn lemma_p_tree_bounds(s: Seq<char>, i: nat)
    requires
        i <= s.len(),
    ensures
        i <= p_tree(s, i).1 <= s.len(),
        p_tree(s, i).0 is Ok ==> i < p_tree(s, i).1,
    decreases s.len() - i, 0nat,
{
    lemma_trivia_end(s, i);
    let a = trivia_end(s, i);
    lemma_p_name_bounds(s, a);
    match p_name(s, a) {
        (Err(e), j) => {},
        (Ok(name), j) => {
            if is_lower(name[0]) {
                lemma_p_with_bounds(s, j, Surface::Variable { name });
            } else {
                lemma_p_ports_bounds(s, j);
                match p_ports(s, j) {
                    (Err(e), k) => {},
                    (Ok(aux), k) => {
                        lemma_p_with_bounds(s, k, Surface::Agent { name, aux });
                    },
                }
            }
        },
    }
}

/// The ports that are parsed within the text end within it, not before
/// where they began.
pub proof fn lemma_p_ports_bounds(s: Seq<char>, i: nat)
    requires
        i <= s.len(),
    ensures
        i <= p_ports(s, i).1 <= s.len(),
    decreases s.len() - i, 2nat,
{
    lemma_trivia_end(s, i);
    let a = trivia_end(s, i);
    if peek(s, a) == Some('(') {
        lemma_trivia_end(s, a + 1);
        lemma_p_args_bounds(s, trivia_end(s, a + 1));
        match p_args(s, trivia_end(s, a + 1)) {
            (Err(e), c) => {},
            (Ok(ts), c) => {
                lemma_p_consume_bounds(s, c, ")"@);
            },
        }
    }
}

/// The trees that are parsed within the text end within it, not before
/// where they began.
pub proof fn lemma_p_args_bounds(s: Seq<char>, i: nat)
    requires
        i <= s.len(),
    ensures
        i <= p_args(s, i).1 <= s.len(),
    decreases s.len() - i, 1nat,
{
    if !(peek(s, i) == Some(')')) {
        lemma_p_tree_bounds(s, i);
        match p_tree(s, i) {
            (Err(e), j) => {},
            (Ok(t), j) => {
                lemma_trivia_end(s, j);
                lemma_p_args_bounds(s, trivia_end(s, j));
            },
        }
    }
}

/// The rest of a tree that is parsed within the text ends within it, not
/// before where it began.
pub proof fn lemma_p_with_bounds(s: Seq<char>, i: nat, t: Surface)
    requires
        i <= s.len(),
    ensures
        i <= p_with(s, i, t).1 <= s.len(),
    decreases s.len() - i, 3nat,
{
    lemma_trivia_end(s, i);
    let a = trivia_end(s, i);
    if starts_with(s, a, "with"@) {
        lemma_p_consume_bounds(s, a, "with"@);
        match p_consume(s, a, "with"@) {
            (Err(e), b) => {},
            (Ok(()), b) => {
                lemma_p_tree_bounds(s, b);
                match p_tree(s, b) {
                    (Err(e), c) => {},
                    (Ok(left), c) => {
                        lemma_trivia_end(s, c);
                        lemma_p_consume_bounds(s, trivia_end(s, c), "~"@);
                        match p_consume(s, trivia_end(s, c), "~"@) {
                            (Err(e), d) => {},
                            (Ok(()), d) => {
                                lemma_p_tree_bounds(s, d);
                            },
                        }
                    },
                }
            },
        }
    }
}

/// An agent pattern that is parsed within the text ends within it, after
/// where it began.
pub proof fn lemma_p_untyped_bounds(s: Seq<char>, i: nat)
    requires
        i <= s.len(),
    ensures
        i <= p_untyped(s, i).1 <= s.len(),
        p_untyped(s, i).0 is Ok ==> i < p_untyped(s, i).1,
{
    lemma_trivia_end(s, i);
    lemma_p_name_bounds(s, trivia_end(s, i));
    match p_name(s, trivia_end(s, i)) {
        (Err(e), j) => {},
        (Ok(name), j) => {
            lemma_p_ports_bounds(s, j);
        },
    }
}

/// A typed port that is parsed within the text ends within it, after where
/// it began.
pub proof fn lemma_p_typed_port_bounds(s: Seq<char>, i: nat)
    requires
        i <= s.len(),
    ensures
        i <= p_typed_port(s, i).1 <= s.len(),
        p_typed_port(s, i).0 is Ok ==> i < p_typed_port(s, i).1,
{
    lemma_p_tree_bounds(s, i);
    match p_tree(s, i) {
        (Err(e), a) => {},
        (Ok(from), a) => {
            lemma_trivia_end(s, a);
            lemma_p_consume_bounds(s, trivia_end(s, a), "->"@);
            match p_consume(s, trivia_end(s, a), "->"@) {
                (Err(e), b) => {},
                (Ok(()), b) => {
                    lemma_p_tree_bounds(s, b);
                    match p_tree(s, b) {
                        (Err(e), c) => {},
                        (Ok(to), c) => {
                            lemma_trivia_end(s, c);
                            lemma_p_consume_bounds(s, trivia_end(s, c), ":"@);
                            match p_consume(s, trivia_end(s, c), ":"@) {
                                (Err(e), d) => {},
                                (Ok(()), d) => {
                                    lemma_p_tree_bounds(s, d);
                                },
                            }
                        },
                    }
                },
            }
        },
    }
}

/// The typed ports that are parsed within the text end within it, not before
/// where they began.
pub proof fn lemma_p_typed_args_bounds(s: Seq<char>, i: nat)
    requires
        i <= s.len(),
    ensures
        i <= p_typed_args(s, i).1 <= s.len(),
    decreases s.len() - i,
{
    if !(peek(s, i) == Some(')')) {
        lemma_p_typed_port_bounds(s, i);
        match p_typed_port(s, i) {
            (Err(e), j) => {},
            (Ok(t), j) => {
                lemma_trivia_end(s, j);
                lemma_p_typed_args_bounds(s, trivia_end(s, j));
            },
        }
    }
}

/// A typed agent pattern that is parsed within the text ends within it,
/// after where it began.
pub proof fn lemma_p_typed_bounds(s: Seq<char>, i: nat)
    requires
        i <= s.len(),
    ensures
        i <= p_typed(s, i).1 <= s.len(),
        p_typed(s, i).0 is Ok ==> i < p_typed(s, i).1,
{
    lemma_trivia_end(s, i);
    lemma_p_name_bounds(s, trivia_end(s, i));
    match p_name(s, trivia_end(s, i)) {
        (Err(e), j) => {},
        (Ok(name), j) => {
            lemma_trivia_end(s, j);
            let a = trivia_end(s, j);
            if peek(s, a) == Some('(') {
                lemma_trivia_end(s, a + 1);
                lemma_p_typed_args_bounds(s, trivia_end(s, a + 1));
                match p_typed_args(s, trivia_end(s, a + 1)) {
                    (Err(e), c) => {},
                    (Ok(aux), c) => {
                        lemma_p_consume_bounds(s, c, ")"@);
                    },
                }
            }
        },
    }
}

/// The interaction of a check that is parsed within the text ends within it,
/// after where it began.
pub proof fn lemma_p_net_bounds(s: Seq<char>, i: nat)
    requires
        i <= s.len(),
    ensures
        i <= p_net(s, i).1 <= s.len(),
        p_net(s, i).0 is Ok ==> i < p_net(s, i).1,
{
    lemma_p_tree_bounds(s, i);
    match p_tree(s, i) {
        (Err(e), a) => {},
        (Ok(left), a) => {
            lemma_trivia_end(s, a);
            lemma_p_consume_bounds(s, trivia_end(s, a), "~"@);
            match p_consume(s, trivia_end(s, a), "~"@) {
                (Err(e), b) => {},
                (Ok(()), b) => {
                    lemma_p_tree_bounds(s, b);
                },
            }
        },
    }
}

/// The index trees that are parsed within the text end within it, not before
/// where they began.
pub proof fn lemma_p_indices_bounds(s: Seq<char>, i: nat)
    requires
        i <= s.len(),
    ensures
        i <= p_indices(s, i).1 <= s.len(),
    decreases s.len() - i,
{
    lemma_p_tree_bounds(s, i);
    match p_tree(s, i) {
        (Err(e), j) => {},
        (Ok(t), j) => {
            lemma_trivia_end(s, j);
            let k = trivia_end(s, j);
            if peek(s, k) == Some(':') {
                lemma_trivia_end(s, k + 1);
                lemma_p_indices_bounds(s, trivia_end(s, k + 1));
            }
        },
    }
}

/// A statement that is parsed within the text ends within it, after where it
/// began.
pub proof fn law_statement_moves_on(s: Seq<char>, i: nat)
    requires
        i <= s.len(),
    ensures
        p_statement(s, i).1 <= s.len(),
        p_statement(s, i).0 is Ok ==> i < p_statement(s, i).1,
{
    lemma_trivia_end(s, i);
    let a = trivia_end(s, i);
    if starts_with(s, a, "check"@) {
        lemma_p_consume_bounds(s, a, "check"@);
        match p_consume(s, a, "check"@) {
            (Err(e), b) => {},
            (Ok(()), b) => {
                lemma_trivia_end(s, b);
                lemma_p_name_bounds(s, trivia_end(s, b));
                match p_name(s, trivia_end(s, b)) {
                    (Err(e), c) => {},
                    (Ok(word), c) => {
                        lemma_p_net_bounds(s, c);
                    },
                }
            },
        }
    } else {
        lemma_p_untyped_bounds(s, a);
        match p_untyped(s, a) {
            (Err(e), b) => {},
            (Ok(left), b) => {
                lemma_trivia_end(s, b);
                if peek(s, trivia_end(s, b)) == Some('~') {
                    lemma_p_untyped_bounds(s, trivia_end(s, b) + 1);
                }
            },
        }
        lemma_p_typed_bounds(s, i);
        match p_typed(s, i) {
            (Err(e), b) => {},
            (Ok(agent), b) => {
                lemma_trivia_end(s, b);
                let c = trivia_end(s, b);
                if peek(s, c) == Some(':') {
                    lemma_trivia_end(s, c + 1);
                    lemma_p_indices_bounds(s, trivia_end(s, c + 1));
                    lemma_p_untyped_bounds(s, p_indices(s, trivia_end(s, c + 1)).1);
                }
            },
        }
    }
}

/// A parser over a text: the text, its characters, and the place that
/// parsing has come to, counted in characters.
pub struct CodeParser<'i> {
    input: &'i str,
    text: Vec<char>,
    index: usize,
}

/// The characters of `s`.
pub fn chars_of(s: &str) -> (v: Vec<char>)
    ensures
        v@ == s@,
{
    let mut v: Vec<char> = Vec::new();
    let mut it = s.chars();
    loop
        invariant
            it.obeys_prophetic_iter_laws(),
            v@ + it.remaining() == s@,
            it.decrease() is Some,
        decreases it.decrease()->0,
    {
        match it.next() {
            Some(c) => {
                v.push(c);
            },
            None => {
                return v;
            },
        }
    }
}

impl<'i> CodeParser<'i> {
    /// The parser has not run past the end of its text.
    pub closed spec fn wf(&self) -> bool {
        self.text@ == self.input@ && self.index <= self.text@.len()
    }

    /// The characters of the text.
    pub closed spec fn text(&self) -> Seq<char> {
        self.text@
    }

    /// The place that parsing has come to.
    pub closed spec fn at(&self) -> nat {
        self.index as nat
    }

    /// A parser at the start of `input`.
    pub fn new(input: &'i str) -> (p: Self)
        ensures
            p.wf(),
            p.text() == input@,
            p.at() == 0,
    {
        Self { input, text: chars_of(input), index: 0 }
    }

    /// The place that parsing has come to, counted in characters.
    pub fn position(&self) -> (i: usize)
        ensures
            i == self.at(),
    {
        self.index
    }

    /// The next character, if there is one.
    pub fn peek_one(&self) -> (c: Option<char>)
        requires
            self.wf(),
        ensures
            c == peek(self.text(), self.at()),
    {
        if self.index < self.text.len() {
            Some(self.text[self.index])
        } else {
            None
        }
    }

    /// Whether `text` stands next.
    pub fn starts_with(&self, text: &str) -> (r: bool)
        requires
            self.wf(),
        ensures
            r == starts_with(self.text(), self.at(), text@),
    {
        let n = text.unicode_len();
        if n > self.text.len() - self.index {
            return false;
        }
        let mut k: usize = 0;
        while k < n
            invariant
                k <= n,
                n == text@.len(),
                self.wf(),
                self.index + n <= self.text.len(),
                forall|j: int| 0 <= j < k ==> self.text@[self.index + j] == text@[j],
            decreases n - k,
        {
            if self.text[self.index + k] != text.get_char(k) {
                return false;
            }
            k += 1;
        }
        assert(self.text@.subrange(self.index as int, self.index + n) =~= text@);
        true
    }

    /// Passes over the rest of the line.
    fn skip_line(&mut self)
        requires
            old(self).wf(),
        ensures
            final(self).wf(),
            final(self).text() == old(self).text(),
            final(self).at() == line_end(old(self).text(), old(self).at()),
    {
        while self.index < self.text.len() && self.text[self.index] != '\n'
            invariant
                self.wf(),
                self.text() == old(self).text(),
                line_end(self.text@, self.index as nat) == line_end(
                    old(self).text(),
                    old(self).at(),
                ),
            decreases self.text.len() - self.index,
        {
            self.index += 1;
        }
        if self.index < self.text.len() {
            self.index += 1;
        }
    }

    /// Passes over blanks and comments; a comment goes from a semicolon to
    /// the end of its line.
    pub fn skip_trivia(&mut self)
        requires
            old(self).wf(),
        ensures
            final(self).wf(),
            final(self).text() == old(self).text(),
            final(self).at() == trivia_end(old(self).text(), old(self).at()),
            final(self).at() >= old(self).at(),
    {
        proof {
            lemma_trivia_end(self.text(), self.at());
        }
        loop
            invariant
                self.wf(),
                self.text() == old(self).text(),
                trivia_end(self.text@, self.index as nat) == trivia_end(
                    old(self).text(),
                    old(self).at(),
                ),
            ensures
                self.index == trivia_end(old(self).text(), old(self).at()),
            decreases self.text.len() - self.index,
        {
            if self.index >= self.text.len() {
                break ;
            }
            let c = self.text[self.index];
            if c.is_ascii_whitespace() {
                self.index += 1;
            } else if c == ';' {
                proof {
                    lemma_line_end(self.text@, self.index as nat);
                }
                self.skip_line();
            } else {
                break ;
            }
        }
    }

    /// Passes over blanks and comments; a comment goes from two slashes to
    /// the end of its line.
    fn skip_slash_trivia(&mut self)
        requires
            old(self).wf(),
        ensures
            final(self).wf(),
            final(self).text() == old(self).text(),
            final(self).at() == slash_trivia_end(old(self).text(), old(self).at()),
    {
        loop
            invariant
                self.wf(),
                self.text() == old(self).text(),
                slash_trivia_end(self.text@, self.index as nat) == slash_trivia_end(
                    old(self).text(),
                    old(self).at(),
                ),
            ensures
                self.index == slash_trivia_end(old(self).text(), old(self).at()),
            decreases self.text.len() - self.index,
        {
            if self.index >= self.text.len() {
                break ;
            }
            let c = self.text[self.index];
            if c.is_ascii_whitespace() {
                self.index += 1;
            } else if c == '/' && self.index + 1 < self.text.len() && self.text[self.index + 1]
                == '/' {
                proof {
                    lemma_line_end(self.text@, self.index as nat);
                }
                self.skip_line();
            } else {
                break ;
            }
        }
    }

    /// Takes `text`, after blanks and slash comments, or finds it missing.
    pub fn consume(&mut self, text: &str) -> (r: Result<(), ParseError>)
        requires
            old(self).wf(),
        ensures
            final(self).wf(),
            final(self).text() == old(self).text(),
            (seen(r), final(self).at()) == p_consume(old(self).text(), old(self).at(), text@),
            final(self).at() >= old(self).at(),
            r is Ok ==> final(self).at() >= old(self).at() + text@.len(),
    {
        proof {
            lemma_p_consume_bounds(self.text(), self.at(), text@);
        }
        self.skip_slash_trivia();
        if self.starts_with(text) {
            assert(self.text@.len() == self.text.len());
            self.index += text.unicode_len();
            Ok(())
        } else {
            Err(ParseError::Expected { at: self.index, what: text.to_owned() })
        }
    }

    /// Whether `c` can stand in a name.
    pub fn is_name_char(c: char) -> (r: bool)
        ensures
            r == is_name_char(c),
    {
        !c.is_whitespace() && !c.is_control() && c != ':' && c != '=' && c != '~' && c != '('
            && c != ')'
    }

    /// Parses a name.
    pub fn parse_name(&mut self) -> (r: Result<String, ParseError>)
        requires
            old(self).wf(),
        ensures
            final(self).wf(),
            final(self).text() == old(self).text(),
            (seen(r), final(self).at()) == p_name(old(self).text(), old(self).at()),
            final(self).at() >= old(self).at(),
            r matches Ok(name) ==> final(self).at() > old(self).at() && name@.len() > 0,
    {
        self.skip_trivia();
        let start = self.index;
        while self.index < self.text.len() && Self::is_name_char(self.text[self.index])
            invariant
                self.wf(),
                self.text() == old(self).text(),
                start <= self.index,
                name_end(self.text@, self.index as nat) == name_end(self.text@, start as nat),
            decreases self.text.len() - self.index,
        {
            self.index += 1;
        }
        if self.index == start {
            Err(ParseError::Expected { at: start, what: String::from_str("name") })
        } else {
            let name = self.input.substring_char(start, self.index);
            Ok(name.to_owned())
        }
    }

    /// Parses the name of a variable.
    pub fn parse_var(&mut self) -> (r: Result<String, ParseError>)
        requires
            old(self).wf(),
        ensures
            final(self).wf(),
            final(self).text() == old(self).text(),
            (seen(r), final(self).at()) == p_var(old(self).text(), old(self).at()),
    {
        self.skip_trivia();
        let lower = match self.peek_one() {
            Some(c) => c.is_lowercase(),
            None => false,
        };
        if lower {
            self.parse_name()
        } else {
            Err(ParseError::Plain { what: String::from_str("Not a var name char") })
        }
    }
}

/// The mathematical value of trees that were parsed.
pub open spec fn seen_trees(r: Result<Vec<Tree>, ParseError>) -> Result<Seq<Surface>, Fault> {
    match r {
        Ok(ts) => Ok(surfaces(ts@)),
        Err(e) => Err(e@),
    }
}

/// The mathematical value of statements that were parsed.
pub open spec fn seen_book(r: Result<Vec<Statement>, ParseError>) -> Result<Seq<Stmt>, Fault> {
    match r {
        Ok(ts) => Ok(Seq::new(ts@.len(), |i: int| ts@[i]@)),
        Err(e) => Err(e@),
    }
}

/// A character that is no blank and no slash is taken where it stands.
pub proof fn lemma_consume_char(s: Seq<char>, i: nat, c: char, text: Seq<char>)
    requires
        peek(s, i) == Some(c),
        text == seq![c],
        !is_blank(c),
        c != '/',
    ensures
        p_consume(s, i, text) == (Ok::<(), Fault>(()), i + 1),
{
    assert(s.subrange(i as int, (i + 1) as int) =~= text);
}

impl<'i> CodeParser<'i> {
    /// Parses a tree.
    pub fn parse_tree(&mut self) -> (r: Result<Tree, ParseError>)
        requires
            old(self).wf(),
        ensures
            final(self).wf(),
            final(self).text() == old(self).text(),
            (seen(r), final(self).at()) == p_tree(old(self).text(), old(self).at()),
            final(self).at() >= old(self).at(),
            r is Ok ==> final(self).at() > old(self).at(),
        decreases old(self).text().len() - old(self).at(), 0nat,
    {
        self.skip_trivia();
        let name = match self.parse_name() {
            Ok(name) => name,
            Err(e) => {
                return Err(e);
            },
        };
        let first = name.as_str().get_char(0);
        if first.is_lowercase() {
            self.parse_with(Tree::Variable { name })
        } else {
            let aux = match self.parse_ports() {
                Ok(aux) => aux,
                Err(e) => {
                    return Err(e);
                },
            };
            proof {
                crate::syntax::lemma_view_agent(name, aux);
            }
            self.parse_with(Tree::Agent { name, aux })
        }
    }

    /// Parses the ports of an agent: nothing, or trees between `(` and `)`.
    pub fn parse_ports(&mut self) -> (r: Result<Vec<Tree>, ParseError>)
        requires
            old(self).wf(),
        ensures
            final(self).wf(),
            final(self).text() == old(self).text(),
            (seen_trees(r), final(self).at()) == p_ports(old(self).text(), old(self).at()),
            final(self).at() >= old(self).at(),
        decreases old(self).text().len() - old(self).at(), 2nat,
    {
        let ghost s = self.text();
        self.skip_trivia();
        match self.peek_one() {
            Some('(') => {},
            _ => {
                let none: Vec<Tree> = Vec::new();
                assert(surfaces(none@) =~= Seq::<Surface>::empty());
                return Ok(none);
            },
        }
        let ghost a = self.at();
        proof {
            reveal_strlit("(");
            assert("("@ =~= seq!['(']);
            lemma_consume_char(s, a, '(', "("@);
        }
        match self.consume("(") {
            Ok(()) => {},
            Err(e) => {
                return Err(e);
            },
        }
        self.skip_trivia();
        let ghost start = self.at();
        let mut args: Vec<Tree> = Vec::new();
        loop
            invariant
                self.wf(),
                self.text() == s,
                s == old(self).text(),
                start > old(self).at(),
                self.at() >= start,
                p_args(s, start) == after(surfaces(args@), p_args(s, self.at())),
                p_ports(s, old(self).at()) == match p_args(s, start) {
                    (Err(e), c) => (Err::<Seq<Surface>, Fault>(e), c),
                    (Ok(ts), c) => match p_consume(s, c, ")"@) {
                        (Err(e), d) => (Err(e), d),
                        (Ok(()), d) => (Ok(ts), d),
                    },
                },
            decreases s.len() - self.at(),
        {
            match self.peek_one() {
                Some(')') => {
                    return match self.consume(")") {
                        Ok(()) => Ok(args),
                        Err(e) => Err(e),
                    };
                },
                _ => {},
            }
            let t = match self.parse_tree() {
                Ok(t) => t,
                Err(e) => {
                    return Err(e);
                },
            };
            self.skip_trivia();
            proof {
                let rest = p_args(s, self.at());
                assert(surfaces(args@.push(t)) =~= surfaces(args@) + seq![t@]);
                match rest.0 {
                    Ok(ts) => {
                        assert((surfaces(args@) + seq![t@]) + ts =~= surfaces(args@) + (seq![t@]
                            + ts));
                    },
                    Err(e) => {},
                }
            }
            args.push(t);
        }
    }

    /// Parses what may follow a tree: `with`, a tree, `~` and another tree.
    pub fn parse_with(&mut self, t: Tree) -> (r: Result<Tree, ParseError>)
        requires
            old(self).wf(),
        ensures
            final(self).wf(),
            final(self).text() == old(self).text(),
            (seen(r), final(self).at()) == p_with(old(self).text(), old(self).at(), t@),
            final(self).at() >= old(self).at(),
        decreases old(self).text().len() - old(self).at(), 3nat,
    {
        self.skip_trivia();
        if !self.starts_with("with") {
            return Ok(t);
        }
        proof {
            reveal_strlit("with");
        }
        match self.consume("with") {
            Ok(()) => {},
            Err(e) => {
                return Err(e);
            },
        }
        let left = match self.parse_tree() {
            Ok(left) => left,
            Err(e) => {
                return Err(e);
            },
        };
        self.skip_trivia();
        match self.consume("~") {
            Ok(()) => {},
            Err(e) => {
                return Err(e);
            },
        }
        let right = match self.parse_tree() {
            Ok(right) => right,
            Err(e) => {
                return Err(e);
            },
        };
        Ok(Tree::With { rest: Box::new(t), redex: Box::new((left, right)) })
    }
}

impl<'i> CodeParser<'i> {
    /// Parses an agent pattern: a name and the trees at its ports.
    pub fn parse_untyped_match(&mut self) -> (r: Result<UntypedMatch, ParseError>)
        requires
            old(self).wf(),
        ensures
            final(self).wf(),
            final(self).text() == old(self).text(),
            (seen(r), final(self).at()) == p_untyped(old(self).text(), old(self).at()),
            final(self).at() >= old(self).at(),
            r is Ok ==> final(self).at() > old(self).at(),
    {
        self.skip_trivia();
        let name = match self.parse_name() {
            Ok(name) => name,
            Err(e) => {
                return Err(e);
            },
        };
        match self.parse_ports() {
            Ok(aux) => Ok(UntypedMatch { name, aux }),
            Err(e) => Err(e),
        }
    }

    /// Parses one typed port: `before -> after : type`.
    pub fn parse_typed_port(&mut self) -> (r: Result<(Tree, Tree, Tree), ParseError>)
        requires
            old(self).wf(),
        ensures
            final(self).wf(),
            final(self).text() == old(self).text(),
            (
                match r {
                    Ok(t) => Ok((t.0@, t.1@, t.2@)),
                    Err(e) => Err(e@),
                },
                final(self).at(),
            ) == p_typed_port(old(self).text(), old(self).at()),
            final(self).at() >= old(self).at(),
            r is Ok ==> final(self).at() > old(self).at(),
    {
        let from = match self.parse_tree() {
            Ok(t) => t,
            Err(e) => {
                return Err(e);
            },
        };
        self.skip_trivia();
        match self.consume("->") {
            Ok(()) => {},
            Err(e) => {
                return Err(e);
            },
        }
        let to = match self.parse_tree() {
            Ok(t) => t,
            Err(e) => {
                return Err(e);
            },
        };
        self.skip_trivia();
        match self.consume(":") {
            Ok(()) => {},
            Err(e) => {
                return Err(e);
            },
        }
        let ty = match self.parse_tree() {
            Ok(t) => t,
            Err(e) => {
                return Err(e);
            },
        };
        Ok((from, to, ty))
    }

    /// Parses a typed agent pattern: a name and its typed ports, if any,
    /// between `(` and `)`.
    pub fn parse_typed_match(&mut self) -> (r: Result<TypedMatch, ParseError>)
        requires
            old(self).wf(),
        ensures
            final(self).wf(),
            final(self).text() == old(self).text(),
            (seen(r), final(self).at()) == p_typed(old(self).text(), old(self).at()),
            final(self).at() >= old(self).at(),
            r is Ok ==> final(self).at() > old(self).at(),
    {
        let ghost s = self.text();
        self.skip_trivia();
        let name = match self.parse_name() {
            Ok(name) => name,
            Err(e) => {
                return Err(e);
            },
        };
        self.skip_trivia();
        match self.peek_one() {
            Some('(') => {},
            _ => {
                let none: Vec<(Tree, Tree, Tree)> = Vec::new();
                assert(surface_triples(none@) =~= Seq::<(Surface, Surface, Surface)>::empty());
                return Ok(TypedMatch { name, aux: none });
            },
        }
        let ghost a = self.at();
        proof {
            reveal_strlit("(");
            assert("("@ =~= seq!['(']);
            lemma_consume_char(s, a, '(', "("@);
        }
        match self.consume("(") {
            Ok(()) => {},
            Err(e) => {
                return Err(e);
            },
        }
        self.skip_trivia();
        let ghost start = self.at();
        let mut args: Vec<(Tree, Tree, Tree)> = Vec::new();
        loop
            invariant
                self.wf(),
                self.text() == s,
                s == old(self).text(),
                start > old(self).at(),
                self.at() >= start,
                p_typed_args(s, start) == after(
                    surface_triples(args@),
                    p_typed_args(s, self.at()),
                ),
                p_typed(s, old(self).at()) == match p_typed_args(s, start) {
                    (Err(e), c) => (Err::<TypedPattern, Fault>(e), c),
                    (Ok(aux), c) => match p_consume(s, c, ")"@) {
                        (Err(e), d) => (Err(e), d),
                        (Ok(()), d) => (Ok(TypedPattern { name: name@, aux }), d),
                    },
                },
            decreases s.len() - self.at(),
        {
            match self.peek_one() {
                Some(')') => {
                    return match self.consume(")") {
                        Ok(()) => Ok(TypedMatch { name, aux: args }),
                        Err(e) => Err(e),
                    };
                },
                _ => {},
            }
            let t = match self.parse_typed_port() {
                Ok(t) => t,
                Err(e) => {
                    return Err(e);
                },
            };
            self.skip_trivia();
            proof {
                let rest = p_typed_args(s, self.at());
                let one = seq![(t.0@, t.1@, t.2@)];
                assert(surface_triples(args@.push(t)) =~= surface_triples(args@) + one);
                match rest.0 {
                    Ok(ts) => {
                        assert((surface_triples(args@) + one) + ts =~= surface_triples(args@) + (one
                            + ts));
                    },
                    Err(e) => {},
                }
            }
            args.push(t);
        }
    }

    /// Parses the interaction of a check: `tree ~ tree`.
    pub fn parse_net(&mut self) -> (r: Result<Net, ParseError>)
        requires
            old(self).wf(),
        ensures
            final(self).wf(),
            final(self).text() == old(self).text(),
            (seen(r), final(self).at()) == p_net(old(self).text(), old(self).at()),
            final(self).at() >= old(self).at(),
            r is Ok ==> final(self).at() > old(self).at(),
    {
        let a = match self.parse_tree() {
            Ok(t) => t,
            Err(e) => {
                return Err(e);
            },
        };
        self.skip_trivia();
        match self.consume("~") {
            Ok(()) => {},
            Err(e) => {
                return Err(e);
            },
        }
        let b = match self.parse_tree() {
            Ok(t) => t,
            Err(e) => {
                return Err(e);
            },
        };
        let mut interactions: Vec<(Tree, Tree)> = Vec::new();
        interactions.push((a, b));
        assert(surface_pairs(interactions@) =~= seq![(a@, b@)]);
        Ok(Net { interactions })
    }

    /// Parses a check from the word `check` on.
    pub fn parse_check(&mut self) -> (r: Result<Statement, ParseError>)
        requires
            old(self).wf(),
            starts_with(old(self).text(), old(self).at(), "check"@),
        ensures
            final(self).wf(),
            final(self).text() == old(self).text(),
            (seen(r), final(self).at()) == p_check(old(self).text(), old(self).at()),
            final(self).at() >= old(self).at(),
            r is Ok ==> final(self).at() > old(self).at(),
    {
        match self.consume("check") {
            Ok(()) => {},
            Err(e) => {
                return Err(e);
            },
        }
        self.skip_trivia();
        let word = match self.parse_name() {
            Ok(word) => word,
            Err(e) => {
                return Err(e);
            },
        };
        let yes = word == String::from_str("yes");
        let no = word == String::from_str("no");
        if !yes && !no {
            return Err(ParseError::Plain { what: String::from_str("Expected yes or no") });
        }
        match self.parse_net() {
            Ok(net) => Ok(Statement::Check(yes, net)),
            Err(e) => Err(e),
        }
    }

    /// Parses the index trees of a declaration, each followed by a colon,
    /// and stops where the declaration's type begins.
    pub fn parse_indices(&mut self) -> (vars: Vec<Tree>)
        requires
            old(self).wf(),
        ensures
            final(self).wf(),
            final(self).text() == old(self).text(),
            (surfaces(vars@), final(self).at()) == p_indices(old(self).text(), old(self).at()),
            final(self).at() >= old(self).at(),
    {
        let ghost s = self.text();
        let mut vars: Vec<Tree> = Vec::new();
        let mut mark = self.index;
        loop
            invariant_except_break
                mark == self.index,
                self.at() >= old(self).at(),
                p_indices(s, old(self).at()) == (
                    surfaces(vars@) + p_indices(s, self.at()).0,
                    p_indices(s, self.at()).1,
                ),
            invariant
                self.wf(),
                self.text() == s,
                s == old(self).text(),
            ensures
                self.wf(),
                self.text() == s,
                mark >= old(self).at(),
                mark <= s.len(),
                p_indices(s, old(self).at()) == (surfaces(vars@), mark as nat),
            decreases s.len() - self.at(),
        {
            let t = match self.parse_tree() {
                Ok(t) => t,
                Err(e) => {
                    break ;
                },
            };
            self.skip_trivia();
            match self.peek_one() {
                Some(':') => {},
                _ => {
                    break ;
                },
            }
            let ghost k = self.at();
            proof {
                reveal_strlit(":");
                assert(":"@ =~= seq![':']);
                lemma_consume_char(s, k, ':', ":"@);
            }
            match self.consume(":") {
                Ok(()) => {},
                Err(e) => {},
            }
            self.skip_trivia();
            proof {
            }
            vars.push(t);
            mark = self.index;
        }
        self.index = mark;
        vars
    }

    /// Parses a statement: a check, a definition or a declaration.
    pub fn parse_statement(&mut self) -> (r: Result<Statement, ParseError>)
        requires
            old(self).wf(),
        ensures
            final(self).wf(),
            final(self).text() == old(self).text(),
            (seen(r), final(self).at()) == p_statement(old(self).text(), old(self).at()),
            r is Ok ==> final(self).at() > old(self).at(),
    {
        let ghost s = self.text();
        let index = self.index;
        self.skip_trivia();
        if self.starts_with("check") {
            return self.parse_check();
        }
        let untyped = self.parse_untyped_match();
        self.skip_trivia();
        match untyped {
            Ok(left) => {
                match self.peek_one() {
                    Some('~') => {
                        let ghost b = self.at();
                        proof {
                            reveal_strlit("~");
                            assert("~"@ =~= seq!['~']);
                            lemma_consume_char(s, b, '~', "~"@);
                        }
                        match self.consume("~") {
                            Ok(()) => {},
                            Err(e) => {
                                return Err(e);
                            },
                        }
                        return match self.parse_untyped_match() {
                            Ok(right) => Ok(Statement::Def(left, right)),
                            Err(e) => Err(e),
                        };
                    },
                    _ => {},
                }
            },
            Err(e) => {},
        }
        self.index = index;
        let typed = self.parse_typed_match();
        self.skip_trivia();
        match typed {
            Ok(agent) => {
                match self.peek_one() {
                    Some(':') => {
                        let ghost b = self.at();
                        proof {
                            reveal_strlit(":");
                            assert(":"@ =~= seq![':']);
                            lemma_consume_char(s, b, ':', ":"@);
                        }
                        match self.consume(":") {
                            Ok(()) => {},
                            Err(e) => {
                                return Err(e);
                            },
                        }
                        self.skip_trivia();
                        let vars = self.parse_indices();
                        return match self.parse_untyped_match() {
                            Ok(parent) => Ok(Statement::Decl(agent, vars, parent)),
                            Err(e) => Err(e),
                        };
                    },
                    _ => {},
                }
            },
            Err(e) => {},
        }
        self.index = index;
        Err(
            ParseError::Expected {
                at: index,
                what: String::from_str("Expected typed pattern match or untyped pattern match."),
            },
        )
    }

    /// Parses a book: statements up to the end of the text.
    pub fn parse_book(&mut self) -> (r: Result<Vec<Statement>, ParseError>)
        requires
            old(self).wf(),
        ensures
            final(self).wf(),
            final(self).text() == old(self).text(),
            (seen_book(r), final(self).at()) == p_book(old(self).text(), old(self).at()),
    {
        let ghost s = self.text();
        self.skip_trivia();
        let ghost start = self.at();
        let mut book: Vec<Statement> = Vec::new();
        proof {
            match p_statements(s, start).0 {
                Ok(ts) => {
                },
                Err(e) => {},
            }
        }
        loop
            invariant
                self.wf(),
                self.text() == s,
                s == old(self).text(),
                p_statements(s, start) == after(
                    Seq::new(book@.len(), |i: int| book@[i]@),
                    p_statements(s, self.at()),
                ),
                p_book(s, old(self).at()) == p_statements(s, start),
            decreases s.len() - self.at(),
        {
            let ghost acc = Seq::new(book@.len(), |i: int| book@[i]@);
            match self.peek_one() {
                None => {
                    return Ok(book);
                },
                _ => {},
            }
            let t = match self.parse_statement() {
                Ok(t) => t,
                Err(e) => {
                    return Err(e);
                },
            };
            self.skip_trivia();
            proof {
                let rest = p_statements(s, self.at());
                let grown = book@.push(t);
                assert(Seq::new(grown.len(), |i: int| grown[i]@) =~= acc + seq![t@]);
                match rest.0 {
                    Ok(ts) => {
                        assert((acc + seq![t@]) + ts =~= acc + (seq![t@] + ts));
                    },
                    Err(e) => {},
                }
            }
            book.push(t);
        }
    }
}
} // verus!
