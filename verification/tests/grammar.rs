use minilisp::expr::Expr;
use minilisp::parser::parse;

fn chars(s: &str) -> Vec<char> {
    s.chars().collect()
}

fn parsed(s: &str) -> (Vec<Expr>, String) {
    let txt = chars(s);
    let found = parse(&txt).unwrap();
    (found.res, found.txt.iter().collect())
}

fn failure(s: &str) -> (String, String) {
    let txt = chars(s);
    match parse(&txt) {
        Ok(_) => panic!("parsed"),
        Err((why, at)) => (why.to_string(), at.iter().collect()),
    }
}

fn ident(s: &str) -> Expr {
    Expr::Ident(String::from(s))
}

fn list(head: &str, args: Vec<Expr>) -> Expr {
    Expr::List(String::from(head), args)
}

#[test]
fn integer_literal() {
    assert_eq!(parsed("42"), (vec![Expr::Int(42)], String::new()));
}

#[test]
fn string_literal() {
    assert_eq!(
        parsed("\"abc\""),
        (vec![Expr::Str(String::from("abc"))], String::new())
    );
}

#[test]
fn symbol_literal() {
    assert_eq!(
        parsed("'abc"),
        (vec![Expr::Symbol(String::from("abc"))], String::new())
    );
}

#[test]
fn bare_word() {
    assert_eq!(parsed("abc"), (vec![ident("abc")], String::new()));
    assert_eq!(parsed("+"), (vec![ident("+")], String::new()));
}

#[test]
fn digits_come_before_words() {
    assert_eq!(
        parsed("12ab"),
        (vec![Expr::Int(12), ident("ab")], String::new())
    );
    assert_eq!(parsed("-5"), (vec![ident("-5")], String::new()));
}

#[test]
fn number_too_large_for_an_integer_is_a_word() {
    assert_eq!(
        parsed("9223372036854775808"),
        (vec![ident("9223372036854775808")], String::new())
    );
}

#[test]
fn form_with_arguments() {
    assert_eq!(
        parsed("(+ 1 2)"),
        (
            vec![list("+", vec![Expr::Int(1), Expr::Int(2)])],
            String::new()
        )
    );
}

#[test]
fn form_without_arguments() {
    assert_eq!(parsed("(f)"), (vec![list("f", vec![])], String::new()));
    assert_eq!(parsed("( f )"), (vec![list("f", vec![])], String::new()));
}

#[test]
fn nested_forms() {
    assert_eq!(
        parsed("(a (b (c 1) 'd) \"e\")"),
        (
            vec![list(
                "a",
                vec![
                    list(
                        "b",
                        vec![
                            list("c", vec![Expr::Int(1)]),
                            Expr::Symbol(String::from("d"))
                        ]
                    ),
                    Expr::Str(String::from("e"))
                ]
            )],
            String::new()
        )
    );
}

#[test]
fn whitespace_is_not_significant() {
    assert_eq!(
        parsed(" \n\t( +\r\n 1   2 )  \n"),
        (
            vec![list("+", vec![Expr::Int(1), Expr::Int(2)])],
            String::new()
        )
    );
}

#[test]
fn several_top_level_expressions() {
    assert_eq!(
        parsed("(define x 1) x 2"),
        (
            vec![
                list("define", vec![ident("x"), Expr::Int(1)]),
                ident("x"),
                Expr::Int(2)
            ],
            String::new()
        )
    );
}

#[test]
fn trailing_text_is_handed_back() {
    assert_eq!(
        parsed("(f 1)) rest"),
        (vec![list("f", vec![Expr::Int(1)])], String::from(") rest"))
    );
    assert_eq!(parsed("1 (2"), (vec![Expr::Int(1)], String::from("(2")));
}

#[test]
fn deep_nesting_parses() {
    let depth = 200;
    let mut s = String::new();
    for _ in 0..depth {
        s.push_str("(f ");
    }
    s.push('1');
    for _ in 0..depth {
        s.push(')');
    }
    let (exprs, rest) = parsed(&s);
    assert_eq!(rest, "");
    assert_eq!(exprs.len(), 1);
    let mut e = &exprs[0];
    let mut seen = 0;
    while let Expr::List(head, args) = e {
        assert_eq!(head, "f");
        assert_eq!(args.len(), 1);
        e = &args[0];
        seen += 1;
    }
    assert_eq!(seen, depth);
    assert_eq!(*e, Expr::Int(1));
}

#[test]
fn empty_text_fails() {
    assert_eq!(
        failure(""),
        (String::from("all: no matches"), String::new())
    );
    assert_eq!(
        failure("   "),
        (String::from("all: no matches"), String::from("   "))
    );
}

#[test]
fn unmatched_text_fails_where_it_starts() {
    assert_eq!(
        failure("(unclosed 1"),
        (String::from("all: no matches"), String::from("(unclosed 1"))
    );
    assert_eq!(
        failure(")"),
        (String::from("all: no matches"), String::from(")"))
    );
}
