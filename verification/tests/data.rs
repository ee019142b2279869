use minilisp::env::{Env, Memo};
use minilisp::expr::Expr;
use minilisp::text::{chars_of, string_of, text_is};

fn name(s: &str) -> String {
    String::from(s)
}

#[test]
fn string_of_collects_characters() {
    assert_eq!(string_of(&['a', 'é', '→']), "aé→");
    assert_eq!(string_of(&[]), "");
}

#[test]
fn chars_of_lists_characters() {
    assert_eq!(chars_of("aé→"), vec!['a', 'é', '→']);
    assert_eq!(chars_of(""), Vec::<char>::new());
}

#[test]
fn text_is_compares_characters() {
    assert!(text_is("define", "define"));
    assert!(!text_is("define", "defin"));
    assert!(!text_is("defin", "define"));
    assert!(!text_is("define", "dEfine"));
    assert!(text_is("", ""));
    assert!(text_is("é→", "é→"));
}

#[test]
fn expr_equality_is_structural() {
    let a = Expr::List(name("f"), vec![Expr::Int(1), Expr::Str(name("x"))]);
    let b = Expr::List(name("f"), vec![Expr::Int(1), Expr::Str(name("x"))]);
    let c = Expr::List(name("f"), vec![Expr::Int(1), Expr::Symbol(name("x"))]);
    let d = Expr::List(name("f"), vec![Expr::Int(1)]);
    let e = Expr::QuotedList(vec![Expr::Int(1), Expr::Str(name("x"))]);
    assert!(a.same(&b));
    assert!(a == b);
    assert!(!a.same(&c));
    assert!(a != c);
    assert!(a != d);
    assert!(a != e);
    assert!(Expr::Ident(name("x")) != Expr::Symbol(name("x")));
    assert!(Expr::Int(0) != Expr::Bool(false));
    assert!(Expr::Unit == Expr::Unit);
    let f = Expr::Fun(vec![name("a")], Box::new(Expr::Ident(name("a"))));
    let g = Expr::Fun(vec![name("a")], Box::new(Expr::Ident(name("b"))));
    let h = Expr::Fun(vec![name("a"), name("b")], Box::new(Expr::Ident(name("a"))));
    assert!(f == f.clone());
    assert!(f != g);
    assert!(f != h);
}

#[test]
fn expr_clone_is_equal() {
    let a = Expr::List(
        name("f"),
        vec![
            Expr::QuotedList(vec![Expr::Int(1), Expr::Bool(true), Expr::Unit]),
            Expr::Fun(vec![name("a")], Box::new(Expr::Symbol(name("s")))),
        ],
    );
    assert_eq!(a.clone(), a);
}

#[test]
fn env_binds_and_rebinds() {
    let mut env = Env::new();
    assert_eq!(env.len(), 0);
    assert_eq!(env.get(&name("x")), None);
    env.insert(name("x"), Expr::Int(1));
    env.insert(name("y"), Expr::Int(2));
    assert_eq!(env.len(), 2);
    assert_eq!(env.get(&name("x")), Some(&Expr::Int(1)));
    assert_eq!(env.get(&name("y")), Some(&Expr::Int(2)));
    env.insert(name("x"), Expr::Int(3));
    assert_eq!(env.len(), 2);
    assert_eq!(env.get(&name("x")), Some(&Expr::Int(3)));
    assert_eq!(env.get(&name("y")), Some(&Expr::Int(2)));
    assert!(env.contains_key(&name("x")));
    assert!(!env.contains_key(&name("z")));
}

#[test]
fn env_clone_is_a_snapshot() {
    let mut env = Env::new();
    env.insert(name("x"), Expr::Int(1));
    let mut copy = env.clone();
    copy.insert(name("x"), Expr::Int(2));
    copy.insert(name("y"), Expr::Int(3));
    assert_eq!(env.get(&name("x")), Some(&Expr::Int(1)));
    assert_eq!(env.len(), 1);
    assert_eq!(copy.get(&name("x")), Some(&Expr::Int(2)));
    assert_eq!(copy.len(), 2);
}

#[test]
fn memo_keeps_the_first_result() {
    let mut memo = Memo::new();
    assert_eq!(memo.len(), 0);
    memo.insert_absent(name("f"), vec![Expr::Int(1)], Expr::Int(10));
    memo.insert_absent(name("f"), vec![Expr::Int(2)], Expr::Int(20));
    memo.insert_absent(name("g"), vec![Expr::Int(1)], Expr::Int(30));
    memo.insert_absent(name("f"), vec![Expr::Int(1)], Expr::Int(99));
    assert_eq!(memo.len(), 3);
    assert_eq!(memo.get(&name("f"), &vec![Expr::Int(1)]), Some(&Expr::Int(10)));
    assert_eq!(memo.get(&name("f"), &vec![Expr::Int(2)]), Some(&Expr::Int(20)));
    assert_eq!(memo.get(&name("g"), &vec![Expr::Int(1)]), Some(&Expr::Int(30)));
    assert_eq!(memo.get(&name("g"), &vec![Expr::Int(2)]), None);
    assert_eq!(memo.get(&name("f"), &vec![]), None);
    assert_eq!(memo.get(&name("f"), &vec![Expr::Int(1), Expr::Int(1)]), None);
}

#[test]
fn render_writes_integers_in_decimal() {
    assert_eq!(Expr::Int(0).render(), "0");
    assert_eq!(Expr::Int(7).render(), "7");
    assert_eq!(Expr::Int(10).render(), "10");
    assert_eq!(Expr::Int(1234567890).render(), "1234567890");
    assert_eq!(Expr::Int(-1).render(), "-1");
    assert_eq!(Expr::Int(-120).render(), "-120");
    assert_eq!(Expr::Int(i64::MAX).render(), "9223372036854775807");
    assert_eq!(Expr::Int(i64::MIN).render(), "-9223372036854775808");
}

#[test]
fn render_writes_each_kind() {
    assert_eq!(Expr::Str(name("abc")).render(), "\"abc\"");
    assert_eq!(Expr::Symbol(name("abc")).render(), "abc");
    assert_eq!(Expr::Ident(name("abc")).render(), "abc");
    assert_eq!(Expr::Bool(true).render(), "true");
    assert_eq!(Expr::Bool(false).render(), "false");
    assert_eq!(Expr::Unit.render(), "unit");
    assert_eq!(
        Expr::Fun(vec![name("a")], Box::new(Expr::Unit)).render(),
        "##fun##"
    );
    assert_eq!(Expr::QuotedList(vec![]).render(), "()");
    assert_eq!(Expr::List(name("f"), vec![]).render(), "( f )");
    assert_eq!(
        Expr::QuotedList(vec![Expr::Int(1), Expr::Str(name("é"))]).render(),
        "( 1  \"é\" )"
    );
    assert_eq!(
        Expr::List(
            name("+"),
            vec![
                Expr::Int(1),
                Expr::QuotedList(vec![Expr::Ident(name("x")), Expr::Bool(true)])
            ]
        )
        .render(),
        "( +  1  ( x  true ) )"
    );
}

fn round_trip(list: &Expr) -> Result<Expr, &'static str> {
    let text: Vec<char> = list.render().chars().collect();
    let found = minilisp::parser::parse(&text).unwrap();
    assert_eq!(found.txt.len(), 0);
    assert_eq!(found.res.len(), 1);
    minilisp::eval::eval(&found.res).map(|r| r.0)
}

#[test]
fn a_list_of_a_word_and_numbers_reads_back() {
    let list = Expr::QuotedList(vec![
        Expr::Ident(name("point")),
        Expr::Int(1),
        Expr::Int(22),
        Expr::Int(0),
    ]);
    let text: Vec<char> = list.render().chars().collect();
    let found = minilisp::parser::parse(&text).unwrap();
    assert_eq!(found.txt.len(), 0);
    assert_eq!(
        found.res,
        vec![Expr::List(
            name("point"),
            vec![Expr::Int(1), Expr::Int(22), Expr::Int(0)]
        )]
    );
    assert_eq!(round_trip(&list), Ok(list));
    let alone = Expr::QuotedList(vec![Expr::Ident(name("f"))]);
    assert_eq!(round_trip(&alone), Ok(alone));
}

#[test]
fn a_nested_list_reads_back() {
    let list = Expr::QuotedList(vec![
        Expr::Ident(name("a")),
        Expr::QuotedList(vec![
            Expr::Ident(name("b")),
            Expr::Str(name("word")),
            Expr::QuotedList(vec![Expr::Ident(name("c"))]),
            Expr::Bool(true),
        ]),
        Expr::Ident(name("free")),
        Expr::Unit,
        Expr::Bool(false),
        Expr::Int(i64::MAX),
    ]);
    assert_eq!(round_trip(&list), Ok(list));
}

#[test]
fn a_list_that_begins_with_a_number_is_read_back_as_another() {
    let list = Expr::QuotedList(vec![Expr::Int(1), Expr::Int(2)]);
    assert_eq!(
        round_trip(&list),
        Ok(Expr::QuotedList(vec![
            Expr::Ident(name("1")),
            Expr::Int(2)
        ]))
    );
    let sum = Expr::QuotedList(vec![Expr::Ident(name("+")), Expr::Int(1), Expr::Int(2)]);
    assert_eq!(round_trip(&sum), Ok(Expr::Int(3)));
    let marked = Expr::QuotedList(vec![Expr::Ident(name("f")), Expr::Symbol(name("s"))]);
    assert_eq!(
        round_trip(&marked),
        Ok(Expr::QuotedList(vec![
            Expr::Ident(name("f")),
            Expr::Ident(name("s"))
        ]))
    );
}
