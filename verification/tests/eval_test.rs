use minilisp::eval::eval;
use minilisp::expr::Expr;
use minilisp::parser::parse;

fn s(txt: &str) -> Result<Expr, &'static str> {
    let chars: Vec<char> = txt.chars().collect();
    parse(&chars)
        .map(|x| eval(&x.res).map(|(x, _)| x))
        .unwrap()
}

#[test]
fn eval_test() {
    assert_eq!(s("(+ (* 2 2) 2 3 )"), Ok(Expr::Int(9)));
    assert_eq!(
        s("(list (list 5 6) 7)"),
        Ok(Expr::QuotedList(vec![
            Expr::QuotedList(vec![Expr::Int(5), Expr::Int(6)]),
            Expr::Int(7)
        ]))
    );
    assert_eq!(
        s("(quote (+ 1 2))"),
        Ok(Expr::QuotedList(vec![
            Expr::Ident(String::from("+")),
            Expr::Int(1),
            Expr::Int(2)
        ]))
    );
    assert_eq!(s("(define x 1)"), Ok(Expr::Unit));
    assert_eq!(
        s("(append 1 (quote (+ 3))))"),
        Ok(Expr::QuotedList(vec![
            Expr::Int(1),
            Expr::Ident(String::from("+")),
            Expr::Int(3)
        ]))
    );
    assert_eq!(s("(if (eq? 1 1) 5 (6 7))"), Ok(Expr::Int(5)));
    assert_eq!(
        s("(if (eq? 1 2) 5 \"abc\")"),
        Ok(Expr::Str(String::from("abc")))
    );
    assert_eq!(s("(eq? 1 1 1)"), Ok(Expr::Bool(true)));
    assert_eq!(s("(eq? 1 2)"), Ok(Expr::Bool(false)));
    assert_eq!(s("(eq? (1 2) (1 2) (1 2))"), Ok(Expr::Bool(true)));
    assert_eq!(s("(eq? (1 2) (1 2) (1 1))"), Ok(Expr::Bool(false)));
    assert_eq!(
        s("(define x 'abc)
                  x"),
        Ok(Expr::Symbol(String::from("abc")))
    );
    assert_eq!(s("(define add2 (a) (+ a 2))"), Ok(Expr::Unit));
    assert_eq!(
        s("(+           
                 (add 1 2 3)    1 2 (/ 1 2 3)    1 2)",),
        Ok(Expr::Int(12))
    );

    assert_eq!(
        s("(define add2 (a) (+ a 2))
                  (define nine 9)
                  (add2 nine)"),
        Ok(Expr::Int(11))
    );

    assert_eq!(
        s("(define sub1 (z) (- z 1))
(define sub2 (z) (- z 2))
(define or (a b) (if a true (if b true false)))
(define fib (a)
(if (or (eq? a 1) (eq? a 2))
    1
    (+ (fib (sub1 a)) (fib (sub2 a)))))
(fib 8)"),
        Ok(Expr::Int(21))
    );

    assert_eq!(s("(define id (lambda (a) a)) (id 42)"), Ok(Expr::Int(42)));
}
