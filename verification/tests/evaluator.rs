use minilisp::env::{Env, Memo};
use minilisp::eval::{eval, eval_expr};
use minilisp::expr::Expr;
use minilisp::parser::parse;

fn program(txt: &str) -> Vec<Expr> {
    let chars: Vec<char> = txt.chars().collect();
    parse(&chars).unwrap().res
}

fn run(txt: &str) -> Result<Expr, &'static str> {
    eval(&program(txt)).map(|(value, _)| value)
}

fn ident(s: &str) -> Expr {
    Expr::Ident(String::from(s))
}

fn name(s: &str) -> String {
    String::from(s)
}

#[test]
fn arithmetic_folds_from_the_first_operand() {
    assert_eq!(run("(+ 1 2 3)"), Ok(Expr::Int(6)));
    assert_eq!(run("(* 2 2 2)"), Ok(Expr::Int(8)));
    assert_eq!(run("(- 10 1 2)"), Ok(Expr::Int(7)));
    assert_eq!(run("(/ 100 5 2)"), Ok(Expr::Int(10)));
    assert_eq!(run("(add 1 2)"), Ok(Expr::Int(3)));
    assert_eq!(run("(sub 1 2)"), Ok(Expr::Int(-1)));
    assert_eq!(run("(mul 3 4)"), Ok(Expr::Int(12)));
    assert_eq!(run("(div 9 2)"), Ok(Expr::Int(4)));
    assert_eq!(run("(+ 5)"), Ok(Expr::Int(5)));
    assert_eq!(run("(/ 5)"), Ok(Expr::Int(5)));
}

#[test]
fn division_rounds_toward_zero() {
    assert_eq!(run("(/ (- 0 7) 2)"), Ok(Expr::Int(-3)));
    assert_eq!(run("(/ 7 (- 0 2))"), Ok(Expr::Int(-3)));
    assert_eq!(run("(/ (- 0 7) (- 0 2))"), Ok(Expr::Int(3)));
    assert_eq!(run("(/ 0 (- 0 2))"), Ok(Expr::Int(0)));
}

#[test]
fn arithmetic_errors() {
    assert_eq!(run("(+)"), Err("expected at least one parameter."));
    assert_eq!(run("(+ 1 \"a\")"), Err("expected int"));
    assert_eq!(run("(* 'a)"), Err("expected int"));
    assert_eq!(run("(/ 1 0)"), Err("division by zero"));
    assert_eq!(
        run("(+ 9223372036854775807 1)"),
        Err("integer overflow")
    );
    assert_eq!(
        run("(- (- 0 9223372036854775807) 2)"),
        Err("integer overflow")
    );
    assert_eq!(
        run("(* 4611686018427387904 2)"),
        Err("integer overflow")
    );
    assert_eq!(
        run("(/ (- (- 0 9223372036854775807) 1) (- 0 1))"),
        Err("integer overflow")
    );
    assert_eq!(
        run("(- (- 0 9223372036854775807) 1)"),
        Ok(Expr::Int(i64::MIN))
    );
}

#[test]
fn a_value_that_is_no_integer_is_found_before_an_overflow() {
    assert_eq!(
        run("(+ 9223372036854775807 1 'a)"),
        Err("expected int")
    );
}

#[test]
fn if_takes_one_branch() {
    assert_eq!(
        run("(if (eq? 1 2) 5 \"abc\")"),
        Ok(Expr::Str(name("abc")))
    );
    assert_eq!(run("(if (eq? 1 2) (define) \"abc\")"), Ok(Expr::Str(name("abc"))));
    assert_eq!(run("(if (eq? 1 1) 5 (define))"), Ok(Expr::Int(5)));
    assert_eq!(run("(if (eq? 1 1) (define) 5)"), Err("cannot define <empty> of value <empty>"));
    assert_eq!(run("(if 1 2 3)"), Ok(Expr::Int(3)));
    assert_eq!(run("(if true 2 3)"), Ok(Expr::Int(2)));
}

#[test]
fn if_defines_in_the_taken_branch_only() {
    let (value, env) = eval(&program("(if false (define a 1) (define b 2)) b")).unwrap();
    assert_eq!(value, Expr::Int(2));
    assert!(!env.contains_key(&name("a")));
    assert_eq!(env.get(&name("b")), Some(&Expr::Int(2)));
}

#[test]
fn if_of_another_shape_fails() {
    assert_eq!(run("(if 1 2)"), Err("wrongly defined if"));
    assert_eq!(run("(if)"), Err("wrongly defined if"));
    assert_eq!(run("(if 1 2 3 4)"), Err("wrongly defined if"));
    assert_eq!(run("(if (+ 'a) 2 3)"), Err("expected int"));
}

#[test]
fn functions_are_defined_and_called() {
    assert_eq!(run("(define add2 (a) (+ a 2)) (add2 40)"), Ok(Expr::Int(42)));
    assert_eq!(
        run("(define sum3 (a b c) (+ a b c)) (sum3 1 2 3)"),
        Ok(Expr::Int(6))
    );
}

#[test]
fn recursion_with_memoization() {
    assert_eq!(
        run("(define sub1 (z) (- z 1)) (define sub2 (z) (- z 2)) (define or (a b) (if a true (if b true false))) (define fib (a) (if (or (eq? a 1) (eq? a 2)) 1 (+ (fib (sub1 a)) (fib (sub2 a))))) (fib 8)"),
        Ok(Expr::Int(21))
    );
}

#[test]
fn equal_calls_are_evaluated_once() {
    let exprs = program(
        "(define sub1 (z) (- z 1)) (define sub2 (z) (- z 2)) (define or (a b) (if a true (if b true false))) (define fib (a) (if (or (eq? a 1) (eq? a 2)) 1 (+ (fib (sub1 a)) (fib (sub2 a))))) (fib 8) (fib 8) (fib 7)",
    );
    let mut env = Env::new();
    let mut memo = Memo::new();
    for e in &exprs[..4] {
        assert_eq!(eval_expr(e, &mut env, &mut memo, 1000), Ok(Expr::Unit));
    }
    assert_eq!(memo.len(), 0);
    assert_eq!(eval_expr(&exprs[4], &mut env, &mut memo, 1000), Ok(Expr::Int(21)));
    assert_eq!(memo.len(), 23);
    assert_eq!(
        memo.get(&name("fib"), &vec![Expr::Int(8)]),
        Some(&Expr::Int(21))
    );
    assert_eq!(
        memo.get(&name("fib"), &vec![Expr::Int(5)]),
        Some(&Expr::Int(5))
    );
    assert_eq!(memo.get(&name("fib"), &vec![Expr::Int(9)]), None);
    assert_eq!(eval_expr(&exprs[5], &mut env, &mut memo, 1000), Ok(Expr::Int(21)));
    assert_eq!(memo.len(), 23);
    assert_eq!(eval_expr(&exprs[6], &mut env, &mut memo, 1000), Ok(Expr::Int(13)));
    assert_eq!(memo.len(), 23);
}

#[test]
fn a_remembered_call_needs_no_depth() {
    let exprs = program("(define f (a) (+ a 1)) (f 1)");
    let mut env = Env::new();
    let mut memo = Memo::new();
    assert_eq!(eval_expr(&exprs[0], &mut env, &mut memo, 0), Ok(Expr::Unit));
    assert_eq!(
        eval_expr(&exprs[1], &mut env, &mut memo, 0),
        Err("call depth exceeded")
    );
    assert_eq!(memo.len(), 0);
    assert_eq!(eval_expr(&exprs[1], &mut env, &mut memo, 1), Ok(Expr::Int(2)));
    assert_eq!(memo.len(), 1);
    assert_eq!(eval_expr(&exprs[1], &mut env, &mut memo, 0), Ok(Expr::Int(2)));
}

#[test]
fn the_cache_is_not_invalidated() {
    assert_eq!(
        run("(define k 1) (define f (a) (+ a k)) (f 1) (define k 10) (f 1)"),
        Ok(Expr::Int(2))
    );
    assert_eq!(
        run("(define k 1) (define f (a) (+ a k)) (f 1) (define k 10) (f 2)"),
        Ok(Expr::Int(12))
    );
}

#[test]
fn calls_nest_up_to_the_depth() {
    let exprs = program("(define f (a) (g a)) (define g (a) (h a)) (define h (a) a) (f 7)");
    let mut env = Env::new();
    let mut memo = Memo::new();
    for e in &exprs[..3] {
        assert_eq!(eval_expr(e, &mut env, &mut memo, 0), Ok(Expr::Unit));
    }
    assert_eq!(
        eval_expr(&exprs[3], &mut env, &mut memo, 2),
        Err("call depth exceeded")
    );
    assert_eq!(eval_expr(&exprs[3], &mut env, &mut memo, 3), Ok(Expr::Int(7)));
}

#[test]
fn endless_recursion_ends_at_the_depth() {
    let exprs = program("(define f (a) (f (+ a 1))) (f 0)");
    let mut env = Env::new();
    let mut memo = Memo::new();
    assert_eq!(eval_expr(&exprs[0], &mut env, &mut memo, 50), Ok(Expr::Unit));
    assert_eq!(
        eval_expr(&exprs[1], &mut env, &mut memo, 50),
        Err("call depth exceeded")
    );
}

#[test]
fn quote_gives_data() {
    assert_eq!(
        run("(quote (+ 1 2))"),
        Ok(Expr::QuotedList(vec![ident("+"), Expr::Int(1), Expr::Int(2)]))
    );
    assert_eq!(run("(quote x)"), Ok(ident("x")));
    assert_eq!(run("(quote 5)"), Ok(Expr::Int(5)));
    assert_eq!(
        run("(quote 1 2)"),
        Ok(Expr::QuotedList(vec![Expr::Int(1), Expr::Int(2)]))
    );
    assert_eq!(run("(quote)"), Ok(Expr::QuotedList(vec![])));
}

#[test]
fn quote_evaluates_nothing() {
    assert_eq!(
        run("(quote (+ 1 \"a\"))"),
        Ok(Expr::QuotedList(vec![
            ident("+"),
            Expr::Int(1),
            Expr::Str(name("a"))
        ]))
    );
    let (value, env) = eval(&program("(quote (define x 1))")).unwrap();
    assert_eq!(
        value,
        Expr::QuotedList(vec![ident("define"), ident("x"), Expr::Int(1)])
    );
    assert_eq!(env.len(), 0);
    assert_eq!(
        run("(quote (f (g 1)))"),
        Ok(Expr::QuotedList(vec![
            ident("f"),
            Expr::List(name("g"), vec![Expr::Int(1)])
        ]))
    );
}

#[test]
fn structural_equality() {
    assert_eq!(run("(eq? (1 2) (1 2) (1 1))"), Ok(Expr::Bool(false)));
    assert_eq!(run("(eq? (1 2) (1 2) (1 2))"), Ok(Expr::Bool(true)));
    assert_eq!(run("(eq?)"), Ok(Expr::Bool(true)));
    assert_eq!(run("(eq? 1)"), Ok(Expr::Bool(true)));
    assert_eq!(run("(eq? 1 \"1\")"), Ok(Expr::Bool(false)));
    assert_eq!(run("(eq? 'a 'a)"), Ok(Expr::Bool(true)));
    assert_eq!(run("(eq? 'a a)"), Ok(Expr::Bool(false)));
    assert_eq!(run("(eq? 1 1 2)"), Ok(Expr::Bool(false)));
    assert_eq!(
        run("(eq? (lambda (a) a) (lambda (a) a))"),
        Ok(Expr::Bool(true))
    );
    assert_eq!(
        run("(eq? (lambda (a) a) (lambda (b) b))"),
        Ok(Expr::Bool(false))
    );
    assert_eq!(run("(eq? (list) (quote))"), Ok(Expr::Bool(true)));
}

#[test]
fn list_wraps_the_values() {
    assert_eq!(run("(list)"), Ok(Expr::QuotedList(vec![])));
    assert_eq!(
        run("(list 1 (+ 1 1) 'c)"),
        Ok(Expr::QuotedList(vec![
            Expr::Int(1),
            Expr::Int(2),
            Expr::Symbol(name("c"))
        ]))
    );
}

#[test]
fn append_puts_a_value_in_front() {
    assert_eq!(
        run("(append 1 (list 2 3))"),
        Ok(Expr::QuotedList(vec![
            Expr::Int(1),
            Expr::Int(2),
            Expr::Int(3)
        ]))
    );
    assert_eq!(
        run("(append 1 2)"),
        Ok(Expr::QuotedList(vec![Expr::Int(1), Expr::Int(2)]))
    );
    assert_eq!(
        run("(append (list 1) 2)"),
        Ok(Expr::QuotedList(vec![
            Expr::QuotedList(vec![Expr::Int(1)]),
            Expr::Int(2)
        ]))
    );
    assert_eq!(
        run("(append (list 1) (list))"),
        Ok(Expr::QuotedList(vec![Expr::QuotedList(vec![Expr::Int(1)])]))
    );
    assert_eq!(run("(append 1)"), Err("unsupported params for append"));
    assert_eq!(run("(append)"), Err("unsupported params for append"));
    assert_eq!(run("(append 1 2 3)"), Err("unsupported params for append"));
}

#[test]
fn names_evaluate() {
    assert_eq!(run("true"), Ok(Expr::Bool(true)));
    assert_eq!(run("false"), Ok(Expr::Bool(false)));
    assert_eq!(run("unit"), Ok(Expr::Unit));
    assert_eq!(run("free"), Ok(ident("free")));
    assert_eq!(run("(define x 3) x"), Ok(Expr::Int(3)));
    assert_eq!(run("(define true 3) true"), Ok(Expr::Bool(true)));
    assert_eq!(eval(&[ident("#t")]).map(|r| r.0), Ok(Expr::Bool(true)));
    assert_eq!(eval(&[ident("#f")]).map(|r| r.0), Ok(Expr::Bool(false)));
}

#[test]
fn values_evaluate_to_themselves() {
    let values = vec![
        Expr::Int(-4),
        Expr::Str(name("s")),
        Expr::Bool(true),
        Expr::Symbol(name("s")),
        Expr::Unit,
        Expr::QuotedList(vec![Expr::List(name("+"), vec![Expr::Int(1)])]),
        Expr::Fun(vec![name("a")], Box::new(ident("a"))),
    ];
    for v in values {
        assert_eq!(eval(&[v.clone()]).map(|r| r.0), Ok(v));
    }
}

#[test]
fn define_binds_a_value() {
    let (value, env) = eval(&program("(define x (+ 1 2))")).unwrap();
    assert_eq!(value, Expr::Unit);
    assert_eq!(env.len(), 1);
    assert_eq!(env.get(&name("x")), Some(&Expr::Int(3)));
    let (_, env) = eval(&program("(define x 1) (define x 2) (define y x)")).unwrap();
    assert_eq!(env.len(), 2);
    assert_eq!(env.get(&name("x")), Some(&Expr::Int(2)));
    assert_eq!(env.get(&name("y")), Some(&Expr::Int(2)));
}

#[test]
fn define_binds_a_function() {
    let (value, env) = eval(&program("(define f (a b) (+ a b))")).unwrap();
    assert_eq!(value, Expr::Unit);
    assert_eq!(
        env.get(&name("f")),
        Some(&Expr::Fun(
            vec![name("a"), name("b")],
            Box::new(Expr::List(name("+"), vec![ident("a"), ident("b")]))
        ))
    );
}

#[test]
fn define_of_another_shape_fails() {
    assert_eq!(run("(define)"), Err("cannot define <empty> of value <empty>"));
    assert_eq!(run("(define x)"), Err("cannot define var/function"));
    assert_eq!(run("(define 1 2)"), Err("cannot define var/function"));
    assert_eq!(run("(define f 1 2)"), Err("cannot define var/function"));
    assert_eq!(run("(define f (a) 1 2)"), Err("cannot define var/function"));
    assert_eq!(run("(define f (a 1) a)"), Err("expected ident"));
    assert_eq!(run("(define x (+ 'a))"), Err("expected int"));
}

#[test]
fn lambda_makes_a_function() {
    assert_eq!(
        run("(lambda (a b) (+ a b))"),
        Ok(Expr::Fun(
            vec![name("a"), name("b")],
            Box::new(Expr::List(name("+"), vec![ident("a"), ident("b")]))
        ))
    );
    assert_eq!(run("(define id (lambda (a) a)) (id 42)"), Ok(Expr::Int(42)));
    assert_eq!(run("(lambda a a)"), Err("cannot define lambda"));
    assert_eq!(run("(lambda (a))"), Err("cannot define lambda"));
    assert_eq!(run("(lambda (a \"b\") a)"), Err("expected ident"));
}

#[test]
fn unknown_applications_become_data() {
    assert_eq!(
        run("(f 1 (+ 1 1))"),
        Ok(Expr::QuotedList(vec![
            ident("f"),
            Expr::Int(1),
            Expr::Int(2)
        ]))
    );
    assert_eq!(run("(f)"), Ok(Expr::QuotedList(vec![ident("f")])));
    assert_eq!(run("(f (+ 'a))"), Err("expected int"));
}

#[test]
fn a_bound_value_that_is_not_called_is_returned() {
    assert_eq!(run("(define x 5) (x 1 2)"), Ok(Expr::Int(5)));
    assert_eq!(
        run("(define f (a) a) (f 1 2)"),
        Ok(Expr::Fun(vec![name("a")], Box::new(ident("a"))))
    );
}

#[test]
fn built_in_names_come_before_bindings() {
    assert_eq!(run("(define list 5) (list 1)"), Ok(Expr::QuotedList(vec![Expr::Int(1)])));
    assert_eq!(run("(define add (a b) 0) (add 1 2)"), Ok(Expr::Int(3)));
}

#[test]
fn a_call_sees_the_callers_bindings_and_leaks_none() {
    assert_eq!(
        run("(define k 10) (define f (a) (+ a k)) (f 1)"),
        Ok(Expr::Int(11))
    );
    let (value, env) =
        eval(&program("(define f (a) (define inner a)) (f 1) inner")).unwrap();
    assert_eq!(value, ident("inner"));
    assert!(!env.contains_key(&name("inner")));
    assert!(!env.contains_key(&name("a")));
    assert_eq!(env.len(), 1);
}

#[test]
fn arguments_are_evaluated_from_left_to_right() {
    assert_eq!(
        run("(list (define x 1) x (define x 2) x)"),
        Ok(Expr::QuotedList(vec![
            Expr::Unit,
            Expr::Int(1),
            Expr::Unit,
            Expr::Int(2)
        ]))
    );
    assert_eq!(run("(list (+ 'a) (define))"), Err("expected int"));
    assert_eq!(
        run("(list (define) (+ 'a))"),
        Err("cannot define <empty> of value <empty>")
    );
}

#[test]
fn a_parameter_named_twice_takes_the_later_argument() {
    assert_eq!(run("(define f (a a) a) (f 1 2)"), Ok(Expr::Int(2)));
}

#[test]
fn a_program_yields_its_last_value() {
    assert_eq!(run("1 2 3"), Ok(Expr::Int(3)));
    assert_eq!(eval(&[]).map(|r| r.0), Ok(Expr::Unit));
    assert_eq!(eval(&[]).map(|r| r.1.len()), Ok(0));
}

#[test]
fn the_first_failure_ends_a_program() {
    assert_eq!(run("(+ 'a) 5"), Err("expected int"));
    assert_eq!(run("1 (if) (define)"), Err("wrongly defined if"));
}

#[test]
fn functions_are_passed_as_arguments() {
    assert_eq!(
        run("(define sub1 (lambda (z) (- z 1))) (define sub2 (z) (- z 2))
(define or (a b) (if a true (if b true false)))

(define fib (a)
  (if (or (eq? a 1) (eq? a 2))
    1
    (+ (fib (sub1 a)) (fib (sub2 a)))))

(define downto (from f)
  (if (eq? 1 from) 
      (f from)
      (append  (f from) (downto (sub1 from) f))))

(downto 7 fib)"),
        Ok(Expr::QuotedList(vec![
            Expr::Int(13),
            Expr::Int(8),
            Expr::Int(5),
            Expr::Int(3),
            Expr::Int(2),
            Expr::Int(1),
            Expr::Int(1)
        ]))
    );
}
