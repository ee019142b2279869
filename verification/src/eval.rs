//! The evaluator: a tree walk that threads one environment and one
//! memoization cache through a program.
//!
//! What evaluation yields is defined on the mathematical values of
//! expressions by [`eval_term`]; the executable evaluator is proved to compute
//! exactly that.
use crate::env::{Bindings, Cache, Env, Memo};
use crate::expr::{
    clone_exprs, lemma_fun_view, lemma_list_view, lemma_quoted_view, names, terms, Expr, Term,
};
use crate::text::text_is;
use vstd::prelude::*;

verus! {

/// What the head of a form asks for.
#[derive(Clone, Copy, Debug, PartialEq, Eq, Structural)]
pub enum Head {
    /// `define`: binds a name.
    Define,
    /// `lambda`: makes a function.
    Lambda,
    /// `if`: chooses one of two branches.
    If,
    /// `quote`: gives its argument unevaluated.
    Quote,
    /// `+` or `add`.
    Add,
    /// `-` or `sub`.
    Sub,
    /// `/` or `div`.
    Div,
    /// `*` or `mul`.
    Mul,
    /// `list`: wraps the arguments.
    List,
    /// `append`: puts a value in front of a list.
    Append,
    /// `eq?`: compares the arguments.
    Equal,
    /// Any other name: a call, a bound value, or data.
    Other,
}

/// What the head `name` asks for.
pub open spec fn head_of(name: Seq<char>) -> Head {
    if name == "define"@ {
        Head::Define
    } else if name == "lambda"@ {
        Head::Lambda
    } else if name == "if"@ {
        Head::If
    } else if name == "quote"@ {
        Head::Quote
    } else if name == "+"@ || name == "add"@ {
        Head::Add
    } else if name == "-"@ || name == "sub"@ {
        Head::Sub
    } else if name == "/"@ || name == "div"@ {
        Head::Div
    } else if name == "*"@ || name == "mul"@ {
        Head::Mul
    } else if name == "list"@ {
        Head::List
    } else if name == "append"@ {
        Head::Append
    } else if name == "eq?"@ {
        Head::Equal
    } else {
        Head::Other
    }
}

/// The state after a step of evaluation, and what the step yielded: a value,
/// or the reason of a failure.
pub struct Step<A> {
    pub result: Result<A, Seq<char>>,
    pub env: Bindings,
    pub memo: Cache,
}

/// What a name evaluates to: a constant, the value it is bound to, or itself
/// where it is not bound.
pub open spec fn resolve(name: Seq<char>, env: Bindings) -> Term {
    if name == "true"@ || name == "#t"@ {
        Term::Bool(true)
    } else if name == "false"@ || name == "#f"@ {
        Term::Bool(false)
    } else if name == "unit"@ {
        Term::Unit
    } else if env.contains_key(name) {
        env[name]
    } else {
        Term::Ident(name)
    }
}

/// Whether every item is an identifier.
pub open spec fn all_idents(items: Seq<Term>) -> bool {
    forall|i: int| 0 <= i < items.len() ==> (#[trigger] items[i]) is Ident
}

/// The formal parameters that the form `(first rest...)` lists: `first`, then
/// the names in `rest`, which must all be identifiers.
pub open spec fn formals(first: Seq<char>, rest: Seq<Term>) -> Result<Seq<Seq<char>>, Seq<char>> {
    if all_idents(rest) {
        Ok(seq![first] + Seq::new(rest.len(), |i: int| rest[i]->Ident_0))
    } else {
        Err("expected ident"@)
    }
}

/// What `quote` makes of its arguments: the one argument as it stands, a form
/// among them flattened into data; or, of another number of arguments, the
/// list of them.
pub open spec fn quoted(args: Seq<Term>) -> Term {
    if args.len() == 1 {
        match args[0] {
            Term::List(head, items) => Term::QuotedList(seq![Term::Ident(head)] + items),
            other => other,
        }
    } else {
        Term::QuotedList(args)
    }
}

/// The quotient of `a` by `b`, rounded toward zero.
pub open spec fn quotient(a: int, b: int) -> int {
    if a >= 0 && b > 0 {
        a / b
    } else if a < 0 && b < 0 {
        (-a) / (-b)
    } else if a < 0 {
        -((-a) / b)
    } else {
        -(a / (-b))
    }
}

/// Whether `v` is a 64-bit signed integer.
pub open spec fn fits(v: int) -> bool {
    i64::MIN <= v <= i64::MAX
}

/// The integer `v` as the result of an operation, if it is a 64-bit integer.
pub open spec fn checked(v: int) -> Result<int, Seq<char>> {
    if fits(v) {
        Ok(v)
    } else {
        Err("integer overflow"@)
    }
}

/// One step of an arithmetic fold: addition, subtraction, multiplication, or
/// else division. It fails where the result is no 64-bit integer, or the
/// divisor is zero.
pub open spec fn combine(op: Head, a: int, b: int) -> Result<int, Seq<char>> {
    match op {
        Head::Add => checked(a + b),
        Head::Sub => checked(a - b),
        Head::Mul => checked(a * b),
        _ => if b == 0 {
            Err("division by zero"@)
        } else {
            checked(quotient(a, b))
        },
    }
}

/// The left fold of `op` over the integers `rest`, from `acc`.
pub open spec fn fold_ints(op: Head, acc: int, rest: Seq<Term>) -> Result<Term, Seq<char>>
    decreases rest.len(),
{
    if rest.len() == 0 {
        Ok(Term::Int(acc))
    } else {
        match combine(op, acc, rest[0]->Int_0) {
            Ok(next) => fold_ints(op, next, rest.skip(1)),
            Err(e) => Err(e),
        }
    }
}

/// Whether every item is an integer.
pub open spec fn all_ints(items: Seq<Term>) -> bool {
    forall|i: int| 0 <= i < items.len() ==> (#[trigger] items[i]) is Int
}

/// Arithmetic: the left fold of `op` over `vals`, with the first value as the
/// initial accumulator.
pub open spec fn arith(op: Head, vals: Seq<Term>) -> Result<Term, Seq<char>> {
    if !all_ints(vals) {
        Err("expected int"@)
    } else if vals.len() == 0 {
        Err("expected at least one parameter."@)
    } else {
        fold_ints(op, vals[0]->Int_0, vals.skip(1))
    }
}

/// What `append` makes of its arguments.
pub open spec fn appended(vals: Seq<Term>) -> Result<Term, Seq<char>> {
    if vals.len() == 2 {
        match vals[1] {
            Term::QuotedList(items) => Ok(Term::QuotedList(seq![vals[0]] + items)),
            other => Ok(Term::QuotedList(seq![vals[0], other])),
        }
    } else {
        Err("unsupported params for append"@)
    }
}

/// Whether every value equals the first.
pub open spec fn all_equal(vals: Seq<Term>) -> bool {
    forall|i: int| 0 <= i < vals.len() ==> #[trigger] vals[i] == vals[0]
}

/// What the built-in operation `op` makes of the evaluated arguments.
pub open spec fn builtin(op: Head, vals: Seq<Term>) -> Result<Term, Seq<char>> {
    match op {
        Head::List => Ok(Term::QuotedList(vals)),
        Head::Append => appended(vals),
        Head::Equal => Ok(Term::Bool(all_equal(vals))),
        _ => arith(op, vals),
    }
}

/// The environment of a call: the caller's, with each parameter bound to its
/// argument, in order.
pub open spec fn bind(env: Bindings, params: Seq<Seq<char>>, vals: Seq<Term>) -> Bindings
    decreases params.len(),
{
    if params.len() == 0 || vals.len() == 0 {
        env
    } else {
        bind(env.insert(params[0], vals[0]), params.skip(1), vals.skip(1))
    }
}

/// The cache after a call: it remembers the result, unless it remembered one
/// of that call already.
pub open spec fn remember(memo: Cache, key: (Seq<char>, Seq<Term>), v: Term) -> Cache {
    if memo.contains_key(key) {
        memo
    } else {
        memo.insert(key, v)
    }
}

/// What evaluating `t` yields. `depth` bounds how many calls of user-defined
/// functions may be nested.
pub open spec fn eval_term(t: Term, env: Bindings, memo: Cache, depth: nat) -> Step<Term>
    decreases depth, t, 0nat,
{
    match t {
        Term::Ident(name) => Step { result: Ok(resolve(name, env)), env, memo },
        Term::List(head, args) => eval_form(head, args, env, memo, depth),
        _ => Step { result: Ok(t), env, memo },
    }
}

/// What evaluating the form `(head args...)` yields.
pub open spec fn eval_form(
    head: Seq<char>,
    args: Seq<Term>,
    env: Bindings,
    memo: Cache,
    depth: nat,
) -> Step<Term>
    decreases depth, args, 1nat,
{
    match head_of(head) {
        Head::Define => {
            if args.len() == 0 {
                Step { result: Err("cannot define <empty> of value <empty>"@), env, memo }
            } else if args.len() == 2 && args[0] is Ident {
                let value = eval_term(args[1], env, memo, depth);
                match value.result {
                    Ok(v) => Step {
                        result: Ok(Term::Unit),
                        env: value.env.insert(args[0]->Ident_0, v),
                        memo: value.memo,
                    },
                    Err(e) => Step { result: Err(e), env: value.env, memo: value.memo },
                }
            } else if args.len() == 3 && args[0] is Ident && args[1] is List {
                match formals(args[1]->List_0, args[1]->List_1) {
                    Ok(params) => Step {
                        result: Ok(Term::Unit),
                        env: env.insert(args[0]->Ident_0, Term::Fun(params, Box::new(args[2]))),
                        memo,
                    },
                    Err(e) => Step { result: Err(e), env, memo },
                }
            } else {
                Step { result: Err("cannot define var/function"@), env, memo }
            }
        },
        Head::Lambda => {
            if args.len() == 2 && args[0] is List {
                match formals(args[0]->List_0, args[0]->List_1) {
                    Ok(params) => Step {
                        result: Ok(Term::Fun(params, Box::new(args[1]))),
                        env,
                        memo,
                    },
                    Err(e) => Step { result: Err(e), env, memo },
                }
            } else {
                Step { result: Err("cannot define lambda"@), env, memo }
            }
        },
        Head::If => {
            if args.len() == 3 {
                let cond = eval_term(args[0], env, memo, depth);
                match cond.result {
                    Ok(c) => if c == Term::Bool(true) {
                        eval_term(args[1], cond.env, cond.memo, depth)
                    } else {
                        eval_term(args[2], cond.env, cond.memo, depth)
                    },
                    Err(e) => Step { result: Err(e), env: cond.env, memo: cond.memo },
                }
            } else {
                Step { result: Err("wrongly defined if"@), env, memo }
            }
        },
        Head::Quote => Step { result: Ok(quoted(args)), env, memo },
        Head::Other => {
            let given = eval_args(args, env, memo, depth);
            match given.result {
                Err(e) => Step { result: Err(e), env: given.env, memo: given.memo },
                Ok(vals) => if !given.env.contains_key(head) {
                    Step {
                        result: Ok(Term::QuotedList(seq![Term::Ident(head)] + vals)),
                        env: given.env,
                        memo: given.memo,
                    }
                } else {
                    match given.env[head] {
                        Term::Fun(params, body) if params.len() == vals.len() => {
                            if given.memo.contains_key((head, vals)) {
                                Step {
                                    result: Ok(given.memo[(head, vals)]),
                                    env: given.env,
                                    memo: given.memo,
                                }
                            } else if depth == 0 {
                                Step {
                                    result: Err("call depth exceeded"@),
                                    env: given.env,
                                    memo: given.memo,
                                }
                            } else {
                                let inner = eval_term(
                                    *body,
                                    bind(given.env, params, vals),
                                    given.memo,
                                    (depth - 1) as nat,
                                );
                                match inner.result {
                                    Ok(v) => Step {
                                        result: Ok(v),
                                        env: given.env,
                                        memo: remember(inner.memo, (head, vals), v),
                                    },
                                    Err(e) => Step {
                                        result: Err(e),
                                        env: given.env,
                                        memo: inner.memo,
                                    },
                                }
                            }
                        },
                        bound => Step { result: Ok(bound), env: given.env, memo: given.memo },
                    }
                },
            }
        },
        op => {
            let given = eval_args(args, env, memo, depth);
            match given.result {
                Err(e) => Step { result: Err(e), env: given.env, memo: given.memo },
                Ok(vals) => Step { result: builtin(op, vals), env: given.env, memo: given.memo },
            }
        },
    }
}

/// What evaluating the arguments `args` from left to right yields: their
/// values, or the first failure.
pub open spec fn eval_args(args: Seq<Term>, env: Bindings, memo: Cache, depth: nat) -> Step<
    Seq<Term>,
>
    decreases depth, args, 0nat,
{
    if args.len() == 0 {
        Step { result: Ok(Seq::empty()), env, memo }
    } else {
        let first = eval_term(args[0], env, memo, depth);
        match first.result {
            Err(e) => Step { result: Err(e), env: first.env, memo: first.memo },
            Ok(v) => {
                let rest = eval_args(args.skip(1), first.env, first.memo, depth);
                match rest.result {
                    Err(e) => rest,
                    Ok(vs) => Step { result: Ok(seq![v] + vs), env: rest.env, memo: rest.memo },
                }
            },
        }
    }
}

/// What evaluating the expressions of a program in order yields: the value of
/// the last one, or the first failure. The empty program yields `Unit`.
pub open spec fn eval_program(exprs: Seq<Term>, env: Bindings, memo: Cache, depth: nat) -> Step<
    Term,
>
    decreases exprs.len(),
{
    if exprs.len() == 0 {
        Step { result: Ok(Term::Unit), env, memo }
    } else {
        let first = eval_term(exprs[0], env, memo, depth);
        if exprs.len() == 1 || first.result is Err {
            first
        } else {
            eval_program(exprs.skip(1), first.env, first.memo, depth)
        }
    }
}

/// Whether `r` is the outcome `expected`.
pub open spec fn yields(r: Result<Expr, &'static str>, expected: Result<Term, Seq<char>>) -> bool {
    match r {
        Ok(e) => expected == Ok::<Term, Seq<char>>(e@),
        Err(why) => expected == Err::<Term, Seq<char>>(why@),
    }
}

/// Whether `r`, with the state `env` and `memo`, is what the step `step` says.
pub open spec fn settles(
    r: Result<Expr, &'static str>,
    env: Bindings,
    memo: Cache,
    step: Step<Term>,
) -> bool {
    yields(r, step.result) && env == step.env && memo == step.memo
}

/// Tells what the head `name` asks for.
pub fn classify(name: &str) -> (h: Head)
    ensures
        h == head_of(name@),
{
    if text_is(name, "define") {
        Head::Define
    } else if text_is(name, "lambda") {
        Head::Lambda
    } else if text_is(name, "if") {
        Head::If
    } else if text_is(name, "quote") {
        Head::Quote
    } else if text_is(name, "+") || text_is(name, "add") {
        Head::Add
    } else if text_is(name, "-") || text_is(name, "sub") {
        Head::Sub
    } else if text_is(name, "/") || text_is(name, "div") {
        Head::Div
    } else if text_is(name, "*") || text_is(name, "mul") {
        Head::Mul
    } else if text_is(name, "list") {
        Head::List
    } else if text_is(name, "append") {
        Head::Append
    } else if text_is(name, "eq?") {
        Head::Equal
    } else {
        Head::Other
    }
}

/// Evaluates a name.
pub fn lookup(name: &String, env: &Env) -> (r: Expr)
    ensures
        r@ == resolve(name@, env@),
{
    let text = name.as_str();
    if text_is(text, "true") || text_is(text, "#t") {
        Expr::Bool(true)
    } else if text_is(text, "false") || text_is(text, "#f") {
        Expr::Bool(false)
    } else if text_is(text, "unit") {
        Expr::Unit
    } else {
        match env.get(name) {
            Some(bound) => bound.clone(),
            None => Expr::Ident(name.clone()),
        }
    }
}

/// The formal parameters that the form `(first rest...)` lists.
pub fn params_of(first: &String, rest: &Vec<Expr>) -> (r: Result<Vec<String>, &'static str>)
    ensures
        match r {
            Ok(params) => formals(first@, terms(rest@)) == Ok::<Seq<Seq<char>>, Seq<char>>(
                names(params@),
            ),
            Err(why) => formals(first@, terms(rest@)) == Err::<Seq<Seq<char>>, Seq<char>>(why@),
        },
{
    let mut params: Vec<String> = Vec::new();
    params.push(first.clone());
    let mut i: usize = 0;
    while i < rest.len()
        invariant
            i <= rest.len(),
            params.len() == i + 1,
            params[0]@ == first@,
            forall|j: int| 0 <= j < i ==> (#[trigger] terms(rest@)[j]) is Ident,
            forall|j: int| 0 <= j < i ==> params[j + 1]@ == terms(rest@)[j]->Ident_0,
        decreases rest.len() - i,
    {
        match &rest[i] {
            Expr::Ident(name) => {
                params.push(name.clone());
            },
            _ => {
                assert(!(terms(rest@)[i as int] is Ident));
                return Err("expected ident");
            },
        }
        i += 1;
    }
    assert(names(params@) =~= seq![first@] + Seq::new(
        terms(rest@).len(),
        |i: int| terms(rest@)[i]->Ident_0,
    ));
    Ok(params)
}

/// What `quote` makes of its arguments.
pub fn quote(args: &Vec<Expr>) -> (r: Expr)
    ensures
        r@ == quoted(terms(args@)),
{
    if args.len() == 1 {
        match &args[0] {
            Expr::List(head, items) => {
                let mut data = clone_exprs(items);
                data.insert(0, Expr::Ident(head.clone()));
                proof {
                    lemma_list_view(*head, *items);
                    lemma_quoted_view(data);
                    assert(terms(data@) =~= seq![Term::Ident(head@)] + terms(items@));
                }
                Expr::QuotedList(data)
            },
            other => other.clone(),
        }
    } else {
        let data = clone_exprs(args);
        proof {
            lemma_quoted_view(data);
        }
        Expr::QuotedList(data)
    }
}

/// One step of an arithmetic fold.
pub fn step(op: Head, a: i64, b: i64) -> (r: Result<i64, &'static str>)
    ensures
        match r {
            Ok(v) => combine(op, a as int, b as int) == Ok::<int, Seq<char>>(v as int),
            Err(why) => combine(op, a as int, b as int) == Err::<int, Seq<char>>(why@),
        },
{
    let v = match op {
        Head::Add => a.checked_add(b),
        Head::Sub => a.checked_sub(b),
        Head::Mul => a.checked_mul(b),
        _ => {
            if b == 0 {
                return Err("division by zero");
            }
            a.checked_div(b)
        },
    };
    match v {
        Some(v) => Ok(v),
        None => Err("integer overflow"),
    }
}

/// Arithmetic: the left fold of `op` over `vals`, from the first value.
pub fn i64_calc(op: Head, vals: &Vec<Expr>) -> (r: Result<Expr, &'static str>)
    ensures
        yields(r, arith(op, terms(vals@))),
{
    let mut i: usize = 0;
    while i < vals.len()
        invariant
            i <= vals.len(),
            forall|j: int| 0 <= j < i ==> (#[trigger] terms(vals@)[j]) is Int,
        decreases vals.len() - i,
    {
        match &vals[i] {
            Expr::Int(_) => {},
            _ => {
                assert(!(terms(vals@)[i as int] is Int));
                return Err("expected int");
            },
        }
        i += 1;
    }
    if vals.len() == 0 {
        return Err("expected at least one parameter.");
    }
    let mut acc: i64 = match &vals[0] {
        Expr::Int(v) => *v,
        _ => 0,
    };
    let ghost all = terms(vals@);
    let ghost first = acc as int;
    let mut k: usize = 1;
    assert(all.skip(1) =~= all.skip(k as int));
    while k < vals.len()
        invariant
            1 <= k <= vals.len(),
            all == terms(vals@),
            all_ints(all),
            first == all[0]->Int_0,
            fold_ints(op, first, all.skip(1)) == fold_ints(op, acc as int, all.skip(k as int)),
        decreases vals.len() - k,
    {
        let b: i64 = match &vals[k] {
            Expr::Int(v) => *v,
            _ => 0,
        };
        assert(all[k as int] is Int);
        assert(all.skip(k as int)[0] == all[k as int]);
        assert(all.skip(k as int).skip(1) =~= all.skip(k + 1));
        match step(op, acc, b) {
            Ok(v) => {
                acc = v;
            },
            Err(e) => {
                return Err(e);
            },
        }
        k += 1;
    }
    Ok(Expr::Int(acc))
}

/// What `append` makes of the evaluated arguments.
pub fn append(vals: Vec<Expr>) -> (r: Result<Expr, &'static str>)
    ensures
        yields(r, appended(terms(vals@))),
{
    let mut vals = vals;
    let ghost given = terms(vals@);
    if vals.len() != 2 {
        return Err("unsupported params for append");
    }
    let second = vals.pop().unwrap();
    let first = vals.pop().unwrap();
    assert(first@ == given[0] && second@ == given[1]);
    match second {
        Expr::QuotedList(items) => {
            let mut data = items;
            proof {
                lemma_quoted_view(items);
            }
            data.insert(0, first);
            proof {
                lemma_quoted_view(data);
                assert(terms(data@) =~= seq![first@] + terms(items@));
            }
            Ok(Expr::QuotedList(data))
        },
        other => {
            let mut data: Vec<Expr> = Vec::new();
            data.push(first);
            data.push(other);
            proof {
                lemma_quoted_view(data);
                assert(terms(data@) =~= seq![first@, other@]);
            }
            Ok(Expr::QuotedList(data))
        },
    }
}

/// Tells whether every value equals the first.
pub fn all_same(vals: &Vec<Expr>) -> (r: bool)
    ensures
        r == all_equal(terms(vals@)),
{
    let mut i: usize = 1;
    while i < vals.len()
        invariant
            1 <= i,
            forall|j: int| 1 <= j < i && j < vals.len() ==> #[trigger] terms(vals@)[j] == terms(
                vals@,
            )[0],
        decreases vals.len() - i,
    {
        if !vals[i].same(&vals[0]) {
            assert(terms(vals@)[i as int] != terms(vals@)[0]);
            return false;
        }
        i += 1;
    }
    true
}

/// What the built-in operation `op` makes of the evaluated arguments.
pub fn apply_builtin(op: Head, vals: Vec<Expr>) -> (r: Result<Expr, &'static str>)
    ensures
        yields(r, builtin(op, terms(vals@))),
{
    match op {
        Head::List => {
            proof {
                lemma_quoted_view(vals);
            }
            Ok(Expr::QuotedList(vals))
        },
        Head::Append => append(vals),
        Head::Equal => Ok(Expr::Bool(all_same(&vals))),
        _ => i64_calc(op, &vals),
    }
}

/// The environment of a call: a snapshot of the caller's, with each parameter
/// bound to its argument.
pub fn bind_params(env: &Env, params: &Vec<String>, vals: &Vec<Expr>) -> (child: Env)
    ensures
        child@ == bind(env@, names(params@), terms(vals@)),
{
    let mut child = env.clone();
    let mut i: usize = 0;
    assert(names(params@).skip(0) =~= names(params@));
    assert(terms(vals@).skip(0) =~= terms(vals@));
    while i < params.len() && i < vals.len()
        invariant
            i <= params.len(),
            i <= vals.len(),
            bind(env@, names(params@), terms(vals@)) == bind(
                child@,
                names(params@).skip(i as int),
                terms(vals@).skip(i as int),
            ),
        decreases params.len() - i,
    {
        assert(names(params@).skip(i as int).skip(1) =~= names(params@).skip(i + 1));
        assert(terms(vals@).skip(i as int).skip(1) =~= terms(vals@).skip(i + 1));
        child.insert(params[i].clone(), vals[i].clone());
        i += 1;
    }
    child
}

/// Evaluates `expr` in the environment `env`, with the cache `memo`, nesting
/// at most `depth` calls of user-defined functions.
pub fn eval_expr(expr: &Expr, env: &mut Env, memo: &mut Memo, depth: usize) -> (r: Result<
    Expr,
    &'static str,
>)
    ensures
        settles(
            r,
            final(env)@,
            final(memo)@,
            eval_term(expr@, old(env)@, old(memo)@, depth as nat),
        ),
    decreases depth, expr@, 0nat,
{
    match expr {
        Expr::Ident(name) => Ok(lookup(name, env)),
        Expr::List(head, args) => {
            proof {
                lemma_list_view(*head, *args);
            }
            eval_list(head, args, env, memo, depth)
        },
        _ => Ok(expr.clone()),
    }
}

/// Evaluates the form `(head args...)`.
pub fn eval_list(
    head: &String,
    args: &Vec<Expr>,
    env: &mut Env,
    memo: &mut Memo,
    depth: usize,
) -> (r: Result<Expr, &'static str>)
    ensures
        settles(
            r,
            final(env)@,
            final(memo)@,
            eval_form(head@, terms(args@), old(env)@, old(memo)@, depth as nat),
        ),
    decreases depth, terms(args@), 1nat,
{
    match classify(head.as_str()) {
        Head::Define => {
            if args.len() == 0 {
                Err("cannot define <empty> of value <empty>")
            } else if args.len() == 2 {
                match &args[0] {
                    Expr::Ident(name) => match eval_expr(&args[1], env, memo, depth) {
                        Ok(v) => {
                            env.insert(name.clone(), v);
                            Ok(Expr::Unit)
                        },
                        Err(e) => Err(e),
                    },
                    _ => Err("cannot define var/function"),
                }
            } else if args.len() == 3 {
                match (&args[0], &args[1]) {
                    (Expr::Ident(name), Expr::List(first, rest)) => {
                        proof {
                            lemma_list_view(*first, *rest);
                        }
                        match params_of(first, rest) {
                            Ok(params) => {
                                let body = Box::new(args[2].clone());
                                proof {
                                    lemma_fun_view(params, body);
                                }
                                env.insert(name.clone(), Expr::Fun(params, body));
                                Ok(Expr::Unit)
                            },
                            Err(e) => Err(e),
                        }
                    },
                    _ => Err("cannot define var/function"),
                }
            } else {
                Err("cannot define var/function")
            }
        },
        Head::Lambda => {
            if args.len() == 2 {
                match &args[0] {
                    Expr::List(first, rest) => {
                        proof {
                            lemma_list_view(*first, *rest);
                        }
                        match params_of(first, rest) {
                            Ok(params) => {
                                let body = Box::new(args[1].clone());
                                proof {
                                    lemma_fun_view(params, body);
                                }
                                Ok(Expr::Fun(params, body))
                            },
                            Err(e) => Err(e),
                        }
                    },
                    _ => Err("cannot define lambda"),
                }
            } else {
                Err("cannot define lambda")
            }
        },
        Head::If => {
            if args.len() == 3 {
                match eval_expr(&args[0], env, memo, depth) {
                    Ok(cond) => {
                        let holds = match cond {
                            Expr::Bool(b) => b,
                            _ => false,
                        };
                        if holds {
                            eval_expr(&args[1], env, memo, depth)
                        } else {
                            eval_expr(&args[2], env, memo, depth)
                        }
                    },
                    Err(e) => Err(e),
                }
            } else {
                Err("wrongly defined if")
            }
        },
        Head::Quote => Ok(quote(args)),
        Head::Other => {
            match eval_each(args, env, memo, depth) {
                Err(e) => Err(e),
                Ok(vals) => match env.get(head) {
                    None => {
                        let mut data = vals;
                        data.insert(0, Expr::Ident(head.clone()));
                        proof {
                            lemma_quoted_view(data);
                            assert(terms(data@) =~= seq![Term::Ident(head@)] + terms(vals@));
                        }
                        Ok(Expr::QuotedList(data))
                    },
                    Some(bound) => match bound {
                        Expr::Fun(params, body) => {
                            proof {
                                lemma_fun_view(*params, *body);
                            }
                            if params.len() == vals.len() {
                                match memo.get(head, &vals) {
                                    Some(known) => Ok(known.clone()),
                                    None => {
                                        if depth == 0 {
                                            Err("call depth exceeded")
                                        } else {
                                            let mut child = bind_params(env, params, &vals);
                                            match eval_expr(&**body, &mut child, memo, depth - 1) {
                                                Ok(v) => {
                                                    memo.insert_absent(
                                                        head.clone(),
                                                        vals,
                                                        v.clone(),
                                                    );
                                                    Ok(v)
                                                },
                                                Err(e) => Err(e),
                                            }
                                        }
                                    },
                                }
                            } else {
                                Ok(bound.clone())
                            }
                        },
                        _ => Ok(bound.clone()),
                    },
                },
            }
        },
        op => match eval_each(args, env, memo, depth) {
            Err(e) => Err(e),
            Ok(vals) => apply_builtin(op, vals),
        },
    }
}

/// Evaluates the arguments `args` from left to right, up to the first failure.
pub fn eval_each(args: &Vec<Expr>, env: &mut Env, memo: &mut Memo, depth: usize) -> (r: Result<
    Vec<Expr>,
    &'static str,
>)
    ensures
        ({
            let step = eval_args(terms(args@), old(env)@, old(memo)@, depth as nat);
            &&& final(env)@ == step.env
            &&& final(memo)@ == step.memo
            &&& match r {
                Ok(vals) => step.result == Ok::<Seq<Term>, Seq<char>>(terms(vals@)),
                Err(why) => step.result == Err::<Seq<Term>, Seq<char>>(why@),
            }
        }),
    decreases depth, terms(args@), 0nat,
{
    let ghost all = terms(args@);
    let ghost whole = eval_args(all, env@, memo@, depth as nat);
    let mut vals: Vec<Expr> = Vec::new();
    let mut i: usize = 0;
    assert(all.skip(0) =~= all);
    assert(terms(vals@) =~= Seq::<Term>::empty());
    while i < args.len()
        invariant
            i <= args.len(),
            all == terms(args@),
            whole == eval_args(all, old(env)@, old(memo)@, depth as nat),
            whole == prefixed(terms(vals@), eval_args(all.skip(i as int), env@, memo@, depth as nat)),
        decreases args.len() - i,
    {
        assert(all.skip(i as int)[0] == args[i as int]@);
        assert(all.skip(i as int).skip(1) =~= all.skip(i + 1));
        let ghost before = terms(vals@);
        match eval_expr(&args[i], env, memo, depth) {
            Ok(v) => {
                vals.push(v);
                proof {
                    let rest = eval_args(all.skip(i + 1), env@, memo@, depth as nat);
                    assert(terms(vals@) =~= before + seq![v@]);
                    if let Ok(vs) = rest.result {
                        assert(before + (seq![v@] + vs) =~= terms(vals@) + vs);
                    }
                }
            },
            Err(e) => {
                return Err(e);
            },
        }
        i += 1;
    }
    assert(terms(vals@) + Seq::<Term>::empty() =~= terms(vals@));
    Ok(vals)
}

/// The step `rest`, with the values `done` in front of the values it yields.
pub open spec fn prefixed(done: Seq<Term>, rest: Step<Seq<Term>>) -> Step<Seq<Term>> {
    match rest.result {
        Ok(vs) => Step { result: Ok(done + vs), env: rest.env, memo: rest.memo },
        Err(e) => rest,
    }
}

/// Evaluates the expressions of a program in order, in an environment and
/// with a cache that start empty. The result is the value of the last
/// expression with the environment that the program leaves, or the first
/// failure.
pub fn eval(exprs: &[Expr]) -> (r: Result<(Expr, Env), &'static str>)
    ensures
        ({
            let step = eval_program(
                terms(exprs@),
                Map::<Seq<char>, Term>::empty(),
                Map::<(Seq<char>, Seq<Term>), Term>::empty(),
                usize::MAX as nat,
            );
            match r {
                Ok((value, env)) => step.result == Ok::<Term, Seq<char>>(value@) && env@
                    == step.env,
                Err(why) => step.result == Err::<Term, Seq<char>>(why@),
            }
        }),
{
    let mut env = Env::new();
    let mut memo = Memo::new();
    let mut last = Expr::Unit;
    let ghost all = terms(exprs@);
    let ghost whole = eval_program(all, Map::empty(), Map::empty(), usize::MAX as nat);
    let mut i: usize = 0;
    assert(all.skip(0) =~= all);
    while i < exprs.len()
        invariant
            i <= exprs.len(),
            all == terms(exprs@),
            whole == eval_program(all, Map::empty(), Map::empty(), usize::MAX as nat),
            i == 0 ==> last@ == Term::Unit && env@ == Map::<Seq<char>, Term>::empty() && memo@
                == Map::<(Seq<char>, Seq<Term>), Term>::empty(),
            i > 0 ==> whole == (if i == exprs.len() {
                Step { result: Ok(last@), env: env@, memo: memo@ }
            } else {
                eval_program(all.skip(i as int), env@, memo@, usize::MAX as nat)
            }),
        decreases exprs.len() - i,
    {
        assert(all.skip(i as int)[0] == exprs[i as int]@);
        assert(all.skip(i as int).skip(1) =~= all.skip(i + 1));
        match eval_expr(&exprs[i], &mut env, &mut memo, usize::MAX) {
            Ok(v) => {
                last = v;
            },
            Err(e) => {
                return Err(e);
            },
        }
        i += 1;
    }
    Ok((last, env))
}

} // verus!
