//! What holds of every evaluation.
use crate::env::{Bindings, Cache};
use crate::eval::{
    all_equal, all_ints, arith, bind, builtin, combine, eval_args, eval_form, eval_program,
    eval_term, fold_ints, head_of, quoted, Head, Step,
};
use crate::expr::Term;
use vstd::prelude::*;

verus! {

/// What one more operand makes of the result of a fold: the operation applied
/// to that result and the operand.
pub open spec fn extended(op: Head, sofar: Result<Term, Seq<char>>, last: int) -> Result<
    Term,
    Seq<char>,
> {
    match sofar {
        Ok(t) => match combine(op, t->Int_0, last) {
            Ok(v) => Ok(Term::Int(v)),
            Err(e) => Err(e),
        },
        Err(e) => Err(e),
    }
}

/// A fold runs from the left: one more operand at the end is combined with the
/// result of the fold over the operands before it.
pub proof fn lemma_fold_appends(op: Head, acc: int, rest: Seq<Term>, last: int)
    ensures
        fold_ints(op, acc, rest.push(Term::Int(last))) == extended(
            op,
            fold_ints(op, acc, rest),
            last,
        ),
    decreases rest.len(),
{
    let longer = rest.push(Term::Int(last));
    if rest.len() == 0 {
        assert(longer.skip(1).len() == 0);
        if let Ok(next) = combine(op, acc, last) {
            assert(fold_ints(op, next, longer.skip(1)) == Ok::<Term, Seq<char>>(Term::Int(next)));
        }
    } else {
        assert(longer[0] == rest[0]);
        assert(longer.skip(1) =~= rest.skip(1).push(Term::Int(last)));
        if let Ok(next) = combine(op, acc, rest[0]->Int_0) {
            lemma_fold_appends(op, next, rest.skip(1), last);
        }
    }
}

/// Arithmetic folds from the left, from the first operand: of one integer it
/// gives that integer, and one more integer at the end is combined with the
/// result over the integers before it.
pub proof fn lemma_arith_appends(op: Head, vals: Seq<Term>, last: int)
    requires
        vals.len() > 0,
        all_ints(vals),
    ensures
        arith(op, seq![vals[0]]) == Ok::<Term, Seq<char>>(Term::Int(vals[0]->Int_0)),
        arith(op, vals.push(Term::Int(last))) == extended(op, arith(op, vals), last),
{
    let longer = vals.push(Term::Int(last));
    assert(all_ints(longer)) by {
        assert forall|i: int| 0 <= i < longer.len() implies (#[trigger] longer[i]) is Int by {
            if i < vals.len() {
                assert(longer[i] == vals[i]);
            }
        }
    }
    assert(longer.skip(1) =~= vals.skip(1).push(Term::Int(last)));
    lemma_fold_appends(op, vals[0]->Int_0, vals.skip(1), last);
    let single = seq![vals[0]];
    assert(all_ints(single)) by {
        assert forall|i: int| 0 <= i < single.len() implies (#[trigger] single[i]) is Int by {
            assert(single[i] == vals[0]);
        }
    }
    assert(single.skip(1).len() == 0);
}

/// `if` evaluates its condition and then one branch only: what it yields does
/// not depend on the branch that is not taken.
pub proof fn lemma_if_takes_one_branch(
    head: Seq<char>,
    cond: Term,
    yes: Term,
    no: Term,
    env: Bindings,
    memo: Cache,
    depth: nat,
)
    requires
        head_of(head) == Head::If,
    ensures
        ({
            let tested = eval_term(cond, env, memo, depth);
            let whole = eval_form(head, seq![cond, yes, no], env, memo, depth);
            match tested.result {
                Ok(c) => if c == Term::Bool(true) {
                    whole == eval_term(yes, tested.env, tested.memo, depth)
                } else {
                    whole == eval_term(no, tested.env, tested.memo, depth)
                },
                Err(e) => whole == (Step::<Term> {
                    result: Err(e),
                    env: tested.env,
                    memo: tested.memo,
                }),
            }
        }),
{
}

/// `quote` evaluates nothing: it yields its argument as data and leaves the
/// environment and the cache as they are.
pub proof fn lemma_quote_is_inert(
    head: Seq<char>,
    args: Seq<Term>,
    env: Bindings,
    memo: Cache,
    depth: nat,
)
    requires
        head_of(head) == Head::Quote,
    ensures
        eval_form(head, args, env, memo, depth) == (Step::<Term> {
            result: Ok(quoted(args)),
            env,
            memo,
        }),
{
}

/// `eq?` of no arguments holds, and so does `eq?` of one.
pub proof fn lemma_eq_of_few(vals: Seq<Term>)
    requires
        vals.len() <= 1,
    ensures
        builtin(Head::Equal, vals) == Ok::<Term, Seq<char>>(Term::Bool(true)),
{
    assert(all_equal(vals));
}

/// A call whose result the cache remembers yields that result, and evaluates
/// no body: the environment and the cache stay as the evaluation of the
/// arguments left them.
pub proof fn lemma_call_hits_cache(
    head: Seq<char>,
    args: Seq<Term>,
    env: Bindings,
    memo: Cache,
    depth: nat,
)
    requires
        head_of(head) == Head::Other,
        eval_args(args, env, memo, depth).result is Ok,
        ({
            let given = eval_args(args, env, memo, depth);
            let vals = given.result->Ok_0;
            &&& given.env.contains_key(head)
            &&& given.env[head] is Fun
            &&& given.env[head]->Fun_0.len() == vals.len()
            &&& given.memo.contains_key((head, vals))
        }),
    ensures
        ({
            let given = eval_args(args, env, memo, depth);
            eval_form(head, args, env, memo, depth) == (Step::<Term> {
                result: Ok(given.memo[(head, given.result->Ok_0)]),
                env: given.env,
                memo: given.memo,
            })
        }),
{
}

/// A call that succeeds is remembered: afterwards, the cache holds a result
/// for the function's name and the values of the arguments.
pub proof fn lemma_call_is_remembered(
    head: Seq<char>,
    args: Seq<Term>,
    env: Bindings,
    memo: Cache,
    depth: nat,
)
    requires
        head_of(head) == Head::Other,
        eval_args(args, env, memo, depth).result is Ok,
        eval_form(head, args, env, memo, depth).result is Ok,
        ({
            let given = eval_args(args, env, memo, depth);
            &&& given.env.contains_key(head)
            &&& given.env[head] is Fun
            &&& given.env[head]->Fun_0.len() == given.result->Ok_0.len()
        }),
    ensures
        eval_form(head, args, env, memo, depth).memo.contains_key(
            (head, eval_args(args, env, memo, depth).result->Ok_0),
        ),
{
}

/// What a function defines stays in the function: after a call, the caller's
/// environment is as the evaluation of the arguments left it.
pub proof fn lemma_call_keeps_env(
    head: Seq<char>,
    args: Seq<Term>,
    env: Bindings,
    memo: Cache,
    depth: nat,
)
    requires
        head_of(head) == Head::Other,
    ensures
        eval_form(head, args, env, memo, depth).env == eval_args(args, env, memo, depth).env,
{
}

/// Whether `after` remembers every call that `before` remembers, with the
/// same result.
pub open spec fn keeps(before: Cache, after: Cache) -> bool {
    forall|k: (Seq<char>, Seq<Term>)| #[trigger]
        before.contains_key(k) ==> after.contains_key(k) && after[k] == before[k]
}

/// The cache only grows: evaluation never drops a remembered result, nor
/// changes one.
pub proof fn lemma_memo_grows(t: Term, env: Bindings, memo: Cache, depth: nat)
    ensures
        keeps(memo, eval_term(t, env, memo, depth).memo),
    decreases depth, t, 0nat,
{
    match t {
        Term::List(head, args) => lemma_memo_grows_form(head, args, env, memo, depth),
        _ => {},
    }
}

/// The cache only grows over the evaluation of a form.
pub proof fn lemma_memo_grows_form(
    head: Seq<char>,
    args: Seq<Term>,
    env: Bindings,
    memo: Cache,
    depth: nat,
)
    ensures
        keeps(memo, eval_form(head, args, env, memo, depth).memo),
    decreases depth, args, 1nat,
{
    match head_of(head) {
        Head::Define => {
            if args.len() == 2 && args[0] is Ident {
                lemma_memo_grows(args[1], env, memo, depth);
            }
        },
        Head::Lambda => {},
        Head::If => {
            if args.len() == 3 {
                let cond = eval_term(args[0], env, memo, depth);
                lemma_memo_grows(args[0], env, memo, depth);
                if let Ok(c) = cond.result {
                    if c == Term::Bool(true) {
                        lemma_memo_grows(args[1], cond.env, cond.memo, depth);
                    } else {
                        lemma_memo_grows(args[2], cond.env, cond.memo, depth);
                    }
                }
            }
        },
        Head::Quote => {},
        Head::Other => {
            let given = eval_args(args, env, memo, depth);
            lemma_memo_grows_args(args, env, memo, depth);
            if let Ok(vals) = given.result {
                if given.env.contains_key(head) {
                    if let Term::Fun(params, body) = given.env[head] {
                        if params.len() == vals.len() && !given.memo.contains_key((head, vals))
                            && depth > 0 {
                            lemma_memo_grows(
                                *body,
                                bind(given.env, params, vals),
                                given.memo,
                                (depth - 1) as nat,
                            );
                        }
                    }
                }
            }
        },
        _ => {
            lemma_memo_grows_args(args, env, memo, depth);
        },
    }
}

/// The cache only grows over the evaluation of arguments.
pub proof fn lemma_memo_grows_args(args: Seq<Term>, env: Bindings, memo: Cache, depth: nat)
    ensures
        keeps(memo, eval_args(args, env, memo, depth).memo),
    decreases depth, args, 0nat,
{
    if args.len() > 0 {
        let first = eval_term(args[0], env, memo, depth);
        lemma_memo_grows(args[0], env, memo, depth);
        if first.result is Ok {
            lemma_memo_grows_args(args.skip(1), first.env, first.memo, depth);
        }
    }
}

/// The cache only grows over the evaluation of a program.
pub proof fn lemma_memo_grows_program(exprs: Seq<Term>, env: Bindings, memo: Cache, depth: nat)
    ensures
        keeps(memo, eval_program(exprs, env, memo, depth).memo),
    decreases exprs.len(),
{
    if exprs.len() > 0 {
        let first = eval_term(exprs[0], env, memo, depth);
        lemma_memo_grows(exprs[0], env, memo, depth);
        if !(exprs.len() == 1 || first.result is Err) {
            lemma_memo_grows_program(exprs.skip(1), first.env, first.memo, depth);
        }
    }
}

/// Whether `after` binds every name that `before` binds.
pub open spec fn keeps_names(before: Bindings, after: Bindings) -> bool {
    forall|name: Seq<char>| #[trigger] before.contains_key(name) ==> after.contains_key(name)
}

/// Evaluation unbinds no name: what was bound before is bound afterwards.
pub proof fn lemma_env_keeps_names(t: Term, env: Bindings, memo: Cache, depth: nat)
    ensures
        keeps_names(env, eval_term(t, env, memo, depth).env),
    decreases depth, t, 0nat,
{
    match t {
        Term::List(head, args) => lemma_env_keeps_names_form(head, args, env, memo, depth),
        _ => {},
    }
}

/// The evaluation of a form unbinds no name.
pub proof fn lemma_env_keeps_names_form(
    head: Seq<char>,
    args: Seq<Term>,
    env: Bindings,
    memo: Cache,
    depth: nat,
)
    ensures
        keeps_names(env, eval_form(head, args, env, memo, depth).env),
    decreases depth, args, 1nat,
{
    match head_of(head) {
        Head::Define => {
            if args.len() == 2 && args[0] is Ident {
                lemma_env_keeps_names(args[1], env, memo, depth);
            }
        },
        Head::Lambda => {},
        Head::If => {
            if args.len() == 3 {
                let cond = eval_term(args[0], env, memo, depth);
                lemma_env_keeps_names(args[0], env, memo, depth);
                if let Ok(c) = cond.result {
                    if c == Term::Bool(true) {
                        lemma_env_keeps_names(args[1], cond.env, cond.memo, depth);
                    } else {
                        lemma_env_keeps_names(args[2], cond.env, cond.memo, depth);
                    }
                }
            }
        },
        Head::Quote => {},
        _ => {
            lemma_env_keeps_names_args(args, env, memo, depth);
        },
    }
}

/// The evaluation of arguments unbinds no name.
pub proof fn lemma_env_keeps_names_args(args: Seq<Term>, env: Bindings, memo: Cache, depth: nat)
    ensures
        keeps_names(env, eval_args(args, env, memo, depth).env),
    decreases depth, args, 0nat,
{
    if args.len() > 0 {
        let first = eval_term(args[0], env, memo, depth);
        lemma_env_keeps_names(args[0], env, memo, depth);
        if first.result is Ok {
            lemma_env_keeps_names_args(args.skip(1), first.env, first.memo, depth);
        }
    }
}

/// Whether the step failed because calls nested deeper than the bound.
pub open spec fn too_deep<A>(step: Step<A>) -> bool {
    step.result == Err::<A, Seq<char>>("call depth exceeded"@)
}

/// The bound on the depth of calls matters only where it is hit: an
/// evaluation that does not fail for want of depth yields the same with any
/// greater bound.
pub proof fn lemma_depth_steady(t: Term, env: Bindings, memo: Cache, depth: nat, more: nat)
    requires
        depth <= more,
        !too_deep(eval_term(t, env, memo, depth)),
    ensures
        eval_term(t, env, memo, more) == eval_term(t, env, memo, depth),
    decreases depth, t, 0nat,
{
    match t {
        Term::List(head, args) => lemma_depth_steady_form(head, args, env, memo, depth, more),
        _ => {},
    }
}

/// The evaluation of a form that does not fail for want of depth yields the
/// same with any greater bound.
pub proof fn lemma_depth_steady_form(
    head: Seq<char>,
    args: Seq<Term>,
    env: Bindings,
    memo: Cache,
    depth: nat,
    more: nat,
)
    requires
        depth <= more,
        !too_deep(eval_form(head, args, env, memo, depth)),
    ensures
        eval_form(head, args, env, memo, more) == eval_form(head, args, env, memo, depth),
    decreases depth, args, 1nat,
{
    match head_of(head) {
        Head::Define => {
            if args.len() == 2 && args[0] is Ident {
                lemma_depth_steady(args[1], env, memo, depth, more);
            }
        },
        Head::Lambda => {},
        Head::If => {
            if args.len() == 3 {
                let cond = eval_term(args[0], env, memo, depth);
                lemma_depth_steady(args[0], env, memo, depth, more);
                if let Ok(c) = cond.result {
                    if c == Term::Bool(true) {
                        lemma_depth_steady(args[1], cond.env, cond.memo, depth, more);
                    } else {
                        lemma_depth_steady(args[2], cond.env, cond.memo, depth, more);
                    }
                }
            }
        },
        Head::Quote => {},
        Head::Other => {
            let given = eval_args(args, env, memo, depth);
            lemma_depth_steady_args(args, env, memo, depth, more);
            if let Ok(vals) = given.result {
                if given.env.contains_key(head) {
                    if let Term::Fun(params, body) = given.env[head] {
                        if params.len() == vals.len() && !given.memo.contains_key((head, vals)) {
                            lemma_depth_steady(
                                *body,
                                bind(given.env, params, vals),
                                given.memo,
                                (depth - 1) as nat,
                                (more - 1) as nat,
                            );
                        }
                    }
                }
            }
        },
        _ => {
            lemma_depth_steady_args(args, env, memo, depth, more);
        },
    }
}

/// The evaluation of arguments that does not fail for want of depth yields
/// the same with any greater bound.
pub proof fn lemma_depth_steady_args(
    args: Seq<Term>,
    env: Bindings,
    memo: Cache,
    depth: nat,
    more: nat,
)
    requires
        depth <= more,
        !too_deep(eval_args(args, env, memo, depth)),
    ensures
        eval_args(args, env, memo, more) == eval_args(args, env, memo, depth),
    decreases depth, args, 0nat,
{
    if args.len() > 0 {
        let first = eval_term(args[0], env, memo, depth);
        lemma_depth_steady(args[0], env, memo, depth, more);
        if first.result is Ok {
            lemma_depth_steady_args(args.skip(1), first.env, first.memo, depth, more);
        }
    }
}

/// A program that does not fail for want of depth yields the same with any
/// greater bound.
pub proof fn lemma_depth_steady_program(
    exprs: Seq<Term>,
    env: Bindings,
    memo: Cache,
    depth: nat,
    more: nat,
)
    requires
        depth <= more,
        !too_deep(eval_program(exprs, env, memo, depth)),
    ensures
        eval_program(exprs, env, memo, more) == eval_program(exprs, env, memo, depth),
    decreases exprs.len(),
{
    if exprs.len() > 0 {
        let first = eval_term(exprs[0], env, memo, depth);
        lemma_depth_steady(exprs[0], env, memo, depth, more);
        if !(exprs.len() == 1 || first.result is Err) {
            lemma_depth_steady_program(exprs.skip(1), first.env, first.memo, depth, more);
        }
    }
}

/// The names of the special forms and of the built-in operations ask for
/// them, each for its own.
pub proof fn lemma_head_names()
    ensures
        head_of("define"@) == Head::Define,
        head_of("lambda"@) == Head::Lambda,
        head_of("if"@) == Head::If,
        head_of("quote"@) == Head::Quote,
        head_of("+"@) == Head::Add,
        head_of("add"@) == Head::Add,
        head_of("-"@) == Head::Sub,
        head_of("sub"@) == Head::Sub,
        head_of("/"@) == Head::Div,
        head_of("div"@) == Head::Div,
        head_of("*"@) == Head::Mul,
        head_of("mul"@) == Head::Mul,
        head_of("list"@) == Head::List,
        head_of("append"@) == Head::Append,
        head_of("eq?"@) == Head::Equal,
{
    reveal_strlit("define");
    reveal_strlit("lambda");
    reveal_strlit("if");
    reveal_strlit("quote");
    reveal_strlit("+");
    reveal_strlit("add");
    reveal_strlit("-");
    reveal_strlit("sub");
    reveal_strlit("/");
    reveal_strlit("div");
    reveal_strlit("*");
    reveal_strlit("mul");
    reveal_strlit("list");
    reveal_strlit("append");
    reveal_strlit("eq?");
    assert("define"@.len() == 6 && "lambda"@.len() == 6 && "append"@.len() == 6);
    assert("if"@.len() == 2 && "quote"@.len() == 5 && "list"@.len() == 4);
    assert("add"@.len() == 3 && "sub"@.len() == 3 && "div"@.len() == 3 && "mul"@.len() == 3
        && "eq?"@.len() == 3);
    assert("+"@.len() == 1 && "-"@.len() == 1 && "/"@.len() == 1 && "*"@.len() == 1);
    assert("define"@[0] == 'd' && "lambda"@[0] == 'l' && "append"@[0] == 'a');
    assert("quote"@[0] == 'q');
    assert("list"@[0] == 'l');
    assert("add"@[0] == 'a' && "sub"@[0] == 's' && "div"@[0] == 'd' && "mul"@[0] == 'm' && "eq?"@[0]
        == 'e');
    assert("+"@[0] == '+' && "-"@[0] == '-' && "/"@[0] == '/' && "*"@[0] == '*');
}

} // verus!
