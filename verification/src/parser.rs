//! The grammar of the language: how text becomes expressions.
use crate::expr::{lemma_list_view, terms, Expr, Term};
use crate::parser_laws::{
    lemma_all_steady, lemma_any_steady, lemma_plain_steady, lemma_run_within,
    lemma_sequence_steady, plain,
};
use crate::parser_combinators::{
    all, any, closed, data_of, datum_of, lemma_many_view, outcome, p_char, p_int, p_string,
    refl_parser, rules_of, run, run_all, run_any, spaces, Corr, Datum, Mapper, Outcome,
    ParseResult, Parser, RcParser, Rule, Value,
};
use vstd::prelude::*;

verus! {

/// The ways in which the grammar turns what it matched into an expression.
#[derive(Clone, Copy, Debug)]
pub enum Build {
    /// An integer literal.
    Int,
    /// The word between two double quotes.
    Str,
    /// The word behind a single quote.
    Symbol,
    /// A bare word.
    Ident,
    /// A head with the expressions that follow it.
    Form,
    /// A head with nothing behind it.
    Bare,
}

/// Whether every item is a value that the mapper built.
pub open spec fn all_nodes<V>(items: Seq<Datum<V>>) -> bool {
    forall|i: int| 0 <= i < items.len() ==> (#[trigger] items[i]) is Node
}

/// The values that the items hold.
pub open spec fn nodes<V>(items: Seq<Datum<V>>) -> Seq<V> {
    Seq::new(items.len(), |i: int| items[i]->Node_0)
}

/// Tells whether every item is a value that the mapper built.
fn only_nodes(items: &Vec<Value<Expr>>) -> (r: bool)
    ensures
        r == all_nodes(data_of(items@)),
{
    let mut i: usize = 0;
    while i < items.len()
        invariant
            i <= items.len(),
            forall|j: int| 0 <= j < i ==> (#[trigger] data_of(items@)[j]) is Node,
        decreases items.len() - i,
    {
        match &items[i] {
            Value::Node(_) => {},
            _ => {
                assert(!(data_of(items@)[i as int] is Node));
                return false;
            },
        }
        i += 1;
    }
    true
}

/// Takes the expressions out of parse results that all hold one.
fn take_nodes(items: Vec<Value<Expr>>) -> (r: Vec<Expr>)
    requires
        all_nodes(data_of(items@)),
    ensures
        terms(r@) == nodes(data_of(items@)),
{
    let mut out: Vec<Expr> = Vec::new();
    let ghost data = data_of(items@);
    for item in it: items
        invariant
            data == data_of(it.seq()),
            all_nodes(data),
            out.len() == it.index(),
            forall|j: int| 0 <= j < out.len() ==> out[j]@ == data[j]->Node_0,
    {
        assert(data[it.index() as int] is Node);
        match item {
            Value::Node(e) => {
                out.push(e);
            },
            _ => {},
        }
    }
    assert(terms(out@) =~= nodes(data));
    out
}

/// Whether `d` pairs a word with a repetition of built values.
pub open spec fn form_shaped<V>(d: Datum<V>) -> bool {
    match d {
        Datum::Pair(head, tail) => match (*head, *tail) {
            (Datum::Str(_), Datum::Many(items)) => all_nodes(items),
            _ => false,
        },
        _ => false,
    }
}

/// Tells whether `v` pairs a word with a repetition of built values.
fn is_form(v: &Value<Expr>) -> (r: bool)
    ensures
        r == form_shaped(v@),
{
    proof {
        reveal_with_fuel(datum_of, 3);
    }
    match v {
        Value::Pair(head, tail) => match (&**head, &**tail) {
            (Value::Str(_), Value::Many(items)) => {
                proof {
                    lemma_many_view(*items);
                }
                only_nodes(items)
            },
            _ => false,
        },
        _ => false,
    }
}

impl Mapper for Build {
    type Out = Expr;

    open spec fn mapped(&self, d: Datum<Term>) -> Datum<Term> {
        match (*self, d) {
            (Build::Int, Datum::Int(i)) => Datum::Node(Term::Int(i)),
            (Build::Str, Datum::Str(s)) => Datum::Node(Term::Str(s)),
            (Build::Symbol, Datum::Str(s)) => Datum::Node(Term::Symbol(s)),
            (Build::Ident, Datum::Str(s)) => Datum::Node(Term::Ident(s)),
            (Build::Bare, Datum::Str(s)) => Datum::Node(Term::List(s, Seq::empty())),
            (Build::Form, Datum::Pair(head, tail)) if form_shaped(d) => Datum::Node(
                Term::List(head->Str_0, nodes(tail->Many_0)),
            ),
            _ => d,
        }
    }

    fn apply(&self, v: Value<Expr>) -> (r: Value<Expr>) {
        proof {
            reveal_with_fuel(datum_of, 3);
        }
        match self {
            Build::Int => match v {
                Value::Int(i) => Value::Node(Expr::Int(i)),
                other => other,
            },
            Build::Str => match v {
                Value::Str(s) => Value::Node(Expr::Str(s)),
                other => other,
            },
            Build::Symbol => match v {
                Value::Str(s) => Value::Node(Expr::Symbol(s)),
                other => other,
            },
            Build::Ident => match v {
                Value::Str(s) => Value::Node(Expr::Ident(s)),
                other => other,
            },
            Build::Bare => match v {
                Value::Str(s) => {
                    let args: Vec<Expr> = Vec::new();
                    proof {
                        lemma_list_view(s, args);
                        assert(terms(args@) =~= Seq::<Term>::empty());
                    }
                    Value::Node(Expr::List(s, args))
                },
                other => other,
            },
            Build::Form => {
                if is_form(&v) {
                    match v {
                        Value::Pair(head, tail) => match (*head, *tail) {
                            (Value::Str(s), Value::Many(items)) => {
                                proof {
                                    lemma_many_view(items);
                                }
                                let args = take_nodes(items);
                                proof {
                                    lemma_list_view(s, args);
                                }
                                Value::Node(Expr::List(s, args))
                            },
                            (head, tail) => Value::Pair(Box::new(head), Box::new(tail)),
                        },
                        other => other,
                    }
                } else {
                    v
                }
            },
        }
    }
}

/// A word with optional whitespace on both sides, behind an opening bracket:
/// the head of a form.
pub open spec fn head_rule() -> Rule<Build> {
    Rule::Right(
        Box::new(Rule::Char('(')),
        Box::new(
            Rule::Right(
                Box::new(Rule::Spaces),
                Box::new(Rule::Left(Box::new(Rule::Word), Box::new(Rule::Spaces))),
            ),
        ),
    )
}

/// The kinds of expression, in the order in which they are tried: an integer,
/// a string between double quotes, a symbol behind a single quote, a bare
/// word, a form with arguments, and a form without.
pub open spec fn alternatives() -> Seq<Rule<Build>> {
    seq![
        Rule::Mapped(Box::new(Rule::Int), Build::Int),
        Rule::Left(
            Box::new(
                Rule::Right(
                    Box::new(Rule::Char('"')),
                    Box::new(Rule::Mapped(Box::new(Rule::Word), Build::Str)),
                ),
            ),
            Box::new(Rule::Char('"')),
        ),
        Rule::Mapped(
            Box::new(Rule::Right(Box::new(Rule::Char('\'')), Box::new(Rule::Word))),
            Build::Symbol,
        ),
        Rule::Mapped(Box::new(Rule::Word), Build::Ident),
        Rule::Left(
            Box::new(
                Rule::Mapped(
                    Box::new(
                        Rule::Both(
                            Box::new(head_rule()),
                            Box::new(
                                Rule::All(
                                    Box::new(
                                        Rule::Left(
                                            Box::new(
                                                Rule::Right(
                                                    Box::new(Rule::Spaces),
                                                    Box::new(Rule::Recur),
                                                ),
                                            ),
                                            Box::new(Rule::Spaces),
                                        ),
                                    ),
                                ),
                            ),
                        ),
                    ),
                    Build::Form,
                ),
            ),
            Box::new(Rule::Char(')')),
        ),
        Rule::Left(
            Box::new(Rule::Mapped(Box::new(head_rule()), Build::Bare)),
            Box::new(Rule::Char(')')),
        ),
    ]
}

/// One expression, with optional whitespace on both sides. `Recur` in it
/// stands for this rule itself.
pub open spec fn expr_body() -> Rule<Build> {
    Rule::Right(
        Box::new(Rule::Spaces),
        Box::new(Rule::Left(Box::new(Rule::Any(alternatives())), Box::new(Rule::Spaces))),
    )
}

/// A program: one or more expressions.
pub open spec fn program_rule() -> Rule<Build> {
    Rule::All(Box::new(Rule::Refl(Box::new(expr_body()))))
}

/// The head of a form.
fn head_parser() -> (r: RcParser<Build>)
    ensures
        r@ == head_rule(),
{
    p_char('(').right(spaces::<Build>().right(p_string::<Build>().left(spaces())))
}

/// One expression, given the parser `cell` that stands for an expression
/// nested in it.
fn expr_parser(cell: RcParser<Build>) -> (r: RcParser<Build>)
    requires
        cell@ == Rule::<Build>::Recur,
    ensures
        r@ == expr_body(),
{
    let quote_mark: RcParser<Build> = p_char('"');
    let mut kinds: Vec<RcParser<Build>> = Vec::new();
    kinds.push(p_int::<Build>().map(Build::Int));
    kinds.push(quote_mark.right(p_string::<Build>().map(Build::Str)).left(p_char('"')));
    kinds.push(p_char::<Build>('\'').right(p_string()).map(Build::Symbol));
    kinds.push(p_string::<Build>().map(Build::Ident));
    kinds.push(
        head_parser().both(all(spaces::<Build>().right(cell).left(spaces()))).map(
            Build::Form,
        ).left(p_char(')')),
    );
    kinds.push(head_parser().map(Build::Bare).left(p_char(')')));
    assert(rules_of(kinds@) =~= alternatives());
    spaces::<Build>().right(any(kinds).left(spaces()))
}

/// What the grammar makes of the text `txt`: the expressions at its start
/// and the text that is left, or the reason of the failure and the text at
/// which it failed.
pub open spec fn parsed(txt: Seq<char>) -> Result<(Seq<Term>, Seq<char>), (Seq<char>, Seq<char>)> {
    match outcome(program_rule(), txt) {
        Ok((d, rest)) => Ok((nodes(d->Many_0), rest)),
        Err(e) => Err(e),
    }
}

/// Whether the outcome, where it is a success, holds a built value.
pub open spec fn gives_node(o: Outcome<Term>) -> bool {
    match o {
        Ok((d, _)) => d is Node,
        Err(_) => true,
    }
}

/// The grammar refers to itself only inside its own definition.
pub proof fn lemma_program_closed()
    ensures
        closed(program_rule(), false),
        closed(expr_body(), true),
{
    reveal_with_fuel(closed, 8);
    let alts = alternatives();
    assert(closed(alts[0], true));
    assert(closed(alts[1], true));
    assert(closed(alts[2], true));
    assert(closed(alts[3], true));
    assert(closed(alts[4], true));
    assert(closed(alts[5], true));
    assert(closed(Rule::Any(alts), true));
}

/// Where every result of `r` is a built value, so is every item of its
/// repetition.
pub proof fn lemma_all_nodes(r: Rule<Build>, root: Option<Rule<Build>>, fuel: nat, txt: Seq<char>)
    requires
        forall|t: Seq<char>| gives_node(#[trigger] run(r, root, fuel, t)),
    ensures
        all_nodes(run_all(r, root, fuel, txt).0),
    decreases txt.len(),
{
    match run(r, root, fuel, txt) {
        Ok((v, rest)) => {
            if rest.len() < txt.len() {
                lemma_all_nodes(r, root, fuel, rest);
                let items = run_all(r, root, fuel, rest).0;
                assert forall|i: int| 0 <= i < (seq![v] + items).len() implies (#[trigger] (seq![
                    v,
                ] + items)[i]) is Node by {
                    if i > 0 {
                        assert((seq![v] + items)[i] == items[i - 1]);
                    }
                }
            }
        },
        Err(_) => {},
    }
}

/// An expression nested in a form, with the whitespace around it.
pub open spec fn nested_rule() -> Rule<Build> {
    Rule::Left(
        Box::new(Rule::Right(Box::new(Rule::Spaces), Box::new(Rule::Recur))),
        Box::new(Rule::Spaces),
    )
}

/// Whether the outcome, where it is a success, holds a word.
pub open spec fn gives_word(o: Outcome<Term>) -> bool {
    match o {
        Ok((d, _)) => d is Str,
        Err(_) => true,
    }
}

/// `Left` gives what its first parser gives.
proof fn lemma_left_gives(
    a: Rule<Build>,
    b: Rule<Build>,
    root: Option<Rule<Build>>,
    fuel: nat,
    txt: Seq<char>,
)
    ensures
        gives_node(run(a, root, fuel, txt)) ==> gives_node(
            run(Rule::Left(Box::new(a), Box::new(b)), root, fuel, txt),
        ),
        gives_word(run(a, root, fuel, txt)) ==> gives_word(
            run(Rule::Left(Box::new(a), Box::new(b)), root, fuel, txt),
        ),
{
}

/// `Right` gives what its second parser gives.
proof fn lemma_right_gives(
    a: Rule<Build>,
    b: Rule<Build>,
    root: Option<Rule<Build>>,
    fuel: nat,
    txt: Seq<char>,
)
    ensures
        (forall|u: Seq<char>| gives_node(#[trigger] run(b, root, fuel, u))) ==> gives_node(
            run(Rule::Right(Box::new(a), Box::new(b)), root, fuel, txt),
        ),
        (forall|u: Seq<char>| gives_word(#[trigger] run(b, root, fuel, u))) ==> gives_word(
            run(Rule::Right(Box::new(a), Box::new(b)), root, fuel, txt),
        ),
{
    match run(a, root, fuel, txt) {
        Ok((_, rest)) => {
            if forall|u: Seq<char>| gives_node(#[trigger] run(b, root, fuel, u)) {
                assert(gives_node(run(b, root, fuel, rest)));
            }
            if forall|u: Seq<char>| gives_word(#[trigger] run(b, root, fuel, u)) {
                assert(gives_word(run(b, root, fuel, rest)));
            }
        },
        Err(_) => {},
    }
}

/// A mapped parser that gives a word gives an expression, where the mapper
/// makes one of a word.
proof fn lemma_word_mapped(
    a: Rule<Build>,
    m: Build,
    root: Option<Rule<Build>>,
    fuel: nat,
    txt: Seq<char>,
)
    requires
        m is Str || m is Symbol || m is Ident || m is Bare,
        gives_word(run(a, root, fuel, txt)),
    ensures
        gives_node(run(Rule::Mapped(Box::new(a), m), root, fuel, txt)),
{
}

/// The head of a form is a word.
proof fn lemma_head_is_word(root: Option<Rule<Build>>, fuel: nat, txt: Seq<char>)
    ensures
        gives_word(run(head_rule(), root, fuel, txt)),
{
    let padded = Rule::Left(Box::new(Rule::<Build>::Word), Box::new(Rule::Spaces));
    let inner = Rule::Right(Box::new(Rule::Spaces), Box::new(padded));
    assert forall|u: Seq<char>| gives_word(#[trigger] run(padded, root, fuel, u)) by {
        assert(gives_word(run(Rule::<Build>::Word, root, fuel, u)));
        lemma_left_gives(Rule::Word, Rule::Spaces, root, fuel, u);
    }
    assert forall|u: Seq<char>| gives_word(#[trigger] run(inner, root, fuel, u)) by {
        lemma_right_gives(Rule::Spaces, padded, root, fuel, u);
    }
    lemma_right_gives(Rule::Char('('), inner, root, fuel, txt);
}

/// Where every alternative gives an expression where it succeeds, so does the
/// alternation.
proof fn lemma_any_gives_node(
    ps: Seq<Rule<Build>>,
    root: Option<Rule<Build>>,
    fuel: nat,
    txt: Seq<char>,
)
    requires
        forall|i: int| 0 <= i < ps.len() ==> gives_node(#[trigger] run(ps[i], root, fuel, txt)),
    ensures
        gives_node(run_any(ps, root, fuel, txt)),
    decreases ps.len(),
{
    if ps.len() > 0 {
        assert(gives_node(run(ps[0], root, fuel, txt)));
        assert forall|i: int| 0 <= i < ps.skip(1).len() implies gives_node(
            #[trigger] run(ps.skip(1)[i], root, fuel, txt),
        ) by {
            assert(ps.skip(1)[i] == ps[i + 1]);
        }
        lemma_any_gives_node(ps.skip(1), root, fuel, txt);
    }
}

/// Each kind of expression that the grammar accepts, it turns into an
/// expression, where nested expressions are.
proof fn lemma_kinds_are_nodes(fuel: nat, txt: Seq<char>)
    requires
        forall|t: Seq<char>|
            gives_node(#[trigger] run(nested_rule(), Some(expr_body()), fuel, t)),
    ensures
        gives_node(run_any(alternatives(), Some(expr_body()), fuel, txt)),
{
    let root = Some(expr_body());
    let alts = alternatives();
    assert(gives_node(run(alts[0], root, fuel, txt))) by {
        assert(gives_node(run(alts[0], root, fuel, txt)) <== (run(
            Rule::<Build>::Int,
            root,
            fuel,
            txt,
        ) matches Ok((d, _)) ==> d is Int));
    }
    assert(gives_node(run(alts[1], root, fuel, txt))) by {
        let word = Rule::Mapped(Box::new(Rule::<Build>::Word), Build::Str);
        let opened = Rule::Right(Box::new(Rule::Char('"')), Box::new(word));
        assert forall|u: Seq<char>| gives_node(#[trigger] run(word, root, fuel, u)) by {
            assert(gives_word(run(Rule::<Build>::Word, root, fuel, u)));
            lemma_word_mapped(Rule::Word, Build::Str, root, fuel, u);
        }
        lemma_right_gives(Rule::Char('"'), word, root, fuel, txt);
        lemma_left_gives(opened, Rule::Char('"'), root, fuel, txt);
    }
    assert(gives_node(run(alts[2], root, fuel, txt))) by {
        let marked = Rule::Right(Box::new(Rule::<Build>::Char('\'')), Box::new(Rule::Word));
        assert forall|u: Seq<char>| gives_word(
            #[trigger] run(Rule::<Build>::Word, root, fuel, u),
        ) by {}
        lemma_right_gives(Rule::Char('\''), Rule::Word, root, fuel, txt);
        lemma_word_mapped(marked, Build::Symbol, root, fuel, txt);
    }
    assert(gives_node(run(alts[3], root, fuel, txt))) by {
        assert(gives_word(run(Rule::<Build>::Word, root, fuel, txt)));
        lemma_word_mapped(Rule::Word, Build::Ident, root, fuel, txt);
    }
    assert(gives_node(run(alts[4], root, fuel, txt))) by {
        let items = Rule::All(Box::new(nested_rule()));
        let pair = Rule::Both(Box::new(head_rule()), Box::new(items));
        let form = Rule::Mapped(Box::new(pair), Build::Form);
        lemma_head_is_word(root, fuel, txt);
        match run(head_rule(), root, fuel, txt) {
            Ok((head, rest)) => {
                lemma_all_nodes(nested_rule(), root, fuel, rest);
                assert(run(items, root, fuel, rest) matches Ok((d, _)) ==> d is Many
                    && all_nodes(d->Many_0));
                assert(run(pair, root, fuel, txt) matches Ok((d, _)) ==> form_shaped(d));
            },
            Err(_) => {
                assert(run(pair, root, fuel, txt) is Err);
            },
        }
        assert(gives_node(run(form, root, fuel, txt)));
        lemma_left_gives(form, Rule::Char(')'), root, fuel, txt);
    }
    assert(gives_node(run(alts[5], root, fuel, txt))) by {
        let bare = Rule::Mapped(Box::new(head_rule()), Build::Bare);
        lemma_head_is_word(root, fuel, txt);
        lemma_word_mapped(head_rule(), Build::Bare, root, fuel, txt);
        lemma_left_gives(bare, Rule::Char(')'), root, fuel, txt);
    }
    lemma_any_gives_node(alts, root, fuel, txt);
}

/// Whatever the grammar accepts as an expression, it turns into an
/// expression.
pub proof fn lemma_expr_is_node(fuel: nat, txt: Seq<char>)
    ensures
        gives_node(run(expr_body(), Some(expr_body()), fuel, txt)),
    decreases fuel,
{
    let root = Some(expr_body());
    let alts = alternatives();
    assert forall|t: Seq<char>| gives_node(#[trigger] run(nested_rule(), root, fuel, t)) by {
        let inner = Rule::Right(Box::new(Rule::<Build>::Spaces), Box::new(Rule::Recur));
        assert forall|u: Seq<char>| gives_node(
            #[trigger] run(Rule::<Build>::Recur, root, fuel, u),
        ) by {
            if fuel > 0 {
                lemma_expr_is_node((fuel - 1) as nat, u);
            }
        }
        lemma_right_gives(Rule::Spaces, Rule::Recur, root, fuel, t);
        lemma_left_gives(inner, Rule::Spaces, root, fuel, t);
    }
    let kinds = Rule::Any(alts);
    let padded = Rule::Left(Box::new(kinds), Box::new(Rule::Spaces));
    assert forall|u: Seq<char>| gives_node(#[trigger] run(padded, root, fuel, u)) by {
        lemma_kinds_are_nodes(fuel, u);
        assert(run(kinds, root, fuel, u) == run_any(alts, root, fuel, u));
        lemma_left_gives(kinds, Rule::Spaces, root, fuel, u);
    }
    lemma_right_gives(Rule::Spaces, padded, root, fuel, txt);
}

/// Whatever the grammar accepts as a program, it turns into a sequence of
/// expressions.
pub proof fn lemma_program_is_nodes(txt: Seq<char>)
    ensures
        outcome(program_rule(), txt) matches Ok((d, _)) ==> d is Many && all_nodes(d->Many_0),
{
    let body = Rule::Refl(Box::new(expr_body()));
    assert forall|t: Seq<char>| gives_node(#[trigger] run(body, None, txt.len(), t)) by {
        lemma_expr_is_node(txt.len(), t);
    }
    lemma_all_nodes(body, None, txt.len(), txt);
}

/// The head of a form takes at least its opening bracket.
proof fn lemma_head_consumes(root: Option<Rule<Build>>, fuel: nat, txt: Seq<char>)
    ensures
        run(head_rule(), root, fuel, txt) matches Ok((_, rest)) ==> rest.len() < txt.len(),
{
    let padded = Rule::Left(Box::new(Rule::<Build>::Word), Box::new(Rule::Spaces));
    let inner = Rule::Right(Box::new(Rule::Spaces), Box::new(padded));
    match run(Rule::<Build>::Char('('), root, fuel, txt) {
        Ok((_, after)) => {
            assert(after.len() < txt.len());
            lemma_run_within(inner, root, fuel, after);
            assert(run(head_rule(), root, fuel, txt) == run(inner, root, fuel, after));
        },
        Err(_) => {
            assert(run(head_rule(), root, fuel, txt) is Err);
        },
    }
}

/// A nested expression is made the same of with any fuel that exceeds the
/// length of the input.
proof fn lemma_nested_steady(txt: Seq<char>, fuel1: nat, fuel2: nat)
    requires
        fuel1 > txt.len(),
        fuel2 > txt.len(),
    ensures
        run(nested_rule(), Some(expr_body()), fuel1, txt) == run(
            nested_rule(),
            Some(expr_body()),
            fuel2,
            txt,
        ),
    decreases txt.len(), 2nat,
{
    let root = Some(expr_body());
    let spaces = Rule::<Build>::Spaces;
    let inner = Rule::Right(Box::new(spaces), Box::new(Rule::Recur));
    lemma_plain_steady(spaces, root, fuel1, root, fuel2, txt);
    lemma_run_within(spaces, root, fuel1, txt);
    if let Ok((_, rest)) = run(spaces, root, fuel1, txt) {
        lemma_expr_steady(rest, (fuel1 - 1) as nat, (fuel2 - 1) as nat);
        assert(run(Rule::<Build>::Recur, root, fuel1, rest) == run(
            Rule::<Build>::Recur,
            root,
            fuel2,
            rest,
        ));
    }
    lemma_sequence_steady(spaces, Rule::Recur, root, fuel1, fuel2, txt);
    if let Ok((_, rest)) = run(inner, root, fuel1, txt) {
        lemma_plain_steady(spaces, root, fuel1, root, fuel2, rest);
    }
    lemma_sequence_steady(inner, spaces, root, fuel1, fuel2, txt);
}

/// The kinds of expression are made the same of with any fuel that is at
/// least the length of the input.
proof fn lemma_kinds_steady(txt: Seq<char>, fuel1: nat, fuel2: nat)
    requires
        fuel1 >= txt.len(),
        fuel2 >= txt.len(),
    ensures
        run_any(alternatives(), Some(expr_body()), fuel1, txt) == run_any(
            alternatives(),
            Some(expr_body()),
            fuel2,
            txt,
        ),
    decreases txt.len(), 0nat,
{
    let root = Some(expr_body());
    let alts = alternatives();
    reveal_with_fuel(plain, 6);
    lemma_plain_steady(alts[0], root, fuel1, root, fuel2, txt);
    lemma_plain_steady(alts[1], root, fuel1, root, fuel2, txt);
    lemma_plain_steady(alts[2], root, fuel1, root, fuel2, txt);
    lemma_plain_steady(alts[3], root, fuel1, root, fuel2, txt);
    lemma_plain_steady(alts[5], root, fuel1, root, fuel2, txt);
    assert(run(alts[4], root, fuel1, txt) == run(alts[4], root, fuel2, txt)) by {
        let items = Rule::All(Box::new(nested_rule()));
        let pair = Rule::Both(Box::new(head_rule()), Box::new(items));
        let form = Rule::Mapped(Box::new(pair), Build::Form);
        let close = Rule::<Build>::Char(')');
        lemma_plain_steady(head_rule(), root, fuel1, root, fuel2, txt);
        lemma_head_consumes(root, fuel1, txt);
        if let Ok((_, rest)) = run(head_rule(), root, fuel1, txt) {
            assert forall|u: Seq<char>| u.len() <= rest.len() implies #[trigger] run(
                nested_rule(),
                root,
                fuel1,
                u,
            ) == run(nested_rule(), root, fuel2, u) by {
                lemma_nested_steady(u, fuel1, fuel2);
            }
            lemma_all_steady(nested_rule(), root, fuel1, fuel2, rest);
            assert(run(items, root, fuel1, rest) == run(items, root, fuel2, rest));
        }
        lemma_sequence_steady(head_rule(), items, root, fuel1, fuel2, txt);
        assert(run(form, root, fuel1, txt) == run(form, root, fuel2, txt));
        if let Ok((_, rest)) = run(form, root, fuel1, txt) {
            lemma_plain_steady(close, root, fuel1, root, fuel2, rest);
        }
        lemma_sequence_steady(form, close, root, fuel1, fuel2, txt);
    }
    lemma_any_steady(alts, root, fuel1, fuel2, txt);
}

/// An expression is made the same of with any fuel that is at least the
/// length of the input: however deep the expression nests, the fuel that the
/// text's length gives does not run out.
pub proof fn lemma_expr_steady(txt: Seq<char>, fuel1: nat, fuel2: nat)
    requires
        fuel1 >= txt.len(),
        fuel2 >= txt.len(),
    ensures
        run(expr_body(), Some(expr_body()), fuel1, txt) == run(
            expr_body(),
            Some(expr_body()),
            fuel2,
            txt,
        ),
    decreases txt.len(), 1nat,
{
    let root = Some(expr_body());
    let spaces = Rule::<Build>::Spaces;
    let kinds = Rule::Any(alternatives());
    let padded = Rule::Left(Box::new(kinds), Box::new(spaces));
    lemma_plain_steady(spaces, root, fuel1, root, fuel2, txt);
    lemma_run_within(spaces, root, fuel1, txt);
    if let Ok((_, rest)) = run(spaces, root, fuel1, txt) {
        lemma_kinds_steady(rest, fuel1, fuel2);
        assert(run(kinds, root, fuel1, rest) == run(kinds, root, fuel2, rest));
        if let Ok((_, end)) = run(kinds, root, fuel1, rest) {
            lemma_plain_steady(spaces, root, fuel1, root, fuel2, end);
        }
        lemma_sequence_steady(kinds, spaces, root, fuel1, fuel2, rest);
    }
    lemma_sequence_steady(spaces, padded, root, fuel1, fuel2, txt);
}

/// The grammar needs no more fuel than the text is long: with any more, a
/// program is made the same of.
pub proof fn lemma_program_steady(txt: Seq<char>, fuel: nat)
    requires
        fuel >= txt.len(),
    ensures
        run(program_rule(), None, fuel, txt) == outcome(program_rule(), txt),
{
    let expr = Rule::Refl(Box::new(expr_body()));
    assert forall|u: Seq<char>| u.len() <= txt.len() implies #[trigger] run(expr, None, fuel, u)
        == run(expr, None, txt.len(), u) by {
        lemma_expr_steady(u, fuel, txt.len());
    }
    lemma_all_steady(expr, None, fuel, txt.len(), txt);
}

/// Parses the expressions at the start of `txt`, as many as there are. The
/// text behind them is handed back, not refused.
pub fn parse<'a>(txt: &'a [char]) -> (r: ParseResult<'a, Vec<Expr>>)
    ensures
        match r {
            Ok(found) => parsed(txt@) == Ok::<(Seq<Term>, Seq<char>), (Seq<char>, Seq<char>)>(
                (terms(found.res@), found.txt@),
            ),
            Err((why, at)) => parsed(txt@) == Err::<
                (Seq<Term>, Seq<char>),
                (Seq<char>, Seq<char>),
            >((why@, at@)),
        },
{
    let program = all(refl_parser(expr_parser));
    proof {
        lemma_program_closed();
        lemma_program_is_nodes(txt@);
    }
    match program.parse(txt) {
        Err(e) => Err(e),
        Ok(found) => match found.res {
            Value::Many(items) => {
                proof {
                    lemma_many_view(items);
                }
                Ok(Corr { txt: found.txt, res: take_nodes(items) })
            },
            // A program is a repetition (`lemma_program_is_nodes`): no input leads here.
            _ => Err(("parse: no program", txt)),
        },
    }
}

} // verus!
